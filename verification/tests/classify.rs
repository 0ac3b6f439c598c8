use tapecore::linker::layout::{classify, Body, Decoded, Flow, Operand, Piece};
use tapecore::linker::resolve::FuncRef;
use tapecore::linker::LinkError;

const ENT: u8 = 0x0E;

fn func(blob: Vec<u8>, calls: Vec<(u32, usize)>) -> FuncRef {
    FuncRef {
        name: "f".to_string(),
        blob,
        debug: None,
        calls,
        bound: Vec::new(),
        table: Vec::new(),
        table_fixups: Vec::new(),
        signature: None,
        origin: 0,
    }
}

fn instr(addr: u32, len: u32, flow: Flow, opcode: u8, operand: Operand) -> Decoded {
    Decoded { addr, len, body: Body::Instr { flow, opcode, operand } }
}

fn malformed(at: u32) -> Result<Vec<Piece>, LinkError> {
    Err(LinkError::MalformedBlob { symbol: "f".to_string(), at })
}

/// `ent; call <hole>; jmp.s +0; stp` decoded.
fn sample() -> (Vec<u8>, Vec<Decoded>) {
    let blob = vec![ENT, 0x20, 0, 0, 0, 0, 0x30, 0x00, 0x02];
    let decoded = vec![
        instr(0, 1, Flow::FallThrough, ENT, Operand::Other),
        instr(1, 5, Flow::Call, 0x20, Operand::RelTarget(0)),
        instr(6, 2, Flow::Jump, 0x30, Operand::RelTarget(8)),
        instr(8, 1, Flow::Stop, 0x02, Operand::Other),
    ];
    (blob, decoded)
}

#[test]
fn a_blob_splits_into_copied_bytes_calls_and_jumps() {
    let (blob, decoded) = sample();
    let f = func(blob, vec![(2, 1)]);
    assert_eq!(
        classify(ENT, &f, &decoded),
        Ok(vec![
            Piece::Verbatim { orig: 0, bytes: vec![ENT] },
            Piece::CallSite { orig: 1, callee: 1 },
            Piece::Jump { orig: 6, opcode: 0x30, width: 1, orig_target: 8 },
            Piece::Verbatim { orig: 8, bytes: vec![0x02] },
        ])
    );
}

#[test]
fn a_relocated_jump_is_a_tail_call() {
    let (blob, decoded) = sample();
    let f = func(blob, vec![(2, 1), (7, 2)]);
    let pieces = classify(ENT, &f, &decoded).unwrap();
    assert_eq!(pieces[2], Piece::CallSite { orig: 6, callee: 2 });
}

#[test]
fn a_blob_not_opening_with_the_entry_is_refused_at_zero() {
    let (mut blob, decoded) = sample();
    blob[0] = 0x01;
    assert_eq!(classify(ENT, &func(blob, vec![(2, 1)]), &decoded), malformed(0));
    assert_eq!(classify(ENT, &func(Vec::new(), Vec::new()), &[]), malformed(0));
}

#[test]
fn a_call_without_a_relocation_is_refused_at_its_hole() {
    let (blob, decoded) = sample();
    assert_eq!(classify(ENT, &func(blob, Vec::new()), &decoded), malformed(2));
}

#[test]
fn a_relocated_branch_is_refused_at_its_hole() {
    let (blob, mut decoded) = sample();
    decoded[2] = instr(6, 2, Flow::Branch, 0x31, Operand::RelTarget(8));
    assert_eq!(classify(ENT, &func(blob, vec![(2, 1), (7, 1)]), &decoded), malformed(7));
}

#[test]
fn undecodable_bytes_are_refused_where_they_start() {
    let (blob, mut decoded) = sample();
    decoded[3] = Decoded { addr: 8, len: 1, body: Body::Raw };
    assert_eq!(classify(ENT, &func(blob, vec![(2, 1)]), &decoded), malformed(8));
}

#[test]
fn a_relocation_no_call_consumes_is_refused_at_its_offset() {
    let (blob, decoded) = sample();
    assert_eq!(classify(ENT, &func(blob, vec![(2, 1), (4, 1), (8, 0)]), &decoded), malformed(4));
}

#[test]
fn a_framed_call_keeps_its_callee() {
    let blob = vec![ENT, 0x40, 0, 0, 0, 0, 0, 0, 0, 0];
    let decoded = vec![
        instr(0, 1, Flow::FallThrough, ENT, Operand::Other),
        instr(1, 9, Flow::Call, 0x40, Operand::FramedCall { table: 0 }),
    ];
    assert_eq!(
        classify(ENT, &func(blob.clone(), vec![(2, 3)]), &decoded),
        Ok(vec![Piece::Verbatim { orig: 0, bytes: vec![ENT] }, Piece::FramedCall { orig: 1, callee: 3 }])
    );
    assert_eq!(classify(ENT, &func(blob, Vec::new()), &decoded), malformed(2));
}
