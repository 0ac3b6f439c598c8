use tapecore::linker::engine::{rewrite_code, FramedSite};
use tapecore::linker::layout::{Body, Decoded, Flow, Operand};
use tapecore::linker::resolve::FuncRef;
use tapecore::linker::LinkError;

fn func(blob: Vec<u8>, calls: Vec<(u32, usize)>) -> FuncRef {
    FuncRef {
        name: "f".to_string(),
        blob,
        debug: None,
        calls,
        bound: Vec::new(),
        table: Vec::new(),
        table_fixups: Vec::new(),
        signature: None,
        origin: 0,
    }
}

fn instr(addr: u32, len: u32, flow: Flow, opcode: u8, operand: Operand) -> Decoded {
    Decoded { addr, len, body: Body::Instr { flow, opcode, operand } }
}

/// `ent; call <bound>; jmp.s 0; stp`.
fn sample(jump_target: u32) -> (Vec<u8>, Vec<Decoded>) {
    let blob = vec![0x0E, 0x20, 0, 0, 0, 0, 0x30, 0xF8, 0x02];
    let decoded = vec![
        instr(0, 1, Flow::FallThrough, 0x0E, Operand::Other),
        instr(1, 5, Flow::Call, 0x20, Operand::RelTarget(0)),
        instr(6, 2, Flow::Jump, 0x30, Operand::RelTarget(jump_target)),
        instr(8, 1, Flow::Stop, 0x02, Operand::Other),
    ];
    (blob, decoded)
}

#[test]
fn a_framed_bound_call_widens_and_later_offsets_shift() {
    let (blob, decoded) = sample(0);
    let (nb, nc, ns) = rewrite_code(&func(blob, Vec::new()), &decoded, &[(1, 3, false)], 0x50).unwrap();
    assert_eq!(nb, vec![0x0E, 0x50, 0, 0, 0, 0, 0, 0, 0, 0, 0x30, 0xF4, 0x02]);
    assert_eq!(nc, vec![(2, 3)]);
    assert_eq!(ns, vec![FramedSite::Bound { addr: 1 }]);
}

#[test]
fn a_collapsed_bound_call_stays_a_relocated_call() {
    let (blob, decoded) = sample(0);
    let (nb, nc, ns) = rewrite_code(&func(blob.clone(), Vec::new()), &decoded, &[(1, 3, true)], 0x50).unwrap();
    assert_eq!(nb, blob);
    assert_eq!(nc, vec![(2, 3)]);
    assert!(ns.is_empty());
}

#[test]
fn a_hand_written_framed_call_is_listed_by_its_descriptor() {
    let blob = vec![0x0E, 0x40, 0, 0, 0, 0, 0, 0, 0, 0];
    let decoded = vec![
        instr(0, 1, Flow::FallThrough, 0x0E, Operand::Other),
        instr(1, 9, Flow::Call, 0x40, Operand::FramedCall { table: 7 }),
    ];
    let (nb, nc, ns) = rewrite_code(&func(blob.clone(), vec![(2, 5)]), &decoded, &[], 0x50).unwrap();
    assert_eq!(nb, blob);
    assert_eq!(nc, vec![(2, 5)]);
    assert_eq!(ns, vec![FramedSite::Raw { table_off: 7 }]);
    assert_eq!(
        rewrite_code(&func(blob, Vec::new()), &decoded, &[], 0x50),
        Err(LinkError::MalformedBlob { symbol: "f".to_string(), at: 2 })
    );
}

#[test]
fn a_short_jump_pushed_out_of_reach_is_malformed() {
    let (blob, decoded) = sample(200);
    assert_eq!(
        rewrite_code(&func(blob, Vec::new()), &decoded, &[(1, 3, false)], 0x50),
        Err(LinkError::MalformedBlob { symbol: "f".to_string(), at: 6 })
    );
}
