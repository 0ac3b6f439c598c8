use tapecore::linker::layout::{build, Body, Decoded, Flow, Operand, Piece};
use tapecore::linker::resolve::FuncRef;
use tapecore::linker::LinkError;

const ENT: u8 = 0x0E;
const CALL: u8 = 0x20;
const CALL_S: u8 = 0x21;
const JMP_S: u8 = 0x30;
const RET: u8 = 0x02;

fn func(name: &str, blob: Vec<u8>, calls: Vec<(u32, usize)>) -> FuncRef {
    FuncRef {
        name: name.to_string(),
        blob,
        debug: None,
        calls,
        bound: Vec::new(),
        table: Vec::new(),
        table_fixups: Vec::new(),
        signature: None,
        origin: 0,
    }
}

fn instr(addr: u32, len: u32, flow: Flow, opcode: u8, operand: Operand) -> Decoded {
    Decoded { addr, len, body: Body::Instr { flow, opcode, operand } }
}

/// `main: ent; call sub; jmp.s main+1; ret` and `sub: ent; ret`.
fn program(jump_target: u32) -> (Vec<FuncRef>, Vec<Vec<Decoded>>) {
    let main = func("main", vec![ENT, CALL, 0, 0, 0, 0, JMP_S, 0xFB, RET], vec![(2, 1)]);
    let sub = func("sub", vec![ENT, RET], Vec::new());
    let decoded = vec![
        vec![
            instr(0, 1, Flow::FallThrough, ENT, Operand::Other),
            instr(1, 5, Flow::Call, CALL, Operand::RelTarget(0)),
            instr(6, 2, Flow::Jump, JMP_S, Operand::RelTarget(jump_target)),
            instr(8, 1, Flow::Stop, RET, Operand::Other),
        ],
        vec![instr(0, 1, Flow::FallThrough, ENT, Operand::Other), instr(1, 1, Flow::Stop, RET, Operand::Other)],
    ];
    (vec![main, sub], decoded)
}

#[test]
fn links_two_functions_with_a_relaxed_call() {
    let (order, decoded) = program(1);
    let b = build(&order, &decoded, ENT, &[(CALL, CALL_S)], true).unwrap();
    assert_eq!(b.widths, vec![vec![false, true, false, false], vec![false, false]]);
    assert_eq!(b.bases, vec![0, 6]);
    assert_eq!(b.code, vec![ENT, CALL_S, 0x03, JMP_S, 0xFC, RET, ENT, RET]);
    assert_eq!((b.relaxed_calls, b.far_calls), (1, 0));
    assert_eq!(b.pieces[0][1], Piece::CallSite { orig: 1, callee: 1 });
}

#[test]
fn without_relaxation_calls_stay_far() {
    let (order, decoded) = program(1);
    let b = build(&order, &decoded, ENT, &[(CALL, CALL_S)], false).unwrap();
    assert_eq!(b.bases, vec![0, 9]);
    assert_eq!(b.code, vec![ENT, CALL, 0x03, 0, 0, 0, JMP_S, 0xF9, RET, ENT, RET]);
    assert_eq!((b.relaxed_calls, b.far_calls), (0, 1));
}

#[test]
fn a_jump_into_an_instruction_is_malformed() {
    let (order, decoded) = program(3);
    assert_eq!(
        build(&order, &decoded, ENT, &[(CALL, CALL_S)], true).err(),
        Some(LinkError::MalformedBlob { symbol: "main".to_string(), at: 6 })
    );
}

#[test]
fn a_blob_without_its_entry_is_malformed_at_zero() {
    let (mut order, decoded) = program(1);
    order[1].blob[0] = RET;
    assert_eq!(
        build(&order, &decoded, ENT, &[(CALL, CALL_S)], true).err(),
        Some(LinkError::MalformedBlob { symbol: "sub".to_string(), at: 0 })
    );
}
