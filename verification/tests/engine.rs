use malachite_bigint::BigInt;
use rpaheui::assembly::{emit_assembly, parse_assembly};
use rpaheui::bytecode::{decode_bytecode, emit_bytecode};
use rpaheui::error::CompileError;
use rpaheui::grid::{decode_grid, decode_text};
use rpaheui::ir::{BinOp, Instr, Op, Program};
use rpaheui::semantics::Fault;
use rpaheui::vm::{Machine, Status};

fn grid(src: &str) -> Program {
    let cps = decode_text(src.as_bytes()).unwrap();
    decode_grid(&cps).unwrap()
}

fn linear(ops: Vec<Op>) -> Program {
    let n = ops.len();
    let mut instrs = Vec::new();
    for (i, op) in ops.into_iter().enumerate() {
        let next = match op {
            Op::Halt => i,
            _ => (i + 1) % n,
        };
        instrs.push(Instr { op, next, origin: None });
    }
    Program::new(instrs, 0).unwrap()
}

fn halted(s: &Status) -> BigInt {
    match s {
        Status::Halted(v) => v.clone(),
        other => panic!("not halted: {:?}", other),
    }
}

#[test]
fn grid_program_runs_and_halts_with_top_value() {
    let p = grid("반받망희");
    assert_eq!(p.len(), 4 * 8);
    let mut m = Machine::new(p, Vec::new());
    let s = m.run(100);
    assert_eq!(halted(&s), BigInt::from(2));
    assert_eq!(m.output().as_slice(), b"3");
}

#[test]
fn halt_on_empty_storage_gives_zero() {
    let p = grid("반망희");
    let mut m = Machine::new(p, Vec::new());
    let s = m.run(100);
    assert_eq!(halted(&s), BigInt::from(0));
    assert_eq!(m.output().as_slice(), b"2");
}

#[test]
fn division_by_zero_fails_and_keeps_output() {
    let p = linear(vec![
        Op::Push(BigInt::from(7)),
        Op::PopNum,
        Op::Push(BigInt::from(1)),
        Op::Push(BigInt::from(0)),
        Op::Binary(BinOp::Div),
        Op::Halt,
    ]);
    let mut m = Machine::new(p, Vec::new());
    let s = m.run(100);
    assert!(matches!(s, Status::Failed(Fault::DivisionByZero)));
    assert_eq!(m.output().as_slice(), b"7");
}

#[test]
fn bytecode_round_trip_is_exact() {
    let p = linear(vec![
        Op::Push(BigInt::from(-300)),
        Op::Push("123456789012345678901234567890".parse::<BigInt>().unwrap()),
        Op::Binary(BinOp::Mul),
        Op::Select(21),
        Op::Move(27),
        Op::Brz(0),
        Op::PopNum,
        Op::Halt,
    ]);
    let bytes = emit_bytecode(&p);
    assert_eq!(&bytes[..4], &[255, 255, 255, 255]);
    let q = decode_bytecode(&bytes).unwrap();
    assert_eq!(emit_bytecode(&q), bytes);
    assert_eq!(q.len(), p.len());
}

#[test]
fn bytecode_without_marker_is_rejected() {
    assert_eq!(decode_bytecode(&[1, 2, 3]).unwrap_err(), CompileError::MissingMarker);
    assert_eq!(decode_bytecode(&[255, 255, 255, 255, 1]).unwrap_err(), CompileError::Malformed);
}

#[test]
fn assembly_round_trip_is_exact() {
    let p = linear(vec![
        Op::Push(BigInt::from(-300)),
        Op::Push(BigInt::from(3)),
        Op::Binary(BinOp::Sub),
        Op::Select(21),
        Op::Brz(0),
        Op::Nop,
        Op::PopNum,
        Op::Halt,
    ]);
    let text = emit_assembly(&p, false);
    let s = String::from_utf8(text.clone()).unwrap();
    assert_eq!(s, "PUSH -300\nPUSH 3\nSUB\nSELECT 21\nBRZ 0\nNOP\nPOPNUM\nHALT\n");
    let q = parse_assembly(&text).unwrap();
    assert_eq!(emit_assembly(&q, false), text);
}

#[test]
fn assembly_errors_name_the_line() {
    assert_eq!(parse_assembly(b"PUSH 1\nFROB\n").unwrap_err(), CompileError::UnknownMnemonic(1));
    assert_eq!(parse_assembly(b"PUSH\nHALT\n").unwrap_err(), CompileError::BadOperand(0));
    assert_eq!(parse_assembly(b"SELECT 28\nHALT\n").unwrap_err(), CompileError::BadStorage(0));
    assert_eq!(parse_assembly(b"PUSH 1\n").unwrap_err(), CompileError::BadTarget(0));
    assert_eq!(parse_assembly(b"").unwrap_err(), CompileError::Empty);
}

fn run_text(src: &str, input: &[u8]) -> (Status, Vec<u8>) {
    let mut m = Machine::new(grid(src), input.to_vec());
    let s = m.run(10_000);
    (s, m.output().clone())
}

#[test]
fn bytecode_bytes_are_as_specified() {
    let p = linear(vec![Op::Push(BigInt::from(-3)), Op::Push(BigInt::from(300)), Op::Select(21), Op::Brz(0), Op::Halt]);
    let bytes = emit_bytecode(&p);
    assert_eq!(
        bytes,
        vec![255, 255, 255, 255, 5, 0, 7, 5, 1, 7, 0xD8, 4, 2, 9, 21, 3, 14, 0, 4, 18]
    );
    assert_eq!(decode_bytecode(&bytes[..bytes.len() - 1]).unwrap_err(), CompileError::Malformed);
    let mut longer = bytes.clone();
    longer.push(11);
    assert_eq!(decode_bytecode(&longer).unwrap_err(), CompileError::Malformed);
    let mut unknown = bytes.clone();
    unknown[19] = 99;
    assert_eq!(decode_bytecode(&unknown).unwrap_err(), CompileError::Malformed);
}

#[test]
fn tail_consonants_give_their_stroke_counts() {
    let cases = [("바", "0"), ("박", "2"), ("밖", "4"), ("반", "2"), ("받", "3"), ("발", "5"), ("밝", "7"), ("밟", "9"), ("밣", "8"), ("밤", "4"), ("밦", "6"), ("밧", "2"), ("밨", "4"), ("밪", "3"), ("밫", "4"), ("밬", "3"), ("밭", "4"), ("밮", "4")];
    for (syllable, value) in cases {
        let src = format!("{}망희", syllable);
        let (s, out) = run_text(&src, b"");
        assert_eq!(out, value.as_bytes());
        assert_eq!(halted(&s), BigInt::from(0));
    }
}

#[test]
fn the_cursor_moves_in_two_dimensions() {
    let (s, out) = run_text("밤우\n희망", b"");
    assert_eq!(out, b"4");
    assert_eq!(halted(&s), BigInt::from(0));
    let (s, out) = run_text("뱌받망희", b"");
    assert_eq!(out, b"0");
    assert_eq!(halted(&s), BigInt::from(0));
    let (s, _) = run_text("반a b받희", b"");
    assert_eq!(halted(&s), BigInt::from(3));
    let (s, _) = run_text("\u{BD84}\n우\n\u{BD87}\n희", b"");
    assert_eq!(halted(&s), BigInt::from(3));
}

#[test]
fn a_branch_turns_round_on_zero() {
    let (s, out) = run_text("우반망희\n반추\n아받망희", b"");
    assert_eq!(out, b"3");
    assert_eq!(halted(&s), BigInt::from(0));
    let (s, out) = run_text("우반망희\n바추\n아받망희", b"");
    assert_eq!(out, b"2");
    assert_eq!(halted(&s), BigInt::from(0));
}

#[test]
fn decode_text_finds_the_first_bad_sequence() {
    assert_eq!(decode_text("가a\n".as_bytes()).unwrap(), vec![0xAC00, 97, 10]);
    assert_eq!(decode_text(&[97, 0xED, 0xA0, 0x80]).unwrap_err(), CompileError::InvalidEncoding(1));
    assert_eq!(decode_text(&[0xF4, 0x90, 0x80, 0x80]).unwrap_err(), CompileError::InvalidEncoding(0));
    assert_eq!(decode_text(&[0xE0, 0x80, 0x80]).unwrap_err(), CompileError::InvalidEncoding(0));
    assert_eq!(decode_text(&[0xF0, 0x9F, 0x98]).unwrap_err(), CompileError::InvalidEncoding(0));
    assert_eq!(decode_text("\u{1F600}".as_bytes()).unwrap(), vec![0x1F600]);
}
