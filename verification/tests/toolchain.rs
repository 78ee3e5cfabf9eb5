use malachite_bigint::BigInt;
use rpaheui::cli::Opt;
use rpaheui::engine::RunError;
use rpaheui::error::CompileError;
use rpaheui::ir::{BinOp, Instr, Op, Origin, Program};
use rpaheui::passes::optimize;
use rpaheui::semantics::Fault;
use rpaheui::{Aheui, Object};

fn chain(ops: Vec<Op>) -> Program {
    let n = ops.len();
    let mut instrs = Vec::new();
    for (i, op) in ops.into_iter().enumerate() {
        let next = match op {
            Op::Halt => i,
            _ => (i + 1) % n,
        };
        instrs.push(Instr { op, next, origin: None });
    }
    Program::new(instrs, 0).unwrap()
}

fn fault(r: Result<BigInt, RunError>) -> Fault {
    match r {
        Err(RunError::Failed(f, _, _)) => f,
        other => panic!("no fault: {:?}", other),
    }
}

fn run_with(object: &Object, input: &[u8]) -> (Result<BigInt, RunError>, Vec<u8>) {
    let mut aheui = Aheui::new();
    aheui.set_input(input.to_vec());
    aheui.set_budget(100_000);
    let r = aheui.run(object);
    (r, aheui.take_output())
}

#[test]
fn test_asm() {
    let mut aheui = Aheui::new();
    let object = aheui.compile("반받망희").unwrap();
    let text = aheui.make_asm(&object, false).unwrap();
    println!("{}", text);
    assert!(text.contains("PUSH 2"));
    assert!(text.contains("PUSH 3"));
    assert!(text.contains("POPNUM"));
    assert!(text.contains("HALT"));

    let object2 = aheui.compile_asm(&text).expect("recompilation failed");
    let text2 = aheui.make_asm(&object2, false).unwrap();
    assert_eq!(text, text2);
    let exit_code = aheui.run(&object);
    assert_eq!(exit_code.unwrap(), BigInt::from(2));
}

#[test]
fn test_bytecode() {
    let mut aheui = Aheui::new();
    let object = aheui.compile("반망희");
    let bytecode = aheui.make_bytecode(&object.unwrap()).unwrap();

    let object2 = aheui.load_bytecode(&bytecode).unwrap();
    let bytecode2 = aheui.make_bytecode(&object2).unwrap();
    assert_eq!(bytecode, bytecode2);
    let exit_code = aheui.run(&object2);
    assert_eq!(exit_code.unwrap(), BigInt::from(0));
}

#[test]
fn level_one_leaves_the_operative_instructions_in_order() {
    let mut aheui = Aheui::new();
    let object = aheui.compile("반받망희").unwrap();
    let text = aheui.make_asm(&object, false).unwrap();
    assert_eq!(text, "PUSH 2\nPUSH 3\nPOPNUM\nHALT\n");
    let (r, out) = run_with(&object, b"");
    assert_eq!(r.unwrap(), BigInt::from(2));
    assert_eq!(out, b"3");
}

#[test]
fn level_zero_keeps_every_cell_and_direction() {
    let mut aheui = Aheui::new();
    aheui.set_level(Opt::O0);
    let object = aheui.compile("반받망희").unwrap();
    assert_eq!(object.program().len(), 32);
    let commented = aheui.make_asm(&object, true).unwrap();
    assert!(commented.starts_with("PUSH 2 -> 8 ; 0:0 반\n"));
    let plain = aheui.make_asm(&object, false).unwrap();
    assert!(plain.starts_with("PUSH 2 -> 8\n"));
    let again = aheui.compile_asm(&commented).unwrap();
    assert_eq!(aheui.make_asm(&again, false).unwrap(), plain);
}

#[test]
fn all_levels_behave_alike() {
    let sources = ["반받망희", "반망희", "밤밣따망희", "바반나망희", "밯망희", "방빠망망희", "반\n망\n희"];
    for src in sources {
        let mut seen: Vec<(Result<BigInt, RunError>, Vec<u8>)> = Vec::new();
        for level in [Opt::O0, Opt::O1, Opt::O2] {
            let mut aheui = Aheui::new();
            aheui.set_level(level);
            let object = aheui.compile(src).unwrap();
            seen.push(run_with(&object, "7 가".as_bytes()));
        }
        assert_eq!(seen[0], seen[1]);
        assert_eq!(seen[1], seen[2]);
    }
}

#[test]
fn level_two_folds_constants_and_merges_push_with_pop() {
    let p = chain(vec![
        Op::Push(BigInt::from(2)),
        Op::Push(BigInt::from(3)),
        Op::Binary(BinOp::Mul),
        Op::Push(BigInt::from(4)),
        Op::Binary(BinOp::Add),
        Op::Push(BigInt::from(9)),
        Op::Pop,
        Op::PopNum,
        Op::Halt,
    ]);
    let q = optimize(&p, Opt::O2);
    let mut aheui = Aheui::new();
    let text = aheui.make_asm(&Object::new(q), false).unwrap();
    assert_eq!(text, "PUSH 10\nPOPNUM\nHALT\n");
}

#[test]
fn level_two_does_not_fold_a_division_by_zero() {
    let p = chain(vec![
        Op::Push(BigInt::from(5)),
        Op::PopNum,
        Op::Push(BigInt::from(1)),
        Op::Push(BigInt::from(0)),
        Op::Binary(BinOp::Div),
        Op::Halt,
    ]);
    for level in [Opt::O0, Opt::O1, Opt::O2] {
        let q = Object::new(optimize(&p, level));
        let (r, out) = run_with(&q, b"");
        assert_eq!(fault(r), Fault::DivisionByZero);
        assert_eq!(out, b"5");
    }
}

#[test]
fn level_two_leaves_queue_programs_unfolded() {
    let p = chain(vec![
        Op::Select(21),
        Op::Push(BigInt::from(1)),
        Op::Push(BigInt::from(2)),
        Op::Push(BigInt::from(3)),
        Op::Binary(BinOp::Sub),
        Op::PopNum,
        Op::Halt,
    ]);
    let q = Object::new(optimize(&p, Opt::O2));
    assert_eq!(q.program().len(), 7);
    let (r, out) = run_with(&q, b"");
    assert_eq!(out, b"3");
    assert_eq!(r.unwrap(), BigInt::from(1));
}

#[test]
fn unreachable_instructions_are_removed() {
    let instrs = vec![
        Instr { op: Op::Nop, next: 2, origin: None },
        Instr { op: Op::Push(BigInt::from(1)), next: 1, origin: None },
        Instr { op: Op::Nop, next: 3, origin: None },
        Instr { op: Op::Halt, next: 3, origin: None },
    ];
    let p = Program::new(instrs, 0).unwrap();
    let q = optimize(&p, Opt::O1);
    assert_eq!(q.len(), 1);
    assert_eq!(q.entry(), 0);
    assert!(matches!(q.instr(0).op, Op::Halt));
}

#[test]
fn entry_line_round_trips() {
    let instrs = vec![
        Instr { op: Op::Halt, next: 0, origin: None },
        Instr { op: Op::Push(BigInt::from(-12)), next: 0, origin: Some(Origin { row: 3, col: 4, ch: 10 }) },
    ];
    let p = Object::new(Program::new(instrs, 1).unwrap());
    let mut aheui = Aheui::new();
    let text = aheui.make_asm(&p, false).unwrap();
    assert_eq!(text, "ENTRY 1\nHALT\nPUSH -12 -> 0\n");
    let commented = aheui.make_asm(&p, true).unwrap();
    assert_eq!(commented, "ENTRY 1\nHALT\nPUSH -12 -> 0 ; 3:4\n");
    let q = aheui.compile_asm(&text).unwrap();
    assert_eq!(q.program().entry(), 1);
    assert_eq!(aheui.make_asm(&q, false).unwrap(), text);
    let (r, _) = run_with(&q, b"");
    assert_eq!(r.unwrap(), BigInt::from(-12));
}

#[test]
fn jump_is_a_no_operation_with_a_successor() {
    let mut aheui = Aheui::new();
    let q = aheui.compile_asm("JMP 2\nPUSH 1 -> 1\nPUSH 5 ; five\nHALT").unwrap();
    assert_eq!(aheui.make_asm(&q, false).unwrap(), "JMP 2\nPUSH 1 -> 1\nPUSH 5\nHALT\n");
    let (r, _) = run_with(&q, b"");
    assert_eq!(r.unwrap(), BigInt::from(5));
}

#[test]
fn invalid_text_is_a_compile_error() {
    let mut aheui = Aheui::new();
    assert_eq!(aheui.compile_bytes(&[0xEB, 0xB0, 0x98, 0xFF]).unwrap_err(), CompileError::InvalidEncoding(3));
    assert_eq!(aheui.compile_bytes(&[0xC0, 0x80]).unwrap_err(), CompileError::InvalidEncoding(0));
    assert_eq!(aheui.load_bytecode(b"PUSH 1").unwrap_err(), CompileError::MissingMarker);
    assert_eq!(aheui.compile_asm("PUSH 1 2\nHALT").unwrap_err(), CompileError::BadOperand(0));
    assert_eq!(aheui.compile_asm("PUSH 1\nBRZ 7\nHALT").unwrap_err(), CompileError::BadTarget(1));
    assert_eq!(aheui.compile_asm("ENTRY 9\nHALT").unwrap_err(), CompileError::BadTarget(0));
}

#[test]
fn budget_cuts_a_run_without_end() {
    let mut aheui = Aheui::new();
    let object = aheui.compile("방").unwrap();
    aheui.set_budget(50);
    aheui.set_input(b"1 2 3".to_vec());
    assert_eq!(fault(aheui.run(&object)), Fault::UnexpectedEof);
    let spin = aheui.compile("아").unwrap();
    assert_eq!(aheui.run(&spin).unwrap_err(), RunError::OutOfSteps);
}

#[test]
fn reads_numbers_and_characters() {
    let mut aheui = Aheui::new();
    let object = aheui.compile("방밯망망희").unwrap();
    let (r, out) = run_with(&object, "  -42가".as_bytes());
    assert_eq!(out, "44032-42".as_bytes());
    assert_eq!(r.unwrap(), BigInt::from(0));
    let (r, out) = run_with(&object, b"x");
    assert_eq!(fault(r), Fault::MalformedInput);
    assert_eq!(out, b"");
    let (r, _) = run_with(&object, b"12");
    assert_eq!(fault(r), Fault::UnexpectedEof);
    let (r, _) = run_with(&object, &[b'1', 0xFF]);
    assert_eq!(fault(r), Fault::MalformedInput);
    let _ = aheui.take_output();
}

#[test]
fn writes_characters_as_utf8() {
    let p = Object::new(chain(vec![
        Op::Push(BigInt::from(0xD76C)),
        Op::PopChar,
        Op::Push(BigInt::from(0x1F600)),
        Op::PopChar,
        Op::Push(BigInt::from(0xE9)),
        Op::PopChar,
        Op::Push(BigInt::from(0xD800)),
        Op::PopChar,
        Op::Halt,
    ]));
    let (r, out) = run_with(&p, b"");
    assert_eq!(out, "희\u{1F600}é".as_bytes());
    assert_eq!(fault(r), Fault::InvalidCharacter);
}

#[test]
fn storages_hand_values_back_by_kind() {
    let order = |id: u8| {
        let p = Object::new(chain(vec![
            Op::Select(id),
            Op::Push(BigInt::from(5)),
            Op::Push(BigInt::from(2)),
            Op::Push(BigInt::from(9)),
            Op::PopNum,
            Op::PopNum,
            Op::PopNum,
            Op::Halt,
        ]));
        run_with(&p, b"").1
    };
    assert_eq!(order(0), b"925");
    assert_eq!(order(21), b"529");
    assert_eq!(order(27), b"259");
}

#[test]
fn arithmetic_is_exact_and_rounds_towards_zero() {
    let eval = |a: i64, b: i64, op: BinOp| {
        let p = Object::new(chain(vec![Op::Push(BigInt::from(a)), Op::Push(BigInt::from(b)), Op::Binary(op), Op::Halt]));
        run_with(&p, b"").0.unwrap()
    };
    assert_eq!(eval(7, 2, BinOp::Div), BigInt::from(3));
    assert_eq!(eval(-7, 2, BinOp::Div), BigInt::from(-3));
    assert_eq!(eval(-7, 2, BinOp::Mod), BigInt::from(-1));
    assert_eq!(eval(7, -2, BinOp::Mod), BigInt::from(1));
    assert_eq!(eval(3, 5, BinOp::Sub), BigInt::from(-2));
    assert_eq!(eval(3, 5, BinOp::Cmp), BigInt::from(0));
    assert_eq!(eval(5, 5, BinOp::Cmp), BigInt::from(1));
    let big = i64::MAX;
    assert_eq!(eval(big, big, BinOp::Mul), BigInt::from(big) * BigInt::from(big));
    assert_eq!(eval(big, 1, BinOp::Add), BigInt::from(big) + BigInt::from(1));
}

#[test]
fn move_swap_dup_and_branch() {
    let p = Object::new(chain(vec![
        Op::Push(BigInt::from(1)),
        Op::Push(BigInt::from(2)),
        Op::Swap,
        Op::Dup,
        Op::Move(21),
        Op::PopNum,
        Op::PopNum,
        Op::Select(21),
        Op::PopNum,
        Op::Pop,
        Op::Halt,
    ]));
    let (r, out) = run_with(&p, b"");
    assert_eq!(out, b"121");
    assert_eq!(fault(r), Fault::EmptyStorage);
    let branch = |v: i64| {
        let instrs = vec![
            Instr { op: Op::Push(BigInt::from(v)), next: 1, origin: None },
            Instr { op: Op::Brz(3), next: 2, origin: None },
            Instr { op: Op::Push(BigInt::from(10)), next: 4, origin: None },
            Instr { op: Op::Push(BigInt::from(20)), next: 4, origin: None },
            Instr { op: Op::Halt, next: 4, origin: None },
        ];
        run_with(&Object::new(Program::new(instrs, 0).unwrap()), b"").0.unwrap()
    };
    assert_eq!(branch(0), BigInt::from(20));
    assert_eq!(branch(4), BigInt::from(10));
}

#[test]
fn the_cursor_is_reflected_at_the_edge() {
    let mut aheui = Aheui::new();
    aheui.set_level(Opt::O0);
    let object = aheui.compile("희반").unwrap();
    let (r, _) = run_with(&object, b"");
    assert_eq!(r.unwrap(), BigInt::from(0));
    let object = aheui.compile("어희\n반").unwrap();
    let (r, _) = run_with(&object, b"");
    assert_eq!(r.unwrap(), BigInt::from(0));
    let object = aheui.compile("\u{BCFB}\n희").unwrap();
    let (r, _) = run_with(&object, b"");
    assert_eq!(r.unwrap(), BigInt::from(3));
    let object = aheui.compile("우희\n반").unwrap();
    let (r, _) = run_with(&object, b"");
    assert_eq!(r.unwrap_err(), RunError::OutOfSteps);
}

#[test]
fn program_new_rejects_bad_links() {
    assert!(Program::new(vec![Instr { op: Op::Nop, next: 1, origin: None }], 0).is_none());
    assert!(Program::new(vec![Instr { op: Op::Halt, next: 0, origin: None }], 1).is_none());
    assert!(Program::new(vec![Instr { op: Op::Select(28), next: 0, origin: None }], 0).is_none());
    assert!(Program::new(vec![Instr { op: Op::Brz(2), next: 0, origin: None }], 0).is_none());
    assert!(Program::new(vec![Instr { op: Op::Nop, next: 0, origin: None }], 0).is_some());
}

#[test]
fn object_clone_is_the_same_program() {
    let mut aheui = Aheui::default();
    let object = aheui.compile("반받망희").unwrap();
    let copy = object.clone();
    assert_eq!(aheui.make_bytecode(&object).unwrap(), aheui.make_bytecode(&copy).unwrap());
}

#[test]
fn a_failure_names_the_instruction_and_its_cell() {
    let mut aheui = Aheui::new();
    aheui.set_level(Opt::O0);
    let object = aheui.compile("반바나희").unwrap();
    let r = aheui.run(&object);
    assert_eq!(
        r.unwrap_err(),
        RunError::Failed(Fault::DivisionByZero, 16, Some(Origin { row: 0, col: 2, ch: 0xB098 }))
    );
    assert_eq!(aheui.take_output(), b"");
}

#[test]
fn level_two_folds_where_a_stack_is_active_for_certain() {
    let p = chain(vec![
        Op::Push(BigInt::from(2)),
        Op::Push(BigInt::from(3)),
        Op::Binary(BinOp::Mul),
        Op::PopNum,
        Op::Select(21),
        Op::Push(BigInt::from(1)),
        Op::Push(BigInt::from(2)),
        Op::Binary(BinOp::Add),
        Op::PopNum,
        Op::Select(3),
        Op::Push(BigInt::from(7)),
        Op::Push(BigInt::from(5)),
        Op::Binary(BinOp::Sub),
        Op::PopNum,
        Op::Halt,
    ]);
    let q = Object::new(optimize(&p, Opt::O2));
    let mut aheui = Aheui::new();
    let text = aheui.make_asm(&q, false).unwrap();
    assert_eq!(
        text,
        "PUSH 6\nPOPNUM\nSELECT 21\nPUSH 1\nPUSH 2\nADD\nPOPNUM\nSELECT 3\nPUSH 2\nPOPNUM\nHALT\n"
    );
    let (r, out) = run_with(&q, b"");
    let (r0, out0) = run_with(&Object::new(p), b"");
    assert_eq!(out, b"632");
    assert_eq!((r, out), (r0, out0));
}

#[test]
fn level_two_does_not_fold_in_a_loop_that_a_queue_enters() {
    let instrs = vec![
        Instr { op: Op::Push(BigInt::from(1)), next: 1, origin: None },
        Instr { op: Op::Push(BigInt::from(2)), next: 2, origin: None },
        Instr { op: Op::Binary(BinOp::Add), next: 3, origin: None },
        Instr { op: Op::PopNum, next: 4, origin: None },
        Instr { op: Op::PushNum, next: 5, origin: None },
        Instr { op: Op::Brz(7), next: 6, origin: None },
        Instr { op: Op::Select(21), next: 0, origin: None },
        Instr { op: Op::Halt, next: 7, origin: None },
    ];
    let p = Program::new(instrs, 0).unwrap();
    let q = Object::new(optimize(&p, Opt::O2));
    assert_eq!(q.program().len(), 8);
    let (r, out) = run_with(&q, b"1 0");
    let (r0, out0) = run_with(&Object::new(p), b"1 0");
    assert_eq!(out, b"33");
    assert_eq!((r, out), (r0, out0));
}

#[test]
fn a_large_sparse_grid_is_optimized_quickly() {
    let mut src = String::new();
    for r in 0..80 {
        for c in 0..80 {
            src.push(if r == 40 && c == 79 { '희' } else if r == 0 && c == 79 { '우' } else if c % 9 == 0 && r == 0 { '반' } else { 'ㅇ' });
        }
        src.push('\n');
    }
    let mut seen = Vec::new();
    for level in [Opt::O0, Opt::O1, Opt::O2] {
        let mut aheui = Aheui::new();
        aheui.set_level(level);
        let object = aheui.compile(&src).unwrap();
        if level == Opt::O0 {
            assert_eq!(object.program().len(), 81 * 80 * 8);
        } else {
            assert_eq!(object.program().len(), 10);
        }
        seen.push(run_with(&object, b""));
    }
    assert_eq!(seen[0].0.clone().unwrap(), BigInt::from(2));
    assert_eq!(seen[0], seen[1]);
    assert_eq!(seen[1], seen[2]);
}
