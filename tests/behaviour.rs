use brain_fuck_parser::{
    parse, parse_bf, run, Effect, Fault, Machine, Node, NumberedNode, ParseError, SimOperation,
    Stop,
};

const HELLO: &str = "++++++++[>++++[>++>+++>+++>+<<<<-]>+>+>->>+[<]<-]>>.>---.+++++++..+++.>>.<-.<.+++.------.--------.>>+.>++.";

fn run_source_optimized(src: &str, input: &[u8]) -> (Vec<u8>, Vec<u8>, Stop) {
    let code = parse_bf(src).compile_bytecode();
    let r = run(&code, &input.to_vec(), 64, 1_000_000);
    (r.machine.tape, r.output, r.stop)
}

fn run_source_unoptimized(src: &str, input: &[u8]) -> (Vec<u8>, Vec<u8>, Stop) {
    let code = parse(src).unwrap().compile_bytecode();
    let r = run(&code, &input.to_vec(), 64, 1_000_000);
    (r.machine.tape, r.output, r.stop)
}

#[test]
fn unmatched_close_is_reported_at_its_position() {
    assert_eq!(parse("]"), Err(ParseError::UnmatchedClose(0)));
    assert_eq!(parse("[]]+"), Err(ParseError::UnmatchedClose(2)));
    assert_eq!(parse("+[-]]]"), Err(ParseError::UnmatchedClose(4)));
}

#[test]
fn unmatched_open_is_reported() {
    assert_eq!(parse("["), Err(ParseError::UnmatchedOpen));
    assert_eq!(parse("+[[-]"), Err(ParseError::UnmatchedOpen));
}

#[test]
fn parse_keeps_one_node_per_character() {
    assert_eq!(
        parse("é+[a>]"),
        Ok(Node::Root(vec![
            Node::Comment,
            Node::Inc(1),
            Node::Loop(vec![Node::Comment, Node::IncTapePos(1)]),
        ]))
    );
    assert_eq!(parse(""), Ok(Node::Root(vec![])));
}

#[test]
fn increments_merge_modulo_256() {
    let bf = Node::Root(vec![Node::Inc(200), Node::Inc(100)]).optimize_series();
    assert_eq!(bf, Node::Root(vec![Node::Inc(44)]));
    let bf = Node::Root(vec![Node::Dec(255), Node::Dec(1)]).optimize_series();
    assert_eq!(bf, Node::Root(vec![Node::Dec(0)]));
    let src = "+".repeat(257);
    assert_eq!(parse_bf(&src), Node::Root(vec![Node::Inc(1)]));
}

#[test]
fn cursor_moves_that_would_overflow_stay_apart() {
    let bf = Node::Root(vec![Node::IncTapePos(usize::MAX), Node::IncTapePos(1)]).optimize_series();
    assert_eq!(bf, Node::Root(vec![Node::IncTapePos(usize::MAX), Node::IncTapePos(1)]));
    let bf = Node::Root(vec![Node::DecTapePos(usize::MAX - 1), Node::DecTapePos(1)]).optimize_series();
    assert_eq!(bf, Node::Root(vec![Node::DecTapePos(usize::MAX)]));
}

#[test]
fn filler_does_not_change_the_optimized_tree() {
    assert_eq!(parse_bf("a+b[c-d]e>f"), parse_bf("+[-]>"));
    assert_eq!(parse_bf("x[y>z+w<v-]u"), parse_bf("[>+<-]"));
    assert_eq!(parse_bf("note: [.] then [+]"), parse_bf("[.][+]"));
}

#[test]
fn loop_after_empty_loop_collapses_as_without_it() {
    assert_eq!(parse_bf("[][+]"), parse_bf("[+]"));
    assert_eq!(parse_bf("+[][.]"), parse_bf("+[.]"));
    assert_eq!(parse_bf("[-][][+]"), parse_bf("[-][+]"));
}

#[test]
fn numbering_twice_gives_the_same_ids() {
    let bf = parse_bf("+[>[-]<[.]],[>+<-]");
    let mut once = NumberedNode::from(&bf);
    let n1 = NumberedNode::numerize(&mut once);
    let mut twice = NumberedNode::from(&bf);
    NumberedNode::numerize(&mut twice);
    let n2 = NumberedNode::numerize(&mut twice);
    assert_eq!(n1, n2);
    assert_eq!(once, twice);
}

#[test]
fn loop_bodies_are_numbered_after_their_level() {
    let bf = parse_bf("[.[,]]+");
    assert_eq!(
        bf.compile_bytecode(),
        vec![
            SimOperation::JnzSaveIP { target_ip: 3 },
            SimOperation::Inc(1),
            SimOperation::EndProgram,
            SimOperation::PutChar,
            SimOperation::JnzSaveIP { target_ip: 6 },
            SimOperation::JnzRestoreIP { target_ip: 3 },
            SimOperation::GetChar,
            SimOperation::JnzRestoreIP { target_ip: 6 },
        ]
    );
}

#[test]
fn hello_world_prints() {
    let (_, out, stop) = run_source_optimized(HELLO, &[]);
    assert_eq!(stop, Stop::Halted);
    assert_eq!(out, b"Hello World!\n".to_vec());
}

#[test]
fn optimized_and_unoptimized_programs_agree() {
    for src in [HELLO, "++++[>+++<-]>[<++>-]<.", "+++++[>++<-]>>,[<+>-]<.", "++>+++[<->-]<[.-]"] {
        assert_eq!(run_source_optimized(src, b"A"), run_source_unoptimized(src, b"A"));
    }
}

#[test]
fn add_to_the_right_and_clear_moves_the_value() {
    let code = vec![
        SimOperation::Inc(7),
        SimOperation::AddToTheRightAndClear(2),
        SimOperation::EndProgram,
    ];
    let r = run(&code, &vec![], 4, 100);
    assert_eq!(r.stop, Stop::Halted);
    assert_eq!(r.machine.tape, vec![0, 0, 7, 0]);
}

#[test]
fn left_variants_apply_only_to_a_nonzero_cell() {
    let code = vec![SimOperation::AddToTheLeftAndClear(1), SimOperation::EndProgram];
    let r = run(&code, &vec![], 4, 100);
    assert_eq!(r.stop, Stop::Halted);
    let code = vec![SimOperation::Inc(1), SimOperation::DecFromTheLeftAndClear(1), SimOperation::EndProgram];
    let r = run(&code, &vec![], 4, 100);
    assert_eq!(r.stop, Stop::Faulted(Fault::TapeOutOfBounds));
    let code = vec![
        SimOperation::IncTapePos(1),
        SimOperation::Inc(3),
        SimOperation::DecFromTheLeftAndClear(1),
        SimOperation::EndProgram,
    ];
    let r = run(&code, &vec![], 4, 100);
    assert_eq!(r.machine.tape, vec![253, 0, 0, 0]);
}

#[test]
fn right_variants_apply_even_to_a_zero_cell() {
    let code = vec![SimOperation::AddToTheRightAndClear(9), SimOperation::EndProgram];
    let r = run(&code, &vec![], 4, 100);
    assert_eq!(r.stop, Stop::Faulted(Fault::TapeOutOfBounds));
}

#[test]
fn cursor_leaving_the_tape_faults() {
    let r = run(&vec![SimOperation::DecTapePos(1)], &vec![], 4, 100);
    assert_eq!(r.stop, Stop::Faulted(Fault::TapeOutOfBounds));
    assert_eq!(r.machine.ip, 0);
    let r = run(&vec![SimOperation::IncTapePos(4)], &vec![], 4, 100);
    assert_eq!(r.stop, Stop::Faulted(Fault::TapeOutOfBounds));
    let r = run(&vec![SimOperation::Inc(1), SimOperation::IncTapePosUntilEmpty], &vec![], 1, 100);
    assert_eq!(r.stop, Stop::Faulted(Fault::TapeOutOfBounds));
}

#[test]
fn running_past_the_code_faults() {
    let r = run(&vec![SimOperation::Noop], &vec![], 4, 100);
    assert_eq!(r.stop, Stop::Faulted(Fault::NoInstruction));
}

#[test]
fn input_feeds_get_char_and_runs_out() {
    let code = parse_bf(",.,.,.").compile_bytecode();
    let r = run(&code, &b"hi".to_vec(), 4, 100);
    assert_eq!(r.output, b"hi".to_vec());
    assert_eq!(r.stop, Stop::InputExhausted);
}

#[test]
fn step_budget_stops_an_endless_loop() {
    let code = parse("+[]").unwrap().compile_bytecode();
    let r = run(&code, &vec![], 4, 50);
    assert_eq!(r.stop, Stop::OutOfSteps);
}

#[test]
fn an_empty_loop_is_dropped_by_optimization() {
    let code = parse_bf("+[]").compile_bytecode();
    let r = run(&code, &vec![], 4, 50);
    assert_eq!(r.stop, Stop::Halted);
}

#[test]
fn step_asks_for_input_and_restore_returns() {
    let code = parse_bf("+[,]").compile_bytecode();
    let mut m = Machine::new(2);
    assert_eq!(m.step(&code, None), Effect::Continue);
    assert_eq!(m.step(&code, None), Effect::Continue);
    assert_eq!(m.stack, vec![2]);
    assert_eq!(m.step(&code, None), Effect::NeedInput);
    assert_eq!(m.step(&code, Some(0)), Effect::Read);
    assert_eq!(m.step(&code, None), Effect::Continue);
    assert_eq!(m.ip, 2);
    assert_eq!(m.step(&code, None), Effect::Halt);
}

#[test]
fn until_empty_scans_stop_on_zero() {
    let code = parse_bf("+>+>+>>+<<<<[>]>[<]").compile_bytecode();
    let r = run(&code, &vec![], 8, 100);
    assert_eq!(r.stop, Stop::Halted);
    assert_eq!(r.machine.cursor, 3);
}

#[test]
fn can_compile_rejects_comments_and_wide_operands() {
    assert!(parse_bf("+[->+<]").can_compile());
    assert!(!Node::Root(vec![Node::Comment]).can_compile());
    assert!(!Node::Root(vec![Node::Loop(vec![Node::Root(vec![])])]).can_compile());
    assert!(!Node::Root(vec![Node::IncTapePos(u32::MAX as usize + 1)]).can_compile());
    assert!(Node::Root(vec![Node::IncTapePos(u32::MAX as usize)]).can_compile());
}

#[test]
fn clone_copies_the_whole_tree() {
    let bf = parse_bf("+[>[-]<[.]],");
    assert_eq!(bf.clone(), bf);
}

#[test]
fn numbered_tree_clone_is_equal() {
    let mut t = NumberedNode::from(&parse_bf("+[-.]>"));
    NumberedNode::numerize(&mut t);
    assert_eq!(t.clone(), t);
}
