use brain_fuck_parser::{parse_bf, Node, NumberedNode, SimOperation};

#[test]
fn numerization_test() {
    let bf = parse_bf("-+<>[-]+[>]-[<].,[+]");
    let mut numerized_zeroed = NumberedNode::from(&bf);
    assert_eq!(
        &NumberedNode::Root(vec![
            NumberedNode::Operation { id: 0, data: SimOperation::Dec(1) },
            NumberedNode::Operation { id: 0, data: SimOperation::Inc(1) },
            NumberedNode::Operation { id: 0, data: SimOperation::DecTapePos(1) },
            NumberedNode::Operation { id: 0, data: SimOperation::IncTapePos(1) },
            NumberedNode::Operation { id: 0, data: SimOperation::Clear },
            NumberedNode::Operation { id: 0, data: SimOperation::Inc(1) },
            NumberedNode::Operation { id: 0, data: SimOperation::IncTapePosUntilEmpty },
            NumberedNode::Operation { id: 0, data: SimOperation::Dec(1) },
            NumberedNode::Operation { id: 0, data: SimOperation::DecTapePosUntilEmpty },
            NumberedNode::Operation { id: 0, data: SimOperation::PutChar },
            NumberedNode::Operation { id: 0, data: SimOperation::GetChar },
            NumberedNode::Operation { id: 0, data: SimOperation::Clear },
            NumberedNode::Operation { id: 0, data: SimOperation::EndProgram },
        ]),
        &numerized_zeroed
    );

    NumberedNode::numerize(&mut numerized_zeroed);
    let numerized = numerized_zeroed;
    assert_eq!(
        NumberedNode::Root(vec![
            NumberedNode::Operation { id: 0, data: SimOperation::Dec(1) },
            NumberedNode::Operation { id: 1, data: SimOperation::Inc(1) },
            NumberedNode::Operation { id: 2, data: SimOperation::DecTapePos(1) },
            NumberedNode::Operation { id: 3, data: SimOperation::IncTapePos(1) },
            NumberedNode::Operation { id: 4, data: SimOperation::Clear },
            NumberedNode::Operation { id: 5, data: SimOperation::Inc(1) },
            NumberedNode::Operation { id: 6, data: SimOperation::IncTapePosUntilEmpty },
            NumberedNode::Operation { id: 7, data: SimOperation::Dec(1) },
            NumberedNode::Operation { id: 8, data: SimOperation::DecTapePosUntilEmpty },
            NumberedNode::Operation { id: 9, data: SimOperation::PutChar },
            NumberedNode::Operation { id: 10, data: SimOperation::GetChar },
            NumberedNode::Operation { id: 11, data: SimOperation::Clear },
            NumberedNode::Operation { id: 12, data: SimOperation::EndProgram },
        ]),
        numerized
    );
}

#[test]
fn linearization_test() {
    let bf = parse_bf("++[->>]");
    let linearized = bf.compile_bytecode();
    assert_eq!(
        vec![
            SimOperation::Inc(2),
            SimOperation::JnzSaveIP { target_ip: 3 },
            SimOperation::EndProgram,
            SimOperation::Dec(1),
            SimOperation::IncTapePos(2),
            SimOperation::JnzRestoreIP { target_ip: 3 }
        ],
        linearized
    );

    let bf = parse_bf("-+<>[-][>][<][+]");
    let linearized = bf.compile_bytecode();
    assert_eq!(
        vec![
            SimOperation::Dec(1),
            SimOperation::Inc(1),
            SimOperation::DecTapePos(1),
            SimOperation::IncTapePos(1),
            SimOperation::Clear,
            SimOperation::EndProgram
        ],
        linearized
    );

    let bf = parse_bf("-+<>[->+<]");
    let linearized = bf.compile_bytecode();
    assert_eq!(
        vec![
            SimOperation::Dec(1),
            SimOperation::Inc(1),
            SimOperation::DecTapePos(1),
            SimOperation::IncTapePos(1),
            SimOperation::AddToTheRightAndClear(1),
            SimOperation::EndProgram
        ],
        linearized
    );

    let bf = parse_bf("-+<>[>+<-]");
    let linearized = bf.compile_bytecode();
    assert_eq!(
        vec![
            SimOperation::Dec(1),
            SimOperation::Inc(1),
            SimOperation::DecTapePos(1),
            SimOperation::IncTapePos(1),
            SimOperation::AddToTheRightAndClear(1),
            SimOperation::EndProgram
        ],
        linearized
    );

    let bf = parse_bf("-+<>[->-<]");
    let linearized = bf.compile_bytecode();
    assert_eq!(
        vec![
            SimOperation::Dec(1),
            SimOperation::Inc(1),
            SimOperation::DecTapePos(1),
            SimOperation::IncTapePos(1),
            SimOperation::DecFromTheRightAndClear(1),
            SimOperation::EndProgram
        ],
        linearized
    );

    let bf = parse_bf("-+<>[>-<-]");
    let linearized = bf.compile_bytecode();
    assert_eq!(
        vec![
            SimOperation::Dec(1),
            SimOperation::Inc(1),
            SimOperation::DecTapePos(1),
            SimOperation::IncTapePos(1),
            SimOperation::DecFromTheRightAndClear(1),
            SimOperation::EndProgram
        ],
        linearized
    );

    let bf = parse_bf("-+<>[<+>-]");
    let linearized = bf.compile_bytecode();
    assert_eq!(
        vec![
            SimOperation::Dec(1),
            SimOperation::Inc(1),
            SimOperation::DecTapePos(1),
            SimOperation::IncTapePos(1),
            SimOperation::AddToTheLeftAndClear(1),
            SimOperation::EndProgram
        ],
        linearized
    );

    let bf = parse_bf("-+<>[-<+>]");
    let linearized = bf.compile_bytecode();
    assert_eq!(
        vec![
            SimOperation::Dec(1),
            SimOperation::Inc(1),
            SimOperation::DecTapePos(1),
            SimOperation::IncTapePos(1),
            SimOperation::AddToTheLeftAndClear(1),
            SimOperation::EndProgram
        ],
        linearized
    );

    let bf = parse_bf("-+<>[-<->]");
    let linearized = bf.compile_bytecode();
    assert_eq!(
        vec![
            SimOperation::Dec(1),
            SimOperation::Inc(1),
            SimOperation::DecTapePos(1),
            SimOperation::IncTapePos(1),
            SimOperation::DecFromTheLeftAndClear(1),
            SimOperation::EndProgram
        ],
        linearized
    );

    let bf = parse_bf("-+<>[<->-]");
    let linearized = bf.compile_bytecode();
    assert_eq!(
        vec![
            SimOperation::Dec(1),
            SimOperation::Inc(1),
            SimOperation::DecTapePos(1),
            SimOperation::IncTapePos(1),
            SimOperation::DecFromTheLeftAndClear(1),
            SimOperation::EndProgram
        ],
        linearized
    );

    let bf = parse_bf("-+<>[-]+[>]-[<].,[+]");
    let linearized = bf.compile_bytecode();
    assert_eq!(
        vec![
            SimOperation::Dec(1),
            SimOperation::Inc(1),
            SimOperation::DecTapePos(1),
            SimOperation::IncTapePos(1),
            SimOperation::Clear,
            SimOperation::Inc(1),
            SimOperation::IncTapePosUntilEmpty,
            SimOperation::Dec(1),
            SimOperation::DecTapePosUntilEmpty,
            SimOperation::PutChar,
            SimOperation::GetChar,
            SimOperation::Clear,
            SimOperation::EndProgram
        ],
        linearized
    );
}

#[test]
fn ensure_node_clear_converges() {
    let bf = parse_bf("[-]");
    assert_eq!(Node::Root(vec![Node::Clear]), bf);

    let bf = parse_bf("[+]");
    assert_eq!(Node::Root(vec![Node::Clear]), bf);
}

#[test]
fn ensure_sequential_loops_eliminates() {
    let bf = parse_bf("[.][+]");
    assert_eq!(Node::Root(vec![Node::Loop(vec![Node::PutChar])]), bf);

    let bf = parse_bf("[-][+]");
    assert_eq!(Node::Root(vec![Node::Clear]), bf);

    let bf = parse_bf("[+][-]");
    assert_eq!(Node::Root(vec![Node::Clear]), bf);
}

#[test]
fn ensure_empty_loops_eliminates() {
    let bf = parse_bf("[]");
    assert_eq!(Node::Root(vec![]), bf);

    let bf = parse_bf("+[]+");
    assert_eq!(Node::Root(vec![Node::Inc(2)]), bf);

    let bf = parse_bf("[+[]+]");
    assert_eq!(Node::Root(vec![Node::Loop(vec![Node::Inc(2)])]), bf);

    let bf = parse_bf("[[]]");
    assert_eq!(Node::Root(vec![]), bf);
}

#[test]
fn ensure_comments_work() {
    let bf = parse_bf("clear:[-]");
    assert_eq!(Node::Root(vec![Node::Clear]), bf);

    let bf = parse_bf(".comment");
    assert_eq!(Node::Root(vec![Node::PutChar]), bf);

    let bf = parse_bf("comment");
    assert_eq!(Node::Root(vec![]), bf);

    let bf = parse_bf("[comment]");
    assert_eq!(Node::Root(vec![]), bf);
}

#[test]
fn ensure_node_add_to_right_and_clear_converges() {
    let bf = parse_bf("[->+<]");
    assert_eq!(Node::Root(vec![Node::AddToTheRightAndClear(1)]), bf);

    let bf = parse_bf("[>+<-]");
    assert_eq!(Node::Root(vec![Node::AddToTheRightAndClear(1)]), bf);
}

#[test]
fn ensure_node_dec_from_right_and_clear_converges() {
    let bf = parse_bf("[->-<]");
    assert_eq!(Node::Root(vec![Node::DecFromTheRightAndClear(1)]), bf);

    let bf = parse_bf("[>-<-]");
    assert_eq!(Node::Root(vec![Node::DecFromTheRightAndClear(1)]), bf);
}

#[test]
fn ensure_simple_cases_work() {
    let bf = parse_bf("++++[,]");
    assert_eq!(Node::Root(vec![
        Node::Inc(4),
        Node::Loop(vec![Node::GetChar])
    ]), bf);

    let bf = parse_bf("++++[.]");
    assert_eq!(Node::Root(vec![
        Node::Inc(4),
        Node::Loop(vec![Node::PutChar])
    ]), bf);
}

#[test]
fn ensure_node_series_converges() {
    let bf = Node::PutChar;
    let bf = bf.optimize_series();
    assert_eq!(Node::PutChar, bf);

    let bf = Node::GetChar;
    let bf = bf.optimize_series();
    assert_eq!(Node::GetChar, bf);

    let bf = Node::Dec(1);
    let bf = bf.optimize_series();
    assert_eq!(Node::Dec(1), bf);

    let bf = Node::Inc(1);
    let bf = bf.optimize_series();
    assert_eq!(Node::Inc(1), bf);

    let bf = Node::IncTapePos(1);
    let bf = bf.optimize_series();
    assert_eq!(Node::IncTapePos(1), bf);

    let bf = Node::IncTapePosUntilEmpty;
    let bf = bf.optimize_series();
    assert_eq!(Node::IncTapePosUntilEmpty, bf);

    let bf = Node::DecTapePos(1);
    let bf = bf.optimize_series();
    assert_eq!(Node::DecTapePos(1), bf);

    let bf = Node::DecTapePosUntilEmpty;
    let bf = bf.optimize_series();
    assert_eq!(Node::DecTapePosUntilEmpty, bf);

    let bf = Node::Clear;
    let bf = bf.optimize_series();
    assert_eq!(Node::Clear, bf);

    let bf = Node::AddToTheRightAndClear(10);
    let bf = bf.optimize_series();
    assert_eq!(Node::AddToTheRightAndClear(10), bf);

    let bf = Node::DecFromTheRightAndClear(10);
    let bf = bf.optimize_series();
    assert_eq!(Node::DecFromTheRightAndClear(10), bf);

    let bf = Node::Root(vec![
        Node::Inc(3), Node::Inc(8)
    ]);
    let bf = bf.optimize_series();
    assert_eq!(Node::Root(vec![Node::Inc(11)]), bf);

    let bf = Node::Root(vec![
        Node::Dec(3), Node::Dec(8)
    ]);
    let bf = bf.optimize_series();
    assert_eq!(Node::Root(vec![Node::Dec(11)]), bf);

    let bf = Node::Root(vec![
        Node::IncTapePos(3), Node::IncTapePos(8)
    ]);
    let bf = bf.optimize_series();
    assert_eq!(Node::Root(vec![Node::IncTapePos(11)]), bf);

    let bf = Node::Root(vec![
        Node::DecTapePos(3), Node::DecTapePos(8)
    ]);
    let bf = bf.optimize_series();
    assert_eq!(Node::Root(vec![Node::DecTapePos(11)]), bf);

    let bf = Node::Root(vec![
        Node::Loop(vec![Node::Inc(3), Node::Inc(8)])
    ]);
    let bf = bf.optimize_series();
    assert_eq!(Node::Root(vec![Node::Loop(vec![Node::Inc(11)])]), bf);

    let bf = Node::Root(vec![
        Node::Loop(vec![Node::Dec(3), Node::Dec(8)])
    ]);
    let bf = bf.optimize_series();
    assert_eq!(Node::Root(vec![Node::Loop(vec![Node::Dec(11)])]), bf);

    let bf = Node::Root(vec![
        Node::Loop(vec![Node::IncTapePos(3), Node::IncTapePos(8)])
    ]);
    let bf = bf.optimize_series();
    assert_eq!(Node::Root(vec![Node::Loop(vec![Node::IncTapePos(11)]) ]), bf);

    let bf = Node::Root(vec![
        Node::Loop(vec![Node::DecTapePos(3), Node::DecTapePos(8)])
    ]);
    let bf = bf.optimize_series();
    assert_eq!(Node::Root(vec![Node::Loop(vec![Node::DecTapePos(11)])]), bf);

    let bf = parse_bf("+++++");
    assert_eq!(Node::Root(vec![Node::Inc(5)]), bf);

    let bf = parse_bf("-----");
    assert_eq!(Node::Root(vec![Node::Dec(5)]), bf);

    let bf = parse_bf(">>>>>");
    assert_eq!(Node::Root(vec![Node::IncTapePos(5)]), bf);

    let bf = parse_bf("[>]");
    assert_eq!(Node::Root(vec![Node::IncTapePosUntilEmpty]), bf);

    let bf = parse_bf("[<]");
    assert_eq!(Node::Root(vec![Node::DecTapePosUntilEmpty]), bf);

    let bf = parse_bf("<<<<<");
    assert_eq!(Node::Root(vec![Node::DecTapePos(5)]), bf);

    let bf = parse_bf("<<<<---+++++-->>");
    assert_eq!(Node::Root(vec![
        Node::DecTapePos(4),
        Node::Dec(3),
        Node::Inc(5),
        Node::Dec(2),
        Node::IncTapePos(2)
    ]), bf);
}
