use brainfuck::token::classify;
use brainfuck::{
    build_ast, compile_source, optimize_ast, parse_source, run_ast, weigh, Node, ParseError,
    RunError, State, Token,
};

const HELLO: &str = "++++++++[>++++[>++>+++>+++>+<<<<-]>+>+>->>+[<]<-]>>.>---.+++++++..+++.>>.<-.<.+++.------.--------.>>+.>++.";

fn run(source: &str, fuel: u64) -> (Result<(), RunError>, State, Vec<u8>, u64) {
    let ast = compile_source(source).unwrap();
    let mut state = State::new();
    let mut output = Vec::new();
    let mut left = fuel;
    let result = run_ast(&ast, &mut state, &mut output, &mut left);
    (result, state, output, left)
}

#[test]
fn lexer_keeps_the_seven_symbols_in_order() {
    let tokens = parse_source("a+b-c<d>e.f[g]h");
    assert_eq!(
        tokens,
        vec![
            Token::Incr,
            Token::Decr,
            Token::MoveLeft,
            Token::MoveRight,
            Token::Write,
            Token::LoopBegin,
            Token::LoopEnd,
        ]
    );
}

#[test]
fn lexer_drops_every_other_character() {
    assert_eq!(parse_source("hello, world\n\t 0123 ,"), vec![]);
    assert_eq!(parse_source(""), vec![]);
    assert_eq!(parse_source("é+ü"), vec![Token::Incr]);
}

#[test]
fn classify_knows_the_seven_symbols() {
    assert_eq!(classify('+'), Some(Token::Incr));
    assert_eq!(classify('-'), Some(Token::Decr));
    assert_eq!(classify('<'), Some(Token::MoveLeft));
    assert_eq!(classify('>'), Some(Token::MoveRight));
    assert_eq!(classify('.'), Some(Token::Write));
    assert_eq!(classify('['), Some(Token::LoopBegin));
    assert_eq!(classify(']'), Some(Token::LoopEnd));
    assert_eq!(classify(','), None);
    assert_eq!(classify(' '), None);
    assert_eq!(classify('\u{ff0b}'), None);
}

#[test]
fn lexer_has_no_more_tokens_than_characters() {
    for source in ["", "+", "abc", HELLO, "é[ü]"] {
        assert!(parse_source(source).len() <= source.chars().count());
    }
}

#[test]
fn lexer_is_a_function_of_the_text() {
    assert_eq!(parse_source("+[-]."), parse_source("+[-]."));
}

#[test]
fn builder_appends_unit_nodes() {
    let ast = build_ast(vec![Token::Incr, Token::Decr, Token::MoveLeft, Token::MoveRight, Token::Write]);
    assert_eq!(
        ast,
        Ok(Node::Block(vec![
            Node::Incr(1),
            Node::Incr(-1),
            Node::Move(-1),
            Node::Move(1),
            Node::Write,
        ]))
    );
}

#[test]
fn builder_returns_a_single_node_bare() {
    assert_eq!(build_ast(vec![Token::Write]), Ok(Node::Write));
    assert_eq!(build_ast(vec![Token::Decr]), Ok(Node::Incr(-1)));
}

#[test]
fn builder_wraps_a_loop_body_in_a_block() {
    let ast = build_ast(parse_source("[-]"));
    assert_eq!(ast, Ok(Node::Loop(Box::new(Node::Block(vec![Node::Incr(-1)])))));
    let ast = build_ast(parse_source("[]"));
    assert_eq!(ast, Ok(Node::Loop(Box::new(Node::Block(vec![])))));
}

#[test]
fn builder_resolves_nesting() {
    let ast = build_ast(parse_source("+[>[-]<]."));
    let inner = Node::Loop(Box::new(Node::Block(vec![Node::Incr(-1)])));
    let outer = Node::Loop(Box::new(Node::Block(vec![Node::Move(1), inner, Node::Move(-1)])));
    assert_eq!(ast, Ok(Node::Block(vec![Node::Incr(1), outer, Node::Write])));
}

#[test]
fn unmatched_loop_end_is_a_parse_error() {
    assert_eq!(
        build_ast(parse_source("]")),
        Err(ParseError::UnmatchedLoopEnd { position: 0 })
    );
    assert_eq!(
        build_ast(parse_source("+[-]>]<")),
        Err(ParseError::UnmatchedLoopEnd { position: 5 })
    );
    assert_eq!(compile_source("]"), Err(ParseError::UnmatchedLoopEnd { position: 0 }));
}

#[test]
fn unmatched_loop_begin_is_a_parse_error() {
    assert_eq!(
        build_ast(parse_source("[")),
        Err(ParseError::UnmatchedLoopBegin { position: 0 })
    );
    assert_eq!(
        build_ast(parse_source("+[[-]")),
        Err(ParseError::UnmatchedLoopBegin { position: 1 })
    );
    assert_eq!(
        build_ast(parse_source("[[")),
        Err(ParseError::UnmatchedLoopBegin { position: 1 })
    );
    assert_eq!(compile_source("["), Err(ParseError::UnmatchedLoopBegin { position: 0 }));
}

#[test]
fn the_first_stray_loop_end_is_reported() {
    assert_eq!(
        build_ast(parse_source("[]][")),
        Err(ParseError::UnmatchedLoopEnd { position: 2 })
    );
}

#[test]
fn error_positions_count_tokens_not_characters() {
    assert_eq!(
        compile_source("ab + cd ]"),
        Err(ParseError::UnmatchedLoopEnd { position: 1 })
    );
}

#[test]
fn empty_input_builds_to_an_empty_tree() {
    assert_eq!(build_ast(vec![]), Ok(Node::Block(vec![])));
    assert_eq!(compile_source(""), Ok(Node::Block(vec![])));
    assert_eq!(compile_source("hello"), Ok(Node::Block(vec![])));
}

#[test]
fn empty_program_leaves_the_machine_untouched() {
    let (result, state, output, left) = run("hello", 10);
    assert_eq!(result, Ok(()));
    assert!(output.is_empty());
    assert_eq!(state.index, 0);
    assert!(state.memory.iter().all(|cell| *cell == 0));
    assert_eq!(left, 10);
}

#[test]
fn merging_gives_a_single_node() {
    assert_eq!(compile_source("+++--"), Ok(Node::Incr(1)));
    assert_eq!(compile_source(">>><"), Ok(Node::Move(2)));
    assert_eq!(compile_source("--"), Ok(Node::Incr(-2)));
}

#[test]
fn merging_stops_at_writes_and_loops() {
    assert_eq!(
        compile_source("++.++"),
        Ok(Node::Block(vec![Node::Incr(2), Node::Write, Node::Incr(2)]))
    );
    assert_eq!(
        compile_source("++[--]++"),
        Ok(Node::Block(vec![
            Node::Incr(2),
            Node::Loop(Box::new(Node::Incr(-2))),
            Node::Incr(2),
        ]))
    );
    assert_eq!(
        compile_source("+>+"),
        Ok(Node::Block(vec![Node::Incr(1), Node::Move(1), Node::Incr(1)]))
    );
}

#[test]
fn zero_deltas_become_the_empty_block() {
    assert_eq!(optimize_ast(&Node::Incr(0)), Node::Block(vec![]));
    assert_eq!(optimize_ast(&Node::Move(0)), Node::Block(vec![]));
    assert_eq!(optimize_ast(&Node::Incr(7)), Node::Incr(7));
    assert_eq!(optimize_ast(&Node::Move(-7)), Node::Move(-7));
    assert_eq!(optimize_ast(&Node::Write), Node::Write);
}

#[test]
fn runs_that_cancel_leave_nothing() {
    assert_eq!(compile_source("+-"), Ok(Node::Block(vec![])));
    assert_eq!(compile_source("+-."), Ok(Node::Write));
    assert_eq!(compile_source("+><+"), Ok(Node::Incr(2)));
    assert_eq!(compile_source("[+-]"), Ok(Node::Loop(Box::new(Node::Block(vec![])))));
}

#[test]
fn nodes_that_do_nothing_do_not_survive_in_a_block() {
    let block = Node::Block(vec![Node::Incr(0), Node::Write, Node::Move(0)]);
    assert_eq!(optimize_ast(&block), Node::Write);
    let block = Node::Block(vec![Node::Incr(1), Node::Block(vec![]), Node::Incr(1)]);
    assert_eq!(optimize_ast(&block), Node::Incr(2));
}

#[test]
fn a_block_with_one_child_is_replaced_by_it() {
    let block = Node::Block(vec![Node::Block(vec![Node::Write, Node::Write])]);
    assert_eq!(optimize_ast(&block), Node::Block(vec![Node::Write, Node::Write]));
    let nested = Node::Block(vec![Node::Block(vec![Node::Incr(2)]), Node::Incr(3)]);
    assert_eq!(optimize_ast(&nested), Node::Incr(5));
}

#[test]
fn weight_adds_up_the_absolute_deltas() {
    let tree = Node::Block(vec![
        Node::Incr(3),
        Node::Move(-4),
        Node::Loop(Box::new(Node::Incr(-1))),
        Node::Write,
        Node::Block(vec![]),
    ]);
    assert_eq!(weigh(&tree), Some(8));
    assert_eq!(weigh(&Node::Write), Some(0));
    assert_eq!(weigh(&Node::Incr(isize::MIN)), Some(isize::MAX as usize + 1));
    assert_eq!(weigh(&Node::Move(isize::MAX)), Some(isize::MAX as usize));
    let heavy = Node::Block(vec![Node::Incr(isize::MIN), Node::Loop(Box::new(Node::Move(isize::MIN)))]);
    assert_eq!(weigh(&heavy), None);
}

#[test]
fn a_built_tree_weighs_no_more_than_its_tokens() {
    for source in ["", "+-", "[.]", HELLO] {
        let tokens = parse_source(source);
        let count = tokens.len();
        let tree = build_ast(tokens).unwrap();
        let weight = weigh(&tree).unwrap();
        assert!(weight <= count);
        assert!(weigh(&optimize_ast(&tree)).unwrap() <= weight);
    }
}

#[test]
fn loop_bodies_are_optimized() {
    let tree = Node::Loop(Box::new(Node::Block(vec![
        Node::Incr(1),
        Node::Incr(1),
        Node::Loop(Box::new(Node::Block(vec![Node::Move(1), Node::Move(-3)]))),
    ])));
    let expected = Node::Loop(Box::new(Node::Block(vec![
        Node::Incr(2),
        Node::Loop(Box::new(Node::Move(-2))),
    ])));
    assert_eq!(optimize_ast(&tree), expected);
}

#[test]
fn optimize_is_idempotent_on_samples() {
    for source in ["", "+-", "+-.", "+++--", "++[>+<-]>.", "[[[-]]]", HELLO, "+><+[+-]<>"] {
        let once = compile_source(source).unwrap();
        let twice = optimize_ast(&once);
        assert_eq!(twice, once, "{}", source);
    }
    let tree = Node::Block(vec![
        Node::Incr(0),
        Node::Block(vec![Node::Incr(1), Node::Incr(-1)]),
        Node::Block(vec![Node::Write, Node::Block(vec![])]),
    ]);
    let once = optimize_ast(&tree);
    assert_eq!(optimize_ast(&once), once);
}

#[test]
fn clone_copies_the_tree() {
    let tree = compile_source(HELLO).unwrap();
    assert_eq!(tree.clone(), tree);
    assert_eq!(tree.duplicate(), tree);
}

#[test]
fn loop_counts_a_cell_down_to_zero() {
    let (result, state, output, left) = run("++++++++[-]", 100);
    assert_eq!(result, Ok(()));
    assert_eq!(state.memory[state.index], 0);
    assert_eq!(state.index, 0);
    assert!(output.is_empty());
    assert_eq!(left, 92);
}

#[test]
fn hello_world() {
    let (result, _, output, _) = run(HELLO, 1_000_000);
    assert_eq!(result, Ok(()));
    assert_eq!(output, b"Hello World!\n".to_vec());
}

#[test]
fn hello_world_without_optimizing() {
    let ast = build_ast(parse_source(HELLO)).unwrap();
    let mut state = State::new();
    let mut output = Vec::new();
    let mut fuel = 1_000_000;
    assert_eq!(run_ast(&ast, &mut state, &mut output, &mut fuel), Ok(()));
    assert_eq!(output, b"Hello World!\n".to_vec());
}

#[test]
fn optimized_and_raw_trees_run_alike() {
    for source in [HELLO, "++[>+++<-]>.", "+[-]", "+++[>++[>+<-]<-]>>.", "-.+."] {
        let raw = build_ast(parse_source(source)).unwrap();
        let optimized = optimize_ast(&raw);
        let mut raw_state = State::new();
        let mut raw_output = Vec::new();
        let mut raw_fuel = 10_000;
        let mut state = State::new();
        let mut output = Vec::new();
        let mut fuel = 10_000;
        let raw_result = run_ast(&raw, &mut raw_state, &mut raw_output, &mut raw_fuel);
        let result = run_ast(&optimized, &mut state, &mut output, &mut fuel);
        assert_eq!(raw_result, Ok(()));
        assert_eq!(result, raw_result);
        assert_eq!(output, raw_output);
        assert_eq!(state.index, raw_state.index);
        assert!(state.memory == raw_state.memory);
        assert_eq!(fuel, raw_fuel);
    }
}

#[test]
fn cells_wrap_around_in_both_directions() {
    let (_, state, output, _) = run("-.", 0);
    assert_eq!(output, vec![255]);
    assert_eq!(state.memory[0], 255);
    let (_, _, output, _) = run("-+.", 0);
    assert_eq!(output, vec![0]);
    let mut state = State::new();
    let mut output = Vec::new();
    let mut fuel = 0;
    state.memory[0] = 250;
    assert_eq!(run_ast(&Node::Incr(10), &mut state, &mut output, &mut fuel), Ok(()));
    assert_eq!(state.memory[0], 4);
    assert_eq!(run_ast(&Node::Incr(-5), &mut state, &mut output, &mut fuel), Ok(()));
    assert_eq!(state.memory[0], 255);
    assert_eq!(run_ast(&Node::Incr(256 * 3 + 1), &mut state, &mut output, &mut fuel), Ok(()));
    assert_eq!(state.memory[0], 0);
    assert_eq!(run_ast(&Node::Incr(-1025), &mut state, &mut output, &mut fuel), Ok(()));
    assert_eq!(state.memory[0], 255);
    assert_eq!(run_ast(&Node::Incr(isize::MIN), &mut state, &mut output, &mut fuel), Ok(()));
    assert_eq!(state.memory[0], 255);
    assert_eq!(run_ast(&Node::Incr(isize::MAX), &mut state, &mut output, &mut fuel), Ok(()));
    assert_eq!(state.memory[0], 254);
}

#[test]
fn moving_left_of_the_tape_is_out_of_bounds() {
    let (result, state, output, _) = run("+.<.", 0);
    assert_eq!(result, Err(RunError::OutOfBounds));
    assert_eq!(state.index, 0);
    assert_eq!(output, vec![1]);
}

#[test]
fn moving_right_of_the_tape_is_out_of_bounds() {
    let mut state = State::new();
    let mut output = Vec::new();
    let mut fuel = 0;
    assert_eq!(run_ast(&Node::Move(29999), &mut state, &mut output, &mut fuel), Ok(()));
    assert_eq!(state.index, 29999);
    assert_eq!(
        run_ast(&Node::Move(1), &mut state, &mut output, &mut fuel),
        Err(RunError::OutOfBounds)
    );
    assert_eq!(state.index, 29999);
    assert_eq!(run_ast(&Node::Move(-29999), &mut state, &mut output, &mut fuel), Ok(()));
    assert_eq!(state.index, 0);
    assert_eq!(
        run_ast(&Node::Move(30000), &mut state, &mut output, &mut fuel),
        Err(RunError::OutOfBounds)
    );
    assert_eq!(
        run_ast(&Node::Move(isize::MAX), &mut state, &mut output, &mut fuel),
        Err(RunError::OutOfBounds)
    );
    assert_eq!(
        run_ast(&Node::Move(isize::MIN), &mut state, &mut output, &mut fuel),
        Err(RunError::OutOfBounds)
    );
    assert_eq!(state.index, 0);
}

#[test]
fn a_loop_tests_the_cell_under_the_pointer() {
    let (result, state, output, left) = run("+>++<[>]<.", 10);
    assert_eq!(result, Ok(()));
    assert_eq!(state.index, 1);
    assert_eq!(output, vec![2]);
    assert_eq!(left, 8);
}

#[test]
fn a_loop_on_a_zero_cell_is_skipped() {
    let (result, state, output, left) = run("[+.]", 0);
    assert_eq!(result, Ok(()));
    assert_eq!(state.memory[0], 0);
    assert!(output.is_empty());
    assert_eq!(left, 0);
}

#[test]
fn an_endless_loop_runs_out_of_fuel() {
    let (result, state, output, left) = run("+[.]", 5);
    assert_eq!(result, Err(RunError::OutOfFuel));
    assert_eq!(output, vec![1, 1, 1, 1, 1]);
    assert_eq!(state.memory[0], 1);
    assert_eq!(left, 0);
}

#[test]
fn each_turn_of_a_loop_costs_one_unit() {
    let (result, _, _, left) = run("+++[>++[-]<-]", 9);
    assert_eq!(result, Ok(()));
    assert_eq!(left, 0);
    let (result, _, _, _) = run("+++[>++[-]<-]", 8);
    assert_eq!(result, Err(RunError::OutOfFuel));
}

#[test]
fn a_new_state_is_all_zero() {
    let state = State::new();
    assert_eq!(state.index, 0);
    assert_eq!(state.memory.len(), 30000);
    assert!(state.memory.iter().all(|cell| *cell == 0));
}
