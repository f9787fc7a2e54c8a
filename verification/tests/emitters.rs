use brainfuck::emit::{write_ast, write_program};
use brainfuck::{
    build_ast, compile_source, optimize_ast, parse_source, write_bf, write_c, write_c_ast, write_rust, write_rust_ast, Node,
    Target,
};

fn bf(ast: &Node) -> String {
    let mut out = String::new();
    write_bf(ast, &mut out);
    out
}

#[test]
fn bf_expands_deltas_into_unit_symbols() {
    assert_eq!(bf(&Node::Incr(3)), "+++");
    assert_eq!(bf(&Node::Incr(-2)), "--");
    assert_eq!(bf(&Node::Move(4)), ">>>>");
    assert_eq!(bf(&Node::Move(-1)), "<");
    assert_eq!(bf(&Node::Incr(0)), "");
    assert_eq!(bf(&Node::Move(0)), "");
    assert_eq!(bf(&Node::Write), ".");
}

#[test]
fn bf_brackets_loops_and_concatenates_blocks() {
    let tree = Node::Block(vec![
        Node::Incr(2),
        Node::Loop(Box::new(Node::Block(vec![Node::Move(1), Node::Incr(-1), Node::Write]))),
        Node::Loop(Box::new(Node::Incr(-1))),
        Node::Block(vec![]),
    ]);
    assert_eq!(bf(&tree), "++[>-.][-]");
}

#[test]
fn bf_appends_to_what_is_there() {
    let mut out = String::from("x");
    write_bf(&Node::Write, &mut out);
    assert_eq!(out, "x.");
}

#[test]
fn c_statements() {
    let mut out = String::new();
    write_c_ast(&Node::Incr(5), &mut out);
    assert_eq!(out, "    memory[index] += 5;\n");
    let mut out = String::new();
    write_c_ast(&Node::Incr(-12), &mut out);
    assert_eq!(out, "    memory[index] += -12;\n");
    let mut out = String::new();
    write_c_ast(&Node::Move(-3), &mut out);
    assert_eq!(out, "    index += -3;\n");
    let mut out = String::new();
    write_c_ast(&Node::Write, &mut out);
    assert_eq!(out, "    printf(\"%c\", memory[index]);\n");
    let mut out = String::new();
    write_c_ast(&Node::Loop(Box::new(Node::Incr(-1))), &mut out);
    assert_eq!(out, "    while (memory[index] != 0) {\n    memory[index] += -1;\n    }");
}

#[test]
fn rust_statements() {
    let mut out = String::new();
    write_rust_ast(&Node::Incr(5), &mut out);
    assert_eq!(out, "    memory[index] = (memory[index] as isize + 5) as u8;\n");
    let mut out = String::new();
    write_rust_ast(&Node::Move(-3), &mut out);
    assert_eq!(out, "    index = (index as isize + -3) as usize;\n");
    let mut out = String::new();
    write_rust_ast(&Node::Write, &mut out);
    assert_eq!(out, "    print!(\"{}\", memory[index] as char);\n");
    let mut out = String::new();
    write_rust_ast(&Node::Loop(Box::new(Node::Block(vec![]))), &mut out);
    assert_eq!(out, "    while memory[index] != 0 {\n    }");
}

#[test]
fn decimal_deltas() {
    for delta in [0isize, 1, 9, 10, 11, 99, 100, 12345, -1, -10, -987, isize::MAX, isize::MIN] {
        let mut out = String::new();
        write_c_ast(&Node::Move(delta), &mut out);
        assert_eq!(out, format!("    index += {};\n", delta));
    }
}

#[test]
fn c_program() {
    let ast = compile_source("++[>+<-]>.").unwrap();
    let mut out = String::new();
    write_c(&ast, &mut out);
    let expected = "#include <stdint.h>\n\
#include <stdio.h>\n\
#include <stdlib.h>\n\
\n\
int main(int argc, char ** argv) {\n    uint8_t memory[30000] = {0};\n    size_t index = 0;\n\
\n    // bf source code\n    memory[index] += 2;\n    while (memory[index] != 0) {\n    index += 1;\n    memory[index] += 1;\n    index += -1;\n    memory[index] += -1;\n    }    index += 1;\n    printf(\"%c\", memory[index]);\n\
\n\
\n    return EXIT_SUCCESS;\n\
}\n";
    assert_eq!(out, expected);
}

#[test]
fn rust_program() {
    let ast = compile_source("+.").unwrap();
    let mut out = String::new();
    write_rust(&ast, &mut out);
    let expected = "fn main() {\n    let mut memory: [u8; 30000] = [0; 30000];\n    let mut index: usize = 0;\n\n    // bf source code\n    memory[index] = (memory[index] as isize + 1) as u8;\n    print!(\"{}\", memory[index] as char);\n}\n";
    assert_eq!(out, expected);
}

#[test]
fn empty_programs() {
    let ast = compile_source("").unwrap();
    assert_eq!(bf(&ast), "");
    let mut out = String::new();
    write_rust(&ast, &mut out);
    assert_eq!(
        out,
        "fn main() {\n    let mut memory: [u8; 30000] = [0; 30000];\n    let mut index: usize = 0;\n\n    // bf source code\n}\n"
    );
}

#[test]
fn the_named_emitters_are_the_traversal_of_their_target() {
    let ast = compile_source("++[>+.<-]").unwrap();
    let mut named = String::new();
    let mut general = String::new();
    write_bf(&ast, &mut named);
    write_program(&ast, Target::Bf, &mut general);
    assert_eq!(named, general);
    let mut named = String::new();
    let mut general = String::new();
    write_c_ast(&ast, &mut named);
    write_ast(&ast, Target::C, &mut general);
    assert_eq!(named, general);
    let mut named = String::new();
    let mut general = String::new();
    write_rust(&ast, &mut named);
    write_program(&ast, Target::Rust, &mut general);
    assert_eq!(named, general);
}

#[test]
fn one_child_blocks_emit_like_their_child() {
    let bare = Node::Loop(Box::new(Node::Incr(-1)));
    let wrapped = Node::Block(vec![Node::Loop(Box::new(Node::Block(vec![Node::Incr(-1)])))]);
    assert_eq!(bf(&bare), bf(&wrapped));
    let mut a = String::new();
    let mut b = String::new();
    write_c(&bare, &mut a);
    write_c(&wrapped, &mut b);
    assert_eq!(a, b);
}

#[test]
fn a_built_tree_spells_the_symbols_of_its_source() {
    let hello = "++++++++[>++++[>++>+++>+++>+<<<<-]>+>+>->>+[<]<-]>>.>---.+++++++..+++.>>.<-.<.+++.------.--------.>>+.>++.";
    for source in ["", "+", "[]", "a+b[c-d]e.", "+-+-", "><", "[[][]]", hello] {
        let tree = build_ast(parse_source(source)).unwrap();
        let symbols: String = source.chars().filter(|c| "+-<>.[]".contains(*c)).collect();
        assert_eq!(bf(&tree), symbols, "{}", source);
    }
}

#[test]
fn round_trip_through_the_tape_language() {
    let hello = "++++++++[>++++[>++>+++>+++>+<<<<-]>+>+>->>+[<]<-]>>.>---.+++++++..+++.>>.<-.<.+++.------.--------.>>+.>++.";
    for source in ["", "+-", "+-.", "+++--", "+><+", "[+-]", "[[-]>]", "++[>+<-]>.", hello] {
        let optimized = compile_source(source).unwrap();
        let text = bf(&optimized);
        assert_eq!(compile_source(&text), Ok(optimized), "{}", source);
    }
}

#[test]
fn optimizing_does_not_change_the_emitted_behaviour() {
    let raw = Node::Block(vec![Node::Incr(1), Node::Incr(1), Node::Move(1), Node::Move(-1)]);
    assert_eq!(bf(&raw), "++><");
    assert_eq!(bf(&optimize_ast(&raw)), "++");
}
