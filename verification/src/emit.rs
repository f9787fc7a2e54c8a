//! The emitters: one traversal of the tree that writes a program in the tape
//! language itself, in C or in Rust, by the templates of the chosen target.

use crate::ast::{
    collapse, delta_size, lemma_block_view, lemma_child_is_smaller, lemma_take_next, repeat, trees,
    Node, Tree,
};
use crate::token::{symbols, Token};
use vstd::prelude::*;

verus! {

/// C: the statement that adjusts the current cell, up to the delta.
pub const C_INCR_OPEN: &'static str = "    memory[index] += ";

/// C: the statement that moves the pointer, up to the delta.
pub const C_MOVE_OPEN: &'static str = "    index += ";

/// C: the end of a statement, behind the delta.
pub const C_STATEMENT_CLOSE: &'static str = ";\n";

/// C: the statement that writes the current cell.
pub const C_WRITE: &'static str = "    printf(\"%c\", memory[index]);\n";

/// C: the head of a loop.
pub const C_LOOP_OPEN: &'static str = "    while (memory[index] != 0) {\n";

/// C: the declarations of tape and pointer and the head of the entry point.
pub const C_PREAMBLE: &'static str =
    "#include <stdint.h>\n#include <stdio.h>\n#include <stdlib.h>\n\nint main(int argc, char ** argv) {\n    uint8_t memory[30000] = {0};\n    size_t index = 0;\n\n    // bf source code\n";

/// C: the end of the entry point.
pub const C_POSTAMBLE: &'static str = "\n\n    return EXIT_SUCCESS;\n}\n";

/// Rust: the statement that adjusts the current cell, up to the delta.
pub const RUST_INCR_OPEN: &'static str = "    memory[index] = (memory[index] as isize + ";

/// Rust: the end of the statement that adjusts the current cell.
pub const RUST_INCR_CLOSE: &'static str = ") as u8;\n";

/// Rust: the statement that moves the pointer, up to the delta.
pub const RUST_MOVE_OPEN: &'static str = "    index = (index as isize + ";

/// Rust: the end of the statement that moves the pointer.
pub const RUST_MOVE_CLOSE: &'static str = ") as usize;\n";

/// Rust: the statement that writes the current cell.
pub const RUST_WRITE: &'static str = "    print!(\"{}\", memory[index] as char);\n";

/// Rust: the head of a loop.
pub const RUST_LOOP_OPEN: &'static str = "    while memory[index] != 0 {\n";

/// Rust: the declarations of tape and pointer and the head of the entry
/// point.
pub const RUST_PREAMBLE: &'static str =
    "fn main() {\n    let mut memory: [u8; 30000] = [0; 30000];\n    let mut index: usize = 0;\n\n    // bf source code\n";

/// Rust: the end of the entry point.
pub const RUST_POSTAMBLE: &'static str = "}\n";

/// C and Rust: the end of a loop.
pub const LOOP_CLOSE: &'static str = "    }";

/// The language that an emitter writes.
#[derive(Clone, Copy, Debug, PartialEq, Eq)]
pub enum Target {
    /// The tape language itself.
    Bf,
    /// C.
    C,
    /// Rust.
    Rust,
}

/// The decimal digit of a value below ten.
pub open spec fn digit(value: int) -> char {
    if value == 0 {
        '0'
    } else if value == 1 {
        '1'
    } else if value == 2 {
        '2'
    } else if value == 3 {
        '3'
    } else if value == 4 {
        '4'
    } else if value == 5 {
        '5'
    } else if value == 6 {
        '6'
    } else if value == 7 {
        '7'
    } else if value == 8 {
        '8'
    } else {
        '9'
    }
}

/// A natural number in decimal, without leading zeros.
pub open spec fn decimal(value: nat) -> Seq<char>
    decreases value,
{
    if value < 10 {
        seq![digit(value as int)]
    } else {
        decimal(value / 10).push(digit((value % 10) as int))
    }
}

/// An integer in decimal, with a minus sign where it is negative.
pub open spec fn signed(value: int) -> Seq<char> {
    if value < 0 {
        seq!['-'] + decimal((-value) as nat)
    } else {
        decimal(value as nat)
    }
}

impl Target {
    /// The text for adding `delta` to the current cell.
    pub open spec fn incr(self, delta: int) -> Seq<char> {
        match self {
            Target::Bf => symbols(Tree::Incr(delta).tokens()),
            Target::C => C_INCR_OPEN@ + signed(delta) + C_STATEMENT_CLOSE@,
            Target::Rust => RUST_INCR_OPEN@ + signed(delta) + RUST_INCR_CLOSE@,
        }
    }

    /// The text for adding `delta` to the pointer.
    pub open spec fn shift(self, delta: int) -> Seq<char> {
        match self {
            Target::Bf => symbols(Tree::Move(delta).tokens()),
            Target::C => C_MOVE_OPEN@ + signed(delta) + C_STATEMENT_CLOSE@,
            Target::Rust => RUST_MOVE_OPEN@ + signed(delta) + RUST_MOVE_CLOSE@,
        }
    }

    /// The text for emitting the current cell.
    pub open spec fn write(self) -> Seq<char> {
        match self {
            Target::Bf => seq!['.'],
            Target::C => C_WRITE@,
            Target::Rust => RUST_WRITE@,
        }
    }

    /// The text that opens a loop.
    pub open spec fn loop_open(self) -> Seq<char> {
        match self {
            Target::Bf => seq!['['],
            Target::C => C_LOOP_OPEN@,
            Target::Rust => RUST_LOOP_OPEN@,
        }
    }

    /// The text that closes a loop.
    pub open spec fn loop_close(self) -> Seq<char> {
        match self {
            Target::Bf => seq![']'],
            Target::C => LOOP_CLOSE@,
            Target::Rust => LOOP_CLOSE@,
        }
    }

    /// The text before the instructions: the declarations of tape and
    /// pointer and the opening of the entry point.
    pub open spec fn preamble(self) -> Seq<char> {
        match self {
            Target::Bf => Seq::empty(),
            Target::C => C_PREAMBLE@,
            Target::Rust => RUST_PREAMBLE@,
        }
    }

    /// The text after the instructions.
    pub open spec fn postamble(self) -> Seq<char> {
        match self {
            Target::Bf => Seq::empty(),
            Target::C => C_POSTAMBLE@,
            Target::Rust => RUST_POSTAMBLE@,
        }
    }
}

/// The instructions of a tree in the target language.
pub open spec fn render(tree: Tree, target: Target) -> Seq<char>
    decreases tree,
{
    match tree {
        Tree::Incr(delta) => target.incr(delta),
        Tree::Move(delta) => target.shift(delta),
        Tree::Write => target.write(),
        Tree::Loop(body) => target.loop_open() + render(*body, target) + target.loop_close(),
        Tree::Block(children) => render_all(children, target),
    }
}

/// The instructions of a list of trees, one tree after the other.
pub open spec fn render_all(trees: Seq<Tree>, target: Target) -> Seq<char>
    decreases trees,
{
    if trees.len() == 0 {
        Seq::empty()
    } else {
        render_all(trees.drop_last(), target) + render(trees.last(), target)
    }
}

/// The complete program of a tree in the target language.
pub open spec fn program(tree: Tree, target: Target) -> Seq<char> {
    target.preamble() + render(tree, target) + target.postamble()
}

/// A list of siblings is written as the tree that it collapses into: a block
/// with one child and that child alone read the same in every target.
pub proof fn lemma_collapse_render(siblings: Seq<Tree>, target: Target)
    ensures
        render(collapse(siblings), target) == render_all(siblings, target),
{
    if siblings.len() == 1 {
        assert(siblings.drop_last() =~= Seq::<Tree>::empty());
        assert(render_all(siblings.drop_last(), target) =~= Seq::<char>::empty());
        assert(render_all(siblings, target) =~= render(siblings[0], target));
    }
}

/// In the tape language a tree is written as the symbols of its tokens.
pub proof fn lemma_render_bf(tree: Tree)
    ensures
        render(tree, Target::Bf) == symbols(tree.tokens()),
    decreases tree, 0nat,
{
    match tree {
        Tree::Loop(body) => {
            lemma_render_bf(*body);
            assert(render(tree, Target::Bf) =~= symbols(tree.tokens()));
        },
        Tree::Block(children) => {
            lemma_render_all_bf(children);
        },
        Tree::Write => {
            assert(render(tree, Target::Bf) =~= symbols(tree.tokens()));
        },
        _ => {},
    }
}

/// In the tape language a list of trees is written as the symbols of its
/// tokens.
pub proof fn lemma_render_all_bf(trees: Seq<Tree>)
    ensures
        render_all(trees, Target::Bf) == symbols(Tree::tokens_all(trees)),
    decreases trees, 1nat,
{
    if trees.len() == 0 {
        assert(render_all(trees, Target::Bf) =~= symbols(Tree::tokens_all(trees)));
    } else {
        lemma_render_all_bf(trees.drop_last());
        lemma_render_bf(trees.last());
        assert(render_all(trees, Target::Bf) =~= symbols(Tree::tokens_all(trees)));
    }
}

/// The text of one decimal digit.
fn digit_text(value: usize) -> (text: &'static str)
    requires
        value < 10,
    ensures
        text@ == seq![digit(value as int)],
{
    proof {
        reveal_strlit("0");
        reveal_strlit("1");
        reveal_strlit("2");
        reveal_strlit("3");
        reveal_strlit("4");
        reveal_strlit("5");
        reveal_strlit("6");
        reveal_strlit("7");
        reveal_strlit("8");
        reveal_strlit("9");
    }
    let text = if value == 0 {
        "0"
    } else if value == 1 {
        "1"
    } else if value == 2 {
        "2"
    } else if value == 3 {
        "3"
    } else if value == 4 {
        "4"
    } else if value == 5 {
        "5"
    } else if value == 6 {
        "6"
    } else if value == 7 {
        "7"
    } else if value == 8 {
        "8"
    } else {
        "9"
    };
    assert(text@ =~= seq![digit(value as int)]);
    text
}

/// Appends a natural number in decimal.
fn append_decimal(out: &mut String, value: usize)
    ensures
        final(out)@ == old(out)@ + decimal(value as nat),
    decreases value,
{
    if value >= 10 {
        append_decimal(out, value / 10);
    }
    out.append(digit_text(value % 10));
    assert(out@ =~= old(out)@ + decimal(value as nat));
}

/// Appends an integer in decimal.
fn append_signed(out: &mut String, value: isize)
    ensures
        final(out)@ == old(out)@ + signed(value as int),
{
    if value < 0 {
        proof {
            reveal_strlit("-");
        }
        out.append("-");
        let size: usize = (-(value + 1)) as usize + 1;
        append_decimal(out, size);
        assert(out@ =~= old(out)@ + signed(value as int));
    } else {
        append_decimal(out, value as usize);
    }
}

/// Appends `count` copies of the symbol of a token.
fn append_symbols(out: &mut String, token: Token, count: usize)
    ensures
        final(out)@ == old(out)@ + symbols(repeat(token, count as nat)),
{
    proof {
        reveal_strlit("+");
        reveal_strlit("-");
        reveal_strlit("<");
        reveal_strlit(">");
        reveal_strlit(".");
        reveal_strlit("[");
        reveal_strlit("]");
    }
    let text = match token {
        Token::Incr => "+",
        Token::Decr => "-",
        Token::MoveLeft => "<",
        Token::MoveRight => ">",
        Token::Write => ".",
        Token::LoopBegin => "[",
        Token::LoopEnd => "]",
    };
    assert(text@ =~= seq![token.symbol()]);
    let mut done: usize = 0;
    assert(out@ =~= old(out)@ + symbols(repeat(token, 0)));
    while done < count
        invariant
            done <= count,
            text@ == seq![token.symbol()],
            out@ == old(out)@ + symbols(repeat(token, done as nat)),
        decreases count - done,
    {
        out.append(text);
        done += 1;
        assert(out@ =~= old(out)@ + symbols(repeat(token, done as nat)));
    }
}

/// Appends the instructions of a tree in the target language.
pub fn write_ast(ast: &Node, target: Target, out: &mut String)
    ensures
        final(out)@ == old(out)@ + render(ast@, target),
    decreases ast,
{
    match ast {
        Node::Incr(delta) => {
            match target {
                Target::Bf => {
                    let token = if *delta < 0 {
                        Token::Decr
                    } else {
                        Token::Incr
                    };
                    append_symbols(out, token, delta_size(*delta));
                },
                Target::C => {
                    out.append(C_INCR_OPEN);
                    append_signed(out, *delta);
                    out.append(C_STATEMENT_CLOSE);
                },
                Target::Rust => {
                    out.append(RUST_INCR_OPEN);
                    append_signed(out, *delta);
                    out.append(RUST_INCR_CLOSE);
                },
            }
            assert(out@ =~= old(out)@ + target.incr(*delta as int));
        },
        Node::Move(delta) => {
            match target {
                Target::Bf => {
                    let token = if *delta < 0 {
                        Token::MoveLeft
                    } else {
                        Token::MoveRight
                    };
                    append_symbols(out, token, delta_size(*delta));
                },
                Target::C => {
                    out.append(C_MOVE_OPEN);
                    append_signed(out, *delta);
                    out.append(C_STATEMENT_CLOSE);
                },
                Target::Rust => {
                    out.append(RUST_MOVE_OPEN);
                    append_signed(out, *delta);
                    out.append(RUST_MOVE_CLOSE);
                },
            }
            assert(out@ =~= old(out)@ + target.shift(*delta as int));
        },
        Node::Write => {
            match target {
                Target::Bf => {
                    append_symbols(out, Token::Write, 1);
                    assert(symbols(repeat(Token::Write, 1)) =~= seq!['.']);
                },
                Target::C => {
                    out.append(C_WRITE);
                },
                Target::Rust => {
                    out.append(RUST_WRITE);
                },
            }
        },
        Node::Loop(body) => {
            match target {
                Target::Bf => {
                    append_symbols(out, Token::LoopBegin, 1);
                    assert(symbols(repeat(Token::LoopBegin, 1)) =~= seq!['[']);
                },
                Target::C => {
                    out.append(C_LOOP_OPEN);
                },
                Target::Rust => {
                    out.append(RUST_LOOP_OPEN);
                },
            }
            write_ast(body, target, out);
            match target {
                Target::Bf => {
                    append_symbols(out, Token::LoopEnd, 1);
                    assert(symbols(repeat(Token::LoopEnd, 1)) =~= seq![']']);
                },
                Target::C => {
                    out.append(LOOP_CLOSE);
                },
                Target::Rust => {
                    out.append(LOOP_CLOSE);
                },
            }
            assert(out@ =~= old(out)@ + render(ast@, target));
        },
        Node::Block(children) => {
            let ghost all = trees(children@);
            proof {
                lemma_block_view(*children);
            }
            let mut i: usize = 0;
            assert(out@ =~= old(out)@ + render_all(all.take(0), target));
            while i < children.len()
                invariant
                    *ast == Node::Block(*children),
                    all == trees(children@),
                    i <= children.len(),
                    out@ == old(out)@ + render_all(all.take(i as int), target),
                decreases children.len() - i,
            {
                proof {
                    lemma_child_is_smaller(ast, i as int);
                    lemma_take_next(all, i as int);
                }
                write_ast(&children[i], target, out);
                i += 1;
                assert(out@ =~= old(out)@ + render_all(all.take(i as int), target));
            }
            assert(all.take(i as int) =~= all);
        },
    }
}

/// Appends the complete program of a tree in the target language.
pub fn write_program(ast: &Node, target: Target, out: &mut String)
    ensures
        final(out)@ == old(out)@ + program(ast@, target),
{
    match target {
        Target::Bf => {},
        Target::C => {
            out.append(C_PREAMBLE);
        },
        Target::Rust => {
            out.append(RUST_PREAMBLE);
        },
    }
    write_ast(ast, target, out);
    match target {
        Target::Bf => {},
        Target::C => {
            out.append(C_POSTAMBLE);
        },
        Target::Rust => {
            out.append(RUST_POSTAMBLE);
        },
    }
    assert(out@ =~= old(out)@ + program(ast@, target));
}

/// Appends the program of a tree in the tape language.
pub fn write_bf(ast: &Node, out: &mut String)
    ensures
        final(out)@ == old(out)@ + render(ast@, Target::Bf),
{
    write_ast(ast, Target::Bf, out);
}

/// Appends the statements of a tree in C.
pub fn write_c_ast(ast: &Node, out: &mut String)
    ensures
        final(out)@ == old(out)@ + render(ast@, Target::C),
{
    write_ast(ast, Target::C, out);
}

/// Appends the complete C program of a tree.
pub fn write_c(ast: &Node, out: &mut String)
    ensures
        final(out)@ == old(out)@ + program(ast@, Target::C),
{
    write_program(ast, Target::C, out);
}

/// Appends the statements of a tree in Rust.
pub fn write_rust_ast(ast: &Node, out: &mut String)
    ensures
        final(out)@ == old(out)@ + render(ast@, Target::Rust),
{
    write_ast(ast, Target::Rust, out);
}

/// Appends the complete Rust program of a tree.
pub fn write_rust(ast: &Node, out: &mut String)
    ensures
        final(out)@ == old(out)@ + program(ast@, Target::Rust),
{
    write_program(ast, Target::Rust, out);
}

} // verus!
