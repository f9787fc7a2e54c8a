//! The front of the pipeline: from source text to the optimized tree.

use crate::ast::{Node, Tree};
use crate::optimizer::{merge, nothing, optimize, optimize_ast};
use crate::parser::{
    balanced, build_ast, closes_nothing, left_open, lemma_parse_weight, parse, ParseError,
};
use crate::token::{lemma_lex_len, lex, parse_source};
use crate::vm::{run, run_all, Machine};
use vstd::prelude::*;

verus! {

/// The optimized tree of a source text, or the reason why the text is not a
/// program.
pub open spec fn compile(text: Seq<char>) -> Result<Tree, ParseError> {
    match parse(lex(text)) {
        Ok(tree) => Ok(optimize(tree)),
        Err(error) => Err(error),
    }
}

/// A text without any symbol compiles to the block that does nothing, and
/// running that block leaves the machine and the fuel as they are and
/// writes nothing.
pub proof fn lemma_compile_comment(text: Seq<char>, machine: Machine, fuel: nat)
    requires
        lex(text).len() == 0,
    ensures
        compile(text) == Ok::<Tree, ParseError>(nothing()),
        run(nothing(), machine, fuel) == machine.done(fuel),
{
    assert(merge(Seq::<Tree>::empty()) =~= Seq::<Tree>::empty());
    assert(run_all(Seq::<Tree>::empty(), machine, fuel) == machine.done(fuel));
}

/// Compiles a source text: scans it, builds its tree and optimizes the tree.
///
/// Succeeds exactly when the brackets of the text are balanced; the
/// positions in the errors count the tokens of the text, not its characters.
/// The text must have no more than `isize::MAX` characters, which every text
/// in memory meets.
pub fn compile_source(source: &str) -> (result: Result<Node, ParseError>)
    requires
        source@.len() <= isize::MAX,
    ensures
        match result {
            Ok(node) => compile(source@) == Ok::<Tree, ParseError>(node@),
            Err(error) => compile(source@) == Err::<Tree, ParseError>(error),
        },
        result is Ok <==> balanced(lex(source@)),
        result matches Err(ParseError::UnmatchedLoopEnd { position }) ==> closes_nothing(
            lex(source@),
            position as int,
        ),
        result matches Err(ParseError::UnmatchedLoopBegin { position }) ==> left_open(
            lex(source@),
            position as int,
        ),
{
    let tokens = parse_source(source);
    proof {
        lemma_lex_len(source@);
        lemma_parse_weight(tokens@);
    }
    match build_ast(tokens) {
        Ok(ast) => Ok(optimize_ast(&ast)),
        Err(error) => Err(error),
    }
}

} // verus!
