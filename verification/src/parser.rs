//! The tree builder: it turns tokens into a tree and resolves the nesting of
//! loops with an explicit stack of suspended sibling lists.

use crate::ast::{
    collapse, collapse_nodes, lemma_block_view, lemma_trees_push, lemma_weight_member, lemma_weight_push, trees, Node,
    Tree,
};
use crate::token::Token;
use vstd::prelude::*;

verus! {

/// Why a token sequence is not a program.
#[derive(Clone, Copy, Debug, PartialEq, Eq)]
pub enum ParseError {
    /// A `]` closes no loop. `position` is its index among the tokens.
    UnmatchedLoopEnd { position: usize },
    /// A `[` is never closed. `position` is the index, among the tokens, of
    /// the last `[` that is still open at the end.
    UnmatchedLoopBegin { position: usize },
}

/// A sibling list that waits for its loop to close, with the index of the `[`
/// that suspended it.
pub struct Suspended {
    pub opened_at: usize,
    pub siblings: Vec<Node>,
}

/// The mathematical model of a suspended sibling list.
pub struct Frame {
    pub opened_at: int,
    pub siblings: Seq<Tree>,
}

impl View for Suspended {
    type V = Frame;

    open spec fn view(&self) -> Frame {
        Frame { opened_at: self.opened_at as int, siblings: trees(self.siblings@) }
    }
}

/// The frames that a stack of suspended lists stands for.
pub open spec fn frames(stack: Seq<Suspended>) -> Seq<Frame> {
    Seq::new(stack.len(), |i: int| stack[i]@)
}

/// The node that a token other than a bracket stands for.
pub open spec fn leaf(token: Token) -> Tree {
    match token {
        Token::Incr => Tree::Incr(1),
        Token::Decr => Tree::Incr(-1),
        Token::MoveLeft => Tree::Move(-1),
        Token::MoveRight => Tree::Move(1),
        _ => Tree::Write,
    }
}

/// The result of building from token `at` on, with the sibling list
/// `siblings` under construction and `stack` holding the lists of the loops
/// that are open.
///
/// A `[` suspends the list under construction and starts an empty one. A `]`
/// wraps the list under construction in a block and that in a loop, and
/// appends the loop to the list suspended last, which is resumed; with no
/// list suspended it is an error. Every other token appends its node. At the
/// end a list still suspended is an error; otherwise the list is collapsed
/// into the root.
pub open spec fn parse_from(
    tokens: Seq<Token>,
    at: int,
    stack: Seq<Frame>,
    siblings: Seq<Tree>,
) -> Result<Tree, ParseError>
    decreases tokens.len() - at,
{
    if at < 0 || at >= tokens.len() {
        if stack.len() > 0 {
            Err(ParseError::UnmatchedLoopBegin { position: stack.last().opened_at as usize })
        } else {
            Ok(collapse(siblings))
        }
    } else {
        match tokens[at] {
            Token::LoopBegin => parse_from(
                tokens,
                at + 1,
                stack.push(Frame { opened_at: at, siblings }),
                Seq::empty(),
            ),
            Token::LoopEnd => if stack.len() == 0 {
                Err(ParseError::UnmatchedLoopEnd { position: at as usize })
            } else {
                parse_from(
                    tokens,
                    at + 1,
                    stack.drop_last(),
                    stack.last().siblings.push(Tree::Loop(Box::new(Tree::Block(siblings)))),
                )
            },
            token => parse_from(tokens, at + 1, stack, siblings.push(leaf(token))),
        }
    }
}

/// The tree of a token sequence, or the reason why it has none.
pub open spec fn parse(tokens: Seq<Token>) -> Result<Tree, ParseError> {
    parse_from(tokens, 0, Seq::empty(), Seq::empty())
}

/// The number of loops that are open after the given tokens: each `[` counts
/// one up, each `]` one down.
pub open spec fn depth(tokens: Seq<Token>) -> int
    decreases tokens.len(),
{
    if tokens.len() == 0 {
        0
    } else {
        depth(tokens.drop_last()) + match tokens.last() {
            Token::LoopBegin => 1int,
            Token::LoopEnd => -1int,
            _ => 0int,
        }
    }
}

/// Every `]` closes a `[` before it, and every `[` is closed.
pub open spec fn balanced(tokens: Seq<Token>) -> bool {
    &&& depth(tokens) == 0
    &&& forall|n: int| 0 <= n <= tokens.len() ==> depth(#[trigger] tokens.take(n)) >= 0
}

/// The `]` at index `n` is the first that closes no loop.
pub open spec fn closes_nothing(tokens: Seq<Token>, n: int) -> bool {
    &&& 0 <= n < tokens.len()
    &&& tokens[n] == Token::LoopEnd
    &&& depth(tokens.take(n + 1)) < 0
    &&& forall|m: int| 0 <= m <= n ==> depth(#[trigger] tokens.take(m)) >= 0
}

/// Every `]` closes a loop, and the `[` at index `n` is the last that is
/// left open: it opens the innermost of the loops that are open at the end.
pub open spec fn left_open(tokens: Seq<Token>, n: int) -> bool {
    &&& 0 <= n < tokens.len()
    &&& tokens[n] == Token::LoopBegin
    &&& depth(tokens.take(n)) == depth(tokens) - 1
    &&& forall|m: int| 0 <= m <= tokens.len() ==> depth(#[trigger] tokens.take(m)) >= 0
    &&& forall|m: int| n < m <= tokens.len() ==> depth(#[trigger] tokens.take(m)) >= depth(tokens)
}

/// The stack holds one list for each loop that is open after `at` tokens,
/// suspended by the `[` that opened the loop.
pub open spec fn stack_matches(tokens: Seq<Token>, at: int, stack: Seq<Frame>) -> bool {
    &&& stack.len() == depth(tokens.take(at))
    &&& forall|i: int|
        0 <= i < stack.len() ==> {
            let opened = (#[trigger] stack[i]).opened_at;
            &&& 0 <= opened < at
            &&& tokens[opened] == Token::LoopBegin
            &&& depth(tokens.take(opened)) == i
            &&& forall|m: int| opened < m <= at ==> depth(#[trigger] tokens.take(m)) > i
        }
}

/// What building gives says how the brackets stand: a tree where they are
/// balanced, the first `]` that closes nothing where there is one, and
/// otherwise the last `[` that is left open.
pub open spec fn outcome_matches(tokens: Seq<Token>, outcome: Result<Tree, ParseError>) -> bool {
    match outcome {
        Ok(_) => balanced(tokens),
        Err(ParseError::UnmatchedLoopEnd { position }) => closes_nothing(tokens, position as int),
        Err(ParseError::UnmatchedLoopBegin { position }) => left_open(tokens, position as int),
    }
}

/// Building from a point at which the stack matches the loops that are open
/// gives what the brackets of the whole sequence call for.
pub proof fn lemma_parse_from_outcome(
    tokens: Seq<Token>,
    at: int,
    stack: Seq<Frame>,
    siblings: Seq<Tree>,
)
    requires
        0 <= at <= tokens.len() <= usize::MAX,
        stack_matches(tokens, at, stack),
        forall|n: int| 0 <= n <= at ==> depth(#[trigger] tokens.take(n)) >= 0,
    ensures
        outcome_matches(tokens, parse_from(tokens, at, stack, siblings)),
    decreases tokens.len() - at,
{
    if at == tokens.len() {
        assert(tokens.take(at) =~= tokens);
        if stack.len() > 0 {
            let opened = stack[stack.len() - 1].opened_at;
            assert(opened as usize as int == opened);
        }
    } else {
        assert(tokens.take(at + 1).drop_last() =~= tokens.take(at));
        assert(tokens.take(at + 1).last() == tokens[at]);
        match tokens[at] {
            Token::LoopBegin => {
                let open = stack.push(Frame { opened_at: at, siblings });
                assert forall|i: int| 0 <= i < open.len() implies {
                    let opened = (#[trigger] open[i]).opened_at;
                    &&& 0 <= opened < at + 1
                    &&& tokens[opened] == Token::LoopBegin
                    &&& depth(tokens.take(opened)) == i
                    &&& forall|m: int|
                        opened < m <= at + 1 ==> depth(#[trigger] tokens.take(m)) > i
                } by {
                    if i < stack.len() {
                        assert(open[i] == stack[i]);
                    }
                }
                lemma_parse_from_outcome(tokens, at + 1, open, Seq::empty());
            },
            Token::LoopEnd => {
                if stack.len() == 0 {
                    assert(at as usize as int == at);
                } else {
                    let rest = stack.drop_last();
                    assert forall|i: int| 0 <= i < rest.len() implies {
                        let opened = (#[trigger] rest[i]).opened_at;
                        &&& 0 <= opened < at + 1
                        &&& tokens[opened] == Token::LoopBegin
                        &&& depth(tokens.take(opened)) == i
                        &&& forall|m: int|
                            opened < m <= at + 1 ==> depth(#[trigger] tokens.take(m)) > i
                    } by {
                        assert(rest[i] == stack[i]);
                    }
                    lemma_parse_from_outcome(
                        tokens,
                        at + 1,
                        rest,
                        stack.last().siblings.push(Tree::Loop(Box::new(Tree::Block(siblings)))),
                    );
                }
            },
            token => {
                lemma_parse_from_outcome(tokens, at + 1, stack, siblings.push(leaf(token)));
            },
        }
    }
}

/// The tree of a token sequence, or the error in its place, says how the
/// brackets stand. The three cases exclude each other, so each of them
/// is met by no other outcome: there is a tree exactly when the brackets
/// are balanced.
pub proof fn lemma_parse_outcome(tokens: Seq<Token>)
    requires
        tokens.len() <= usize::MAX,
    ensures
        outcome_matches(tokens, parse(tokens)),
        parse(tokens) is Ok <==> balanced(tokens),
{
    assert(tokens.take(0) =~= Seq::<Token>::empty());
    assert forall|n: int| 0 <= n <= 0 implies depth(#[trigger] tokens.take(n)) >= 0 by {
        assert(tokens.take(n) =~= Seq::<Token>::empty());
    }
    lemma_parse_from_outcome(tokens, 0, Seq::empty(), Seq::empty());
    match parse(tokens) {
        Ok(_) => {},
        Err(ParseError::UnmatchedLoopEnd { position }) => {
            assert(depth(tokens.take(position + 1)) < 0);
        },
        Err(ParseError::UnmatchedLoopBegin { position }) => {
            assert(tokens.take(tokens.len() as int) =~= tokens);
        },
    }
}

/// The weights of the lists of a stack, added up.
pub open spec fn suspended_weight(stack: Seq<Frame>) -> nat
    decreases stack.len(),
{
    if stack.len() == 0 {
        0
    } else {
        suspended_weight(stack.drop_last()) + Tree::weight_all(stack.last().siblings)
    }
}

/// A tree built from a point at which the lists weigh no more than the
/// number of tokens read weighs no more than the number of all tokens.
pub proof fn lemma_parse_from_weight(
    tokens: Seq<Token>,
    at: int,
    stack: Seq<Frame>,
    siblings: Seq<Tree>,
)
    requires
        0 <= at <= tokens.len(),
        suspended_weight(stack) + Tree::weight_all(siblings) <= at,
    ensures
        parse_from(tokens, at, stack, siblings) matches Ok(tree) ==> tree.weight() <= tokens.len(),
    decreases tokens.len() - at,
{
    if at == tokens.len() {
        if siblings.len() == 1 {
            lemma_weight_member(siblings, 0);
        }
    } else {
        match tokens[at] {
            Token::LoopBegin => {
                let pushed = stack.push(Frame { opened_at: at, siblings });
                assert(pushed.drop_last() =~= stack);
                assert(Tree::weight_all(Seq::<Tree>::empty()) == 0);
                lemma_parse_from_weight(tokens, at + 1, pushed, Seq::empty());
            },
            Token::LoopEnd => {
                if stack.len() > 0 {
                    let body = Tree::Loop(Box::new(Tree::Block(siblings)));
                    assert(Tree::Block(siblings).weight() == Tree::weight_all(siblings));
                    assert(body.weight() == Tree::weight_all(siblings));
                    lemma_weight_push(stack.last().siblings, body);
                    lemma_parse_from_weight(
                        tokens,
                        at + 1,
                        stack.drop_last(),
                        stack.last().siblings.push(body),
                    );
                }
            },
            token => {
                lemma_weight_push(siblings, leaf(token));
                lemma_parse_from_weight(tokens, at + 1, stack, siblings.push(leaf(token)));
            },
        }
    }
}

/// A tree built from tokens weighs no more than the number of the tokens.
pub proof fn lemma_parse_weight(tokens: Seq<Token>)
    ensures
        parse(tokens) matches Ok(tree) ==> tree.weight() <= tokens.len(),
{
    assert(Tree::weight_all(Seq::<Tree>::empty()) == 0);
    lemma_parse_from_weight(tokens, 0, Seq::empty(), Seq::empty());
}

/// The node of a token other than a bracket.
fn leaf_node(token: Token) -> (node: Node)
    ensures
        node@ == leaf(token),
{
    match token {
        Token::Incr => Node::Incr(1),
        Token::Decr => Node::Incr(-1),
        Token::MoveLeft => Node::Move(-1),
        Token::MoveRight => Node::Move(1),
        _ => Node::Write,
    }
}

/// Builds the tree of a token sequence.
///
/// Succeeds exactly when the brackets are balanced. Otherwise the error is
/// the first `]` that closes nothing or, where there is none, the last `[`
/// that is left open.
pub fn build_ast(tokens: Vec<Token>) -> (result: Result<Node, ParseError>)
    ensures
        match result {
            Ok(node) => parse(tokens@) == Ok::<Tree, ParseError>(node@),
            Err(error) => parse(tokens@) == Err::<Tree, ParseError>(error),
        },
        result is Ok <==> balanced(tokens@),
        result matches Err(ParseError::UnmatchedLoopEnd { position }) ==> closes_nothing(
            tokens@,
            position as int,
        ),
        result matches Err(ParseError::UnmatchedLoopBegin { position }) ==> left_open(
            tokens@,
            position as int,
        ),
{
    let count = tokens.len();
    proof {
        lemma_parse_outcome(tokens@);
    }
    let mut siblings: Vec<Node> = Vec::new();
    let mut stack: Vec<Suspended> = Vec::new();
    let mut at: usize = 0;
    assert(frames(stack@) =~= Seq::<Frame>::empty());
    assert(trees(siblings@) =~= Seq::<Tree>::empty());
    while at < count
        invariant
            count == tokens.len(),
            at <= count,
            parse(tokens@) is Ok <==> balanced(tokens@),
            outcome_matches(tokens@, parse(tokens@)),
            parse(tokens@) == parse_from(tokens@, at as int, frames(stack@), trees(siblings@)),
        decreases count - at,
    {
        let ghost open = frames(stack@);
        let ghost list = trees(siblings@);
        match tokens[at] {
            Token::LoopBegin => {
                let suspended = Suspended { opened_at: at, siblings };
                assert(frames(stack@.push(suspended)) =~= open.push(
                    Frame { opened_at: at as int, siblings: list },
                ));
                stack.push(suspended);
                siblings = Vec::new();
                assert(trees(siblings@) =~= Seq::<Tree>::empty());
            },
            Token::LoopEnd => {
                match stack.pop() {
                    None => {
                        return Err(ParseError::UnmatchedLoopEnd { position: at });
                    },
                    Some(suspended) => {
                        assert(frames(stack@) =~= open.drop_last());
                        assert(suspended@ == open.last());
                        proof {
                            lemma_block_view(siblings);
                        }
                        let body = Node::Loop(Box::new(Node::Block(siblings)));
                        siblings = suspended.siblings;
                        proof {
                            lemma_trees_push(siblings@, body);
                        }
                        siblings.push(body);
                    },
                }
            },
            token => {
                let node = leaf_node(token);
                proof {
                    lemma_trees_push(siblings@, node);
                }
                siblings.push(node);
            },
        }
        at += 1;
    }
    let open = stack.len();
    if open > 0 {
        assert(frames(stack@).last() == stack@[open - 1]@);
        Err(ParseError::UnmatchedLoopBegin { position: stack[open - 1].opened_at })
    } else {
        Ok(collapse_nodes(siblings))
    }
}

} // verus!
