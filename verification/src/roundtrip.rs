//! The round trip through the tape language: an optimized program, written
//! out in the tape language and compiled again, is the same tree.

use crate::ast::{collapse, repeat, Tree};
use crate::compiler::compile;
use crate::emit::{lemma_render_bf, render, Target};
use crate::optimizer::{absorb, merge, nothing, optimize};
use crate::parser::{leaf, parse, parse_from, Frame, ParseError};
use crate::token::{lemma_lex_symbols, lex, Token};
use vstd::prelude::*;

verus! {

/// A tree as the builder makes it: every delta is one step, the body of
/// every loop is a block, and blocks stand nowhere else but at the root,
/// where a block does not have exactly one child.
pub open spec fn built(tree: Tree) -> bool
    decreases tree,
{
    match tree {
        Tree::Incr(delta) => delta == 1 || delta == -1,
        Tree::Move(delta) => delta == 1 || delta == -1,
        Tree::Write => true,
        Tree::Loop(body) => match *body {
            Tree::Block(children) => built_items(children),
            _ => false,
        },
        Tree::Block(children) => children.len() != 1 && built_items(children),
    }
}

/// Every member of the list is a tree as the builder makes it, and none is a
/// block.
pub open spec fn built_items(list: Seq<Tree>) -> bool
    decreases list,
{
    forall|i: int| 0 <= i < list.len() ==> !(#[trigger] list[i] is Block) && built(list[i])
}

/// The tokens `spelled` stand in `tokens` from index `at` on.
pub open spec fn spells(tokens: Seq<Token>, at: int, spelled: Seq<Token>) -> bool {
    &&& 0 <= at
    &&& at + spelled.len() <= tokens.len()
    &&& forall|k: int| 0 <= k < spelled.len() ==> tokens[at + k] == #[trigger] spelled[k]
}

/// Where two runs of tokens stand one after the other, each of them stands
/// at its place.
pub proof fn lemma_spells_split(
    tokens: Seq<Token>,
    at: int,
    first: Seq<Token>,
    second: Seq<Token>,
)
    requires
        spells(tokens, at, first + second),
    ensures
        spells(tokens, at, first),
        spells(tokens, at + first.len(), second),
{
    let both = first + second;
    assert forall|k: int| 0 <= k < first.len() implies tokens[at + k] == #[trigger] first[k] by {
        assert(both[k] == first[k]);
    }
    assert forall|k: int| 0 <= k < second.len() implies tokens[at + first.len() + k]
        == #[trigger] second[k] by {
        assert(both[first.len() + k] == second[k]);
    }
}

/// The tokens of two lists, one after the other, are the tokens of the lists
/// joined.
pub proof fn lemma_tokens_all_add(first: Seq<Tree>, second: Seq<Tree>)
    ensures
        Tree::tokens_all(first + second) == Tree::tokens_all(first) + Tree::tokens_all(second),
    decreases second.len(),
{
    if second.len() == 0 {
        assert(first + second =~= first);
        assert(Tree::tokens_all(first) + Tree::tokens_all(second) =~= Tree::tokens_all(first));
    } else {
        lemma_tokens_all_add(first, second.drop_last());
        assert((first + second).drop_last() =~= first + second.drop_last());
        assert((first + second).last() == second.last());
        assert(Tree::tokens_all(first + second) =~= Tree::tokens_all(first) + Tree::tokens_all(
            second,
        ));
    }
}

/// The tokens of a list of one tree are the tokens of the tree.
pub proof fn lemma_tokens_all_one(tree: Tree)
    ensures
        Tree::tokens_all(seq![tree]) == tree.tokens(),
{
    assert(seq![tree].drop_last() =~= Seq::<Tree>::empty());
    assert(Tree::tokens_all(Seq::<Tree>::empty()) =~= Seq::<Token>::empty());
    assert(Tree::tokens_all(seq![tree]) =~= tree.tokens());
}

/// Building reads the tokens of a tree that the builder makes, other than a
/// block, as that tree: from the place where they stand it goes on behind
/// them with the tree appended to the list under construction.
pub proof fn lemma_parse_reads_item(
    tokens: Seq<Token>,
    at: int,
    stack: Seq<Frame>,
    siblings: Seq<Tree>,
    item: Tree,
)
    requires
        built(item),
        !(item is Block),
        spells(tokens, at, item.tokens()),
    ensures
        parse_from(tokens, at, stack, siblings) == parse_from(
            tokens,
            at + item.tokens().len(),
            stack,
            siblings.push(item),
        ),
    decreases item, 0nat,
{
    let spelled = item.tokens();
    match item {
        Tree::Loop(body) => {
            let children = body->Block_0;
            let inner = Tree::tokens_all(children);
            assert(*body == Tree::Block(children));
            assert(body.tokens() == inner);
            assert(spelled == seq![Token::LoopBegin] + inner + seq![Token::LoopEnd]);
            let close = inner.len() as int + 1;
            assert(spelled[0] == Token::LoopBegin);
            assert(spelled[close] == Token::LoopEnd);
            assert(tokens[at + 0] == spelled[0]);
            assert(tokens[at + close] == spelled[close]);
            lemma_spells_split(tokens, at, seq![Token::LoopBegin] + inner, seq![Token::LoopEnd]);
            lemma_spells_split(tokens, at, seq![Token::LoopBegin], inner);
            let open = stack.push(Frame { opened_at: at, siblings });
            lemma_parse_reads_list(tokens, at + 1, open, Seq::empty(), children);
            assert(Seq::<Tree>::empty() + children =~= children);
            assert(open.drop_last() =~= stack);
            assert(*body == Tree::Block(children));
        },
        _ => {
            assert(spelled.len() == 1);
            assert(tokens[at + 0] == spelled[0]);
            assert(leaf(spelled[0]) == item);
        },
    }
}

/// Building reads the tokens of a list of trees that the builder makes as
/// that list.
pub proof fn lemma_parse_reads_list(
    tokens: Seq<Token>,
    at: int,
    stack: Seq<Frame>,
    siblings: Seq<Tree>,
    list: Seq<Tree>,
)
    requires
        built_items(list),
        spells(tokens, at, Tree::tokens_all(list)),
    ensures
        parse_from(tokens, at, stack, siblings) == parse_from(
            tokens,
            at + Tree::tokens_all(list).len(),
            stack,
            siblings + list,
        ),
    decreases list, 1nat,
{
    if list.len() == 0 {
        assert(siblings + list =~= siblings);
    } else {
        let front = list.drop_last();
        let item = list.last();
        lemma_spells_split(tokens, at, Tree::tokens_all(front), item.tokens());
        lemma_parse_reads_list(tokens, at, stack, siblings, front);
        lemma_parse_reads_item(
            tokens,
            at + Tree::tokens_all(front).len(),
            stack,
            siblings + front,
            item,
        );
        assert((siblings + front).push(item) =~= siblings + list);
    }
}

/// The tokens of a list of trees that the builder makes build the tree that
/// the list collapses into.
pub proof fn lemma_parse_of_tokens(list: Seq<Tree>)
    requires
        built_items(list),
    ensures
        parse(Tree::tokens_all(list)) == Ok::<Tree, ParseError>(collapse(list)),
{
    let tokens = Tree::tokens_all(list);
    lemma_parse_reads_list(tokens, 0, Seq::empty(), Seq::empty(), list);
    assert(Seq::<Tree>::empty() + list =~= list);
}

/// The tokens read so far, as the lists spell them: each suspended list is
/// followed by the `[` that suspended it.
pub open spec fn suspended_tokens(stack: Seq<Frame>) -> Seq<Token>
    decreases stack.len(),
{
    if stack.len() == 0 {
        Seq::empty()
    } else {
        suspended_tokens(stack.drop_last()) + Tree::tokens_all(stack.last().siblings)
            + seq![Token::LoopBegin]
    }
}

/// The tokens of a list that grew by one tree.
pub proof fn lemma_tokens_all_push(list: Seq<Tree>, tree: Tree)
    ensures
        Tree::tokens_all(list.push(tree)) == Tree::tokens_all(list) + tree.tokens(),
{
    assert(list.push(tree).drop_last() =~= list);
}

/// A list of siblings spells the same tokens as the tree that it collapses
/// into.
pub proof fn lemma_collapse_tokens(siblings: Seq<Tree>)
    ensures
        collapse(siblings).tokens() == Tree::tokens_all(siblings),
{
    if siblings.len() == 1 {
        assert(siblings =~= seq![siblings[0]]);
        lemma_tokens_all_one(siblings[0]);
    }
}

/// A tree built from a point up to which the lists spell the tokens read
/// spells all the tokens.
pub proof fn lemma_parse_from_spells(
    tokens: Seq<Token>,
    at: int,
    stack: Seq<Frame>,
    siblings: Seq<Tree>,
)
    requires
        0 <= at <= tokens.len(),
        tokens.take(at) == suspended_tokens(stack) + Tree::tokens_all(siblings),
    ensures
        parse_from(tokens, at, stack, siblings) matches Ok(tree) ==> tree.tokens() == tokens,
    decreases tokens.len() - at,
{
    if at == tokens.len() {
        assert(tokens.take(at) =~= tokens);
        lemma_collapse_tokens(siblings);
        if stack.len() == 0 {
            assert(suspended_tokens(stack) + Tree::tokens_all(siblings) =~= Tree::tokens_all(
                siblings,
            ));
        }
    } else {
        let read = tokens.take(at);
        assert(tokens.take(at + 1) =~= read.push(tokens[at]));
        match tokens[at] {
            Token::LoopBegin => {
                let open = stack.push(Frame { opened_at: at, siblings });
                assert(open.drop_last() =~= stack);
                assert(Tree::tokens_all(Seq::<Tree>::empty()) =~= Seq::<Token>::empty());
                assert(tokens.take(at + 1) =~= suspended_tokens(open) + Tree::tokens_all(
                    Seq::<Tree>::empty(),
                ));
                lemma_parse_from_spells(tokens, at + 1, open, Seq::empty());
            },
            Token::LoopEnd => {
                if stack.len() > 0 {
                    let body = Tree::Loop(Box::new(Tree::Block(siblings)));
                    let resumed = stack.last().siblings.push(body);
                    lemma_tokens_all_push(stack.last().siblings, body);
                    assert(Tree::Block(siblings).tokens() == Tree::tokens_all(siblings));
                    assert(body.tokens() == seq![Token::LoopBegin] + Tree::tokens_all(siblings)
                        + seq![Token::LoopEnd]);
                    assert(tokens.take(at + 1) =~= suspended_tokens(stack.drop_last())
                        + Tree::tokens_all(resumed));
                    lemma_parse_from_spells(tokens, at + 1, stack.drop_last(), resumed);
                }
            },
            token => {
                lemma_tokens_all_push(siblings, leaf(token));
                assert(leaf(token).tokens() =~= seq![token]);
                assert(tokens.take(at + 1) =~= suspended_tokens(stack) + Tree::tokens_all(
                    siblings.push(leaf(token)),
                ));
                lemma_parse_from_spells(tokens, at + 1, stack, siblings.push(leaf(token)));
            },
        }
    }
}

/// The tree of a token sequence spells that sequence: building loses no
/// token and adds none.
pub proof fn lemma_parse_spells(tokens: Seq<Token>)
    ensures
        parse(tokens) matches Ok(tree) ==> tree.tokens() == tokens,
{
    assert(tokens.take(0) =~= suspended_tokens(Seq::empty()) + Tree::tokens_all(
        Seq::<Tree>::empty(),
    ));
    lemma_parse_from_spells(tokens, 0, Seq::empty(), Seq::empty());
}

/// Building from lists of trees that the builder makes gives a tree that
/// the builder makes.
pub proof fn lemma_parse_from_built(
    tokens: Seq<Token>,
    at: int,
    stack: Seq<Frame>,
    siblings: Seq<Tree>,
)
    requires
        0 <= at <= tokens.len(),
        built_items(siblings),
        forall|i: int| 0 <= i < stack.len() ==> built_items(#[trigger] stack[i].siblings),
    ensures
        parse_from(tokens, at, stack, siblings) matches Ok(tree) ==> built(tree),
    decreases tokens.len() - at,
{
    if at < tokens.len() {
        match tokens[at] {
            Token::LoopBegin => {
                lemma_parse_from_built(
                    tokens,
                    at + 1,
                    stack.push(Frame { opened_at: at, siblings }),
                    Seq::empty(),
                );
            },
            Token::LoopEnd => {
                if stack.len() > 0 {
                    let body = Tree::Loop(Box::new(Tree::Block(siblings)));
                    assert(built(body));
                    lemma_parse_from_built(
                        tokens,
                        at + 1,
                        stack.drop_last(),
                        stack.last().siblings.push(body),
                    );
                }
            },
            token => {
                lemma_parse_from_built(tokens, at + 1, stack, siblings.push(leaf(token)));
            },
        }
    }
}

/// The tree of a token sequence is a tree as the builder makes it.
pub proof fn lemma_parse_built(tokens: Seq<Token>)
    ensures
        parse(tokens) matches Ok(tree) ==> built(tree),
{
    lemma_parse_from_built(tokens, 0, Seq::empty(), Seq::empty());
}

/// A tree in the form that optimizing gives to what the builder makes: no
/// delta is zero, blocks stand nowhere else but at the root and as the body
/// of a loop, no block has exactly one child, and among the children of a
/// block no two neighbours are both cell adjustments or both pointer moves.
pub open spec fn normal(tree: Tree) -> bool
    decreases tree,
{
    match tree {
        Tree::Incr(delta) => delta != 0,
        Tree::Move(delta) => delta != 0,
        Tree::Write => true,
        Tree::Loop(body) => normal(*body),
        Tree::Block(children) => children.len() != 1 && normal_items(children),
    }
}

/// Every member of the list is in normal form and none is a block, and no
/// two neighbours are both cell adjustments or both pointer moves.
pub open spec fn normal_items(list: Seq<Tree>) -> bool
    decreases list,
{
    &&& forall|i: int| 0 <= i < list.len() ==> !(#[trigger] list[i] is Block) && normal(list[i])
    &&& forall|i: int|
        0 < i < list.len() ==> !(list[i - 1] is Incr && #[trigger] list[i] is Incr) && !(list[i
            - 1] is Move && list[i] is Move)
}

/// A list in normal form that takes in a tree in normal form, other than a
/// block, is in normal form.
pub proof fn lemma_absorb_normal(kept: Seq<Tree>, next: Tree)
    requires
        normal_items(kept),
        normal(next),
        !(next is Block),
    ensures
        normal_items(absorb(kept, next)),
{
    let grown = absorb(kept, next);
    assert forall|i: int| 0 <= i < grown.len() implies !(#[trigger] grown[i] is Block) && normal(
        grown[i],
    ) by {
        if i < kept.len() - 1 {
            assert(grown[i] == kept[i]);
        }
    }
    assert forall|i: int| 0 < i < grown.len() implies !(grown[i - 1] is Incr
        && #[trigger] grown[i] is Incr) && !(grown[i - 1] is Move && grown[i] is Move) by {
        if i < kept.len() - 1 {
            assert(grown[i] == kept[i]);
            assert(grown[i - 1] == kept[i - 1]);
        } else if i == kept.len() - 1 {
            assert(grown[i - 1] == kept[i - 1]);
            assert(kept[i] is Incr == grown[i] is Incr);
            assert(kept[i] is Move == grown[i] is Move);
        }
    }
}

/// A list in normal form collapses into a tree in normal form.
pub proof fn lemma_collapse_normal(list: Seq<Tree>)
    requires
        normal_items(list),
    ensures
        normal(collapse(list)),
{
    if list.len() == 1 {
        assert(normal(list[0]));
    }
}

/// Optimizing gives normal form to a tree that the builder makes.
pub proof fn lemma_optimize_normal(tree: Tree)
    requires
        built(tree),
    ensures
        normal(optimize(tree)),
        !(tree is Block) ==> !(optimize(tree) is Block),
    decreases tree, 1nat,
{
    match tree {
        Tree::Loop(body) => {
            let children = body->Block_0;
            assert(*body == Tree::Block(children));
            lemma_merge_normal(children);
            lemma_collapse_normal(merge(children));
            assert(optimize(*body) == collapse(merge(children)));
        },
        Tree::Block(children) => {
            lemma_merge_normal(children);
            lemma_collapse_normal(merge(children));
        },
        _ => {},
    }
}

/// Optimizing and merging gives normal form to a list of trees that the
/// builder makes.
pub proof fn lemma_merge_normal(children: Seq<Tree>)
    requires
        built_items(children),
    ensures
        normal_items(merge(children)),
    decreases children, 0nat,
{
    if children.len() > 0 {
        lemma_merge_normal(children.drop_last());
        lemma_optimize_normal(children.last());
        lemma_absorb_normal(merge(children.drop_last()), optimize(children.last()));
    }
}

/// `count` copies of one tree.
pub open spec fn copies(unit: Tree, count: nat) -> Seq<Tree> {
    Seq::new(count, |i: int| unit)
}

/// The trees, as the builder makes them, that the tokens of a tree build: a
/// delta becomes that many steps of its sign, the body of a loop becomes a
/// block, and a block becomes its children.
pub open spec fn raw(tree: Tree) -> Seq<Tree>
    decreases tree,
{
    match tree {
        Tree::Incr(delta) => if delta >= 0 {
            copies(Tree::Incr(1), delta as nat)
        } else {
            copies(Tree::Incr(-1), (-delta) as nat)
        },
        Tree::Move(delta) => if delta >= 0 {
            copies(Tree::Move(1), delta as nat)
        } else {
            copies(Tree::Move(-1), (-delta) as nat)
        },
        Tree::Write => seq![Tree::Write],
        Tree::Loop(body) => seq![Tree::Loop(Box::new(Tree::Block(raw(*body))))],
        Tree::Block(children) => raw_all(children),
    }
}

/// The trees that the tokens of a list of trees build.
pub open spec fn raw_all(list: Seq<Tree>) -> Seq<Tree>
    decreases list,
{
    if list.len() == 0 {
        Seq::empty()
    } else {
        raw_all(list.drop_last()) + raw(list.last())
    }
}

/// Copies of a tree that spells one token spell copies of that token.
pub proof fn lemma_copies_tokens(unit: Tree, token: Token, count: nat)
    requires
        unit.tokens() == seq![token],
    ensures
        Tree::tokens_all(copies(unit, count)) == repeat(token, count),
    decreases count,
{
    if count == 0 {
        assert(Tree::tokens_all(copies(unit, count)) =~= repeat(token, count));
    } else {
        lemma_copies_tokens(unit, token, (count - 1) as nat);
        assert(copies(unit, count).drop_last() =~= copies(unit, (count - 1) as nat));
        assert(repeat(token, (count - 1) as nat) + seq![token] =~= repeat(token, count));
    }
}

/// What the tokens of a tree build spells the same tokens as the tree.
pub proof fn lemma_raw_tokens(tree: Tree)
    ensures
        Tree::tokens_all(raw(tree)) == tree.tokens(),
    decreases tree, 0nat,
{
    match tree {
        Tree::Incr(delta) => {
            assert(Tree::Incr(1).tokens() =~= seq![Token::Incr]);
            assert(Tree::Incr(-1).tokens() =~= seq![Token::Decr]);
            if delta >= 0 {
                lemma_copies_tokens(Tree::Incr(1), Token::Incr, delta as nat);
            } else {
                lemma_copies_tokens(Tree::Incr(-1), Token::Decr, (-delta) as nat);
            }
        },
        Tree::Move(delta) => {
            assert(Tree::Move(1).tokens() =~= seq![Token::MoveRight]);
            assert(Tree::Move(-1).tokens() =~= seq![Token::MoveLeft]);
            if delta >= 0 {
                lemma_copies_tokens(Tree::Move(1), Token::MoveRight, delta as nat);
            } else {
                lemma_copies_tokens(Tree::Move(-1), Token::MoveLeft, (-delta) as nat);
            }
        },
        Tree::Write => {
            lemma_tokens_all_one(Tree::Write);
        },
        Tree::Loop(body) => {
            let rebuilt = Tree::Loop(Box::new(Tree::Block(raw(*body))));
            lemma_raw_tokens(*body);
            lemma_tokens_all_one(rebuilt);
            assert(Tree::Block(raw(*body)).tokens() == Tree::tokens_all(raw(*body)));
        },
        Tree::Block(children) => {
            lemma_raw_all_tokens(children);
        },
    }
}

/// What the tokens of a list build spells the same tokens as the list.
pub proof fn lemma_raw_all_tokens(list: Seq<Tree>)
    ensures
        Tree::tokens_all(raw_all(list)) == Tree::tokens_all(list),
    decreases list, 1nat,
{
    if list.len() > 0 {
        lemma_raw_all_tokens(list.drop_last());
        lemma_raw_tokens(list.last());
        lemma_tokens_all_add(raw_all(list.drop_last()), raw(list.last()));
    }
}

/// What the tokens of a tree build are trees as the builder makes them.
pub proof fn lemma_raw_built(tree: Tree)
    ensures
        built_items(raw(tree)),
    decreases tree, 0nat,
{
    match tree {
        Tree::Loop(body) => {
            lemma_raw_built(*body);
            assert(built(Tree::Loop(Box::new(Tree::Block(raw(*body))))));
        },
        Tree::Block(children) => {
            lemma_raw_all_built(children);
        },
        _ => {},
    }
}

/// What the tokens of a list build are trees as the builder makes them.
pub proof fn lemma_raw_all_built(list: Seq<Tree>)
    ensures
        built_items(raw_all(list)),
    decreases list, 1nat,
{
    if list.len() > 0 {
        lemma_raw_all_built(list.drop_last());
        lemma_raw_built(list.last());
    }
}

/// Merging a list that grew by one tree is merging the list and taking in
/// the optimized tree.
pub proof fn lemma_merge_push(list: Seq<Tree>, tree: Tree)
    ensures
        merge(list.push(tree)) == absorb(merge(list), optimize(tree)),
{
    assert(list.push(tree).drop_last() =~= list);
}

/// The optimized form of what a list collapses into is what the merged list
/// collapses into.
pub proof fn lemma_optimize_collapse(list: Seq<Tree>)
    ensures
        optimize(collapse(list)) == collapse(merge(list)),
{
    if list.len() == 1 {
        assert(list.drop_last() =~= Seq::<Tree>::empty());
        assert(merge(list.drop_last()) =~= Seq::<Tree>::empty());
        let only = optimize(list[0]);
        if only == nothing() {
            assert(merge(list) =~= Seq::<Tree>::empty());
        } else {
            assert(merge(list) =~= seq![only]);
        }
    }
}

/// The steps of a cell adjustment, merged behind a list whose merged form
/// does not end in a cell adjustment, are the adjustment.
pub proof fn lemma_rebuild_incr(prefix: Seq<Tree>, delta: int)
    requires
        delta != 0,
        merge(prefix).len() == 0 || !(merge(prefix).last() is Incr),
    ensures
        merge(prefix + raw(Tree::Incr(delta))) == merge(prefix).push(Tree::Incr(delta)),
    decreases if delta >= 0 { delta } else { -delta },
{
    let kept = merge(prefix);
    let step: int = if delta > 0 { 1 } else { -1 };
    let unit = Tree::Incr(step);
    let less = Tree::Incr(delta - step);
    assert(nothing()->Block_0.len() == 0);
    if delta == step {
        assert(prefix + raw(Tree::Incr(delta)) =~= prefix.push(unit));
        lemma_merge_push(prefix, unit);
    } else {
        lemma_rebuild_incr(prefix, delta - step);
        assert(prefix + raw(Tree::Incr(delta)) =~= (prefix + raw(less)).push(unit));
        lemma_merge_push(prefix + raw(less), unit);
        assert(kept.push(less).drop_last() =~= kept);
    }
}

/// The steps of a pointer move, merged behind a list whose merged form does
/// not end in a pointer move, are the move.
pub proof fn lemma_rebuild_move(prefix: Seq<Tree>, delta: int)
    requires
        delta != 0,
        merge(prefix).len() == 0 || !(merge(prefix).last() is Move),
    ensures
        merge(prefix + raw(Tree::Move(delta))) == merge(prefix).push(Tree::Move(delta)),
    decreases if delta >= 0 { delta } else { -delta },
{
    let kept = merge(prefix);
    let step: int = if delta > 0 { 1 } else { -1 };
    let unit = Tree::Move(step);
    let less = Tree::Move(delta - step);
    assert(nothing()->Block_0.len() == 0);
    if delta == step {
        assert(prefix + raw(Tree::Move(delta)) =~= prefix.push(unit));
        lemma_merge_push(prefix, unit);
    } else {
        lemma_rebuild_move(prefix, delta - step);
        assert(prefix + raw(Tree::Move(delta)) =~= (prefix + raw(less)).push(unit));
        lemma_merge_push(prefix + raw(less), unit);
        assert(kept.push(less).drop_last() =~= kept);
    }
}

/// What the tokens of a tree in normal form build collapses, once optimized
/// and merged, into the tree.
pub proof fn lemma_rebuild(tree: Tree)
    requires
        normal(tree),
    ensures
        collapse(merge(raw(tree))) == tree,
    decreases tree, 1nat,
{
    match tree {
        Tree::Block(children) => {
            lemma_rebuild_items(children);
        },
        _ => {
            let empty = Seq::<Tree>::empty();
            assert(merge(empty) =~= empty);
            lemma_rebuild_item(empty, tree);
            assert(empty + raw(tree) =~= raw(tree));
            assert(empty.push(tree)[0] == tree);
        },
    }
}

/// What the tokens of a tree in normal form, other than a block, build is
/// merged into the tree, behind a list whose merged form does not end in a
/// tree that would merge with it.
pub proof fn lemma_rebuild_item(prefix: Seq<Tree>, item: Tree)
    requires
        normal(item),
        !(item is Block),
        merge(prefix).len() == 0 || (!(merge(prefix).last() is Incr && item is Incr) && !(merge(
            prefix,
        ).last() is Move && item is Move)),
    ensures
        merge(prefix + raw(item)) == merge(prefix).push(item),
    decreases item, 0nat,
{
    assert(nothing()->Block_0.len() == 0);
    match item {
        Tree::Incr(delta) => {
            lemma_rebuild_incr(prefix, delta);
        },
        Tree::Move(delta) => {
            lemma_rebuild_move(prefix, delta);
        },
        Tree::Loop(body) => {
            let rebuilt = Tree::Loop(Box::new(Tree::Block(raw(*body))));
            lemma_rebuild(*body);
            assert(optimize(Tree::Block(raw(*body))) == collapse(merge(raw(*body))));
            assert(optimize(rebuilt) == item);
            assert(prefix + raw(item) =~= prefix.push(rebuilt));
            lemma_merge_push(prefix, rebuilt);
        },
        _ => {
            assert(prefix + raw(item) =~= prefix.push(item));
            lemma_merge_push(prefix, item);
        },
    }
}

/// What the tokens of a list in normal form build is merged into the list.
pub proof fn lemma_rebuild_items(list: Seq<Tree>)
    requires
        normal_items(list),
    ensures
        merge(raw_all(list)) == list,
    decreases list, 0nat,
{
    if list.len() == 0 {
        assert(merge(raw_all(list)) =~= list);
    } else {
        let front = list.drop_last();
        lemma_rebuild_items(front);
        if front.len() > 0 {
            assert(front.last() == list[list.len() - 2]);
        }
        lemma_rebuild_item(raw_all(front), list.last());
        assert(front.push(list.last()) =~= list);
    }
}

/// The tokens of a tree in normal form build a tree whose optimized form is
/// the tree.
pub proof fn lemma_normal_round_trip(tree: Tree)
    requires
        normal(tree),
    ensures
        parse(tree.tokens()) == Ok::<Tree, ParseError>(collapse(raw(tree))),
        optimize(collapse(raw(tree))) == tree,
{
    lemma_raw_tokens(tree);
    lemma_raw_built(tree);
    lemma_parse_of_tokens(raw(tree));
    lemma_optimize_collapse(raw(tree));
    lemma_rebuild(tree);
}

/// The round trip: a program that compiles, written out in the tape
/// language from its optimized tree and compiled again, gives that tree.
pub proof fn lemma_round_trip(text: Seq<char>)
    requires
        compile(text) is Ok,
    ensures
        compile(render(compile(text)->Ok_0, Target::Bf)) == compile(text),
{
    let tree = parse(lex(text))->Ok_0;
    let optimized = optimize(tree);
    lemma_parse_built(lex(text));
    lemma_optimize_normal(tree);
    lemma_render_bf(optimized);
    lemma_lex_symbols(optimized.tokens());
    lemma_normal_round_trip(optimized);
}

} // verus!
