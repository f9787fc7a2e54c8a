//! The peephole optimizer: it removes nodes that do nothing and merges runs of
//! cell adjustments and of pointer moves.

use crate::ast::{
    collapse, collapse_nodes, delta_size, lemma_block_view, lemma_child_is_smaller, lemma_take_next,
    lemma_trees_push, lemma_weight_member, lemma_weight_push, lemma_weight_take, trees, Node, Tree,
};
use vstd::prelude::*;

verus! {

/// The block that does nothing.
pub open spec fn nothing() -> Tree {
    Tree::Block(Seq::empty())
}

/// A list of optimized siblings, grown by one more optimized tree.
///
/// A tree that does nothing is left out. A cell adjustment that follows a
/// cell adjustment is added to it, and so is a pointer move that follows a
/// pointer move; where the sum is zero both are gone, and the next tree meets
/// what stood before them. Every other tree is appended.
pub open spec fn absorb(kept: Seq<Tree>, next: Tree) -> Seq<Tree> {
    if next == nothing() {
        kept
    } else if kept.len() > 0 && (kept.last() is Incr) && (next is Incr) {
        let sum = kept.last()->Incr_0 + next->Incr_0;
        if sum == 0 {
            kept.drop_last()
        } else {
            kept.drop_last().push(Tree::Incr(sum))
        }
    } else if kept.len() > 0 && (kept.last() is Move) && (next is Move) {
        let sum = kept.last()->Move_0 + next->Move_0;
        if sum == 0 {
            kept.drop_last()
        } else {
            kept.drop_last().push(Tree::Move(sum))
        }
    } else {
        kept.push(next)
    }
}

/// The optimized form of a tree.
///
/// A zero adjustment and a zero move become the block that does nothing. A
/// loop keeps its place and has its body optimized. The children of a block
/// are optimized and merged from left to right (`absorb`), and a block that
/// is left with one child is replaced by that child.
pub open spec fn optimize(tree: Tree) -> Tree
    decreases tree,
{
    match tree {
        Tree::Incr(d) => if d == 0 {
            nothing()
        } else {
            tree
        },
        Tree::Move(d) => if d == 0 {
            nothing()
        } else {
            tree
        },
        Tree::Write => tree,
        Tree::Loop(body) => Tree::Loop(Box::new(optimize(*body))),
        Tree::Block(children) => collapse(merge(children)),
    }
}

/// The optimized children of a block, merged from left to right.
pub open spec fn merge(children: Seq<Tree>) -> Seq<Tree>
    decreases children,
{
    if children.len() == 0 {
        Seq::empty()
    } else {
        absorb(merge(children.drop_last()), optimize(children.last()))
    }
}

/// Merging never adds weight.
pub proof fn lemma_absorb_weight(kept: Seq<Tree>, next: Tree)
    ensures
        Tree::weight_all(absorb(kept, next)) <= Tree::weight_all(kept) + next.weight(),
{
    lemma_weight_push(kept, next);
    if kept.len() > 0 {
        lemma_weight_push(kept.drop_last(), kept.last());
        assert(kept.drop_last().push(kept.last()) =~= kept);
        if (kept.last() is Incr) && (next is Incr) {
            lemma_weight_push(kept.drop_last(), Tree::Incr(kept.last()->Incr_0 + next->Incr_0));
        }
        if (kept.last() is Move) && (next is Move) {
            lemma_weight_push(kept.drop_last(), Tree::Move(kept.last()->Move_0 + next->Move_0));
        }
    }
}

/// Optimizing never adds weight.
pub proof fn lemma_optimize_weight(tree: Tree)
    ensures
        optimize(tree).weight() <= tree.weight(),
    decreases tree, 1nat,
{
    match tree {
        Tree::Loop(body) => {
            lemma_optimize_weight(*body);
        },
        Tree::Block(children) => {
            lemma_merge_weight(children);
            let merged = merge(children);
            if merged.len() == 1 {
                lemma_weight_member(merged, 0);
            }
        },
        _ => {
            assert(Tree::weight_all(Seq::<Tree>::empty()) == 0);
        },
    }
}

/// Merging the children of a block never adds weight.
pub proof fn lemma_merge_weight(children: Seq<Tree>)
    ensures
        Tree::weight_all(merge(children)) <= Tree::weight_all(children),
    decreases children, 0nat,
{
    if children.len() > 0 {
        lemma_merge_weight(children.drop_last());
        lemma_optimize_weight(children.last());
        lemma_absorb_weight(merge(children.drop_last()), optimize(children.last()));
    }
}

/// A list that merging leaves as it is: every member is its own optimized
/// form and does something, and no two neighbours are both cell adjustments
/// or both pointer moves.
pub open spec fn merged(list: Seq<Tree>) -> bool {
    &&& forall|i: int|
        0 <= i < list.len() ==> optimize(#[trigger] list[i]) == list[i] && list[i] != nothing()
    &&& forall|i: int|
        0 < i < list.len() ==> !(list[i - 1] is Incr && #[trigger] list[i] is Incr) && !(list[i
            - 1] is Move && list[i] is Move)
}

/// A merged list that takes in a tree which is its own optimized form is
/// merged.
pub proof fn lemma_absorb_merged(kept: Seq<Tree>, next: Tree)
    requires
        merged(kept),
        optimize(next) == next,
    ensures
        merged(absorb(kept, next)),
{
    let grown = absorb(kept, next);
    assert forall|i: int| 0 <= i < grown.len() implies optimize(#[trigger] grown[i]) == grown[i]
        && grown[i] != nothing() by {
        if i < kept.len() - 1 {
            assert(grown[i] == kept[i]);
        }
    }
    assert forall|i: int| 0 < i < grown.len() implies !(grown[i - 1] is Incr
        && #[trigger] grown[i] is Incr) && !(grown[i - 1] is Move && grown[i] is Move) by {
        if i < kept.len() - 1 {
            assert(grown[i] == kept[i]);
            assert(grown[i - 1] == kept[i - 1]);
        } else if i == kept.len() - 1 {
            assert(grown[i - 1] == kept[i - 1]);
            assert(kept[i] is Incr == grown[i] is Incr);
            assert(kept[i] is Move == grown[i] is Move);
        }
    }
}

/// The children of a block, once optimized and merged, form a merged list,
/// provided that optimizing any of them twice is optimizing it once.
pub proof fn lemma_merge_merged(children: Seq<Tree>)
    requires
        forall|i: int|
            0 <= i < children.len() ==> optimize(optimize(#[trigger] children[i])) == optimize(
                children[i],
            ),
    ensures
        merged(merge(children)),
    decreases children.len(),
{
    if children.len() > 0 {
        lemma_merge_merged(children.drop_last());
        lemma_absorb_merged(merge(children.drop_last()), optimize(children.last()));
    }
}

/// Merging leaves a merged list as it is.
pub proof fn lemma_merge_fixes_merged(list: Seq<Tree>)
    requires
        merged(list),
    ensures
        merge(list) == list,
    decreases list.len(),
{
    if list.len() > 0 {
        lemma_merge_fixes_merged(list.drop_last());
        assert(list.drop_last().push(list.last()) =~= list);
        if list.len() > 1 {
            assert(list.drop_last().last() == list[list.len() - 2]);
        }
    }
}

/// Optimizing is idempotent: the optimized form of a tree is its own
/// optimized form.
pub proof fn lemma_optimize_idempotent(tree: Tree)
    ensures
        optimize(optimize(tree)) == optimize(tree),
    decreases tree,
{
    assert(merge(Seq::<Tree>::empty()) =~= Seq::<Tree>::empty());
    match tree {
        Tree::Loop(body) => {
            lemma_optimize_idempotent(*body);
        },
        Tree::Block(children) => {
            assert forall|i: int| 0 <= i < children.len() implies optimize(
                optimize(#[trigger] children[i]),
            ) == optimize(children[i]) by {
                lemma_optimize_idempotent(children[i]);
            }
            lemma_merge_merged(children);
            lemma_merge_fixes_merged(merge(children));
        },
        _ => {},
    }
}

/// Grows a list of optimized siblings by one more optimized node.
fn absorb_node(kept: &mut Vec<Node>, next: Node)
    requires
        Tree::weight_all(trees(old(kept)@)) + next@.weight() <= isize::MAX,
    ensures
        trees(final(kept)@) == absorb(trees(old(kept)@), next@),
{
    let ghost before = trees(kept@);
    let count = kept.len();
    proof {
        if count > 0 {
            lemma_weight_member(before, count - 1);
        }
        assert(nothing()->Block_0.len() == 0);
    }
    match next {
        Node::Incr(delta) => {
            if count > 0 {
                if let Node::Incr(last) = kept[count - 1] {
                    let sum = last + delta;
                    kept.pop();
                    assert(trees(kept@) =~= before.drop_last());
                    if sum != 0 {
                        proof {
                            lemma_trees_push(kept@, Node::Incr(sum));
                        }
                        kept.push(Node::Incr(sum));
                    }
                    return ;
                }
            }
            proof {
                lemma_trees_push(kept@, next);
            }
            kept.push(Node::Incr(delta));
        },
        Node::Move(delta) => {
            if count > 0 {
                if let Node::Move(last) = kept[count - 1] {
                    let sum = last + delta;
                    kept.pop();
                    assert(trees(kept@) =~= before.drop_last());
                    if sum != 0 {
                        proof {
                            lemma_trees_push(kept@, Node::Move(sum));
                        }
                        kept.push(Node::Move(sum));
                    }
                    return ;
                }
            }
            proof {
                lemma_trees_push(kept@, next);
            }
            kept.push(Node::Move(delta));
        },
        Node::Block(children) => {
            proof {
                lemma_block_view(children);
                lemma_trees_push(kept@, next);
            }
            if children.len() == 0 {
                assert(trees(children@) =~= Seq::<Tree>::empty());
            } else {
                kept.push(Node::Block(children));
            }
        },
        other => {
            proof {
                lemma_trees_push(kept@, other);
            }
            kept.push(other);
        },
    }
}

/// The weight of a tree, or `None` where it is more than `usize::MAX`.
///
/// A tree can be optimized where its weight is at most `isize::MAX`.
pub fn weigh(ast: &Node) -> (weight: Option<usize>)
    ensures
        match weight {
            Some(weight) => weight == ast@.weight(),
            None => ast@.weight() > usize::MAX,
        },
    decreases ast,
{
    match ast {
        Node::Incr(delta) => Some(delta_size(*delta)),
        Node::Move(delta) => Some(delta_size(*delta)),
        Node::Write => Some(0),
        Node::Loop(body) => weigh(body),
        Node::Block(children) => {
            let ghost all = trees(children@);
            proof {
                lemma_block_view(*children);
                assert(all.take(0) =~= Seq::<Tree>::empty());
            }
            let mut total: usize = 0;
            let mut i: usize = 0;
            while i < children.len()
                invariant
                    *ast == Node::Block(*children),
                    ast@ == Tree::Block(all),
                    all == trees(children@),
                    i <= children.len(),
                    total == Tree::weight_all(all.take(i as int)),
                decreases children.len() - i,
            {
                proof {
                    lemma_child_is_smaller(ast, i as int);
                    lemma_take_next(all, i as int);
                    lemma_weight_take(all, i + 1);
                    lemma_weight_push(all.take(i as int), all[i as int]);
                }
                let grown = match weigh(&children[i]) {
                    Some(weight) => total.checked_add(weight),
                    None => None,
                };
                match grown {
                    Some(sum) => {
                        total = sum;
                    },
                    None => {
                        return None;
                    },
                }
                i += 1;
            }
            proof {
                assert(all.take(i as int) =~= all);
            }
            Some(total)
        },
    }
}

/// Optimizes a tree.
///
/// The deltas of the tree must add up, in absolute value, to no more than
/// `isize::MAX`, so that every merged delta fits a machine integer. Trees
/// built from source text always do.
pub fn optimize_ast(ast: &Node) -> (optimized: Node)
    requires
        ast@.weight() <= isize::MAX,
    ensures
        optimized@ == optimize(ast@),
    decreases ast,
{
    match ast {
        Node::Incr(delta) => {
            if *delta == 0 {
                let empty: Vec<Node> = Vec::new();
                proof {
                    lemma_block_view(empty);
                    assert(trees(empty@) =~= Seq::<Tree>::empty());
                }
                Node::Block(empty)
            } else {
                Node::Incr(*delta)
            }
        },
        Node::Move(delta) => {
            if *delta == 0 {
                let empty: Vec<Node> = Vec::new();
                proof {
                    lemma_block_view(empty);
                    assert(trees(empty@) =~= Seq::<Tree>::empty());
                }
                Node::Block(empty)
            } else {
                Node::Move(*delta)
            }
        },
        Node::Write => Node::Write,
        Node::Loop(body) => Node::Loop(Box::new(optimize_ast(body))),
        Node::Block(children) => {
            let ghost all = trees(children@);
            proof {
                lemma_block_view(*children);
            }
            let mut kept: Vec<Node> = Vec::new();
            let mut i: usize = 0;
            assert(trees(kept@) =~= merge(all.take(0)));
            while i < children.len()
                invariant
                    *ast == Node::Block(*children),
                    all == trees(children@),
                    i <= children.len(),
                    Tree::weight_all(all) <= isize::MAX,
                    trees(kept@) == merge(all.take(i as int)),
                decreases children.len() - i,
            {
                proof {
                    lemma_child_is_smaller(ast, i as int);
                    lemma_weight_member(all, i as int);
                    lemma_take_next(all, i as int);
                    lemma_weight_take(all, i + 1);
                    lemma_weight_push(all.take(i as int), all[i as int]);
                    lemma_merge_weight(all.take(i as int));
                    lemma_optimize_weight(all[i as int]);
                }
                let child = optimize_ast(&children[i]);
                absorb_node(&mut kept, child);
                i += 1;
            }
            proof {
                assert(all.take(i as int) =~= all);
            }
            collapse_nodes(kept)
        },
    }
}

} // verus!
