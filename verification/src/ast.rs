//! The syntax tree shared by every stage, and its mathematical model.

use crate::token::Token;
use vstd::prelude::*;

verus! {

/// The mathematical model of a syntax tree: deltas are unbounded integers and
/// the children of a block form a sequence.
pub enum Tree {
    /// Add the delta to the current cell.
    Incr(int),
    /// Add the delta to the pointer.
    Move(int),
    /// Emit the current cell as one byte.
    Write,
    /// Repeat the body while the current cell is not zero.
    Loop(Box<Tree>),
    /// Run the children in order.
    Block(Seq<Tree>),
}

/// A node of the syntax tree.
#[derive(Debug, PartialEq, Eq)]
pub enum Node {
    /// Add the delta to the current cell.
    Incr(isize),
    /// Add the delta to the pointer.
    Move(isize),
    /// Emit the current cell as one byte.
    Write,
    /// Repeat the body while the current cell is not zero.
    Loop(Box<Node>),
    /// Run the children in order.
    Block(Vec<Node>),
}

/// The absolute value of an integer.
pub open spec fn magnitude(d: int) -> nat {
    if d < 0 {
        (-d) as nat
    } else {
        d as nat
    }
}

/// `count` copies of one token.
pub open spec fn repeat(token: Token, count: nat) -> Seq<Token> {
    Seq::new(count, |i: int| token)
}

/// The tree that is a list of siblings: the list's only member where it has
/// exactly one, and a block of them otherwise.
pub open spec fn collapse(siblings: Seq<Tree>) -> Tree {
    if siblings.len() == 1 {
        siblings[0]
    } else {
        Tree::Block(siblings)
    }
}

impl Tree {
    /// The sum of the absolute deltas of all nodes of the tree. No delta that
    /// merging nodes of the tree can produce is larger in absolute value.
    pub open spec fn weight(self) -> nat
        decreases self,
    {
        match self {
            Tree::Incr(d) => magnitude(d),
            Tree::Move(d) => magnitude(d),
            Tree::Write => 0,
            Tree::Loop(body) => body.weight(),
            Tree::Block(children) => Tree::weight_all(children),
        }
    }

    /// The weights of a list of trees, added up.
    pub open spec fn weight_all(trees: Seq<Tree>) -> nat
        decreases trees,
    {
        if trees.len() == 0 {
            0
        } else {
            Tree::weight_all(trees.drop_last()) + trees.last().weight()
        }
    }

    /// The tokens that spell the tree: a delta becomes that many unit
    /// symbols of its sign, a loop is bracketed, a block is spelled child by
    /// child.
    pub open spec fn tokens(self) -> Seq<Token>
        decreases self,
    {
        match self {
            Tree::Incr(d) => if d >= 0 {
                repeat(Token::Incr, d as nat)
            } else {
                repeat(Token::Decr, (-d) as nat)
            },
            Tree::Move(d) => if d >= 0 {
                repeat(Token::MoveRight, d as nat)
            } else {
                repeat(Token::MoveLeft, (-d) as nat)
            },
            Tree::Write => seq![Token::Write],
            Tree::Loop(body) => seq![Token::LoopBegin] + body.tokens() + seq![Token::LoopEnd],
            Tree::Block(children) => Tree::tokens_all(children),
        }
    }

    /// The tokens of a list of trees, one tree after the other.
    pub open spec fn tokens_all(trees: Seq<Tree>) -> Seq<Token>
        decreases trees,
    {
        if trees.len() == 0 {
            Seq::empty()
        } else {
            Tree::tokens_all(trees.drop_last()) + trees.last().tokens()
        }
    }
}

/// The trees that a list of nodes stands for.
pub open spec fn trees(nodes: Seq<Node>) -> Seq<Tree> {
    Seq::new(nodes.len(), |i: int| nodes[i]@)
}

impl Node {
    /// The tree that this node stands for.
    pub open spec fn tree(&self) -> Tree
        decreases self,
    {
        match self {
            Node::Incr(d) => Tree::Incr(*d as int),
            Node::Move(d) => Tree::Move(*d as int),
            Node::Write => Tree::Write,
            Node::Loop(body) => Tree::Loop(Box::new(body.tree())),
            Node::Block(children) => Tree::Block(
                Seq::new(
                    children@.len(),
                    |i: int|
                        if 0 <= i < children@.len() {
                            children@[i].tree()
                        } else {
                            Tree::Write
                        },
                ),
            ),
        }
    }

    /// A deep copy of this node.
    pub fn duplicate(&self) -> (copy: Node)
        ensures
            copy@ == self@,
        decreases self,
    {
        match self {
            Node::Incr(d) => Node::Incr(*d),
            Node::Move(d) => Node::Move(*d),
            Node::Write => Node::Write,
            Node::Loop(body) => Node::Loop(Box::new(body.duplicate())),
            Node::Block(children) => {
                let mut copies: Vec<Node> = Vec::new();
                let mut i: usize = 0;
                while i < children.len()
                    invariant
                        *self == Node::Block(*children),
                        i <= children.len(),
                        trees(copies@) == trees(children@).take(i as int),
                    decreases children.len() - i,
                {
                    proof {
                        lemma_child_is_smaller(self, i as int);
                    }
                    let copy = children[i].duplicate();
                    proof {
                        lemma_trees_push(copies@, copy);
                        lemma_take_next(trees(children@), i as int);
                    }
                    copies.push(copy);
                    i += 1;
                }
                proof {
                    assert(trees(children@).take(i as int) =~= trees(children@));
                    lemma_block_view(copies);
                    lemma_block_view(*children);
                }
                Node::Block(copies)
            },
        }
    }
}

impl View for Node {
    type V = Tree;

    open spec fn view(&self) -> Tree {
        self.tree()
    }
}

impl Clone for Node {
    fn clone(&self) -> (copy: Node)
        ensures
            copy@ == self@,
    {
        self.duplicate()
    }
}

/// The absolute value of a delta.
pub fn delta_size(delta: isize) -> (size: usize)
    ensures
        size == magnitude(delta as int),
{
    if delta < 0 {
        (-(delta + 1)) as usize + 1
    } else {
        delta as usize
    }
}

/// Turns a list of siblings into one node: the only member of the list where
/// it has exactly one, and a block of them otherwise.
pub fn collapse_nodes(siblings: Vec<Node>) -> (node: Node)
    ensures
        node@ == collapse(trees(siblings@)),
{
    let mut siblings = siblings;
    if siblings.len() == 1 {
        let node = siblings.pop();
        match node {
            Some(node) => node,
            None => Node::Block(siblings),
        }
    } else {
        proof {
            lemma_block_view(siblings);
        }
        Node::Block(siblings)
    }
}

/// The view of a block is the block of its children's views.
pub proof fn lemma_block_view(children: Vec<Node>)
    ensures
        Node::Block(children)@ == Tree::Block(trees(children@)),
{
    assert(Node::Block(children)@->Block_0 =~= trees(children@));
}

/// The trees of a list that grew by one node.
pub proof fn lemma_trees_push(nodes: Seq<Node>, node: Node)
    ensures
        trees(nodes.push(node)) == trees(nodes).push(node@),
{
    assert(trees(nodes.push(node)) =~= trees(nodes).push(node@));
}

/// The first `n + 1` members of a list are its first `n` and the next one.
pub proof fn lemma_take_next<T>(list: Seq<T>, n: int)
    requires
        0 <= n < list.len(),
    ensures
        list.take(n + 1) == list.take(n).push(list[n]),
        list.take(n + 1).drop_last() == list.take(n),
        list.take(n + 1).last() == list[n],
{
    assert(list.take(n + 1) =~= list.take(n).push(list[n]));
    assert(list.take(n + 1).drop_last() =~= list.take(n));
}

/// A child of a block is smaller than the block, so that recursion into it
/// ends.
pub proof fn lemma_child_is_smaller(node: &Node, i: int)
    requires
        node is Block,
        0 <= i < node->Block_0@.len(),
    ensures
        decreases_to!(node => node->Block_0@[i]),
{
    assert(decreases_to!(*node => node->Block_0));
    assert(decreases_to!(node->Block_0 => node->Block_0@));
    assert(decreases_to!(node->Block_0@ => node->Block_0@[i]));
}

/// Adding a tree to a list adds its weight.
pub proof fn lemma_weight_push(list: Seq<Tree>, tree: Tree)
    ensures
        Tree::weight_all(list.push(tree)) == Tree::weight_all(list) + tree.weight(),
{
    assert(list.push(tree).drop_last() =~= list);
}

/// A part of a list weighs no more than the list.
pub proof fn lemma_weight_take(list: Seq<Tree>, n: int)
    requires
        0 <= n <= list.len(),
    ensures
        Tree::weight_all(list.take(n)) <= Tree::weight_all(list),
    decreases list.len(),
{
    if n == list.len() {
        assert(list.take(n) =~= list);
    } else {
        lemma_weight_take(list.drop_last(), n);
        assert(list.drop_last().take(n) =~= list.take(n));
    }
}

/// A member of a list weighs no more than the list.
pub proof fn lemma_weight_member(list: Seq<Tree>, i: int)
    requires
        0 <= i < list.len(),
    ensures
        list[i].weight() <= Tree::weight_all(list),
{
    lemma_weight_take(list, i + 1);
    assert(list.take(i + 1).last() == list[i]);
}

} // verus!
