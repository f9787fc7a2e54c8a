//! Optimizing keeps what a program does: the proof that the optimized tree
//! runs as the tree itself.
//!
//! The statement leaves out the runs that stop out of bounds. A tree that
//! moves the pointer off the tape and back stops there, while its optimized
//! form, in which the two moves are one, goes on.

use crate::ast::{collapse, Tree};
use crate::compiler::compile;
use crate::optimizer::{absorb, merge, nothing, optimize};
use crate::parser::parse;
use crate::token::lex;
use crate::vm::{
    lemma_run_all_fuel, lemma_run_fuel, run, run_all, run_loop, Machine, RunError,
};
use vstd::arithmetic::div_mod::lemma_add_mod_noop_right;
use vstd::prelude::*;

verus! {

/// A list that grew by one tree runs as the list and then the tree.
pub proof fn lemma_run_all_push(list: Seq<Tree>, tree: Tree, machine: Machine, fuel: nat)
    ensures
        run_all(list.push(tree), machine, fuel) == if run_all(list, machine, fuel).stop is Some {
            run_all(list, machine, fuel)
        } else {
            run(
                tree,
                run_all(list, machine, fuel).machine,
                run_all(list, machine, fuel).fuel,
            )
        },
{
    assert(list.push(tree).drop_last() =~= list);
}

/// Adding nothing to the current cell leaves the machine as it is, and adding
/// twice is adding the sum.
pub proof fn lemma_add_twice(machine: Machine, first: int, second: int)
    requires
        machine.wf(),
    ensures
        machine.add(0) == machine,
        machine.add(first).add(second) == machine.add(first + second),
{
    assert(machine.add(0).tape =~= machine.tape);
    lemma_add_mod_noop_right(second, machine.cell() + first, 256);
    assert(machine.add(first).add(second).tape =~= machine.add(first + second).tape);
}

/// A list of siblings runs as the tree that it collapses into.
pub proof fn lemma_collapse_run(siblings: Seq<Tree>, machine: Machine, fuel: nat)
    ensures
        run(collapse(siblings), machine, fuel) == run_all(siblings, machine, fuel),
{
    if siblings.len() == 1 {
        assert(siblings.drop_last() =~= Seq::<Tree>::empty());
        assert(run_all(siblings.drop_last(), machine, fuel) == machine.done(fuel));
    }
}

/// A list that takes in a tree by merging runs as the list with the tree
/// appended, provided that the latter does not run off the tape.
pub proof fn lemma_absorb_run(kept: Seq<Tree>, next: Tree, machine: Machine, fuel: nat)
    requires
        machine.wf(),
        run_all(kept.push(next), machine, fuel).stop != Some(RunError::OutOfBounds),
    ensures
        run_all(absorb(kept, next), machine, fuel) == run_all(kept.push(next), machine, fuel),
{
    lemma_run_all_push(kept, next, machine, fuel);
    let before = run_all(kept, machine, fuel);
    lemma_run_all_fuel(kept, machine, fuel);
    if next == nothing() {
        assert(run_all(Seq::<Tree>::empty(), before.machine, before.fuel) == before.machine.done(
            before.fuel,
        ));
    } else if kept.len() > 0 && ((kept.last() is Incr && next is Incr) || (kept.last() is Move
        && next is Move)) {
        let front = kept.drop_last();
        let start = run_all(front, machine, fuel);
        assert(front.push(kept.last()) =~= kept);
        lemma_run_all_push(front, kept.last(), machine, fuel);
        lemma_run_all_fuel(front, machine, fuel);
        if start.stop is None {
            if kept.last() is Incr {
                let sum = kept.last()->Incr_0 + next->Incr_0;
                lemma_add_twice(start.machine, kept.last()->Incr_0, next->Incr_0);
                if sum != 0 {
                    lemma_run_all_push(front, Tree::Incr(sum), machine, fuel);
                }
            } else {
                let sum = kept.last()->Move_0 + next->Move_0;
                if sum != 0 {
                    lemma_run_all_push(front, Tree::Move(sum), machine, fuel);
                }
            }
        } else {
            if kept.last() is Incr {
                let sum = kept.last()->Incr_0 + next->Incr_0;
                if sum != 0 {
                    lemma_run_all_push(front, Tree::Incr(sum), machine, fuel);
                }
            } else {
                let sum = kept.last()->Move_0 + next->Move_0;
                if sum != 0 {
                    lemma_run_all_push(front, Tree::Move(sum), machine, fuel);
                }
            }
        }
    }
}

/// Optimizing keeps the run of a tree.
///
/// On every machine and with every amount of fuel, the optimized tree ends
/// its run where the tree ends it: with the same tape, pointer and output,
/// the same fuel left and for the same reason. This holds of every run of the
/// tree that does not stop out of bounds.
pub proof fn lemma_optimize_keeps_run(tree: Tree, machine: Machine, fuel: nat)
    requires
        machine.wf(),
        run(tree, machine, fuel).stop != Some(RunError::OutOfBounds),
    ensures
        run(optimize(tree), machine, fuel) == run(tree, machine, fuel),
    decreases tree, fuel, 0nat,
{
    match tree {
        Tree::Incr(delta) => {
            lemma_add_twice(machine, 0, 0);
        },
        Tree::Move(delta) => {},
        Tree::Write => {},
        Tree::Loop(body) => {
            lemma_optimize_keeps_loop(*body, machine, fuel);
        },
        Tree::Block(children) => {
            lemma_merge_keeps_run(children, machine, fuel);
            lemma_collapse_run(merge(children), machine, fuel);
        },
    }
}

/// A loop with an optimized body runs as the loop with the body itself,
/// provided that the latter does not run off the tape.
pub proof fn lemma_optimize_keeps_loop(body: Tree, machine: Machine, fuel: nat)
    requires
        machine.wf(),
        run_loop(body, machine, fuel).stop != Some(RunError::OutOfBounds),
    ensures
        run_loop(optimize(body), machine, fuel) == run_loop(body, machine, fuel),
    decreases body, fuel, 1nat,
{
    if machine.cell() != 0 && fuel > 0 {
        let turn = run(body, machine, (fuel - 1) as nat);
        lemma_run_fuel(body, machine, (fuel - 1) as nat);
        lemma_optimize_keeps_run(body, machine, (fuel - 1) as nat);
        if turn.stop is None {
            lemma_optimize_keeps_loop(body, turn.machine, turn.fuel);
        }
    }
}

/// The optimized and merged children of a block run as the children
/// themselves, provided that the latter do not run off the tape.
pub proof fn lemma_merge_keeps_run(children: Seq<Tree>, machine: Machine, fuel: nat)
    requires
        machine.wf(),
        run_all(children, machine, fuel).stop != Some(RunError::OutOfBounds),
    ensures
        run_all(merge(children), machine, fuel) == run_all(children, machine, fuel),
    decreases children, fuel, 0nat,
{
    if children.len() > 0 {
        let front = children.drop_last();
        let before = run_all(front, machine, fuel);
        let kept = merge(front);
        let next = optimize(children.last());
        lemma_merge_keeps_run(front, machine, fuel);
        lemma_run_all_fuel(front, machine, fuel);
        if before.stop is None {
            lemma_optimize_keeps_run(children.last(), before.machine, before.fuel);
        }
        lemma_run_all_push(kept, next, machine, fuel);
        lemma_absorb_run(kept, next, machine, fuel);
    }
}

/// A compiled program runs as the tree that is built from its text: the
/// optimizer changes nothing that a run shows, for every run of the built
/// tree that does not stop out of bounds.
pub proof fn lemma_compile_keeps_run(text: Seq<char>, machine: Machine, fuel: nat)
    requires
        machine.wf(),
        parse(lex(text)) is Ok,
        run(parse(lex(text))->Ok_0, machine, fuel).stop != Some(RunError::OutOfBounds),
    ensures
        compile(text) is Ok,
        run(compile(text)->Ok_0, machine, fuel) == run(parse(lex(text))->Ok_0, machine, fuel),
{
    lemma_optimize_keeps_run(parse(lex(text))->Ok_0, machine, fuel);
}

} // verus!
