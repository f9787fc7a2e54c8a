//! The tree-walking interpreter and the machine it runs on.

use crate::ast::{lemma_block_view, lemma_child_is_smaller, lemma_take_next, trees, Node, Tree};
use vstd::arithmetic::div_mod::lemma_add_mod_noop_right;
use vstd::prelude::*;

verus! {

/// The number of cells of the tape.
pub const TAPE_LEN: usize = 30000;

/// The tape and the pointer of the interpreter.
pub struct State {
    pub memory: [u8; 30000],
    pub index: usize,
}

/// Why a run stopped before the end of the program.
#[derive(Clone, Copy, Debug, PartialEq, Eq)]
pub enum RunError {
    /// A move would have taken the pointer off the tape.
    OutOfBounds,
    /// The next turn of a loop was due and no fuel was left.
    OutOfFuel,
}

/// The mathematical model of the interpreter's state: the tape, the pointer
/// and the bytes written so far.
pub struct Machine {
    pub tape: Seq<u8>,
    pub pointer: int,
    pub output: Seq<u8>,
}

/// Where a run ended: the machine at that point, the fuel that is left, and
/// what stopped the run, if it did not come to the end of the program.
pub struct Run {
    pub machine: Machine,
    pub fuel: nat,
    pub stop: Option<RunError>,
}

/// The byte that an integer is modulo 256.
pub open spec fn wrap(value: int) -> u8 {
    (value % 256) as u8
}

impl Machine {
    /// The pointer is on the tape.
    pub open spec fn wf(self) -> bool {
        0 <= self.pointer < self.tape.len()
    }

    /// The current cell.
    pub open spec fn cell(self) -> u8 {
        self.tape[self.pointer]
    }

    /// The machine after `delta` was added to the current cell, modulo 256.
    pub open spec fn add(self, delta: int) -> Machine {
        Machine { tape: self.tape.update(self.pointer, wrap(self.cell() + delta)), ..self }
    }

    /// The machine after `delta` was added to the pointer.
    pub open spec fn shift(self, delta: int) -> Machine {
        Machine { pointer: self.pointer + delta, ..self }
    }

    /// The machine after the current cell was written.
    pub open spec fn emit(self) -> Machine {
        Machine { output: self.output.push(self.cell()), ..self }
    }

    /// A run that came to the end of what it was given.
    pub open spec fn done(self, fuel: nat) -> Run {
        Run { machine: self, fuel, stop: None }
    }

    /// A run that stopped at this machine.
    pub open spec fn stopped(self, fuel: nat, error: RunError) -> Run {
        Run { machine: self, fuel, stop: Some(error) }
    }
}

/// The run of a tree on a machine with the given fuel.
///
/// An adjustment changes the current cell modulo 256. A move changes the
/// pointer; one that would take it off the tape stops the run out of bounds
/// and leaves the machine as it was. A write appends the current cell to the
/// output. A loop runs its body for as long as the current cell, tested anew
/// at the pointer's place before every turn, is not zero. A block runs its
/// children in order. Each turn of a loop costs one unit of fuel; a turn that
/// is due when none is left stops the run out of fuel.
pub open spec fn run(tree: Tree, machine: Machine, fuel: nat) -> Run
    decreases tree, fuel, 0nat,
{
    match tree {
        Tree::Incr(delta) => machine.add(delta).done(fuel),
        Tree::Move(delta) => if machine.shift(delta).wf() {
            machine.shift(delta).done(fuel)
        } else {
            machine.stopped(fuel, RunError::OutOfBounds)
        },
        Tree::Write => machine.emit().done(fuel),
        Tree::Loop(body) => run_loop(*body, machine, fuel),
        Tree::Block(children) => run_all(children, machine, fuel),
    }
}

/// The run of a loop with the given body.
///
/// A turn of the body never gains fuel (`lemma_run_fuel`), so the last branch
/// is never taken; it is there for the definition to be well-founded.
pub open spec fn run_loop(body: Tree, machine: Machine, fuel: nat) -> Run
    decreases body, fuel, 1nat,
{
    if machine.cell() == 0 {
        machine.done(fuel)
    } else if fuel == 0 {
        machine.stopped(fuel, RunError::OutOfFuel)
    } else {
        let turn = run(body, machine, (fuel - 1) as nat);
        if turn.stop is Some {
            turn
        } else if turn.fuel < fuel {
            run_loop(body, turn.machine, turn.fuel)
        } else {
            turn
        }
    }
}

/// The run of a list of trees, one after the other, up to the first that
/// stops the run.
pub open spec fn run_all(trees: Seq<Tree>, machine: Machine, fuel: nat) -> Run
    decreases trees, fuel, 0nat,
{
    if trees.len() == 0 {
        machine.done(fuel)
    } else {
        let before = run_all(trees.drop_last(), machine, fuel);
        if before.stop is Some {
            before
        } else {
            run(trees.last(), before.machine, before.fuel)
        }
    }
}

/// A run never gains fuel, keeps the length of the tape, and keeps the
/// pointer on the tape.
pub proof fn lemma_run_fuel(tree: Tree, machine: Machine, fuel: nat)
    requires
        machine.wf(),
    ensures
        run(tree, machine, fuel).fuel <= fuel,
        run(tree, machine, fuel).machine.wf(),
        run(tree, machine, fuel).machine.tape.len() == machine.tape.len(),
    decreases tree, fuel, 0nat,
{
    match tree {
        Tree::Loop(body) => {
            lemma_run_loop_fuel(*body, machine, fuel);
        },
        Tree::Block(children) => {
            lemma_run_all_fuel(children, machine, fuel);
        },
        _ => {},
    }
}

/// A loop never gains fuel, keeps the length of the tape, and keeps the
/// pointer on the tape.
pub proof fn lemma_run_loop_fuel(body: Tree, machine: Machine, fuel: nat)
    requires
        machine.wf(),
    ensures
        run_loop(body, machine, fuel).fuel <= fuel,
        run_loop(body, machine, fuel).machine.wf(),
        run_loop(body, machine, fuel).machine.tape.len() == machine.tape.len(),
    decreases body, fuel, 1nat,
{
    if machine.cell() != 0 && fuel > 0 {
        let turn = run(body, machine, (fuel - 1) as nat);
        lemma_run_fuel(body, machine, (fuel - 1) as nat);
        if turn.stop is None {
            lemma_run_loop_fuel(body, turn.machine, turn.fuel);
        }
    }
}

/// A list of trees never gains fuel, keeps the length of the tape, and keeps
/// the pointer on the tape.
pub proof fn lemma_run_all_fuel(trees: Seq<Tree>, machine: Machine, fuel: nat)
    requires
        machine.wf(),
    ensures
        run_all(trees, machine, fuel).fuel <= fuel,
        run_all(trees, machine, fuel).machine.wf(),
        run_all(trees, machine, fuel).machine.tape.len() == machine.tape.len(),
    decreases trees, fuel, 0nat,
{
    if trees.len() > 0 {
        let before = run_all(trees.drop_last(), machine, fuel);
        lemma_run_all_fuel(trees.drop_last(), machine, fuel);
        if before.stop is None {
            lemma_run_fuel(trees.last(), before.machine, before.fuel);
        }
    }
}

impl State {
    /// The pointer is on the tape.
    pub open spec fn wf(&self) -> bool {
        self.index < TAPE_LEN
    }

    /// The machine that this state and the given output stand for.
    pub open spec fn machine(&self, output: Seq<u8>) -> Machine {
        Machine { tape: self.memory@, pointer: self.index as int, output }
    }

    /// The state at the start: every cell zero, the pointer at the first
    /// cell.
    pub fn new() -> (state: State)
        ensures
            state.wf(),
            state.index == 0,
            state.memory@ == Seq::new(TAPE_LEN as nat, |i: int| 0u8),
    {
        let state = State { memory: [0u8; 30000], index: 0 };
        assert(state.memory@ =~= Seq::new(TAPE_LEN as nat, |i: int| 0u8));
        state
    }
}

/// The current cell after `delta` was added to it, modulo 256.
fn add_to_cell(cell: u8, delta: isize) -> (sum: u8)
    ensures
        sum == wrap(cell + delta),
{
    let low: isize = match delta.checked_rem_euclid(256) {
        Some(low) => low,
        None => 0,
    };
    proof {
        lemma_add_mod_noop_right(cell as int, delta as int, 256);
    }
    let sum: isize = cell as isize + low;
    if sum >= 256 {
        (sum - 256) as u8
    } else {
        sum as u8
    }
}

/// Runs a tree on a state, appending what it writes to `output`.
///
/// Every turn of a loop takes one unit from `fuel`; the run stops with
/// `OutOfFuel` where a turn is due and `fuel` is zero. A move off the tape
/// stops the run with `OutOfBounds` and leaves the pointer where it was.
/// State, output and fuel are, in every case, those of the point at which
/// the run ended.
pub fn run_ast(node: &Node, state: &mut State, output: &mut Vec<u8>, fuel: &mut u64) -> (result:
    Result<(), RunError>)
    requires
        old(state).wf(),
    ensures
        final(state).wf(),
        final(state).machine(final(output)@) == run(
            node@,
            old(state).machine(old(output)@),
            *old(fuel) as nat,
        ).machine,
        *final(fuel) == run(node@, old(state).machine(old(output)@), *old(fuel) as nat).fuel,
        result is Ok <==> run(node@, old(state).machine(old(output)@), *old(fuel) as nat).stop
            is None,
        result matches Err(error) ==> run(
            node@,
            old(state).machine(old(output)@),
            *old(fuel) as nat,
        ).stop == Some(error),
    decreases node,
{
    let ghost start = state.machine(output@);
    let ghost budget = *fuel as nat;
    proof {
        lemma_run_fuel(node@, start, budget);
    }
    match node {
        Node::Incr(delta) => {
            let sum = add_to_cell(state.memory[state.index], *delta);
            state.memory[state.index] = sum;
            assert(state.machine(output@).tape =~= start.add(*delta as int).tape);
            Ok(())
        },
        Node::Move(delta) => {
            if *delta >= 0 {
                let step = *delta as usize;
                if step < TAPE_LEN - state.index {
                    state.index = state.index + step;
                    Ok(())
                } else {
                    Err(RunError::OutOfBounds)
                }
            } else {
                let step = (-(*delta + 1)) as usize;
                if step < state.index {
                    state.index = state.index - step - 1;
                    Ok(())
                } else {
                    Err(RunError::OutOfBounds)
                }
            }
        },
        Node::Write => {
            output.push(state.memory[state.index]);
            Ok(())
        },
        Node::Loop(body) => {
            while state.memory[state.index] != 0
                invariant
                    *node == Node::Loop(*body),
                    start == old(state).machine(old(output)@),
                    budget == *old(fuel),
                    state.wf(),
                    *fuel <= budget,
                    run(node@, start, budget) == run_loop(
                        body@,
                        state.machine(output@),
                        *fuel as nat,
                    ),
                decreases *fuel,
            {
                if *fuel == 0 {
                    return Err(RunError::OutOfFuel);
                }
                *fuel = *fuel - 1;
                proof {
                    lemma_run_fuel(body@, state.machine(output@), *fuel as nat);
                }
                match run_ast(body, state, output, fuel) {
                    Ok(()) => {},
                    Err(error) => {
                        return Err(error);
                    },
                }
            }
            Ok(())
        },
        Node::Block(children) => {
            let ghost all = trees(children@);
            proof {
                lemma_block_view(*children);
                assert(all.take(0) =~= Seq::<Tree>::empty());
            }
            let mut i: usize = 0;
            while i < children.len()
                invariant
                    *node == Node::Block(*children),
                    node@ == Tree::Block(all),
                    all == trees(children@),
                    i <= children.len(),
                    start == old(state).machine(old(output)@),
                    budget == *old(fuel),
                    state.wf(),
                    run_all(all.take(i as int), start, budget) == state.machine(output@).done(
                        *fuel as nat,
                    ),
                decreases children.len() - i,
            {
                let ghost before = state.machine(output@);
                let ghost left = *fuel as nat;
                proof {
                    lemma_child_is_smaller(node, i as int);
                    lemma_take_next(all, i as int);
                    assert(all[i as int] == children@[i as int]@);
                    assert(run_all(all.take(i + 1), start, budget) == run(
                        all[i as int],
                        before,
                        left,
                    ));
                }
                match run_ast(&children[i], state, output, fuel) {
                    Ok(()) => {},
                    Err(error) => {
                        proof {
                            lemma_run_all_stops(all, i as int + 1, start, budget);
                        }
                        return Err(error);
                    },
                }
                i += 1;
            }
            proof {
                assert(all.take(i as int) =~= all);
            }
            Ok(())
        },
    }
}

/// A list whose first `n` trees stop the run stops there as a whole.
pub proof fn lemma_run_all_stops(trees: Seq<Tree>, n: int, machine: Machine, fuel: nat)
    requires
        0 <= n <= trees.len(),
        run_all(trees.take(n), machine, fuel).stop is Some,
    ensures
        run_all(trees, machine, fuel) == run_all(trees.take(n), machine, fuel),
    decreases trees.len() - n,
{
    if n == trees.len() {
        assert(trees.take(n) =~= trees);
    } else {
        lemma_take_next(trees, n);
        lemma_run_all_stops(trees, n + 1, machine, fuel);
    }
}

} // verus!
