//! The mathematical model of the optimiser: statements over unbounded
//! integers, the coalescing step for each instruction, and loop
//! classification.
use vstd::prelude::*;
use crate::symbol::BfSymbol;

verus! {

/// A statement of an optimised program, over unbounded integers.
pub enum Op {
    /// A run of pointer moves and cell changes: the net pointer displacement,
    /// and the net delta of each touched cell relative to the run's start.
    Action { offset: int, changes: Map<int, int> },
    /// `outputs` consecutive writes of the current cell.
    Output { outputs: int },
    /// `inputs` consecutive reads into the current cell.
    Input { inputs: int },
    /// A loop whose body could not be classified.
    Loop { body: Seq<Op> },
    /// Zeroing of the current cell (never produced by classification).
    ZeroLoop,
    /// Step the pointer by `direction` until the current cell is zero.
    ScanLoop { direction: int },
    /// Each round subtracts `decrement` from the current cell and adds
    /// `targets[k]` to the cell at relative offset `k`, until the current cell is zero.
    MultiplicationLoop { decrement: int, targets: Map<int, int> },
}

/// The optimiser's state: the statements of the innermost open level, and
/// the enclosing levels, outermost first.
pub struct Scope {
    pub cur: Seq<Op>,
    pub outer: Seq<Seq<Op>>,
}

/// The delta a change map records at offset `k` (zero when absent).
pub open spec fn delta_at(ch: Map<int, int>, k: int) -> int {
    if ch.contains_key(k) {
        ch[k]
    } else {
        0
    }
}

/// Adds `d` to the delta at `k`, dropping the entry when it nets to zero.
pub open spec fn bump(ch: Map<int, int>, k: int, d: int) -> Map<int, int> {
    let v = delta_at(ch, k) + d;
    if v == 0 {
        ch.remove(k)
    } else {
        ch.insert(k, v)
    }
}

/// An action that neither moves the pointer nor changes a cell.
pub open spec fn is_noop(a: Op) -> bool {
    a == Op::Action { offset: 0, changes: Map::empty() }
}

/// Appends an action to a level, unless the action does nothing.
pub open spec fn settle(cur: Seq<Op>, a: Op) -> Seq<Op> {
    if is_noop(a) {
        cur
    } else {
        cur.push(a)
    }
}

pub open spec fn ends_in_action(cur: Seq<Op>) -> bool {
    cur.len() > 0 && cur.last() is Action
}

/// `Increment` (d = 1) or `Decrement` (d = -1) appended to a level.
pub open spec fn change_cell(cur: Seq<Op>, d: int) -> Seq<Op> {
    if ends_in_action(cur) {
        let a = cur.last();
        settle(
            cur.drop_last(),
            Op::Action { offset: a->offset, changes: bump(a->changes, a->offset, d) },
        )
    } else {
        cur.push(Op::Action { offset: 0, changes: map![0int => d] })
    }
}

/// `MoveRight` (d = 1) or `MoveLeft` (d = -1) appended to a level.
pub open spec fn move_ptr(cur: Seq<Op>, d: int) -> Seq<Op> {
    if ends_in_action(cur) {
        let a = cur.last();
        settle(cur.drop_last(), Op::Action { offset: a->offset + d, changes: a->changes })
    } else {
        cur.push(Op::Action { offset: d, changes: Map::empty() })
    }
}

/// `Output` appended to a level.
pub open spec fn put_output(cur: Seq<Op>) -> Seq<Op> {
    if cur.len() > 0 && cur.last() is Output {
        cur.drop_last().push(Op::Output { outputs: cur.last()->outputs + 1 })
    } else {
        cur.push(Op::Output { outputs: 1 })
    }
}

/// `Input` appended to a level.
pub open spec fn put_input(cur: Seq<Op>) -> Seq<Op> {
    if cur.len() > 0 && cur.last() is Input {
        cur.drop_last().push(Op::Input { inputs: cur.last()->inputs + 1 })
    } else {
        cur.push(Op::Input { inputs: 1 })
    }
}

/// Every statement of a body is an action.
pub open spec fn all_actions(body: Seq<Op>) -> bool {
    forall|i: int| 0 <= i < body.len() ==> (#[trigger] body[i]) is Action
}

/// The summed pointer displacement of a body of actions.
pub open spec fn net_offset(body: Seq<Op>) -> int
    decreases body.len(),
{
    if body.len() == 0 {
        0
    } else {
        net_offset(body.drop_last()) + body.last()->offset
    }
}

/// The net delta that one pass over a body of actions leaves at offset `k`,
/// each action's changes shifted by the displacement before it.
pub open spec fn combined(body: Seq<Op>, k: int) -> int
    decreases body.len(),
{
    if body.len() == 0 {
        0
    } else {
        combined(body.drop_last(), k) + delta_at(
            body.last()->changes,
            k - net_offset(body.drop_last()),
        )
    }
}

/// A body that is one pure move of a single step.
pub open spec fn is_scan(body: Seq<Op>) -> bool {
    &&& body.len() == 1
    &&& body[0] is Action
    &&& (body[0]->offset == 1 || body[0]->offset == -1)
    &&& body[0]->changes.dom() == Set::<int>::empty()
}

/// A pointer-neutral body of actions whose net delta at the origin is
/// negative and odd.
pub open spec fn is_multiplication(body: Seq<Op>) -> bool {
    &&& all_actions(body)
    &&& net_offset(body) == 0
    &&& combined(body, 0) < 0
    &&& combined(body, 0) % 2 != 0
}

/// The nonzero net deltas of a body away from the origin.
pub open spec fn targets_of(body: Seq<Op>) -> Map<int, int> {
    Map::new(|k: int| k != 0 && combined(body, k) != 0, |k: int| combined(body, k))
}

/// The statement that a closed loop with this body becomes.
pub open spec fn classify(body: Seq<Op>) -> Op {
    if is_scan(body) {
        Op::ScanLoop { direction: body[0]->offset }
    } else if is_multiplication(body) {
        Op::MultiplicationLoop {
            decrement: (-combined(body, 0)) % 256,
            targets: targets_of(body),
        }
    } else {
        Op::Loop { body }
    }
}

/// The optimiser's state after one more instruction.
pub open spec fn step(sc: Scope, s: BfSymbol) -> Scope {
    match s {
        BfSymbol::Plus => Scope { cur: change_cell(sc.cur, 1), outer: sc.outer },
        BfSymbol::Minus => Scope { cur: change_cell(sc.cur, -1), outer: sc.outer },
        BfSymbol::Right => Scope { cur: move_ptr(sc.cur, 1), outer: sc.outer },
        BfSymbol::Left => Scope { cur: move_ptr(sc.cur, -1), outer: sc.outer },
        BfSymbol::Period => Scope { cur: put_output(sc.cur), outer: sc.outer },
        BfSymbol::Comma => Scope { cur: put_input(sc.cur), outer: sc.outer },
        BfSymbol::OpenBracket => Scope { cur: Seq::empty(), outer: sc.outer.push(sc.cur) },
        BfSymbol::CloseBracket => if sc.outer.len() == 0 {
            sc
        } else {
            Scope { cur: sc.outer.last().push(classify(sc.cur)), outer: sc.outer.drop_last() }
        },
    }
}

/// The optimiser's state after a sequence of instructions.
pub open spec fn scan(prog: Seq<BfSymbol>) -> Scope
    decreases prog.len(),
{
    if prog.len() == 0 {
        Scope { cur: Seq::empty(), outer: Seq::empty() }
    } else {
        step(scan(prog.drop_last()), prog.last())
    }
}

/// The optimised program: the statements of the outermost level. When a
/// loop is still open at the end, what was accumulated inside it is lost.
pub open spec fn optimise(prog: Seq<BfSymbol>) -> Seq<Op> {
    let sc = scan(prog);
    if sc.outer.len() > 0 {
        sc.outer[0]
    } else {
        sc.cur
    }
}

} // verus!
