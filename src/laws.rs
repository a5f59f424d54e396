//! Laws of the optimiser, stated over the model and proved.
use vstd::prelude::*;
use crate::model::{
    all_actions, classify, combined, is_noop, net_offset, optimise, scan, settle, step,
    targets_of, Op,
};
use crate::symbol::BfSymbol;

verus! {

/// A symbol that only moves the pointer or changes a cell.
pub open spec fn is_run_symbol(s: BfSymbol) -> bool {
    s == BfSymbol::Plus || s == BfSymbol::Minus || s == BfSymbol::Left || s == BfSymbol::Right
}

/// The net pointer displacement of a run.
pub open spec fn pointer_shift(p: Seq<BfSymbol>) -> int
    decreases p.len(),
{
    if p.len() == 0 {
        0
    } else {
        pointer_shift(p.drop_last()) + if p.last() == BfSymbol::Right {
            1int
        } else if p.last() == BfSymbol::Left {
            -1int
        } else {
            0int
        }
    }
}

/// The net change a run makes to the cell at offset `k` from where it started.
pub open spec fn cell_delta(p: Seq<BfSymbol>, k: int) -> int
    decreases p.len(),
{
    if p.len() == 0 {
        0
    } else {
        cell_delta(p.drop_last(), k) + if pointer_shift(p.drop_last()) != k {
            0int
        } else if p.last() == BfSymbol::Plus {
            1int
        } else if p.last() == BfSymbol::Minus {
            -1int
        } else {
            0int
        }
    }
}

/// The single action that a run amounts to.
pub open spec fn run_action(p: Seq<BfSymbol>) -> Op {
    Op::Action {
        offset: pointer_shift(p),
        changes: Map::new(|k: int| cell_delta(p, k) != 0, |k: int| cell_delta(p, k)),
    }
}

proof fn lemma_noop_run(p: Seq<BfSymbol>)
    ensures
        is_noop(run_action(p)) <==> (pointer_shift(p) == 0 && forall|k: int| #[trigger] cell_delta(p, k) == 0),
{
    let ch = Map::new(|k: int| cell_delta(p, k) != 0, |k: int| cell_delta(p, k));
    if pointer_shift(p) == 0 && forall|k: int| #[trigger] cell_delta(p, k) == 0 {
        assert(ch =~= Map::<int, int>::empty());
    }
    if is_noop(run_action(p)) {
        assert forall|k: int| #[trigger] cell_delta(p, k) == 0 by {
            assert(!ch.contains_key(k));
        }
    }
}

/// Moves and cell changes with nothing between them coalesce into one action
/// whose changes are indexed by offset from the pointer where the run began,
/// not by the live pointer position; an action that nets to nothing is not
/// kept at all.
pub proof fn lemma_run_coalesces(p: Seq<BfSymbol>)
    requires
        forall|i: int| 0 <= i < p.len() ==> is_run_symbol(#[trigger] p[i]),
    ensures
        optimise(p) == settle(Seq::empty(), run_action(p)),
        scan(p).outer.len() == 0,
    decreases p.len(),
{
    if p.len() == 0 {
        lemma_noop_run(p);
    } else {
        let q = p.drop_last();
        let s = p.last();
        assert forall|i: int| 0 <= i < q.len() implies is_run_symbol(#[trigger] q[i]) by {
            assert(q[i] == p[i]);
        }
        assert(is_run_symbol(p[p.len() - 1]));
        lemma_run_coalesces(q);
        lemma_noop_run(q);
        lemma_noop_run(p);
        let prev = scan(q).cur;
        let a = run_action(q);
        let sh = pointer_shift(q);
        let d: int = if s == BfSymbol::Plus || s == BfSymbol::Right { 1 } else { -1 };
        assert(scan(p) == step(scan(q), s));
        if s == BfSymbol::Plus || s == BfSymbol::Minus {
            assert(pointer_shift(p) == sh);
            assert forall|k: int| #[trigger] cell_delta(p, k) == cell_delta(q, k) + if k == sh { d } else { 0 } by {}
            if is_noop(a) {
                assert(prev == Seq::<Op>::empty());
                assert(run_action(p)->changes =~= map![0int => d]);
                assert(!is_noop(run_action(p))) by {
                    assert(cell_delta(p, 0) != 0);
                }
            } else {
                assert(prev == seq![a]);
                assert(prev.drop_last() == Seq::<Op>::empty());
                assert(run_action(p)->changes =~= crate::model::bump(a->changes, sh, d));
            }
        } else {
            assert(pointer_shift(p) == sh + d);
            assert forall|k: int| #[trigger] cell_delta(p, k) == cell_delta(q, k) by {}
            if is_noop(a) {
                assert(prev == Seq::<Op>::empty());
                assert(run_action(p)->changes =~= Map::<int, int>::empty());
            } else {
                assert(prev == seq![a]);
                assert(prev.drop_last() == Seq::<Op>::empty());
                assert(run_action(p)->changes =~= a->changes);
            }
        }
    }
}

/// The number of increments minus the number of decrements.
pub open spec fn net_increment(p: Seq<BfSymbol>) -> int
    decreases p.len(),
{
    if p.len() == 0 {
        0
    } else {
        net_increment(p.drop_last()) + if p.last() == BfSymbol::Plus {
            1int
        } else if p.last() == BfSymbol::Minus {
            -1int
        } else {
            0int
        }
    }
}

proof fn lemma_cell_run_deltas(p: Seq<BfSymbol>)
    requires
        forall|i: int| 0 <= i < p.len() ==> (#[trigger] p[i] == BfSymbol::Plus || p[i] == BfSymbol::Minus),
    ensures
        pointer_shift(p) == 0,
        cell_delta(p, 0) == net_increment(p),
        forall|k: int| k != 0 ==> #[trigger] cell_delta(p, k) == 0,
    decreases p.len(),
{
    if p.len() > 0 {
        let q = p.drop_last();
        assert forall|i: int| 0 <= i < q.len() implies (#[trigger] q[i] == BfSymbol::Plus || q[i] == BfSymbol::Minus) by {
            assert(q[i] == p[i]);
        }
        assert(p[p.len() - 1] == BfSymbol::Plus || p[p.len() - 1] == BfSymbol::Minus);
        lemma_cell_run_deltas(q);
        assert forall|k: int| k != 0 implies #[trigger] cell_delta(p, k) == 0 by {
            assert(cell_delta(q, k) == 0);
        }
    }
}

/// Increments and decrements of one cell accumulate into a single delta; a
/// delta that nets to zero is removed, and the action that is left empty is
/// not emitted at all.
pub proof fn lemma_zero_net_changes_vanish(p: Seq<BfSymbol>)
    requires
        forall|i: int| 0 <= i < p.len() ==> (#[trigger] p[i] == BfSymbol::Plus || p[i] == BfSymbol::Minus),
    ensures
        optimise(p) == if net_increment(p) == 0 {
            Seq::<Op>::empty()
        } else {
            seq![Op::Action { offset: 0, changes: map![0int => net_increment(p)] }]
        },
{
    assert forall|i: int| 0 <= i < p.len() implies is_run_symbol(#[trigger] p[i]) by {}
    lemma_run_coalesces(p);
    lemma_cell_run_deltas(p);
    lemma_noop_run(p);
    if net_increment(p) != 0 {
        assert(run_action(p)->changes =~= map![0int => net_increment(p)]);
        assert(cell_delta(p, 0) != 0);
    }
}

/// A single-step pure move body is a scan loop; any larger displacement or
/// any value change in a moving body leaves the loop generic.
pub proof fn lemma_scan_recognition(offset: int, changes: Map<int, int>)
    requires
        offset != 0,
    ensures
        classify(seq![Op::Action { offset, changes }]) == if (offset == 1 || offset == -1)
            && changes.dom() == Set::<int>::empty() {
            Op::ScanLoop { direction: offset }
        } else {
            Op::Loop { body: seq![Op::Action { offset, changes }] }
        },
{
    let body = seq![Op::Action { offset, changes }];
    assert(body.drop_last() == Seq::<Op>::empty());
    assert(net_offset(Seq::<Op>::empty()) == 0);
    assert(body.last() == Op::Action { offset, changes });
    assert(net_offset(body) == offset);
}

/// A pointer-neutral body of actions (no I/O, no nested loop) becomes a
/// multiplication loop exactly when its net delta at the origin is negative
/// and odd; the decrement is then odd and the targets are the other nonzero
/// deltas. Otherwise the loop stays generic with its body unchanged.
pub proof fn lemma_multiplication_iff_odd(body: Seq<Op>)
    requires
        all_actions(body),
        net_offset(body) == 0,
    ensures
        (classify(body) is MultiplicationLoop) <==> (combined(body, 0) < 0 && combined(body, 0) % 2 != 0),
        !(classify(body) is MultiplicationLoop) ==> classify(body) == (Op::Loop { body }),
        classify(body) is MultiplicationLoop ==> {
            &&& classify(body)->decrement == (-combined(body, 0)) % 256
            &&& classify(body)->decrement % 2 == 1
            &&& classify(body)->targets == targets_of(body)
        },
{
    assert(!crate::model::is_scan(body)) by {
        if body.len() == 1 {
            assert(body.drop_last() =~= Seq::<Op>::empty());
            assert(net_offset(Seq::<Op>::empty()) == 0);
            assert(body.last() == body[0]);
            assert(net_offset(body) == body[0]->offset);
        }
    }
    let c = combined(body, 0);
    if crate::model::is_multiplication(body) {
        assert(classify(body) == Op::MultiplicationLoop { decrement: (-c) % 256, targets: targets_of(body) });
        lemma_odd_mod_256(-c);
    } else {
        assert(classify(body) == Op::Loop { body });
    }
}

proof fn lemma_odd_mod_256(m: int)
    requires
        m > 0,
        m % 2 == 1,
    ensures
        (m % 256) % 2 == 1,
{
    let q = m / 256;
    let r = m % 256;
    assert(m == 256 * q + r);
    assert((256 * q + r) % 2 == r % 2) by (nonlinear_arith);
}

/// One Newton step towards the inverse of `d` modulo 256.
pub open spec fn inverse_step(d: u8, e: u8) -> u8 {
    (e * ((258 - ((d * e) as u8)) as u8)) as u8
}

/// The inverse of an odd byte modulo 256.
pub open spec fn inverse_mod_256(d: u8) -> u8 {
    inverse_step(d, inverse_step(d, d))
}

proof fn lemma_inverse_mod_256(d: u8, x: u8)
    by (bit_vector)
    requires
        d & 1 == 1,
    ensures
        ((((x * inverse_mod_256(d)) as u8) * d) as u8) == x,
{
}

/// Subtracting an odd decrement over and over brings every starting byte to
/// zero modulo 256, within 256 rounds.
pub proof fn lemma_odd_decrement_reaches_zero(d: int, x: int)
    requires
        0 < d < 256,
        d % 2 == 1,
        0 <= x < 256,
    ensures
        exists|n: int| 0 <= n < 256 && #[trigger] ((x - n * d) % 256) == 0,
{
    let d8 = d as u8;
    let x8 = x as u8;
    assert(d8 & 1 == 1) by (bit_vector)
        requires
            d8 % 2 == 1,
    ;
    lemma_inverse_mod_256(d8, x8);
    let n8 = (x8 * inverse_mod_256(d8)) as u8;
    let n = n8 as int;
    assert(((n8 * d8) as u8) == x8);
    assert((n8 * d8) as u8 == (n8 * d8) % 256) by (bit_vector);
    assert((n * d) % 256 == x);
    assert((x - n * d) % 256 == 0) by (nonlinear_arith)
        requires
            (n * d) % 256 == x,
            0 <= x < 256,
    ;
}

proof fn lemma_odd_not_multiple_of_256(y: int)
    requires
        y % 2 == 1,
    ensures
        y % 256 != 0,
{
    let q = y / 256;
    assert(y == 256 * q + y % 256);
}

/// With an even decrement, an odd starting byte never reaches zero.
pub proof fn lemma_even_decrement_misses_zero(d: int, x: int, n: int)
    requires
        d % 2 == 0,
        x % 2 == 1,
        n >= 0,
    ensures
        (x - n * d) % 256 != 0,
{
    let h = d / 2;
    let m = n * h;
    assert(n * d == 2 * m) by (nonlinear_arith)
        requires
            d == 2 * h,
            m == n * h,
    ;
    assert((x - 2 * m) % 2 == 1);
    lemma_odd_not_multiple_of_256(x - n * d);
}

/// Whether two statements are I/O runs of the same kind.
pub open spec fn same_io_kind(a: Op, b: Op) -> bool {
    (a is Output && b is Output) || (a is Input && b is Input)
}

/// `n` copies of one symbol.
pub open spec fn repeat(s: BfSymbol, n: int) -> Seq<BfSymbol> {
    Seq::new(n as nat, |i: int| s)
}

/// The I/O symbols that a sequence of I/O statements stands for.
pub open spec fn expand_io(ops: Seq<Op>) -> Seq<BfSymbol>
    decreases ops.len(),
{
    if ops.len() == 0 {
        Seq::empty()
    } else {
        expand_io(ops.drop_last()) + match ops.last() {
            Op::Output { outputs } => repeat(BfSymbol::Period, outputs),
            Op::Input { inputs } => repeat(BfSymbol::Comma, inputs),
            _ => Seq::empty(),
        }
    }
}

/// Every statement is an I/O run of at least one, and no two neighbours are
/// runs of the same kind.
pub open spec fn io_runs_maximal(ops: Seq<Op>) -> bool {
    &&& forall|i: int| 0 <= i < ops.len() ==> ((#[trigger] ops[i] is Output && ops[i]->outputs >= 1)
        || (ops[i] is Input && ops[i]->inputs >= 1))
    &&& forall|i: int| 0 <= i < ops.len() - 1 ==> !same_io_kind(#[trigger] ops[i], ops[i + 1])
}

/// A program of reads and writes becomes its runs of one kind, in order:
/// each statement stands for a maximal run, so `.,.,` stays four statements.
pub proof fn lemma_io_runs(p: Seq<BfSymbol>)
    requires
        forall|i: int| 0 <= i < p.len() ==> (#[trigger] p[i] == BfSymbol::Period || p[i] == BfSymbol::Comma),
    ensures
        expand_io(optimise(p)) == p,
        io_runs_maximal(optimise(p)),
        scan(p).outer.len() == 0,
    decreases p.len(),
{
    if p.len() > 0 {
        let q = p.drop_last();
        let s = p.last();
        assert forall|i: int| 0 <= i < q.len() implies (#[trigger] q[i] == BfSymbol::Period || q[i] == BfSymbol::Comma) by {
            assert(q[i] == p[i]);
        }
        assert(s == BfSymbol::Period || s == BfSymbol::Comma);
        lemma_io_runs(q);
        let prev = optimise(q);
        assert(scan(p) == step(scan(q), s));
        let cur = optimise(p);
        if prev.len() > 0 && same_io_kind(prev.last(), if s == BfSymbol::Period {
            Op::Output { outputs: 1 }
        } else {
            Op::Input { inputs: 1 }
        }) {
            assert(cur.drop_last() == prev.drop_last());
            assert(prev.drop_last().push(prev.last()) == prev);
            if s == BfSymbol::Period {
                let n = prev.last()->outputs;
                assert(repeat(BfSymbol::Period, n + 1) =~= repeat(BfSymbol::Period, n).push(BfSymbol::Period));
            } else {
                let n = prev.last()->inputs;
                assert(repeat(BfSymbol::Comma, n + 1) =~= repeat(BfSymbol::Comma, n).push(BfSymbol::Comma));
            }
            assert(expand_io(cur) =~= expand_io(prev).push(s));
            assert(q.push(s) == p);
            assert forall|i: int| 0 <= i < cur.len() - 1 implies !same_io_kind(#[trigger] cur[i], cur[i + 1]) by {
                assert(cur[i] == prev[i]);
                if i + 1 < cur.len() - 1 {
                    assert(cur[i + 1] == prev[i + 1]);
                }
            }
        } else {
            assert(cur == prev.push(if s == BfSymbol::Period {
                Op::Output { outputs: 1 }
            } else {
                Op::Input { inputs: 1 }
            }));
            assert(cur.drop_last() == prev);
            if s == BfSymbol::Period {
                assert(repeat(BfSymbol::Period, 1) =~= seq![BfSymbol::Period]);
            } else {
                assert(repeat(BfSymbol::Comma, 1) =~= seq![BfSymbol::Comma]);
            }
            assert(expand_io(cur) =~= expand_io(prev).push(s));
            assert(q.push(s) == p);
        }
    }
}

/// A write that follows an action, a read or a loop starts a statement of
/// its own: I/O never merges across another kind of statement.
pub proof fn lemma_output_not_merged(prog: Seq<BfSymbol>)
    requires
        scan(prog).cur.len() > 0,
        !(scan(prog).cur.last() is Output),
    ensures
        scan(prog.push(BfSymbol::Period)).cur == scan(prog).cur.push(Op::Output { outputs: 1 }),
{
    assert(prog.push(BfSymbol::Period).drop_last() == prog);
}

/// A read that follows an action, a write or a loop starts a statement of
/// its own.
pub proof fn lemma_input_not_merged(prog: Seq<BfSymbol>)
    requires
        scan(prog).cur.len() > 0,
        !(scan(prog).cur.last() is Input),
    ensures
        scan(prog.push(BfSymbol::Comma)).cur == scan(prog).cur.push(Op::Input { inputs: 1 }),
{
    assert(prog.push(BfSymbol::Comma).drop_last() == prog);
}

/// Opening a loop starts an empty level, and closing one ends the enclosing
/// level in a loop statement: nothing coalesces across a loop boundary.
pub proof fn lemma_loop_boundaries(prog: Seq<BfSymbol>)
    ensures
        scan(prog.push(BfSymbol::OpenBracket)).cur == Seq::<Op>::empty(),
        scan(prog).outer.len() > 0 ==> {
            let c = scan(prog.push(BfSymbol::CloseBracket)).cur;
            &&& c.len() == scan(prog).outer.last().len() + 1
            &&& c.drop_last() == scan(prog).outer.last()
            &&& !(c.last() is Action) && !(c.last() is Output) && !(c.last() is Input)
        },
{
    assert(prog.push(BfSymbol::OpenBracket).drop_last() == prog);
    assert(prog.push(BfSymbol::CloseBracket).drop_last() == prog);
}

} // verus!
