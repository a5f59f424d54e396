//! The local optimiser: one forward pass over the instruction symbols that
//! coalesces runs and classifies each loop as it closes.
use vstd::prelude::*;
use std::collections::HashMap;
use crate::model::{
    all_actions, bump, change_cell, classify, combined, delta_at, is_scan, move_ptr, net_offset,
    optimise, put_input, put_output, scan, targets_of, Op, Scope,
};
use crate::symbol::BfSymbol;

verus! {

broadcast use vstd::std_specs::hash::group_hash_axioms;

/// An optimised program: its statements in order.
#[derive(Debug, PartialEq, Eq)]
pub enum Prog {
    Vec(Vec<Stmt>),
}

/// One statement of an optimised program.
#[derive(Debug, PartialEq, Eq)]
pub enum Stmt {
    /// Net pointer displacement, and net delta per offset from the run's start.
    Action(i32, HashMap<i32, i32>),
    Output(i32),
    Input(i32),
    Loop(Prog),
    ZeroLoop,
    /// Direction of the scan, 1 or -1.
    ScanLoop(i32),
    /// Per-round decrement of the origin cell, and per-round delta by offset.
    MultiplicationLoop(u8, HashMap<i32, i32>),
}

/// A change map over unbounded integers.
pub open spec fn changes_view(m: Map<i32, i32>) -> Map<int, int> {
    Map::new(
        |k: int| i32::MIN <= k <= i32::MAX && m.contains_key(k as i32),
        |k: int| m[k as i32] as int,
    )
}

/// The model of a statement.
pub open spec fn view_stmt(s: Stmt) -> Op
    decreases s,
{
    match s {
        Stmt::Action(o, ch) => Op::Action { offset: o as int, changes: changes_view(ch@) },
        Stmt::Output(n) => Op::Output { outputs: n as int },
        Stmt::Input(n) => Op::Input { inputs: n as int },
        Stmt::Loop(p) => match p {
            Prog::Vec(v) => Op::Loop { body: view_stmts(v@) },
        },
        Stmt::ZeroLoop => Op::ZeroLoop,
        Stmt::ScanLoop(d) => Op::ScanLoop { direction: d as int },
        Stmt::MultiplicationLoop(d, t) => Op::MultiplicationLoop {
            decrement: d as int,
            targets: changes_view(t@),
        },
    }
}

/// The model of a sequence of statements.
pub open spec fn view_stmts(v: Seq<Stmt>) -> Seq<Op>
    decreases v,
{
    if v.len() == 0 {
        Seq::empty()
    } else {
        view_stmts(v.drop_last()).push(view_stmt(v.last()))
    }
}

/// The model of a program.
pub open spec fn view_prog(p: Prog) -> Seq<Op> {
    match p {
        Prog::Vec(v) => view_stmts(v@),
    }
}

proof fn lemma_changes_view_insert(m: Map<i32, i32>, k: i32, v: i32)
    ensures
        changes_view(m.insert(k, v)) == changes_view(m).insert(k as int, v as int),
{
    assert(changes_view(m.insert(k, v)) =~= changes_view(m).insert(k as int, v as int));
}

proof fn lemma_changes_view_remove(m: Map<i32, i32>, k: i32)
    ensures
        changes_view(m.remove(k)) == changes_view(m).remove(k as int),
{
    assert(changes_view(m.remove(k)) =~= changes_view(m).remove(k as int));
}

proof fn lemma_changes_view_empty(m: Map<i32, i32>)
    ensures
        (changes_view(m).dom() == Set::<int>::empty()) == (m.dom() == Set::<i32>::empty()),
{
    if changes_view(m).dom() == Set::<int>::empty() {
        assert forall|k: i32| !m.contains_key(k) by {
            assert(!changes_view(m).contains_key(k as int));
        }
        assert(m.dom() =~= Set::<i32>::empty());
    }
    if m.dom() == Set::<i32>::empty() {
        assert(changes_view(m).dom() =~= Set::<int>::empty());
    }
}

/// Adds `d` to the delta recorded at `k`, removing the entry when it nets to zero.
fn add_change(ch: &mut HashMap<i32, i32>, k: i32, d: i32)
    requires
        i32::MIN <= delta_at(changes_view(old(ch)@), k as int) + d <= i32::MAX,
    ensures
        changes_view(final(ch)@) == bump(changes_view(old(ch)@), k as int, d as int),
{
    let cur: i32 = match ch.get(&k) {
        Some(v) => *v,
        None => 0,
    };
    assert(cur == delta_at(changes_view(old(ch)@), k as int));
    let v: i32 = cur + d;
    if v == 0 {
        ch.remove(&k);
        proof { lemma_changes_view_remove(old(ch)@, k); }
    } else {
        ch.insert(k, v);
        proof { lemma_changes_view_insert(old(ch)@, k, v); }
    }
}

proof fn lemma_view_stmts_index(v: Seq<Stmt>)
    ensures
        view_stmts(v).len() == v.len(),
        forall|i: int| 0 <= i < v.len() ==> #[trigger] view_stmts(v)[i] == view_stmt(v[i]),
    decreases v.len(),
{
    if v.len() > 0 {
        lemma_view_stmts_index(v.drop_last());
    }
}

/// Offsets, keys, deltas and counts of a statement are at most `b` in magnitude.
pub open spec fn op_within(op: Op, b: int) -> bool {
    match op {
        Op::Action { offset, changes } => {
            &&& -b <= offset <= b
            &&& forall|k: int| #![trigger changes.contains_key(k)]
                changes.contains_key(k) ==> (-b <= k <= b && -b <= changes[k] <= b)
        },
        Op::Output { outputs } => outputs <= b,
        Op::Input { inputs } => inputs <= b,
        _ => true,
    }
}

/// Each statement of a level is bounded by its cost.
pub open spec fn level_within(ops: Seq<Op>, costs: Seq<int>) -> bool {
    &&& ops.len() == costs.len()
    &&& forall|j: int| 0 <= j < ops.len() ==> 0 <= #[trigger] costs[j] && op_within(ops[j], costs[j])
}

pub open spec fn sum(s: Seq<int>) -> int
    decreases s.len(),
{
    if s.len() == 0 {
        0
    } else {
        sum(s.drop_last()) + s.last()
    }
}

proof fn lemma_sum_prefix(s: Seq<int>, i: int)
    requires
        0 <= i <= s.len(),
        forall|j: int| 0 <= j < s.len() ==> 0 <= #[trigger] s[j],
    ensures
        0 <= sum(s.take(i)) <= sum(s),
    decreases s.len(),
{
    if i < s.len() {
        assert(s.drop_last().take(i) == s.take(i));
        lemma_sum_prefix(s.drop_last(), i);
    } else {
        assert(s.take(i) == s);
        if s.len() > 0 {
            lemma_sum_prefix(s.drop_last(), i - 1);
            assert(s.drop_last().take(i - 1) == s.drop_last());
        }
    }
}

/// Folding a bounded body of actions stays within the summed costs.
proof fn lemma_fold_bounds(body: Seq<Op>, costs: Seq<int>, i: int)
    requires
        level_within(body, costs),
        all_actions(body.take(i)),
        0 <= i <= body.len(),
    ensures
        -sum(costs.take(i)) <= net_offset(body.take(i)) <= sum(costs.take(i)),
        forall|k: int| -sum(costs.take(i)) <= #[trigger] combined(body.take(i), k) <= sum(costs.take(i)),
    decreases i,
{
    if i > 0 {
        assert(body.take(i).drop_last() == body.take(i - 1));
        assert(costs.take(i).drop_last() == costs.take(i - 1));
        assert(all_actions(body.take(i - 1))) by {
            assert forall|j: int| 0 <= j < i - 1 implies (#[trigger] body.take(i - 1)[j]) is Action by {
                assert(body.take(i)[j] is Action);
            }
        }
        lemma_fold_bounds(body, costs, i - 1);
        assert(body.take(i)[i - 1] is Action);
        assert(op_within(body[i - 1], costs[i - 1]));
        assert forall|k: int| -sum(costs.take(i)) <= #[trigger] combined(body.take(i), k) <= sum(costs.take(i)) by {
            let ch = body[i - 1]->changes;
            let x = k - net_offset(body.take(i - 1));
            assert(combined(body.take(i), k) == combined(body.take(i - 1), k) + delta_at(ch, x));
            if ch.contains_key(x) {
                assert(-costs[i - 1] <= ch[x] <= costs[i - 1]);
            }
        }
    }
}

proof fn lemma_delta_bump(m: Map<int, int>, key: int, d: int)
    requires
        forall|k: int| #[trigger] m.contains_key(k) ==> m[k] != 0,
    ensures
        forall|k: int| #[trigger] delta_at(bump(m, key, d), k) == delta_at(m, k) + if k == key { d } else { 0 },
        forall|k: int| #[trigger] bump(m, key, d).contains_key(k) ==> bump(m, key, d)[k] != 0,
{
}

/// A change map without zero entries is fixed by its deltas.
proof fn lemma_map_of_deltas(m: Map<int, int>, f: spec_fn(int) -> int)
    requires
        forall|k: int| #[trigger] m.contains_key(k) ==> m[k] != 0,
        forall|k: int| #[trigger] delta_at(m, k) == f(k),
    ensures
        m == Map::new(|k: int| f(k) != 0, |k: int| f(k)),
{
    assert forall|k: int| #[trigger] m.contains_key(k) == (f(k) != 0) && (m.contains_key(k) ==> m[k] == f(k)) by {
        assert(delta_at(m, k) == f(k));
    }
    assert(m =~= Map::new(|k: int| f(k) != 0, |k: int| f(k)));
}

/// The entries of a change map, each key once.
fn entries(m: &HashMap<i32, i32>) -> (r: Vec<(i32, i32)>)
    ensures
        forall|i: int| 0 <= i < r@.len() ==> m@.contains_key(#[trigger] r@[i].0) && m@[r@[i].0] == r@[i].1,
        forall|k: i32| m@.contains_key(k) ==> exists|i: int| 0 <= i < r@.len() && #[trigger] r@[i].0 == k,
        forall|i: int, j: int| 0 <= i < j < r@.len() ==> r@[i].0 != r@[j].0,
{
    let mut r: Vec<(i32, i32)> = Vec::new();
    for k in it: m.keys()
        invariant
            r@.len() == it.index(),
            it.seq().unref().to_set() == m@.dom(),
            it.seq().unref().no_duplicates(),
            forall|i: int| 0 <= i < it.seq().len() ==> #[trigger] it.seq().unref()[i] == *it.seq()[i],
            forall|i: int| 0 <= i < r@.len() ==> #[trigger] r@[i].0 == *it.seq()[i] && m@.contains_key(r@[i].0) && m@[r@[i].0] == r@[i].1,
            forall|i: int, j: int| 0 <= i < j < r@.len() ==> r@[i].0 != r@[j].0,
            forall|k: i32| m@.contains_key(k) ==> (exists|i: int| 0 <= i < r@.len() && #[trigger] r@[i].0 == k)
                || (exists|j: int| r@.len() <= j < it.seq().len() && #[trigger] it.seq().unref()[j] == k),
    {
        let ghost old_r = r@;
        let v = *m.get(k).unwrap();
        r.push((*k, v));
        proof {
            assert forall|x: i32| m@.contains_key(x) implies (exists|i: int| 0 <= i < r@.len() && #[trigger] r@[i].0 == x)
                || (exists|j: int| r@.len() <= j < it.seq().len() && #[trigger] it.seq().unref()[j] == x) by {
                if exists|i: int| 0 <= i < old_r.len() && #[trigger] old_r[i].0 == x {
                    let i = choose|i: int| 0 <= i < old_r.len() && #[trigger] old_r[i].0 == x;
                    assert(r@[i].0 == x);
                } else {
                    let j = choose|j: int| old_r.len() <= j < it.seq().len() && #[trigger] it.seq().unref()[j] == x;
                    if j == old_r.len() {
                        assert(r@[j].0 == x);
                    } else {
                        assert(it.seq().unref()[j] == x);
                    }
                }
            }
        }
    }
    r
}

/// The net displacement and the nonzero net deltas of one pass over a body
/// made only of actions; `None` when some statement is not an action.
fn fold_body(body: &Vec<Stmt>, Ghost(costs): Ghost<Seq<int>>) -> (r: Option<(i32, HashMap<i32, i32>)>)
    requires
        level_within(view_stmts(body@), costs),
        sum(costs) <= i32::MAX,
    ensures
        r is None <==> !all_actions(view_stmts(body@)),
        r matches Some((o, t)) ==> {
            &&& o == net_offset(view_stmts(body@))
            &&& changes_view(t@) == Map::new(
                |k: int| combined(view_stmts(body@), k) != 0,
                |k: int| combined(view_stmts(body@), k),
            )
        },
{
    let ghost vb = view_stmts(body@);
    proof {
        lemma_view_stmts_index(body@);
        assert(vb.take(0) == Seq::<Op>::empty());
        assert(costs.take(0) == Seq::<int>::empty());
    }
    let mut offset: i32 = 0;
    let mut total: HashMap<i32, i32> = HashMap::new();
    let mut i: usize = 0;
    while i < body.len()
        invariant
            vb == view_stmts(body@),
            vb.len() == body@.len(),
            forall|j: int| 0 <= j < body@.len() ==> #[trigger] vb[j] == view_stmt(body@[j]),
            level_within(vb, costs),
            sum(costs) <= i32::MAX,
            0 <= i <= body.len(),
            all_actions(vb.take(i as int)),
            offset == net_offset(vb.take(i as int)),
            forall|k: int| #[trigger] delta_at(changes_view(total@), k) == combined(vb.take(i as int), k),
            forall|k: int| #[trigger] changes_view(total@).contains_key(k) ==> changes_view(total@)[k] != 0,
        decreases body.len() - i,
    {
        proof {
            lemma_fold_bounds(vb, costs, i as int);
            lemma_sum_prefix(costs, i as int);
            lemma_sum_prefix(costs, i as int + 1);
            assert(vb.take(i as int + 1).drop_last() == vb.take(i as int));
            assert(costs.take(i as int + 1).drop_last() == costs.take(i as int));
        }
        match &body[i] {
            Stmt::Action(o1, ch1) => {
                let ghost chv = changes_view(ch1@);
                let ghost before = total@;
                assert(vb[i as int] == view_stmt(body@[i as int]));
                assert(op_within(vb[i as int], costs[i as int]));
                assert(vb[i as int] == Op::Action { offset: *o1 as int, changes: chv });
                assert forall|k: int| #[trigger] chv.contains_key(k) implies (-costs[i as int] <= k <= costs[i as int]
                    && -costs[i as int] <= chv[k] <= costs[i as int]) by {
                    let a = Op::Action { offset: *o1 as int, changes: chv };
                    assert(op_within(a, costs[i as int]));
                    assert(a->changes.contains_key(k));
                }
                assert(all_actions(vb.take(i as int + 1))) by {
                    assert forall|j: int| 0 <= j < i + 1 implies (#[trigger] vb.take(i as int + 1)[j]) is Action by {
                        if j < i {
                            assert(vb.take(i as int)[j] is Action);
                        }
                    }
                }
                proof { lemma_fold_bounds(vb, costs, i as int + 1); }
                let es = entries(ch1);
                let mut j: usize = 0;
                while j < es.len()
                    invariant
                        0 <= j <= es.len(),
                        0 <= i < body.len(),
                        costs.len() == body.len(),
                        forall|x: int| 0 <= x < es@.len() ==> ch1@.contains_key(#[trigger] es@[x].0) && ch1@[es@[x].0] == es@[x].1,
                        forall|k: i32| ch1@.contains_key(k) ==> exists|x: int| 0 <= x < es@.len() && #[trigger] es@[x].0 == k,
                        forall|x: int, y: int| 0 <= x < y < es@.len() ==> es@[x].0 != es@[y].0,
                        chv == changes_view(ch1@),
                        forall|k: int| #[trigger] chv.contains_key(k) ==> -costs[i as int] <= k <= costs[i as int]
                            && -costs[i as int] <= chv[k] <= costs[i as int],
                        -sum(costs.take(i as int)) <= offset <= sum(costs.take(i as int)),
                        sum(costs.take(i as int)) + costs[i as int] == sum(costs.take(i as int + 1)),
                        sum(costs.take(i as int + 1)) <= i32::MAX,
                        forall|k: int| -sum(costs.take(i as int + 1)) <= #[trigger] combined(vb.take(i as int + 1), k) <= sum(costs.take(i as int + 1)),
                        forall|k: int| combined(vb.take(i as int + 1), k) == #[trigger] combined(vb.take(i as int), k) + delta_at(chv, k - offset),
                        forall|k: int| #[trigger] delta_at(changes_view(total@), k) == combined(vb.take(i as int), k)
                            + if exists|x: int| 0 <= x < j && es@[x].0 as int == k - offset { delta_at(chv, k - offset) } else { 0 },
                        forall|k: int| #[trigger] changes_view(total@).contains_key(k) ==> changes_view(total@)[k] != 0,
                    decreases es.len() - j,
                {
                    let (k1, v1) = es[j];
                    assert(chv.contains_key(k1 as int));
                    let key: i32 = k1 + offset;
                    assert(forall|x: int| 0 <= x < j ==> es@[x].0 as int != key - offset);
                    assert(delta_at(chv, k1 as int) == v1);
                    let ghost prev = changes_view(total@);
                    add_change(&mut total, key, v1);
                    proof { lemma_delta_bump(prev, key as int, v1 as int); }
                    assert forall|k: int| #[trigger] delta_at(changes_view(total@), k) == combined(vb.take(i as int), k)
                        + if exists|x: int| 0 <= x < j + 1 && es@[x].0 as int == k - offset { delta_at(chv, k - offset) } else { 0 } by {
                        if k == key {
                            assert(es@[j as int].0 as int == k - offset);
                        } else {
                            if exists|x: int| 0 <= x < j + 1 && es@[x].0 as int == k - offset {
                                let x = choose|x: int| 0 <= x < j + 1 && es@[x].0 as int == k - offset;
                                assert(x != j);
                            }
                        }
                    }
                    j = j + 1;
                }
                assert forall|k: int| #[trigger] delta_at(changes_view(total@), k) == combined(vb.take(i as int + 1), k) by {
                    if chv.contains_key(k - offset) {
                        let x = choose|x: int| 0 <= x < es@.len() && #[trigger] es@[x].0 == (k - offset) as i32;
                        assert(es@[x].0 as int == k - offset);
                    }
                }
                offset = offset + *o1;
            },
            _ => {
                assert(!all_actions(vb)) by {
                    assert(!(vb[i as int] is Action));
                }
                return None;
            },
        }
        i = i + 1;
    }
    proof {
        assert(vb.take(body.len() as int) == vb);
        lemma_map_of_deltas(changes_view(total@), |k: int| combined(vb, k));
    }
    Some((offset, total))
}

/// Classifies a just-closed loop body: a scan loop, a multiplication loop,
/// or else a generic loop that keeps the body as it is.
fn classify_loop(body: Vec<Stmt>, Ghost(costs): Ghost<Seq<int>>) -> (r: Stmt)
    requires
        level_within(view_stmts(body@), costs),
        sum(costs) <= i32::MAX,
    ensures
        view_stmt(r) == classify(view_stmts(body@)),
{
    let ghost vb = view_stmts(body@);
    proof { lemma_view_stmts_index(body@); }
    if body.len() == 1 {
        if let Stmt::Action(d, ch) = &body[0] {
            if (*d == 1 || *d == -1) && ch.is_empty() {
                proof {
                    assert(vb[0] == view_stmt(body@[0]));
                    assert(ch@.dom() =~= Set::<i32>::empty());
                    lemma_changes_view_empty(ch@);
                }
                return Stmt::ScanLoop(*d);
            }
            proof {
                assert(vb[0] == view_stmt(body@[0]));
                lemma_changes_view_empty(ch@);
                if ch@.dom() == Set::<i32>::empty() {
                    assert(ch@.dom().len() == 0);
                }
            }
        }
    }
    assert(!is_scan(vb)) by {
        if is_scan(vb) {
            assert(vb[0] == view_stmt(body@[0]));
        }
    }
    if let Some((o, t)) = fold_body(&body, Ghost(costs)) {
        if o == 0 {
            let mut t = t;
            let ghost before = t@;
            let removed = t.remove(&0);
            if let Some(dec) = removed {
                assert(before.contains_key(0i32) && before[0i32] == dec);
                assert(changes_view(before).contains_key(0));
                assert(changes_view(before)[0] == dec);
                assert(dec == combined(vb, 0));
                if dec < 0 && dec % 2 != 0 {
                    proof {
                        lemma_changes_view_remove(before, 0);
                        assert(changes_view(t@) =~= targets_of(vb));
                    }
                    let m: i32 = -dec;
                    let d: u8 = m as u8;
                    assert(d as int == m % 256) by (bit_vector)
                        requires
                            m > 0,
                            d == m as u8,
                    ;
                    return Stmt::MultiplicationLoop(d, t);
                }
            } else {
                assert(!changes_view(before).contains_key(0));
                assert(combined(vb, 0) == 0);
            }
        }
    }
    Stmt::Loop(Prog::Vec(body))
}

proof fn lemma_sum_nonneg(s: Seq<int>)
    requires
        forall|j: int| 0 <= j < s.len() ==> 0 <= #[trigger] s[j],
    ensures
        0 <= sum(s),
{
    lemma_sum_prefix(s, s.len() as int);
    assert(s.take(s.len() as int) == s);
}

/// The model of each enclosing level.
pub open spec fn view_levels(levels: Seq<Vec<Stmt>>) -> Seq<Seq<Op>> {
    levels.map_values(|v: Vec<Stmt>| view_stmts(v@))
}

pub open spec fn sum_levels(cs: Seq<Seq<int>>) -> int
    decreases cs.len(),
{
    if cs.len() == 0 {
        0
    } else {
        sum_levels(cs.drop_last()) + sum(cs.last())
    }
}

proof fn lemma_sum_levels_nonneg(cs: Seq<Seq<int>>)
    requires
        forall|l: int, j: int| 0 <= l < cs.len() && 0 <= j < cs[l].len() ==> 0 <= #[trigger] cs[l][j],
    ensures
        0 <= sum_levels(cs),
    decreases cs.len(),
{
    if cs.len() > 0 {
        lemma_sum_levels_nonneg(cs.drop_last());
        let last = cs.last();
        assert forall|j: int| 0 <= j < last.len() implies 0 <= #[trigger] last[j] by {
            assert(0 <= cs[cs.len() - 1][j]);
        }
        lemma_sum_nonneg(last);
    }
}

/// A fresh action with one change.
fn single_change(k: i32, d: i32) -> (r: HashMap<i32, i32>)
    ensures
        changes_view(r@) == map![k as int => d as int],
{
    let mut m: HashMap<i32, i32> = HashMap::new();
    m.insert(k, d);
    proof {
        lemma_changes_view_insert(Map::empty(), k, d);
        assert(changes_view(Map::<i32, i32>::empty()) =~= Map::<int, int>::empty());
        assert(Map::<int, int>::empty().insert(k as int, d as int) =~= map![k as int => d as int]);
    }
    m
}

/// An `Increment` (d = 1) or `Decrement` (d = -1) appended to the current level.
fn push_change(stmts: &mut Vec<Stmt>, d: i32, Ghost(costs): Ghost<Seq<int>>) -> (nc: Ghost<Seq<int>>)
    requires
        d == 1 || d == -1,
        level_within(view_stmts(old(stmts)@), costs),
        sum(costs) < i32::MAX,
    ensures
        view_stmts(final(stmts)@) == change_cell(view_stmts(old(stmts)@), d as int),
        level_within(view_stmts(final(stmts)@), nc@),
        sum(nc@) <= sum(costs) + 1,
{
    let ghost ops = view_stmts(old(stmts)@);
    proof { lemma_view_stmts_index(old(stmts)@); }
    match stmts.pop() {
        Some(Stmt::Action(o, ch)) => {
            let ghost rest = stmts@;
            let ghost chv = changes_view(ch@);
            let ghost c = costs.last();
            proof {
                assert(old(stmts)@ == rest.push(Stmt::Action(o, ch)));
                assert(old(stmts)@.drop_last() == rest);
                assert(ops.last() == view_stmt(Stmt::Action(o, ch)));
                assert(op_within(ops.last(), c));
                lemma_sum_nonneg(costs.drop_last());
                if chv.contains_key(o as int) {
                    let a = ops.last();
                    assert(a->changes.contains_key(o as int));
                }
            }
            let mut ch = ch;
            add_change(&mut ch, o, d);
            let ghost nops = view_stmts(stmts@);
            if o == 0 && ch.is_empty() {
                proof {
                    lemma_changes_view_empty(ch@);
                    assert(ch@.dom() =~= Set::<i32>::empty());
                    assert(changes_view(ch@) =~= Map::<int, int>::empty());
                    assert(ops.drop_last() == nops);
                    lemma_view_stmts_index(stmts@);
                    assert(costs.drop_last().len() == nops.len());
                    assert forall|j: int| 0 <= j < nops.len() implies 0 <= #[trigger] costs.drop_last()[j]
                        && op_within(nops[j], costs.drop_last()[j]) by {
                        assert(nops[j] == ops[j]);
                    }
                }
                assert(view_stmts(stmts@) == change_cell(ops, d as int));
                Ghost(costs.drop_last())
            } else {
                stmts.push(Stmt::Action(o, ch));
                let ghost nc = costs.drop_last().push(c + 1);
                proof {
                    lemma_view_stmts_index(stmts@);
                    assert(stmts@.drop_last() == rest);
                    let a = view_stmt(Stmt::Action(o, ch));
                    assert forall|k: int| #![trigger a->changes.contains_key(k)] a->changes.contains_key(k)
                        implies (-(c + 1) <= k <= c + 1 && -(c + 1) <= a->changes[k] <= c + 1) by {
                        let b = ops.last();
                        if k != o as int {
                            assert(b->changes.contains_key(k));
                        }
                    }
                    assert(op_within(a, c + 1));
                    assert forall|j: int| 0 <= j < nc.len() implies 0 <= #[trigger] nc[j]
                        && op_within(view_stmts(stmts@)[j], nc[j]) by {
                        if j < nc.len() - 1 {
                            assert(view_stmts(stmts@)[j] == ops[j]);
                        }
                    }
                    assert(nc.drop_last() == costs.drop_last());
                    assert(ops.drop_last() == nops);
                    assert(view_stmts(stmts@) == nops.push(a));
                    lemma_changes_view_empty(ch@);
                    if o == 0 && changes_view(ch@) == Map::<int, int>::empty() {
                        assert(changes_view(ch@).dom() =~= Set::<int>::empty());
                        assert(ch@.is_empty());
                    }
                    assert(!crate::model::is_noop(a));
                }
                assert(view_stmts(stmts@) == change_cell(ops, d as int));
                Ghost(nc)
            }
        },
        Some(other) => {
            proof {
                assert(old(stmts)@ == stmts@.push(other));
                assert(old(stmts)@.drop_last() == stmts@);
                assert(ops.last() == view_stmt(other));
                assert(!(ops.last() is Action));
            }
            stmts.push(other);
            stmts.push(Stmt::Action(0, single_change(0, d)));
            let ghost nc = costs.push(1);
            proof {
                lemma_view_stmts_index(stmts@);
                assert(stmts@.drop_last() == old(stmts)@);
                assert forall|j: int| 0 <= j < nc.len() implies 0 <= #[trigger] nc[j]
                    && op_within(view_stmts(stmts@)[j], nc[j]) by {
                    if j < nc.len() - 1 {
                        assert(view_stmts(stmts@)[j] == ops[j]);
                    }
                }
                assert(nc.drop_last() == costs);
            }
            assert(view_stmts(stmts@) == change_cell(ops, d as int));
            Ghost(nc)
        },
        None => {
            stmts.push(Stmt::Action(0, single_change(0, d)));
            let ghost nc = costs.push(1);
            proof {
                lemma_view_stmts_index(stmts@);
                assert(stmts@.drop_last() == old(stmts)@);
                assert(nc.drop_last() == costs);
            }
            assert(view_stmts(stmts@) == change_cell(ops, d as int));
            Ghost(nc)
        },
    }
}

/// A `MoveRight` (d = 1) or `MoveLeft` (d = -1) appended to the current level.
fn push_move(stmts: &mut Vec<Stmt>, d: i32, Ghost(costs): Ghost<Seq<int>>) -> (nc: Ghost<Seq<int>>)
    requires
        d == 1 || d == -1,
        level_within(view_stmts(old(stmts)@), costs),
        sum(costs) < i32::MAX,
    ensures
        view_stmts(final(stmts)@) == move_ptr(view_stmts(old(stmts)@), d as int),
        level_within(view_stmts(final(stmts)@), nc@),
        sum(nc@) <= sum(costs) + 1,
{
    let ghost ops = view_stmts(old(stmts)@);
    proof { lemma_view_stmts_index(old(stmts)@); }
    match stmts.pop() {
        Some(Stmt::Action(o, ch)) => {
            let ghost rest = stmts@;
            let ghost c = costs.last();
            proof {
                assert(old(stmts)@ == rest.push(Stmt::Action(o, ch)));
                assert(old(stmts)@.drop_last() == rest);
                assert(ops.last() == view_stmt(Stmt::Action(o, ch)));
                assert(op_within(ops.last(), c));
                lemma_sum_nonneg(costs.drop_last());
                lemma_view_stmts_index(rest);
                assert(ops.drop_last() == view_stmts(rest));
            }
            let no: i32 = o + d;
            if no == 0 && ch.is_empty() {
                proof {
                    lemma_changes_view_empty(ch@);
                    assert(ch@.dom() =~= Set::<i32>::empty());
                    assert(changes_view(ch@) =~= Map::<int, int>::empty());
                    assert forall|j: int| 0 <= j < rest.len() implies 0 <= #[trigger] costs.drop_last()[j]
                        && op_within(view_stmts(rest)[j], costs.drop_last()[j]) by {
                        assert(view_stmts(rest)[j] == ops[j]);
                    }
                }
                Ghost(costs.drop_last())
            } else {
                stmts.push(Stmt::Action(no, ch));
                let ghost nc = costs.drop_last().push(c + 1);
                proof {
                    lemma_view_stmts_index(stmts@);
                    assert(stmts@.drop_last() == rest);
                    let a = view_stmt(Stmt::Action(no, ch));
                    let b = ops.last();
                    assert forall|k: int| #![trigger a->changes.contains_key(k)] a->changes.contains_key(k)
                        implies (-(c + 1) <= k <= c + 1 && -(c + 1) <= a->changes[k] <= c + 1) by {
                        assert(b->changes.contains_key(k));
                    }
                    assert(op_within(a, c + 1));
                    assert forall|j: int| 0 <= j < nc.len() implies 0 <= #[trigger] nc[j]
                        && op_within(view_stmts(stmts@)[j], nc[j]) by {
                        if j < nc.len() - 1 {
                            assert(view_stmts(stmts@)[j] == ops[j]);
                        }
                    }
                    assert(nc.drop_last() == costs.drop_last());
                    assert(view_stmts(stmts@) == view_stmts(rest).push(a));
                    lemma_changes_view_empty(ch@);
                    if no == 0 && changes_view(ch@) == Map::<int, int>::empty() {
                        assert(changes_view(ch@).dom() =~= Set::<int>::empty());
                        assert(ch@.is_empty());
                    }
                    assert(!crate::model::is_noop(a));
                }
                Ghost(nc)
            }
        },
        Some(other) => {
            proof {
                assert(old(stmts)@ == stmts@.push(other));
                assert(old(stmts)@.drop_last() == stmts@);
                assert(ops.last() == view_stmt(other));
                assert(!(ops.last() is Action));
            }
            stmts.push(other);
            stmts.push(Stmt::Action(d, HashMap::new()));
            let ghost nc = costs.push(1);
            proof {
                assert(changes_view(Map::<i32, i32>::empty()) =~= Map::<int, int>::empty());
                lemma_view_stmts_index(stmts@);
                assert(stmts@.drop_last() == old(stmts)@);
                assert forall|j: int| 0 <= j < nc.len() implies 0 <= #[trigger] nc[j]
                    && op_within(view_stmts(stmts@)[j], nc[j]) by {
                    if j < nc.len() - 1 {
                        assert(view_stmts(stmts@)[j] == ops[j]);
                    }
                }
                assert(nc.drop_last() == costs);
            }
            Ghost(nc)
        },
        None => {
            stmts.push(Stmt::Action(d, HashMap::new()));
            let ghost nc = costs.push(1);
            proof {
                assert(changes_view(Map::<i32, i32>::empty()) =~= Map::<int, int>::empty());
                lemma_view_stmts_index(stmts@);
                assert(stmts@.drop_last() == old(stmts)@);
                assert(nc.drop_last() == costs);
            }
            Ghost(nc)
        },
    }
}

/// An `Output` (when `out`) or an `Input` appended to the current level.
fn push_io(stmts: &mut Vec<Stmt>, out: bool, Ghost(costs): Ghost<Seq<int>>) -> (nc: Ghost<Seq<int>>)
    requires
        level_within(view_stmts(old(stmts)@), costs),
        sum(costs) < i32::MAX,
    ensures
        view_stmts(final(stmts)@) == if out {
            put_output(view_stmts(old(stmts)@))
        } else {
            put_input(view_stmts(old(stmts)@))
        },
        level_within(view_stmts(final(stmts)@), nc@),
        sum(nc@) <= sum(costs) + 1,
{
    let ghost ops = view_stmts(old(stmts)@);
    proof {
        lemma_view_stmts_index(old(stmts)@);
        if costs.len() > 0 {
            lemma_sum_nonneg(costs.drop_last());
        }
    }
    let last = stmts.pop();
    let ghost rest = stmts@;
    proof {
        if old(stmts)@.len() > 0 {
            assert(old(stmts)@.drop_last() == rest);
            assert(ops.drop_last() == view_stmts(rest));
        }
    }
    let merged: Option<Stmt> = match last {
        Some(Stmt::Output(n)) => if out { Some(Stmt::Output(n + 1)) } else { None },
        Some(Stmt::Input(n)) => if out { None } else { Some(Stmt::Input(n + 1)) },
        _ => None,
    };
    match merged {
        Some(st) => {
            stmts.push(st);
            let ghost nc = costs.drop_last().push(costs.last() + 1);
            proof {
                lemma_view_stmts_index(stmts@);
                assert(stmts@.drop_last() == rest);
                assert forall|j: int| 0 <= j < nc.len() implies 0 <= #[trigger] nc[j]
                    && op_within(view_stmts(stmts@)[j], nc[j]) by {
                    if j < nc.len() - 1 {
                        assert(view_stmts(stmts@)[j] == ops[j]);
                    }
                }
                assert(nc.drop_last() == costs.drop_last());
            }
            Ghost(nc)
        },
        None => {
            match last {
                Some(st) => {
                    stmts.push(st);
                },
                None => {},
            }
            assert(stmts@ == old(stmts)@);
            stmts.push(if out { Stmt::Output(1) } else { Stmt::Input(1) });
            let ghost nc = costs.push(1);
            proof {
                lemma_view_stmts_index(stmts@);
                assert(stmts@.drop_last() == old(stmts)@);
                assert forall|j: int| 0 <= j < nc.len() implies 0 <= #[trigger] nc[j]
                    && op_within(view_stmts(stmts@)[j], nc[j]) by {
                    if j < nc.len() - 1 {
                        assert(view_stmts(stmts@)[j] == ops[j]);
                    }
                }
                assert(nc.drop_last() == costs);
            }
            Ghost(nc)
        },
    }
}

/// Optimises an instruction sequence into a statement tree: runs of moves and
/// cell changes coalesce into actions, runs of one I/O kind into counts, and
/// each loop is classified when it closes. A close with no open loop is
/// dropped; with a loop left open at the end, the statements accumulated
/// inside it are lost and the outermost level is returned.
pub fn optimise_local(prog: Vec<BfSymbol>) -> (r: Prog)
    requires
        prog@.len() <= i32::MAX,
    ensures
        view_prog(r) == optimise(prog@),
{
    let mut stmts: Vec<Stmt> = Vec::new();
    let mut loop_stack: Vec<Vec<Stmt>> = Vec::new();
    let ghost mut costs: Seq<int> = Seq::empty();
    let ghost mut cost_stack: Seq<Seq<int>> = Seq::empty();
    let mut i: usize = 0;
    proof {
        assert(prog@.take(0) == Seq::<BfSymbol>::empty());
        assert(view_levels(loop_stack@) =~= Seq::<Seq<Op>>::empty());
    }
    while i < prog.len()
        invariant
            0 <= i <= prog.len(),
            prog@.len() <= i32::MAX,
            scan(prog@.take(i as int)) == (Scope { cur: view_stmts(stmts@), outer: view_levels(loop_stack@) }),
            level_within(view_stmts(stmts@), costs),
            cost_stack.len() == loop_stack@.len(),
            forall|l: int| 0 <= l < loop_stack@.len() ==> level_within(view_stmts(#[trigger] loop_stack@[l]@), cost_stack[l]),
            sum(costs) + sum_levels(cost_stack) <= i,
        decreases prog.len() - i,
    {
        proof {
            assert(prog@.take(i + 1).drop_last() == prog@.take(i as int));
            assert(prog@.take(i + 1).last() == prog@[i as int]);
            lemma_sum_nonneg(costs);
            assert forall|l: int, j: int| 0 <= l < cost_stack.len() && 0 <= j < cost_stack[l].len()
                implies 0 <= #[trigger] cost_stack[l][j] by {
                assert(level_within(view_stmts(loop_stack@[l]@), cost_stack[l]));
            }
            lemma_sum_levels_nonneg(cost_stack);
        }
        match prog[i] {
            BfSymbol::Plus => {
                let g = push_change(&mut stmts, 1, Ghost(costs));
                proof { costs = g@; }
            },
            BfSymbol::Minus => {
                let g = push_change(&mut stmts, -1, Ghost(costs));
                proof { costs = g@; }
            },
            BfSymbol::Right => {
                let g = push_move(&mut stmts, 1, Ghost(costs));
                proof { costs = g@; }
            },
            BfSymbol::Left => {
                let g = push_move(&mut stmts, -1, Ghost(costs));
                proof { costs = g@; }
            },
            BfSymbol::Period => {
                let g = push_io(&mut stmts, true, Ghost(costs));
                proof { costs = g@; }
            },
            BfSymbol::Comma => {
                let g = push_io(&mut stmts, false, Ghost(costs));
                proof { costs = g@; }
            },
            BfSymbol::OpenBracket => {
                let ghost old_stack = loop_stack@;
                loop_stack.push(stmts);
                stmts = Vec::new();
                proof {
                    assert(view_levels(loop_stack@) =~= view_levels(old_stack).push(view_stmts(loop_stack@.last()@)));
                    assert(sum_levels(cost_stack.push(costs)) == sum_levels(cost_stack) + sum(costs)) by {
                        assert(cost_stack.push(costs).drop_last() == cost_stack);
                    }
                    assert forall|l: int| 0 <= l < loop_stack@.len() implies level_within(view_stmts(#[trigger] loop_stack@[l]@), cost_stack.push(costs)[l]) by {
                        if l < old_stack.len() {
                            assert(loop_stack@[l] == old_stack[l]);
                        }
                    }
                    cost_stack = cost_stack.push(costs);
                    costs = Seq::empty();
                    assert(view_stmts(stmts@) =~= Seq::<Op>::empty());
                }
            },
            BfSymbol::CloseBracket => {
                let ghost old_stack = loop_stack@;
                let popped = loop_stack.pop();
                match popped {
                    Some(start) => {
                        let ghost body_costs = costs;
                        let st = classify_loop(stmts, Ghost(costs));
                        let mut start = start;
                        let ghost outer_costs = cost_stack.last();
                        proof {
                            assert(old_stack == loop_stack@.push(start));
                            assert(level_within(view_stmts(old_stack[old_stack.len() - 1]@), outer_costs));
                            lemma_view_stmts_index(start@);
                        }
                        start.push(st);
                        stmts = start;
                        proof {
                            lemma_view_stmts_index(stmts@);
                            assert(stmts@.drop_last() == old_stack.last()@);
                            let nc = outer_costs.push(sum(body_costs));
                            assert forall|j: int| 0 <= j < nc.len() implies 0 <= #[trigger] nc[j]
                                && op_within(view_stmts(stmts@)[j], nc[j]) by {
                                if j < nc.len() - 1 {
                                    assert(view_stmts(stmts@)[j] == view_stmts(old_stack.last()@)[j]);
                                }
                            }
                            assert(nc.drop_last() == outer_costs);
                            assert(cost_stack.drop_last().push(outer_costs) == cost_stack);
                            assert(view_levels(old_stack).drop_last() =~= view_levels(loop_stack@));
                            assert forall|l: int| 0 <= l < loop_stack@.len() implies level_within(view_stmts(#[trigger] loop_stack@[l]@), cost_stack.drop_last()[l]) by {
                                assert(loop_stack@[l] == old_stack[l]);
                            }
                            costs = nc;
                            cost_stack = cost_stack.drop_last();
                        }
                    },
                    None => {},
                }
            },
        }
        i = i + 1;
    }
    proof {
        assert(prog@.take(prog@.len() as int) == prog@);
    }
    if loop_stack.len() > 0 {
        let outermost = loop_stack.swap_remove(0);
        Prog::Vec(outermost)
    } else {
        Prog::Vec(stmts)
    }
}

} // verus!
