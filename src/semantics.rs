//! What programs do: a machine with a byte tape, the effect of each
//! instruction and statement on it, loops run under a bound on rounds, and
//! the proof that optimising never changes what a program does.
use vstd::prelude::*;
use crate::model::{
    all_actions, bump, change_cell, classify, combined, delta_at, ends_in_action, is_multiplication,
    is_noop, is_scan, move_ptr, net_offset, optimise, put_input, put_output, scan, step,
    targets_of, Op, Scope,
};
use crate::symbol::BfSymbol;

verus! {

/// A machine state: the tape (cells hold 0..=255), the pointer, the input
/// not yet read, and the output written so far.
pub struct Machine {
    pub tape: spec_fn(int) -> int,
    pub ptr: int,
    pub input: Seq<int>,
    pub output: Seq<int>,
}

/// A byte value wrapped into 0..=255.
pub open spec fn wrap(v: int) -> int {
    v % 256
}

/// Every cell and every pending input holds a byte.
pub open spec fn well_formed(m: Machine) -> bool {
    &&& forall|k: int| 0 <= #[trigger] (m.tape)(k) < 256
    &&& forall|i: int| 0 <= i < m.input.len() ==> 0 <= #[trigger] m.input[i] < 256
}

/// Two machine states agree cell by cell and in everything else.
pub open spec fn same_state(a: Machine, b: Machine) -> bool {
    &&& forall|k: int| #[trigger] (a.tape)(k) == (b.tape)(k)
    &&& a.ptr == b.ptr
    &&& a.input == b.input
    &&& a.output == b.output
}

/// Adds `d` to the current cell, wrapping.
pub open spec fn add_here(m: Machine, d: int) -> Machine {
    Machine {
        tape: |k: int| if k == m.ptr { wrap((m.tape)(k) + d) } else { (m.tape)(k) },
        ..m
    }
}

/// Reads one input byte into the current cell; past the end of input the
/// cell becomes 0.
pub open spec fn read_one(m: Machine) -> Machine {
    let v = if m.input.len() > 0 { m.input[0] } else { 0 };
    Machine {
        tape: |k: int| if k == m.ptr { v } else { (m.tape)(k) },
        input: if m.input.len() > 0 { m.input.drop_first() } else { m.input },
        ..m
    }
}

/// The effect of one instruction other than a bracket.
pub open spec fn exec_symbol(m: Machine, s: BfSymbol) -> Machine {
    match s {
        BfSymbol::Plus => add_here(m, 1),
        BfSymbol::Minus => add_here(m, -1),
        BfSymbol::Right => Machine { ptr: m.ptr + 1, ..m },
        BfSymbol::Left => Machine { ptr: m.ptr - 1, ..m },
        BfSymbol::Period => Machine { output: m.output.push((m.tape)(m.ptr)), ..m },
        BfSymbol::Comma => read_one(m),
        _ => m,
    }
}

/// The effect of a sequence of instructions without brackets.
pub open spec fn exec_symbols(m: Machine, p: Seq<BfSymbol>) -> Machine
    decreases p.len(),
{
    if p.len() == 0 {
        m
    } else {
        exec_symbol(exec_symbols(m, p.drop_last()), p.last())
    }
}

/// `n` reads.
pub open spec fn read_n(m: Machine, n: nat) -> Machine
    decreases n,
{
    if n == 0 {
        m
    } else {
        read_one(read_n(m, (n - 1) as nat))
    }
}

/// `n` writes of the current cell.
pub open spec fn write_n(m: Machine, n: nat) -> Machine {
    Machine { output: m.output + Seq::new(n, |i: int| (m.tape)(m.ptr)), ..m }
}

/// The effect of a straight-line statement (loops are not covered here).
pub open spec fn exec_op(m: Machine, op: Op) -> Machine {
    match op {
        Op::Action { offset, changes } => Machine {
            tape: |k: int| wrap((m.tape)(k) + delta_at(changes, k - m.ptr)),
            ptr: m.ptr + offset,
            ..m
        },
        Op::Output { outputs } => write_n(m, outputs as nat),
        Op::Input { inputs } => read_n(m, inputs as nat),
        _ => m,
    }
}

/// The effect of a sequence of straight-line statements.
pub open spec fn exec_ops(m: Machine, ops: Seq<Op>) -> Machine
    decreases ops.len(),
{
    if ops.len() == 0 {
        m
    } else {
        exec_op(exec_ops(m, ops.drop_last()), ops.last())
    }
}

/// A symbol that is not a bracket.
pub open spec fn straight(s: BfSymbol) -> bool {
    s != BfSymbol::OpenBracket && s != BfSymbol::CloseBracket
}

proof fn lemma_wrap_wrap(x: int, d: int)
    ensures
        wrap(wrap(x) + d) == wrap(x + d),
        0 <= wrap(x) < 256,
{
    vstd::arithmetic::div_mod::lemma_add_mod_noop_right(d, x, 256);
    vstd::arithmetic::div_mod::lemma_mod_bound(x, 256);
    assert(wrap(x) + d == d + x % 256);
    assert(x + d == d + x);
}

proof fn lemma_wrap_byte(x: int)
    requires
        0 <= x < 256,
    ensures
        wrap(x) == x,
{
    vstd::arithmetic::div_mod::lemma_small_mod(x as nat, 256);
}

proof fn lemma_delta_after_bump(ch: Map<int, int>, key: int, d: int)
    ensures
        forall|k: int| #[trigger] delta_at(bump(ch, key, d), k) == delta_at(ch, k) + if k == key { d } else { 0 },
{
}

proof fn lemma_read_n_well_formed(m: Machine, n: nat)
    requires
        well_formed(m),
    ensures
        well_formed(read_n(m, n)),
        read_n(m, n).ptr == m.ptr,
        read_n(m, n).output == m.output,
    decreases n,
{
    if n > 0 {
        lemma_read_n_well_formed(m, (n - 1) as nat);
        let r = read_n(m, (n - 1) as nat);
        if r.input.len() > 0 {
            assert(0 <= r.input[0] < 256);
            assert forall|i: int| 0 <= i < r.input.drop_first().len() implies 0 <= #[trigger] r.input.drop_first()[i] < 256 by {
                assert(r.input.drop_first()[i] == r.input[i + 1]);
            }
        }
    }
}

proof fn lemma_exec_op_well_formed(m: Machine, op: Op)
    requires
        well_formed(m),
    ensures
        well_formed(exec_op(m, op)),
{
    match op {
        Op::Action { offset, changes } => {
            assert forall|k: int| 0 <= #[trigger] (exec_op(m, op).tape)(k) < 256 by {
                lemma_wrap_wrap((m.tape)(k) + delta_at(changes, k - m.ptr), 0);
            }
        },
        Op::Input { inputs } => {
            lemma_read_n_well_formed(m, inputs as nat);
        },
        _ => {},
    }
}

proof fn lemma_exec_ops_well_formed(m: Machine, ops: Seq<Op>)
    requires
        well_formed(m),
    ensures
        well_formed(exec_ops(m, ops)),
    decreases ops.len(),
{
    if ops.len() > 0 {
        lemma_exec_ops_well_formed(m, ops.drop_last());
        lemma_exec_op_well_formed(exec_ops(m, ops.drop_last()), ops.last());
    }
}


proof fn lemma_exec_symbol_congruent(a: Machine, b: Machine, s: BfSymbol)
    requires
        same_state(a, b),
    ensures
        same_state(exec_symbol(a, s), exec_symbol(b, s)),
{
    assert((a.tape)(a.ptr) == (b.tape)(b.ptr));
}

/// Every run of reads or writes counts at least one.
pub open spec fn io_counts_positive(ops: Seq<Op>) -> bool {
    forall|i: int| 0 <= i < ops.len() ==> (#[trigger] ops[i] is Output ==> ops[i]->outputs >= 1)
        && (ops[i] is Input ==> ops[i]->inputs >= 1)
}

proof fn lemma_same_is_equal(a: Machine, b: Machine)
    requires
        same_state(a, b),
    ensures
        a == b,
{
    assert(a.tape =~= b.tape);
}

proof fn lemma_same_trans(a: Machine, b: Machine, c: Machine)
    requires
        same_state(a, b),
        same_state(b, c),
    ensures
        same_state(a, c),
{
    assert forall|k: int| #[trigger] (a.tape)(k) == (c.tape)(k) by {
        assert((a.tape)(k) == (b.tape)(k));
        assert((b.tape)(k) == (c.tape)(k));
    }
}

proof fn lemma_noop_is_identity(m: Machine, a: Op)
    requires
        well_formed(m),
        is_noop(a),
    ensures
        same_state(exec_op(m, a), m),
{
    assert forall|k: int| #[trigger] (exec_op(m, a).tape)(k) == (m.tape)(k) by {
        lemma_wrap_byte((m.tape)(k));
    }
}

/// Appending an increment or decrement to the statements has the effect of
/// that instruction.
proof fn lemma_change_cell_effect(m: Machine, cur: Seq<Op>, d: int)
    requires
        well_formed(m),
    ensures
        same_state(exec_ops(m, change_cell(cur, d)), add_here(exec_ops(m, cur), d)),
{
    if ends_in_action(cur) {
        let a = cur.last();
        let m1 = exec_ops(m, cur.drop_last());
        lemma_exec_ops_well_formed(m, cur.drop_last());
        let na = Op::Action { offset: a->offset, changes: bump(a->changes, a->offset, d) };
        lemma_delta_after_bump(a->changes, a->offset, d);
        let lhs = exec_op(m1, na);
        let rhs = add_here(exec_op(m1, a), d);
        assert(exec_ops(m, cur) == exec_op(m1, a));
        assert forall|k: int| #[trigger] (lhs.tape)(k) == (rhs.tape)(k) by {
            lemma_wrap_wrap((m1.tape)(k) + delta_at(a->changes, k - m1.ptr), d);
        }
        assert(same_state(lhs, rhs));
        if is_noop(na) {
            lemma_noop_is_identity(m1, na);
            assert(change_cell(cur, d) == cur.drop_last());
            lemma_same_trans(m1, lhs, rhs);
        } else {
            assert(change_cell(cur, d) == cur.drop_last().push(na));
            assert(change_cell(cur, d).drop_last() == cur.drop_last());
        }
    } else {
        let m0 = exec_ops(m, cur);
        let na = Op::Action { offset: 0, changes: map![0int => d] };
        assert(change_cell(cur, d) == cur.push(na));
        assert(cur.push(na).drop_last() == cur);
        let lhs = exec_op(m0, na);
        let rhs = add_here(m0, d);
        lemma_exec_ops_well_formed(m, cur);
        assert forall|k: int| #[trigger] (lhs.tape)(k) == (rhs.tape)(k) by {
            if k != m0.ptr {
                lemma_wrap_byte((m0.tape)(k));
            }
        }
    }
}

/// Appending a move to the statements has the effect of that instruction.
proof fn lemma_move_ptr_effect(m: Machine, cur: Seq<Op>, d: int)
    requires
        well_formed(m),
    ensures
        same_state(exec_ops(m, move_ptr(cur, d)), Machine { ptr: exec_ops(m, cur).ptr + d, ..exec_ops(m, cur) }),
{
    if ends_in_action(cur) {
        let a = cur.last();
        let m1 = exec_ops(m, cur.drop_last());
        lemma_exec_ops_well_formed(m, cur.drop_last());
        let na = Op::Action { offset: a->offset + d, changes: a->changes };
        assert(exec_ops(m, cur) == exec_op(m1, a));
        if is_noop(na) {
            lemma_noop_is_identity(m1, na);
            assert(move_ptr(cur, d) == cur.drop_last());
        } else {
            assert(move_ptr(cur, d) == cur.drop_last().push(na));
            assert(move_ptr(cur, d).drop_last() == cur.drop_last());
        }
    } else {
        let m0 = exec_ops(m, cur);
        let na = Op::Action { offset: d, changes: Map::empty() };
        assert(move_ptr(cur, d) == cur.push(na));
        assert(cur.push(na).drop_last() == cur);
        lemma_exec_ops_well_formed(m, cur);
        assert forall|k: int| #[trigger] (exec_op(m0, na).tape)(k) == (m0.tape)(k) by {
            lemma_wrap_byte((m0.tape)(k));
        }
    }
}

/// Appending a write to the statements has the effect of that instruction.
proof fn lemma_put_output_effect(m: Machine, cur: Seq<Op>)
    requires
        io_counts_positive(cur),
    ensures
        same_state(exec_ops(m, put_output(cur)), exec_symbol(exec_ops(m, cur), BfSymbol::Period)),
{
    if cur.len() > 0 && cur.last() is Output {
        let n = cur.last()->outputs;
        let m1 = exec_ops(m, cur.drop_last());
        let no = Op::Output { outputs: n + 1 };
        assert(put_output(cur).drop_last() == cur.drop_last());
        assert(exec_ops(m, cur) == exec_op(m1, cur.last()));
        let c = (m1.tape)(m1.ptr);
        assert(cur[cur.len() - 1] == cur.last());
        assert(n >= 1);
        assert(Seq::new((n + 1) as nat, |i: int| c) =~= Seq::new(n as nat, |i: int| c).push(c));
        assert(m1.output + Seq::new((n + 1) as nat, |i: int| c) =~= (m1.output + Seq::new(n as nat, |i: int| c)).push(c));
    } else {
        assert(put_output(cur).drop_last() == cur);
        let m0 = exec_ops(m, cur);
        let c = (m0.tape)(m0.ptr);
        assert(m0.output + Seq::new(1, |i: int| c) =~= m0.output.push(c));
    }
}

/// Appending a read to the statements has the effect of that instruction.
proof fn lemma_put_input_effect(m: Machine, cur: Seq<Op>)
    requires
        io_counts_positive(cur),
    ensures
        same_state(exec_ops(m, put_input(cur)), exec_symbol(exec_ops(m, cur), BfSymbol::Comma)),
{
    if cur.len() > 0 && cur.last() is Input {
        assert(put_input(cur).drop_last() == cur.drop_last());
        let n = cur.last()->inputs;
        let m1 = exec_ops(m, cur.drop_last());
        assert(exec_ops(m, cur) == exec_op(m1, cur.last()));
        assert(cur[cur.len() - 1] == cur.last());
        assert(n >= 1);
        assert(((n + 1) as nat - 1) as nat == n as nat);
        assert(read_n(m1, (n + 1) as nat) == read_one(read_n(m1, n as nat)));
    } else {
        assert(put_input(cur).drop_last() == cur);
        let m0 = exec_ops(m, cur);
        assert(read_n(m0, 1) == read_one(read_n(m0, 0)));
    }
}


proof fn lemma_io_counts_step(cur: Seq<Op>, s: BfSymbol)
    requires
        io_counts_positive(cur),
        straight(s),
    ensures
        io_counts_positive(step(crate::model::Scope { cur, outer: Seq::empty() }, s).cur),
{
    let next = step(crate::model::Scope { cur, outer: Seq::empty() }, s).cur;
    assert forall|i: int| 0 <= i < next.len() implies (#[trigger] next[i] is Output ==> next[i]->outputs >= 1)
        && (next[i] is Input ==> next[i]->inputs >= 1) by {
        if i < cur.len() - 1 || (i < cur.len() && next.len() > cur.len()) {
            assert(next[i] == cur[i]);
        } else if i < cur.len() && next.len() == cur.len() && i == cur.len() - 1 {
            if cur[i] is Output || cur[i] is Input {
                assert(cur[i] == cur.last());
            }
        }
    }
}

/// On a program without loops, running the optimised statements leaves the
/// machine exactly as running the instructions one by one does: the same
/// tape, pointer, remaining input and output.
pub proof fn lemma_straight_line_equivalence(m: Machine, p: Seq<BfSymbol>)
    requires
        well_formed(m),
        forall|i: int| 0 <= i < p.len() ==> straight(#[trigger] p[i]),
    ensures
        same_state(exec_ops(m, optimise(p)), exec_symbols(m, p)),
        scan(p).outer.len() == 0,
        io_counts_positive(optimise(p)),
    decreases p.len(),
{
    if p.len() > 0 {
        let q = p.drop_last();
        let s = p.last();
        assert forall|i: int| 0 <= i < q.len() implies straight(#[trigger] q[i]) by {
            assert(q[i] == p[i]);
        }
        assert(straight(p[p.len() - 1]));
        lemma_straight_line_equivalence(m, q);
        let cur = optimise(q);
        let before = exec_symbols(m, q);
        assert(scan(p) == step(scan(q), s));
        lemma_exec_symbol_congruent(exec_ops(m, cur), before, s);
        lemma_io_counts_step(cur, s);
        match s {
            BfSymbol::Plus => lemma_change_cell_effect(m, cur, 1),
            BfSymbol::Minus => lemma_change_cell_effect(m, cur, -1),
            BfSymbol::Right => lemma_move_ptr_effect(m, cur, 1),
            BfSymbol::Left => lemma_move_ptr_effect(m, cur, -1),
            BfSymbol::Period => lemma_put_output_effect(m, cur),
            BfSymbol::Comma => lemma_put_input_effect(m, cur),
            _ => {},
        }
    }
}

/// One round of a multiplication loop: the current cell loses `decrement`
/// and each target cell gains its delta, wrapping.
pub open spec fn multiplication_round(m: Machine, decrement: int, targets: Map<int, int>) -> Machine {
    Machine {
        tape: |k: int|
            if k == m.ptr {
                wrap((m.tape)(k) - decrement)
            } else {
                wrap((m.tape)(k) + delta_at(targets, k - m.ptr))
            },
        ..m
    }
}

proof fn lemma_body_folds(m: Machine, body: Seq<Op>)
    requires
        well_formed(m),
        all_actions(body),
    ensures
        forall|k: int| #[trigger] (exec_ops(m, body).tape)(k) == wrap((m.tape)(k) + combined(body, k - m.ptr)),
        exec_ops(m, body).ptr == m.ptr + net_offset(body),
        exec_ops(m, body).input == m.input,
        exec_ops(m, body).output == m.output,
    decreases body.len(),
{
    if body.len() == 0 {
        assert forall|k: int| #[trigger] (exec_ops(m, body).tape)(k) == wrap((m.tape)(k) + combined(body, k - m.ptr)) by {
            lemma_wrap_byte((m.tape)(k));
        }
    } else {
        let q = body.drop_last();
        assert forall|i: int| 0 <= i < q.len() implies (#[trigger] q[i]) is Action by {
            assert(q[i] == body[i]);
        }
        assert(body[body.len() - 1] == body.last());
        lemma_body_folds(m, q);
        let m1 = exec_ops(m, q);
        let a = body.last();
        assert forall|k: int| #[trigger] (exec_ops(m, body).tape)(k) == wrap((m.tape)(k) + combined(body, k - m.ptr)) by {
            let c1 = combined(q, k - m.ptr);
            let da = delta_at(a->changes, k - m1.ptr);
            assert((m1.tape)(k) == wrap((m.tape)(k) + c1));
            lemma_wrap_wrap((m.tape)(k) + c1, da);
            assert(k - m1.ptr == (k - m.ptr) - net_offset(q));
        }
    }
}

/// One pass over the body of a multiplication loop has exactly the effect
/// of one round of the multiplication loop it is classified as.
pub proof fn lemma_multiplication_round(m: Machine, body: Seq<Op>)
    requires
        well_formed(m),
        is_multiplication(body),
    ensures
        classify(body) is MultiplicationLoop,
        same_state(
            exec_ops(m, body),
            multiplication_round(m, classify(body)->decrement, classify(body)->targets),
        ),
{
    crate::laws::lemma_multiplication_iff_odd(body);
    lemma_body_folds(m, body);
    let c0 = combined(body, 0);
    let d = classify(body)->decrement;
    assert(d == (-c0) % 256);
    let r = multiplication_round(m, d, classify(body)->targets);
    assert forall|k: int| #[trigger] (exec_ops(m, body).tape)(k) == (r.tape)(k) by {
        if k == m.ptr {
            vstd::arithmetic::div_mod::lemma_fundamental_div_mod(-c0, 256);
            let q = (-c0) / 256;
            assert(-c0 == 256 * q + d);
            assert((m.tape)(k) - d == (m.tape)(k) + c0 + 256 * q);
            vstd::arithmetic::div_mod::lemma_mod_multiples_vanish(q, (m.tape)(k) + c0, 256);
        } else {
            assert(classify(body)->targets == targets_of(body));
        }
    }
}

/// The statement that one instruction other than a bracket stands for on
/// its own.
pub open spec fn raw_op(s: BfSymbol) -> Op {
    match s {
        BfSymbol::Plus => Op::Action { offset: 0, changes: map![0int => 1int] },
        BfSymbol::Minus => Op::Action { offset: 0, changes: map![0int => -1int] },
        BfSymbol::Right => Op::Action { offset: 1, changes: Map::empty() },
        BfSymbol::Left => Op::Action { offset: -1, changes: Map::empty() },
        BfSymbol::Period => Op::Output { outputs: 1 },
        _ => Op::Input { inputs: 1 },
    }
}

/// Reading instructions one by one without any optimisation: each
/// instruction is a statement, and each bracket pair a loop.
pub open spec fn raw_step(sc: Scope, s: BfSymbol) -> Scope {
    match s {
        BfSymbol::OpenBracket => Scope { cur: Seq::empty(), outer: sc.outer.push(sc.cur) },
        BfSymbol::CloseBracket => if sc.outer.len() == 0 {
            sc
        } else {
            Scope { cur: sc.outer.last().push(Op::Loop { body: sc.cur }), outer: sc.outer.drop_last() }
        },
        _ => Scope { cur: sc.cur.push(raw_op(s)), outer: sc.outer },
    }
}

pub open spec fn raw_scan(p: Seq<BfSymbol>) -> Scope
    decreases p.len(),
{
    if p.len() == 0 {
        Scope { cur: Seq::empty(), outer: Seq::empty() }
    } else {
        raw_step(raw_scan(p.drop_last()), p.last())
    }
}

/// The program as written, instruction by instruction, read with the same
/// bracket discipline as the optimiser.
pub open spec fn raw_program(p: Seq<BfSymbol>) -> Seq<Op> {
    let sc = raw_scan(p);
    if sc.outer.len() > 0 {
        sc.outer[0]
    } else {
        sc.cur
    }
}

/// Runs statements, loops included. Each loop round takes one unit of
/// `fuel`; `None` means the fuel ran out first.
pub open spec fn run_ops(m: Machine, ops: Seq<Op>, fuel: nat) -> Option<Machine>
    decreases fuel, ops.len() + 1,
{
    if ops.len() == 0 {
        Some(m)
    } else {
        match run_ops(m, ops.drop_last(), fuel) {
            None => None,
            Some(m1) => match ops.last() {
                Op::Loop { body } => run_loop(m1, body, fuel),
                Op::ScanLoop { direction } => run_loop(
                    m1,
                    seq![Op::Action { offset: direction, changes: Map::empty() }],
                    fuel,
                ),
                Op::MultiplicationLoop { decrement, targets } => run_loop(
                    m1,
                    seq![Op::Action { offset: 0, changes: targets.insert(0, -decrement) }],
                    fuel,
                ),
                Op::ZeroLoop => run_loop(m1, seq![Op::Action { offset: 0, changes: map![0int => -1int] }], fuel),
                other => Some(exec_op(m1, other)),
            },
        }
    }
}

/// Runs `body` while the current cell is nonzero.
pub open spec fn run_loop(m: Machine, body: Seq<Op>, fuel: nat) -> Option<Machine>
    decreases fuel, 0nat,
{
    if fuel == 0 {
        None
    } else if (m.tape)(m.ptr) == 0 {
        Some(m)
    } else {
        match run_ops(m, body, (fuel - 1) as nat) {
            None => None,
            Some(m2) => run_loop(m2, body, (fuel - 1) as nat),
        }
    }
}

/// Two statement sequences do the same from every machine state, with
/// every amount of fuel.
pub open spec fn equivalent(a: Seq<Op>, b: Seq<Op>) -> bool {
    forall|m: Machine, fuel: nat| well_formed(m) ==> #[trigger] run_ops(m, a, fuel) == run_ops(m, b, fuel)
}

proof fn lemma_run_well_formed(m: Machine, ops: Seq<Op>, fuel: nat)
    requires
        well_formed(m),
    ensures
        run_ops(m, ops, fuel) matches Some(r) ==> well_formed(r),
    decreases fuel, ops.len() + 1,
{
    if ops.len() > 0 {
        lemma_run_well_formed(m, ops.drop_last(), fuel);
        match run_ops(m, ops.drop_last(), fuel) {
            None => {},
            Some(m1) => match ops.last() {
                Op::Loop { body } => lemma_loop_well_formed(m1, body, fuel),
                Op::ScanLoop { direction } => lemma_loop_well_formed(
                    m1,
                    seq![Op::Action { offset: direction, changes: Map::empty() }],
                    fuel,
                ),
                Op::MultiplicationLoop { decrement, targets } => lemma_loop_well_formed(
                    m1,
                    seq![Op::Action { offset: 0, changes: targets.insert(0, -decrement) }],
                    fuel,
                ),
                Op::ZeroLoop => lemma_loop_well_formed(m1, seq![Op::Action { offset: 0, changes: map![0int => -1int] }], fuel),
                other => lemma_exec_op_well_formed(m1, other),
            },
        }
    }
}

proof fn lemma_loop_well_formed(m: Machine, body: Seq<Op>, fuel: nat)
    requires
        well_formed(m),
    ensures
        run_loop(m, body, fuel) matches Some(r) ==> well_formed(r),
    decreases fuel, 0nat,
{
    if fuel > 0 && (m.tape)(m.ptr) != 0 {
        lemma_run_well_formed(m, body, (fuel - 1) as nat);
        match run_ops(m, body, (fuel - 1) as nat) {
            None => {},
            Some(m2) => lemma_loop_well_formed(m2, body, (fuel - 1) as nat),
        }
    }
}

/// Running a sequence with one more statement runs the sequence, then that
/// statement.
proof fn lemma_run_push(m: Machine, ops: Seq<Op>, x: Op, fuel: nat)
    ensures
        run_ops(m, ops.push(x), fuel) == match run_ops(m, ops, fuel) {
            None => None,
            Some(m1) => run_ops(m1, seq![x], fuel),
        },
{
    assert(ops.push(x).drop_last() == ops);
    assert(seq![x].drop_last() == Seq::<Op>::empty());
    assert(ops.push(x).last() == x);
    assert(seq![x].last() == x);
    match run_ops(m, ops, fuel) {
        None => {},
        Some(m1) => {
            assert(run_ops(m1, Seq::<Op>::empty(), fuel) == Some(m1));
            assert(run_ops(m1, seq![x], fuel) == match x {
                Op::Loop { body } => run_loop(m1, body, fuel),
                Op::ScanLoop { direction } => run_loop(
                    m1,
                    seq![Op::Action { offset: direction, changes: Map::empty() }],
                    fuel,
                ),
                Op::MultiplicationLoop { decrement, targets } => run_loop(
                    m1,
                    seq![Op::Action { offset: 0, changes: targets.insert(0, -decrement) }],
                    fuel,
                ),
                Op::ZeroLoop => run_loop(m1, seq![Op::Action { offset: 0, changes: map![0int => -1int] }], fuel),
                other => Some(exec_op(m1, other)),
            });
        },
    }
}

/// A body of actions runs straight through, whatever the fuel.
proof fn lemma_run_actions(m: Machine, ops: Seq<Op>, fuel: nat)
    requires
        all_actions(ops),
    ensures
        run_ops(m, ops, fuel) == Some(exec_ops(m, ops)),
    decreases ops.len(),
{
    if ops.len() > 0 {
        let q = ops.drop_last();
        assert forall|i: int| 0 <= i < q.len() implies (#[trigger] q[i]) is Action by {
            assert(q[i] == ops[i]);
        }
        assert(ops[ops.len() - 1] == ops.last());
        lemma_run_actions(m, q, fuel);
    }
}

/// Loops over equivalent bodies are equivalent.
proof fn lemma_loop_congruent(m: Machine, a: Seq<Op>, b: Seq<Op>, fuel: nat)
    requires
        well_formed(m),
        equivalent(a, b),
    ensures
        run_loop(m, a, fuel) == run_loop(m, b, fuel),
    decreases fuel,
{
    if fuel > 0 && (m.tape)(m.ptr) != 0 {
        let f = (fuel - 1) as nat;
        assert(run_ops(m, a, f) == run_ops(m, b, f));
        lemma_run_well_formed(m, a, f);
        match run_ops(m, a, f) {
            None => {},
            Some(m2) => lemma_loop_congruent(m2, a, b, f),
        }
    }
}

proof fn lemma_run_single(m: Machine, x: Op, fuel: nat)
    requires
        x is Action || x is Output || x is Input,
    ensures
        run_ops(m, seq![x], fuel) == Some(exec_op(m, x)),
{
    assert(seq![x].drop_last() =~= Seq::<Op>::empty());
    assert(seq![x].last() == x);
    assert(run_ops(m, Seq::<Op>::empty(), fuel) == Some(m));
}

proof fn lemma_fresh_action_effect(m: Machine, s: BfSymbol)
    requires
        well_formed(m),
        s == BfSymbol::Plus || s == BfSymbol::Minus || s == BfSymbol::Right || s == BfSymbol::Left,
    ensures
        exec_op(m, raw_op(s)) == exec_symbol(m, s),
{
    let l = exec_op(m, raw_op(s));
    let r = exec_symbol(m, s);
    assert forall|k: int| #[trigger] (l.tape)(k) == (r.tape)(k) by {
        if !((s == BfSymbol::Plus || s == BfSymbol::Minus) && k == m.ptr) {
            lemma_wrap_byte((m.tape)(k));
        }
    }
    lemma_same_is_equal(l, r);
}

/// Appending an instruction other than a bracket to the current level has
/// the effect of the statement that instruction stands for on its own.
proof fn lemma_level_step(m: Machine, cur: Seq<Op>, s: BfSymbol, fuel: nat)
    requires
        well_formed(m),
        io_counts_positive(cur),
        straight(s),
    ensures
        run_ops(m, step(Scope { cur, outer: Seq::empty() }, s).cur, fuel) == match run_ops(m, cur, fuel) {
            None => None,
            Some(m1) => Some(exec_op(m1, raw_op(s))),
        },
{
    let next = step(Scope { cur, outer: Seq::empty() }, s).cur;
    if s == BfSymbol::Plus || s == BfSymbol::Minus || s == BfSymbol::Right || s == BfSymbol::Left {
        let d: int = if s == BfSymbol::Plus || s == BfSymbol::Right { 1 } else { -1 };
        if ends_in_action(cur) {
            let c = cur.drop_last();
            let a = cur.last();
            assert(cur == c.push(a));
            lemma_run_push(m, c, a, fuel);
            lemma_run_well_formed(m, c, fuel);
            let na = if s == BfSymbol::Plus || s == BfSymbol::Minus {
                Op::Action { offset: a->offset, changes: bump(a->changes, a->offset, d) }
            } else {
                Op::Action { offset: a->offset + d, changes: a->changes }
            };
            lemma_run_push(m, c, na, fuel);
            match run_ops(m, c, fuel) {
                None => {
                    if is_noop(na) {
                        assert(next == c);
                    } else {
                        assert(next == c.push(na));
                    }
                },
                Some(m1) => {
                    let after = exec_op(m1, a);
                    lemma_exec_op_well_formed(m1, a);
                    assert(run_ops(m1, seq![a], fuel) == Some(after));
                    lemma_run_single(m1, na, fuel);
                    lemma_fresh_action_effect(after, s);
                    let want = exec_symbol(after, s);
                    assert(same_state(exec_op(m1, na), want)) by {
                        if s == BfSymbol::Plus || s == BfSymbol::Minus {
                            lemma_delta_after_bump(a->changes, a->offset, d);
                            assert forall|k: int| #[trigger] (exec_op(m1, na).tape)(k) == (want.tape)(k) by {
                                lemma_wrap_wrap((m1.tape)(k) + delta_at(a->changes, k - m1.ptr), d);
                            }
                        }
                    }
                    lemma_same_is_equal(exec_op(m1, na), want);
                    if is_noop(na) {
                        lemma_noop_is_identity(m1, na);
                        lemma_same_is_equal(exec_op(m1, na), m1);
                        assert(next == c);
                    } else {
                        assert(next == c.push(na));
                    }
                },
            }
        } else {
            let fresh = if s == BfSymbol::Plus || s == BfSymbol::Minus {
                Op::Action { offset: 0, changes: map![0int => d] }
            } else {
                Op::Action { offset: d, changes: Map::empty() }
            };
            assert(fresh == raw_op(s));
            assert(next == cur.push(fresh));
            lemma_run_push(m, cur, fresh, fuel);
            match run_ops(m, cur, fuel) {
                None => {},
                Some(m1) => {
                    lemma_run_single(m1, fresh, fuel);
                },
            }
        }
    } else if s == BfSymbol::Period {
        if cur.len() > 0 && cur.last() is Output {
            let c = cur.drop_last();
            let a = cur.last();
            let n = a->outputs;
            assert(cur[cur.len() - 1] == a);
            assert(n >= 1);
            let na = Op::Output { outputs: n + 1 };
            assert(cur == c.push(a));
            assert(next == c.push(na));
            lemma_run_push(m, c, a, fuel);
            lemma_run_push(m, c, na, fuel);
            match run_ops(m, c, fuel) {
                None => {},
                Some(m1) => {
                    lemma_run_single(m1, a, fuel);
                    lemma_run_single(m1, na, fuel);
                    let w = write_n(m1, n as nat);
                    let v = (m1.tape)(m1.ptr);
                    assert(Seq::new((n + 1) as nat, |i: int| v) =~= Seq::new(n as nat, |i: int| v).push(v));
                    assert(m1.output + Seq::new((n + 1) as nat, |i: int| v) =~= (m1.output + Seq::new(n as nat, |i: int| v)) + Seq::new(1, |i: int| v));
                    assert(Seq::new(1, |i: int| (w.tape)(w.ptr)) =~= Seq::new(1, |i: int| v));
                    assert(exec_op(m1, na) == exec_op(w, raw_op(s)));
                },
            }
        } else {
            assert(next == cur.push(raw_op(s)));
            lemma_run_push(m, cur, raw_op(s), fuel);
            match run_ops(m, cur, fuel) {
                None => {},
                Some(m1) => {
                    lemma_run_single(m1, raw_op(s), fuel);
                },
            }
        }
    } else {
        assert(s == BfSymbol::Comma);
        if cur.len() > 0 && cur.last() is Input {
            let c = cur.drop_last();
            let a = cur.last();
            let n = a->inputs;
            assert(cur[cur.len() - 1] == a);
            assert(n >= 1);
            let na = Op::Input { inputs: n + 1 };
            assert(cur == c.push(a));
            assert(next == c.push(na));
            lemma_run_push(m, c, a, fuel);
            lemma_run_push(m, c, na, fuel);
            match run_ops(m, c, fuel) {
                None => {},
                Some(m1) => {
                    lemma_run_single(m1, a, fuel);
                    lemma_run_single(m1, na, fuel);
                    assert(((n + 1) as nat - 1) as nat == n as nat);
                    let r = read_n(m1, n as nat);
                    assert(read_n(r, 1) == read_one(read_n(r, 0)));
                    assert(exec_op(m1, na) == exec_op(r, raw_op(s)));
                },
            }
        } else {
            assert(next == cur.push(raw_op(s)));
            lemma_run_push(m, cur, raw_op(s), fuel);
            match run_ops(m, cur, fuel) {
                None => {},
                Some(m1) => {
                    lemma_run_single(m1, raw_op(s), fuel);
                },
            }
        }
    }
}

proof fn lemma_run_single_loop(m: Machine, x: Op, fuel: nat)
    ensures
        x is Loop ==> run_ops(m, seq![x], fuel) == run_loop(m, x->body, fuel),
        x is ScanLoop ==> run_ops(m, seq![x], fuel) == run_loop(
            m,
            seq![Op::Action { offset: x->direction, changes: Map::empty() }],
            fuel,
        ),
        x is MultiplicationLoop ==> run_ops(m, seq![x], fuel) == run_loop(
            m,
            seq![Op::Action { offset: 0, changes: x->targets.insert(0, -x->decrement) }],
            fuel,
        ),
{
    assert(seq![x].drop_last() =~= Seq::<Op>::empty());
    assert(seq![x].last() == x);
    assert(run_ops(m, Seq::<Op>::empty(), fuel) == Some(m));
}

/// A closed loop, as classified, runs exactly as the generic loop over its
/// body does.
proof fn lemma_classified_loop(m: Machine, body: Seq<Op>, fuel: nat)
    requires
        well_formed(m),
    ensures
        run_ops(m, seq![classify(body)], fuel) == run_loop(m, body, fuel),
{
    let c = classify(body);
    lemma_run_single_loop(m, c, fuel);
    if is_scan(body) {
        let a = body[0];
        assert(a->changes =~= Map::<int, int>::empty());
        assert(body =~= seq![Op::Action { offset: a->offset, changes: Map::empty() }]);
    } else if is_multiplication(body) {
        crate::laws::lemma_multiplication_iff_odd(body);
        let one = seq![Op::Action { offset: 0, changes: c->targets.insert(0, -c->decrement) }];
        assert(equivalent(one, body)) by {
            assert forall|m2: Machine, f2: nat| well_formed(m2) implies #[trigger] run_ops(m2, one, f2) == run_ops(m2, body, f2) by {
                lemma_run_single(m2, one[0], f2);
                assert(one == seq![one[0]]);
                lemma_run_actions(m2, body, f2);
                lemma_multiplication_round(m2, body);
                let round = multiplication_round(m2, c->decrement, c->targets);
                lemma_same_is_equal(exec_ops(m2, body), round);
                let e = exec_op(m2, one[0]);
                assert forall|k: int| #[trigger] (e.tape)(k) == (round.tape)(k) by {
                    if k != m2.ptr {
                        assert(c->targets.insert(0, -c->decrement).contains_key(k - m2.ptr) == c->targets.contains_key(k - m2.ptr));
                    }
                }
                lemma_same_is_equal(e, round);
            }
        }
        lemma_loop_congruent(m, one, body, fuel);
    }
}

/// Each statement of the unoptimised reading does exactly what its
/// instruction does.
pub proof fn lemma_raw_op_is_instruction(m: Machine, s: BfSymbol)
    requires
        well_formed(m),
        straight(s),
    ensures
        exec_op(m, raw_op(s)) == exec_symbol(m, s),
{
    if s == BfSymbol::Period {
        let v = (m.tape)(m.ptr);
        assert(m.output + Seq::new(1, |i: int| v) =~= m.output.push(v));
    } else if s == BfSymbol::Comma {
        assert(read_n(m, 1) == read_one(read_n(m, 0)));
    } else {
        lemma_fresh_action_effect(m, s);
    }
}

/// The optimiser's levels and the unoptimised reading's levels match one
/// for one, and matching levels are equivalent.
pub open spec fn levels_equivalent(o: Scope, r: Scope) -> bool {
    &&& o.outer.len() == r.outer.len()
    &&& equivalent(o.cur, r.cur)
    &&& forall|l: int| 0 <= l < o.outer.len() ==> equivalent(#[trigger] o.outer[l], r.outer[l])
    &&& io_counts_positive(o.cur)
    &&& forall|l: int| 0 <= l < o.outer.len() ==> io_counts_positive(#[trigger] o.outer[l])
}

proof fn lemma_equivalent_empty()
    ensures
        equivalent(Seq::<Op>::empty(), Seq::<Op>::empty()),
{
}

proof fn lemma_scans_equivalent(p: Seq<BfSymbol>)
    ensures
        levels_equivalent(scan(p), raw_scan(p)),
    decreases p.len(),
{
    if p.len() == 0 {
        lemma_equivalent_empty();
    } else {
        let q = p.drop_last();
        let s = p.last();
        lemma_scans_equivalent(q);
        let o = scan(q);
        let r = raw_scan(q);
        let o2 = scan(p);
        let r2 = raw_scan(p);
        assert(o2 == step(o, s));
        assert(r2 == raw_step(r, s));
        if straight(s) {
            assert(o2.cur == step(Scope { cur: o.cur, outer: Seq::empty() }, s).cur);
            assert(o2.outer == o.outer);
            lemma_io_counts_step(o.cur, s);
            assert(equivalent(o2.cur, r2.cur)) by {
                assert forall|m: Machine, f: nat| well_formed(m) implies #[trigger] run_ops(m, o2.cur, f) == run_ops(m, r2.cur, f) by {
                    lemma_level_step(m, o.cur, s, f);
                    lemma_run_push(m, r.cur, raw_op(s), f);
                    assert(run_ops(m, o.cur, f) == run_ops(m, r.cur, f));
                    match run_ops(m, r.cur, f) {
                        None => {},
                        Some(m1) => {
                            assert(raw_op(s) is Action || raw_op(s) is Output || raw_op(s) is Input);
                            lemma_run_single(m1, raw_op(s), f);
                        },
                    }
                }
            }
        } else if s == BfSymbol::OpenBracket {
            lemma_equivalent_empty();
            assert forall|l: int| 0 <= l < o2.outer.len() implies equivalent(#[trigger] o2.outer[l], r2.outer[l]) by {
                if l < o.outer.len() {
                    assert(o2.outer[l] == o.outer[l]);
                    assert(r2.outer[l] == r.outer[l]);
                }
            }
            assert forall|l: int| 0 <= l < o2.outer.len() implies io_counts_positive(#[trigger] o2.outer[l]) by {
                if l < o.outer.len() {
                    assert(o2.outer[l] == o.outer[l]);
                }
            }
        } else if o.outer.len() > 0 {
            let n = o.outer.len() - 1;
            let ob = o.outer[n];
            let rb = r.outer[n];
            assert(o.outer.last() == ob);
            assert(r.outer.last() == rb);
            assert(equivalent(ob, rb));
            assert(io_counts_positive(ob));
            assert(o2.cur == ob.push(classify(o.cur)));
            assert(r2.cur == rb.push(Op::Loop { body: r.cur }));
            assert(equivalent(o2.cur, r2.cur)) by {
                assert forall|m: Machine, f: nat| well_formed(m) implies #[trigger] run_ops(m, o2.cur, f) == run_ops(m, r2.cur, f) by {
                    lemma_run_push(m, ob, classify(o.cur), f);
                    lemma_run_push(m, rb, Op::Loop { body: r.cur }, f);
                    assert(run_ops(m, ob, f) == run_ops(m, rb, f));
                    lemma_run_well_formed(m, ob, f);
                    match run_ops(m, ob, f) {
                        None => {},
                        Some(m1) => {
                            lemma_classified_loop(m1, o.cur, f);
                            lemma_loop_congruent(m1, o.cur, r.cur, f);
                            lemma_run_single_loop(m1, Op::Loop { body: r.cur }, f);
                        },
                    }
                }
            }
            assert(io_counts_positive(o2.cur)) by {
                assert forall|i: int| 0 <= i < o2.cur.len() implies (#[trigger] o2.cur[i] is Output ==> o2.cur[i]->outputs >= 1)
                    && (o2.cur[i] is Input ==> o2.cur[i]->inputs >= 1) by {
                    if i < ob.len() {
                        assert(o2.cur[i] == ob[i]);
                    }
                }
            }
            assert forall|l: int| 0 <= l < o2.outer.len() implies equivalent(#[trigger] o2.outer[l], r2.outer[l]) by {
                assert(o2.outer[l] == o.outer[l]);
                assert(r2.outer[l] == r.outer[l]);
            }
            assert forall|l: int| 0 <= l < o2.outer.len() implies io_counts_positive(#[trigger] o2.outer[l]) by {
                assert(o2.outer[l] == o.outer[l]);
            }
        }
    }
}

/// Optimising never changes what a program does: from every machine state
/// (cells holding bytes, any input), and with every bound on loop rounds,
/// the optimised statements end in the same state (tape, pointer, input
/// left, and output) as the program run instruction by instruction, or both
/// run out of rounds.
pub proof fn lemma_optimise_preserves_meaning(p: Seq<BfSymbol>)
    ensures
        equivalent(optimise(p), raw_program(p)),
{
    lemma_scans_equivalent(p);
    let o = scan(p);
    let r = raw_scan(p);
    if o.outer.len() > 0 {
        assert(equivalent(o.outer[0], r.outer[0]));
    }
}

} // verus!
