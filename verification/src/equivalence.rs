//! Why the optimized program does what the raw program does.
//!
//! Whenever a raw program, run on a fixed input, comes to its end, its
//! optimized form comes to its end too and has written the same bytes.
//!
//! The proofs follow the two machines side by side. Wherever the raw machine
//! is about to start a run of cell edits and head moves, an output, an input
//! or a loop, the optimized machine holds the same memory and is about to
//! start the block that the optimizer made of it.

use crate::astraw::Instr;
use crate::astsoup::{batch_step, classify, delta_at, empty_batch, extend, soupify_spec, Block};
use crate::vm::{tape_limit, wrap, Fault, Outcome, RawConfig, Signal, SoupConfig, State};
use vstd::prelude::*;

verus! {

/// Every instruction of `p` is a cell edit or a head move.
pub open spec fn all_simple(p: Seq<Instr>) -> bool {
    forall|i: int| 0 <= i < p.len() ==> (#[trigger] p[i]).is_simple()
}

/// The batch that a run of cell edits and head moves folds into.
pub open spec fn batch_of(run: Seq<Instr>) -> Block
    decreases run.len(),
{
    if run.len() == 0 {
        empty_batch()
    } else {
        batch_step(batch_of(run.drop_last()), run.last())
    }
}

/// How many cell edits and head moves stand at the front of `p`.
pub open spec fn simple_prefix(p: Seq<Instr>) -> nat
    decreases p.len(),
{
    if p.len() == 0 || !p[0].is_simple() {
        0
    } else {
        1 + simple_prefix(p.skip(1))
    }
}

proof fn lemma_simple_prefix(p: Seq<Instr>)
    ensures
        simple_prefix(p) <= p.len(),
        all_simple(p.take(simple_prefix(p) as int)),
        simple_prefix(p) == p.len() || !p[simple_prefix(p) as int].is_simple(),
    decreases p.len(),
{
    if p.len() == 0 || !p[0].is_simple() {
    } else {
        lemma_simple_prefix(p.skip(1));
        let k = simple_prefix(p.skip(1)) as int;
        assert forall|i: int| 0 <= i < k + 1 implies (#[trigger] p.take(k + 1)[i]).is_simple() by {
            if i > 0 {
                assert(p.take(k + 1)[i] == p.skip(1).take(k)[i - 1]);
            }
        }
        if k + 1 < p.len() {
            assert(p[k + 1] == p.skip(1)[k]);
        }
    }
}

proof fn lemma_batch_of_is_batch(run: Seq<Instr>)
    requires
        all_simple(run),
    ensures
        batch_of(run) is Batch,
    decreases run.len(),
{
    if run.len() > 0 {
        assert(all_simple(run.drop_last())) by {
            assert forall|i: int| 0 <= i < run.drop_last().len() implies (
            #[trigger] run.drop_last()[i]).is_simple() by {
                assert(run.drop_last()[i] == run[i]);
            }
        }
        lemma_batch_of_is_batch(run.drop_last());
        assert(run.last().is_simple());
    }
}

/// The optimized form of a program ends in a batch exactly when the program
/// ends in a cell edit or head move.
proof fn lemma_soupify_last(p: Seq<Instr>)
    requires
        p.len() > 0,
    ensures
        soupify_spec(p).len() > 0,
        soupify_spec(p).last() is Batch <==> p.last().is_simple(),
{
    let s = soupify_spec(p.drop_last());
    match p.last() {
        Instr::Loop(body) => {
            let b = soupify_spec(body);
            assert(!(classify(b) is Batch));
        },
        Instr::Output => {},
        Instr::Input => {},
        x => {
            assert(x.is_simple());
            if s.len() > 0 && s.last() is Batch {
                assert(batch_step(s.last(), x) is Batch);
            } else {
                assert(batch_step(empty_batch(), x) is Batch);
            }
        },
    }
}

/// A run of cell edits and head moves becomes one batch.
proof fn lemma_soupify_run(run: Seq<Instr>)
    requires
        all_simple(run),
        run.len() > 0,
    ensures
        soupify_spec(run) == seq![batch_of(run)],
    decreases run.len(),
{
    let q = run.drop_last();
    let x = run.last();
    assert(x.is_simple());
    if q.len() == 0 {
        assert(soupify_spec(q) =~= Seq::<Block>::empty());
        assert(batch_of(q) == empty_batch());
        assert(soupify_spec(run) =~= seq![batch_of(run)]);
    } else {
        assert(all_simple(q)) by {
            assert forall|i: int| 0 <= i < q.len() implies (#[trigger] q[i]).is_simple() by {
                assert(q[i] == run[i]);
            }
        }
        lemma_soupify_run(q);
        lemma_batch_of_is_batch(q);
        assert(soupify_spec(run) =~= seq![batch_of(run)]);
    }
}

/// Optimizing commutes with cutting a program in two, unless the cut falls
/// inside a run of cell edits and head moves.
pub proof fn lemma_soupify_concat(a: Seq<Instr>, b: Seq<Instr>)
    requires
        a.len() == 0 || !a.last().is_simple() || b.len() == 0 || !b[0].is_simple(),
    ensures
        soupify_spec(a + b) == soupify_spec(a) + soupify_spec(b),
    decreases b.len(),
{
    if b.len() == 0 {
        assert(a + b =~= a);
        assert(soupify_spec(a) + soupify_spec(b) =~= soupify_spec(a));
    } else {
        let b_front = b.drop_last();
        let x = b.last();
        assert((a + b).drop_last() =~= a + b_front);
        assert((a + b).last() == x);
        if b_front.len() > 0 {
            assert(b_front[0] == b[0]);
        }
        lemma_soupify_concat(a, b_front);
        let sa = soupify_spec(a);
        let sb_front = soupify_spec(b_front);
        if b_front.len() > 0 {
            lemma_soupify_last(b_front);
            assert((sa + sb_front).last() == sb_front.last());
            assert((sa + sb_front).drop_last() =~= sa + sb_front.drop_last());
        } else {
            assert(sb_front =~= Seq::<Block>::empty());
            assert(sa + sb_front =~= sa);
            if a.len() > 0 {
                lemma_soupify_last(a);
            } else {
                assert(sa =~= Seq::<Block>::empty());
            }
        }
        assert(soupify_spec(a + b) =~= sa + soupify_spec(b));
    }
}

/// The optimized form of a program that starts with an instruction that is
/// not a cell edit or head move: that instruction's block, then the rest.
proof fn lemma_soupify_front(p: Seq<Instr>)
    requires
        p.len() > 0,
        !p[0].is_simple(),
    ensures
        soupify_spec(p) == soupify_spec(seq![p[0]]) + soupify_spec(p.skip(1)),
        soupify_spec(seq![p[0]]) == seq![
            match p[0] {
                Instr::Loop(body) => classify(soupify_spec(body)),
                Instr::Output => Block::Output,
                _ => Block::Input,
            },
        ],
{
    let a = seq![p[0]];
    assert(a + p.skip(1) =~= p);
    lemma_soupify_concat(a, p.skip(1));
    assert(a.drop_last() =~= Seq::<Instr>::empty());
    assert(soupify_spec(a.drop_last()) =~= Seq::<Block>::empty());
    assert(soupify_spec(a) =~= seq![
        match p[0] {
            Instr::Loop(body) => classify(soupify_spec(body)),
            Instr::Output => Block::Output,
            _ => Block::Input,
        },
    ]);
}

/// The optimized form of a program that starts with a run of cell edits and
/// head moves: the run's batch, then the rest.
proof fn lemma_soupify_front_run(p: Seq<Instr>)
    requires
        p.len() > 0,
        p[0].is_simple(),
    ensures
        soupify_spec(p) == seq![batch_of(p.take(simple_prefix(p) as int))] + soupify_spec(
            p.skip(simple_prefix(p) as int),
        ),
{
    lemma_simple_prefix(p);
    let k = simple_prefix(p) as int;
    assert(p.take(k) + p.skip(k) =~= p);
    if k < p.len() {
        assert(p.skip(k)[0] == p[k]);
    }
    lemma_soupify_concat(p.take(k), p.skip(k));
    lemma_soupify_run(p.take(k));
}

/// The cell changes of a batch.
pub open spec fn batch_deltas(b: Block) -> Map<int, int>
    recommends
        b is Batch,
{
    match b {
        Block::Batch { cell_deltas, .. } => cell_deltas,
        _ => Map::empty(),
    }
}

/// The head move of a batch.
pub open spec fn batch_head(b: Block) -> int
    recommends
        b is Batch,
{
    match b {
        Block::Batch { head_delta, .. } => head_delta,
        _ => 0,
    }
}

/// A batch that can be applied leaves a valid state.
proof fn lemma_apply_batch_valid(s: State, d: Map<int, int>, h: int)
    requires
        s.valid(),
        s.batch_fault(d, h) is None,
    ensures
        s.apply_batch(d, h).valid(),
{
}

/// One more step of a machine.
proof fn lemma_raw_run_next(c: RawConfig, n: nat)
    ensures
        c.run(n + 1) == c.run(n).step(),
{
    c.lemma_run_split(n, 1);
    assert(c.run(n).step().run(0) == c.run(n).step());
    assert(c.run(n).run(1) == c.run(n).step());
}

/// A raw machine that has halted stays halted with more steps.
proof fn lemma_raw_halted_stays(c: RawConfig, a: nat, b: nat)
    requires
        a <= b,
        !(c.run(a).signal() is Continue),
        !(c.run(a).signal() is Echo),
    ensures
        c.run(b) == c.run(a),
{
    c.lemma_run_split(a, (b - a) as nat);
    c.run(a).lemma_stuck((b - a) as nat);
}

/// An optimized machine that has halted stays halted with more steps.
proof fn lemma_soup_halted_stays(c: SoupConfig, a: nat, b: nat)
    requires
        a <= b,
        !(c.run(a).signal() is Continue),
        !(c.run(a).signal() is Echo),
    ensures
        c.run(b) == c.run(a),
{
    c.lemma_run_split(a, (b - a) as nat);
    c.run(a).lemma_stuck((b - a) as nat);
}

/// What one cell edit or head move does to a state that a batch has led to is
/// what the batch with that edit or move added does.
proof fn lemma_batch_step_state(s: State, b: Block, x: Instr)
    requires
        s.valid(),
        b is Batch,
        x.is_simple(),
        s.batch_fault(batch_deltas(b), batch_head(b)) is None,
    ensures
        ({
            let mid = s.apply_batch(batch_deltas(b), batch_head(b));
            let c = RawConfig { state: mid, stack: seq![x] };
            let next = batch_step(b, x);
            &&& (c.signal() is Fault || c.signal() is Continue)
            &&& c.signal() is Continue ==> {
                &&& s.batch_fault(batch_deltas(next), batch_head(next)) is None
                &&& c.step().state == s.apply_batch(batch_deltas(next), batch_head(next))
            }
        }),
{
    let d = batch_deltas(b);
    let h = batch_head(b);
    let mid = s.apply_batch(d, h);
    let c = RawConfig { state: mid, stack: seq![x] };
    let next = batch_step(b, x);
    let d_next = batch_deltas(next);
    let h_next = batch_head(next);
    assert(c.stack.last() == x);
    if c.signal() is Continue {
        let target = s.apply_batch(d_next, h_next);
        match x {
            Instr::Plus => {
                assert(d_next == d.insert(h, delta_at(d, h) + 1));
                assert forall|k: int| #[trigger] d_next.contains_key(k) implies 0 <= s.head + k
                    < tape_limit() by {
                    if k != h {
                        assert(d.contains_key(k));
                    }
                }
                assert forall|i: int| c.step().state.cells[i] == #[trigger] target.cells[i] by {
                    if i == s.head + h {
                        assert(delta_at(d_next, i - s.head) == delta_at(d, h) + 1);
                    } else {
                        assert(delta_at(d_next, i - s.head) == delta_at(d, i - s.head));
                    }
                }
                assert(c.step().state.cells =~= target.cells);
            },
            Instr::Minus => {
                assert(d_next == d.insert(h, delta_at(d, h) - 1));
                assert forall|k: int| #[trigger] d_next.contains_key(k) implies 0 <= s.head + k
                    < tape_limit() by {
                    if k != h {
                        assert(d.contains_key(k));
                    }
                }
                assert forall|i: int| c.step().state.cells[i] == #[trigger] target.cells[i] by {
                    if i == s.head + h {
                        assert(delta_at(d_next, i - s.head) == delta_at(d, h) - 1);
                    } else {
                        assert(delta_at(d_next, i - s.head) == delta_at(d, i - s.head));
                    }
                }
                assert(c.step().state.cells =~= target.cells);
            },
            Instr::Left => {
                assert(d_next == d);
                assert(c.step().state.cells =~= target.cells);
            },
            Instr::Right => {
                assert(d_next == d);
                assert(c.step().state.cells =~= target.cells);
            },
            _ => {},
        }
    }
}

/// A raw machine that is about to execute a run of cell edits and head moves
/// either faults during the run or ends it in the state that the run's batch
/// leads to, and then the batch can be applied.
proof fn lemma_raw_run(s: State, rest: Seq<Instr>, run: Seq<Instr>)
    requires
        s.valid(),
        all_simple(run),
    ensures
        ({
            let c = RawConfig { state: s, stack: rest + run.reverse() };
            let b = batch_of(run);
            let end = c.run(run.len());
            ||| end.signal() is Fault && end.stack.len() > rest.len()
            ||| {
                &&& s.batch_fault(batch_deltas(b), batch_head(b)) is None
                &&& end == RawConfig {
                    state: s.apply_batch(batch_deltas(b), batch_head(b)),
                    stack: rest,
                }
            }
        }),
    decreases run.len(),
{
    let c = RawConfig { state: s, stack: rest + run.reverse() };
    if run.len() == 0 {
        assert(rest + run.reverse() =~= rest);
        assert(s.apply_batch(Map::empty(), 0).cells =~= s.cells);
        assert(s.apply_batch(Map::empty(), 0) == s);
    } else {
        let r = run.drop_last();
        let x = run.last();
        assert(all_simple(r)) by {
            assert forall|i: int| 0 <= i < r.len() implies (#[trigger] r[i]).is_simple() by {
                assert(r[i] == run[i]);
            }
        }
        assert(x.is_simple());
        assert(rest + run.reverse() =~= rest.push(x) + r.reverse());
        lemma_raw_run(s, rest.push(x), r);
        lemma_batch_of_is_batch(r);
        lemma_raw_run_next(c, r.len());
        let mid = c.run(r.len());
        if mid.signal() is Fault {
        } else {
            let b = batch_of(r);
            let single = RawConfig { state: mid.state, stack: seq![x] };
            lemma_batch_step_state(s, b, x);
            lemma_apply_batch_valid(s, batch_deltas(b), batch_head(b));
            assert(mid.stack.last() == x);
            assert(single.stack.last() == x);
            assert(mid.signal() == single.signal());
            assert(mid.stack.drop_last() =~= rest);
            if mid.signal() is Continue {
                assert(mid.step().state == single.step().state);
                assert(mid.step().stack == rest);
            }
        }
    }
}

/// The number of steps a raw machine spends on a loop that takes one from the
/// head cell on every pass, when the head cell holds `count` on entry: one
/// step to test the cell and one for each instruction of the body on every
/// pass, and one more for the test that ends the loop.
pub open spec fn mult_steps(count: nat, body_len: nat) -> nat {
    count * (body_len + 1) + 1
}

/// A multiply loop applied to a head cell that holds 0 changes nothing.
proof fn lemma_apply_mult_zero(s: State, d: Map<int, int>)
    requires
        s.valid(),
        s.cell() == 0,
    ensures
        s.apply_mult(d) == s,
{
    assert(s.apply_mult(d).cells =~= s.cells);
}

/// One pass over the body of a multiply loop and the multiply loop on what is
/// left is the multiply loop on the whole.
proof fn lemma_apply_mult_pass(s: State, d: Map<int, int>)
    requires
        s.valid(),
        s.cell() != 0,
        d.contains_key(0),
        d[0] == -1,
    ensures
        s.apply_batch(d, 0).cell() == s.cell() - 1,
        s.apply_batch(d, 0).apply_mult(d) == s.apply_mult(d),
{
    let once = s.apply_batch(d, 0);
    let k = s.cell() as int;
    assert(once.cell() == wrap(k + delta_at(d, 0) * 1));
    assert forall|i: int| once.apply_mult(d).cells[i] == #[trigger] s.apply_mult(d).cells[i] by {
        if i != s.head {
            let delta = delta_at(d, i - s.head);
            assert(delta_at(d.remove(0), i - s.head) == delta);
            let a = s.cells[i] as int;
            assert(delta * k == delta + delta * (k - 1)) by (nonlinear_arith);
            assert(delta * 1 == delta);
            assert(wrap(wrap(a + delta) + delta * (k - 1)) == wrap(a + delta * k));
        }
    }
    assert(once.apply_mult(d).cells =~= s.apply_mult(d).cells);
}

/// A raw machine that is about to test a loop that a multiply loop stands for
/// either faults inside the loop or leaves it, after one pass for each unit
/// the head cell held, in the state that the multiply loop reaches in one
/// step.
proof fn lemma_mult_loop_naive(s: State, rest: Seq<Instr>, body: Seq<Instr>)
    requires
        s.valid(),
        all_simple(body),
        batch_head(batch_of(body)) == 0,
        batch_deltas(batch_of(body)).contains_key(0),
        batch_deltas(batch_of(body))[0] == -1,
    ensures
        ({
            let c = RawConfig { state: s, stack: rest.push(Instr::Loop(body)) };
            let d = batch_deltas(batch_of(body));
            let end = c.run(mult_steps(s.cell() as nat, body.len()));
            ||| end.signal() is Fault && end.stack.len() > rest.len()
            ||| {
                &&& s.cell() != 0 ==> s.batch_fault(d, 0) is None
                &&& end == RawConfig { state: s.apply_mult(d), stack: rest }
            }
        }),
    decreases s.cell(),
{
    let c = RawConfig { state: s, stack: rest.push(Instr::Loop(body)) };
    let d = batch_deltas(batch_of(body));
    let len = body.len();
    assert(c.stack.last() == Instr::Loop(body));
    assert(c.stack.drop_last() =~= rest);
    assert(c.step().run(0) == c.step());
    assert(c.run(1) == c.step());
    if s.cell() == 0 {
        lemma_apply_mult_zero(s, d);
        assert(mult_steps(0, len) == 1) by (nonlinear_arith);
    } else {
        let k = s.cell() as nat;
        let inner = c.step();
        let t_rest = mult_steps((k - 1) as nat, len);
        assert(mult_steps(k, len) == t_rest + len + 1) by (nonlinear_arith)
            requires
                k >= 1,
                t_rest == mult_steps((k - 1) as nat, len),
        ;
        assert(inner == RawConfig { state: s, stack: rest.push(Instr::Loop(body)) + body.reverse() });
        lemma_raw_run(s, rest.push(Instr::Loop(body)), body);
        c.lemma_run_split(1, len + t_rest);
        inner.lemma_run_split(len, t_rest);
        if inner.run(len).signal() is Fault {
            inner.run(len).lemma_stuck(t_rest);
        } else {
            let once = s.apply_batch(d, 0);
            lemma_apply_batch_valid(s, d, 0);
            lemma_apply_mult_pass(s, d);
            lemma_mult_loop_naive(once, rest, body);
        }
    }
}

/// A multiply loop does in one step what the loop it stands for does pass by
/// pass, whatever the head cell holds on entry.
///
/// Take a loop whose body the optimizer turns into a multiply loop: a run of
/// cell edits and head moves that leaves the head in place and takes exactly
/// one from the cell under it. Executed instruction by instruction, the loop
/// either moves the head off the tape, or it ends after as many passes as the
/// head cell held, and then the multiply loop takes its one step without a
/// fault and leads to the very same state.
pub proof fn lemma_mult_loop(s: State, body: Seq<Instr>)
    requires
        s.valid(),
        classify(soupify_spec(body)) is MultFixedLoop,
    ensures
        ({
            let raw = RawConfig { state: s, stack: seq![Instr::Loop(body)] };
            let soup = SoupConfig { state: s, stack: seq![classify(soupify_spec(body))] };
            let end = raw.run(mult_steps(s.cell() as nat, body.len()));
            ||| end.signal() is Fault
            ||| {
                &&& end.signal() is Halted
                &&& soup.signal() is Continue
                &&& soup.step().signal() is Halted
                &&& soup.step().state == end.state
            }
        }),
{
    lemma_single_batch(body);
    lemma_batch_of_is_batch(body);
    let d = batch_deltas(batch_of(body));
    let block = classify(soupify_spec(body));
    assert(block == Block::MultFixedLoop { cell_deltas: d });
    let raw = RawConfig { state: s, stack: seq![Instr::Loop(body)] };
    let soup = SoupConfig { state: s, stack: seq![block] };
    assert(Seq::<Instr>::empty().push(Instr::Loop(body)) =~= seq![Instr::Loop(body)]);
    lemma_mult_loop_naive(s, Seq::empty(), body);
    if s.cell() == 0 {
        lemma_apply_mult_zero(s, d);
    }
    assert(soup.stack.last() == block);
    assert(soup.stack.drop_last() =~= Seq::<Block>::empty());
}

/// A multiply loop does what the generic loop over the same batch does,
/// whatever the head cell holds on entry.
///
/// Take a batch that leaves the head in place and takes exactly one from the
/// cell under it, and two optimized machines in the same state: one about to
/// enter the multiply loop over that batch, the other the generic loop whose
/// body is that batch. If the head cell is not 0 and the batch reaches off
/// the tape, both fault, in the same way. Otherwise the multiply loop takes
/// its one step, and the generic loop, after two steps for each unit the head
/// cell held and one more, stands exactly where that step leads.
pub proof fn lemma_mult_equals_generic(s: State, rest: Seq<Block>, d: Map<int, int>)
    requires
        s.valid(),
        d.contains_key(0),
        d[0] == -1,
    ensures
        ({
            let mult = SoupConfig {
                state: s,
                stack: rest.push(Block::MultFixedLoop { cell_deltas: d }),
            };
            let generic = SoupConfig {
                state: s,
                stack: rest.push(Block::Loop(seq![Block::Batch { cell_deltas: d, head_delta: 0 }])),
            };
            let end = generic.run(2 * (s.cell() as nat) + 1);
            if s.cell() != 0 && s.batch_fault(d, 0) is Some {
                end.signal() is Fault && end.signal() == mult.signal()
            } else {
                mult.signal() is Continue && end == mult.step()
            }
        }),
    decreases s.cell(),
{
    let batch = Block::Batch { cell_deltas: d, head_delta: 0 };
    let looped = Block::Loop(seq![batch]);
    let mult = SoupConfig { state: s, stack: rest.push(Block::MultFixedLoop { cell_deltas: d }) };
    let generic = SoupConfig { state: s, stack: rest.push(looped) };
    let n = s.cell() as nat;
    assert(mult.stack.last() == Block::MultFixedLoop { cell_deltas: d });
    assert(mult.stack.drop_last() =~= rest);
    assert(generic.stack.last() == looped);
    assert(generic.stack.drop_last() =~= rest);
    assert(generic.step().run(0) == generic.step());
    assert(generic.run(1) == generic.step());
    if n == 0 {
    } else {
        let pushed = generic.step();
        assert(seq![batch].reverse() =~= seq![batch]);
        assert(pushed.stack =~= rest.push(looped).push(batch));
        assert(pushed.stack.last() == batch);
        assert(pushed.stack.drop_last() =~= rest.push(looped));
        generic.lemma_run_split(1, 2 * n);
        if s.batch_fault(d, 0) is Some {
            pushed.lemma_stuck(2 * n);
        } else {
            let once = s.apply_batch(d, 0);
            lemma_apply_batch_valid(s, d, 0);
            lemma_apply_mult_pass(s, d);
            assert(pushed.step() == SoupConfig { state: once, stack: rest.push(looped) });
            assert(once.batch_fault(d, 0) is None);
            lemma_mult_equals_generic(once, rest, d);
            if once.cell() == 0 {
                lemma_apply_mult_zero(once, d);
            }
            assert(pushed.step().run(0) == pushed.step());
            assert(pushed.run(1) == pushed.step());
            pushed.lemma_run_split(1, (2 * n - 1) as nat);
        }
    }
}

/// Only a run of cell edits and head moves becomes a single batch.
proof fn lemma_single_batch(p: Seq<Instr>)
    requires
        soupify_spec(p).len() == 1,
        soupify_spec(p)[0] is Batch,
    ensures
        p.len() > 0,
        all_simple(p),
        soupify_spec(p) == seq![batch_of(p)],
    decreases p.len(),
{
    if p.len() == 0 {
        assert(false);
    }
    let q = p.drop_last();
    let x = p.last();
    let sq = soupify_spec(q);
    match x {
        Instr::Loop(body) => {
            assert(!(classify(soupify_spec(body)) is Batch));
            assert(soupify_spec(p).last() == classify(soupify_spec(body)));
            assert(false);
        },
        Instr::Output => {
            assert(soupify_spec(p).last() == Block::Output);
            assert(false);
        },
        Instr::Input => {
            assert(soupify_spec(p).last() == Block::Input);
            assert(false);
        },
        _ => {
            assert(x.is_simple());
            if sq.len() > 0 && sq.last() is Batch {
                assert(sq.len() == 1);
                lemma_single_batch(q);
            } else {
                assert(sq.len() == 0);
                if q.len() > 0 {
                    lemma_soupify_last(q);
                }
            }
            assert forall|i: int| 0 <= i < p.len() implies (#[trigger] p[i]).is_simple() by {
                if i < q.len() {
                    assert(p[i] == q[i]);
                }
            }
            lemma_soupify_run(p);
        },
    }
}

/// The raw machine with memory `s` that has the instructions `cont` left to
/// execute, the first of them next.
pub open spec fn raw_at(s: State, cont: Seq<Instr>) -> RawConfig {
    RawConfig { state: s, stack: cont.reverse() }
}

/// The optimized machine with memory `s` that has the blocks `cont` left to
/// execute, the first of them next.
pub open spec fn soup_at(s: State, cont: Seq<Block>) -> SoupConfig {
    SoupConfig { state: s, stack: cont.reverse() }
}

/// The raw machine never faults, however long it runs.
pub open spec fn never_faults(c: RawConfig) -> bool {
    forall|k: nat| !(#[trigger] c.run(k).signal() is Fault)
}

/// Where the two machines meet again: the memory, what the raw machine has
/// left to execute, and how many steps it took to get there.
pub struct Meeting {
    pub state: State,
    pub cont: Seq<Instr>,
    pub steps: nat,
}

/// One step of the optimized machine and `next.steps` steps of the raw
/// machine lead from one meeting to the next.
pub open spec fn advances(s: State, cont: Seq<Instr>, next: Meeting) -> bool {
    &&& 1 <= next.steps
    &&& next.state.valid()
    &&& next.state.interactive == s.interactive
    &&& raw_at(s, cont).run(next.steps) == raw_at(next.state, next.cont)
    &&& soup_at(s, soupify_spec(cont)).signal() is Continue
    &&& soup_at(s, soupify_spec(cont)).step() == soup_at(
        next.state,
        soupify_spec(next.cont),
    )
}

proof fn lemma_reverse_front<A>(p: Seq<A>)
    requires
        p.len() > 0,
    ensures
        p.reverse().last() == p[0],
        p.reverse().drop_last() == p.skip(1).reverse(),
        p.reverse() == p.skip(1).reverse().push(p[0]),
{
    assert(p.reverse().drop_last() =~= p.skip(1).reverse());
    assert(p.reverse() =~= p.skip(1).reverse().push(p[0]));
}

proof fn lemma_reverse_concat<A>(a: Seq<A>, b: Seq<A>)
    ensures
        (a + b).reverse() == b.reverse() + a.reverse(),
{
    assert((a + b).reverse() =~= b.reverse() + a.reverse());
}

/// A raw machine that halts has not faulted before and will not fault later.
proof fn lemma_halting_never_faults(c: RawConfig, n: nat)
    requires
        c.run(n).signal() is Halted,
    ensures
        never_faults(c),
{
    assert forall|k: nat| !(#[trigger] c.run(k).signal() is Fault) by {
        if k <= n {
            if c.run(k).signal() is Fault {
                lemma_raw_halted_stays(c, k, n);
            }
        } else {
            lemma_raw_halted_stays(c, n, k);
        }
    }
}

/// A raw machine that never faults will not fault after some steps either.
proof fn lemma_never_faults_later(c: RawConfig, steps: nat)
    requires
        never_faults(c),
    ensures
        never_faults(c.run(steps)),
{
    assert forall|k: nat| !(#[trigger] c.run(steps).run(k).signal() is Fault) by {
        c.lemma_run_split(steps, k);
        assert(!(c.run(steps + k).signal() is Fault));
    }
}

/// The first step of a machine.
proof fn lemma_raw_first_step(c: RawConfig)
    ensures
        c.run(1) == c.step(),
{
    assert(c.step().run(0) == c.step());
}

/// The machines advance over a run of cell edits and head moves.
proof fn lemma_advance_run(s: State, cont: Seq<Instr>) -> (next: Meeting)
    requires
        s.valid(),
        cont.len() > 0,
        cont[0].is_simple(),
        never_faults(raw_at(s, cont)),
    ensures
        advances(s, cont, next),
{
    lemma_simple_prefix(cont);
    let k = simple_prefix(cont);
    let run = cont.take(k as int);
    let rest = cont.skip(k as int);
    let b = batch_of(run);
    let raw = raw_at(s, cont);
    assert(k >= 1);
    assert(run + rest =~= cont);
    lemma_reverse_concat(run, rest);
    lemma_raw_run(s, rest.reverse(), run);
    assert(!(raw.run(k).signal() is Fault));
    lemma_apply_batch_valid(s, batch_deltas(b), batch_head(b));
    lemma_batch_of_is_batch(run);
    lemma_soupify_front_run(cont);
    let sr = soupify_spec(rest);
    lemma_reverse_concat(seq![b], sr);
    assert(seq![b].reverse() =~= seq![b]);
    let soup = soup_at(s, soupify_spec(cont));
    assert(soup.stack == sr.reverse() + seq![b]);
    assert(soup.stack.last() == b);
    assert(soup.stack.drop_last() =~= sr.reverse());
    let next = Meeting {
        state: s.apply_batch(batch_deltas(b), batch_head(b)),
        cont: rest,
        steps: k,
    };
    assert(soup.step() == soup_at(next.state, sr));
    next
}

/// The machines advance over an output or an input.
proof fn lemma_advance_io(s: State, cont: Seq<Instr>) -> (next: Meeting)
    requires
        s.valid(),
        !s.interactive,
        cont.len() > 0,
        cont[0] is Output || cont[0] is Input,
    ensures
        advances(s, cont, next),
{
    let raw = raw_at(s, cont);
    let soup = soup_at(s, soupify_spec(cont));
    let rest = cont.skip(1);
    lemma_reverse_front(cont);
    lemma_soupify_front(cont);
    let block = soupify_spec(seq![cont[0]])[0];
    lemma_reverse_concat(seq![block], soupify_spec(rest));
    assert(seq![block].reverse() =~= seq![block]);
    assert(soup.stack == soupify_spec(rest).reverse() + seq![block]);
    assert(soup.stack.last() == block);
    assert(soup.stack.drop_last() =~= soupify_spec(rest).reverse());
    lemma_raw_first_step(raw);
    let after = if cont[0] is Output {
        s.emit()
    } else {
        s.accept()
    };
    let next = Meeting { state: after, cont: rest, steps: 1 };
    assert(raw.step() == raw_at(after, rest));
    assert(soup.step() == soup_at(after, soupify_spec(rest)));
    next
}

/// The machines advance over the test of a loop that stayed generic.
proof fn lemma_advance_generic(s: State, cont: Seq<Instr>) -> (next: Meeting)
    requires
        s.valid(),
        cont.len() > 0,
        cont[0] is Loop,
        classify(soupify_spec(cont[0]->Loop_0)) is Loop,
    ensures
        advances(s, cont, next),
{
    let raw = raw_at(s, cont);
    let soup = soup_at(s, soupify_spec(cont));
    let body = cont[0]->Loop_0;
    let sb = soupify_spec(body);
    let rest = cont.skip(1);
    lemma_reverse_front(cont);
    lemma_soupify_front(cont);
    let block = classify(sb);
    assert(block == Block::Loop(sb));
    lemma_reverse_concat(seq![block], soupify_spec(rest));
    assert(seq![block].reverse() =~= seq![block]);
    assert(soup.stack == soupify_spec(rest).reverse() + seq![block]);
    assert(soup.stack.last() == block);
    assert(soup.stack.drop_last() =~= soupify_spec(rest).reverse());
    lemma_raw_first_step(raw);
    if s.cell() != 0 {
        lemma_reverse_concat(body, cont);
        lemma_soupify_concat(body, cont);
        lemma_reverse_concat(sb, soupify_spec(cont));
        let next = Meeting { state: s, cont: body + cont, steps: 1 };
        assert(raw.step() == raw_at(s, body + cont));
        assert(soup.step() == soup_at(s, soupify_spec(body + cont)));
        next
    } else {
        let next = Meeting { state: s, cont: rest, steps: 1 };
        assert(raw.step() == raw_at(s, rest));
        assert(soup.step() == soup_at(s, soupify_spec(rest)));
        next
    }
}

/// The machines advance over a multiply loop.
proof fn lemma_advance_mult(s: State, cont: Seq<Instr>) -> (next: Meeting)
    requires
        s.valid(),
        cont.len() > 0,
        cont[0] is Loop,
        classify(soupify_spec(cont[0]->Loop_0)) is MultFixedLoop,
        never_faults(raw_at(s, cont)),
    ensures
        advances(s, cont, next),
{
    let raw = raw_at(s, cont);
    let soup = soup_at(s, soupify_spec(cont));
    let body = cont[0]->Loop_0;
    let sb = soupify_spec(body);
    let rest = cont.skip(1);
    lemma_reverse_front(cont);
    lemma_soupify_front(cont);
    lemma_single_batch(body);
    lemma_batch_of_is_batch(body);
    let d = batch_deltas(batch_of(body));
    let block = classify(sb);
    assert(block == Block::MultFixedLoop { cell_deltas: d });
    lemma_reverse_concat(seq![block], soupify_spec(rest));
    assert(seq![block].reverse() =~= seq![block]);
    assert(soup.stack == soupify_spec(rest).reverse() + seq![block]);
    assert(soup.stack.last() == block);
    assert(soup.stack.drop_last() =~= soupify_spec(rest).reverse());
    let t = mult_steps(s.cell() as nat, body.len());
    lemma_mult_loop_naive(s, rest.reverse(), body);
    assert(!(raw.run(t).signal() is Fault));
    if s.cell() == 0 {
        lemma_apply_mult_zero(s, d);
    }
    let next = Meeting { state: s.apply_mult(d), cont: rest, steps: t };
    assert(soup.step() == soup_at(next.state, soupify_spec(rest)));
    next
}

/// The machines advance over the test of a fixed or moving loop and, if the
/// head cell does not hold 0, over one pass.
proof fn lemma_advance_pass(s: State, cont: Seq<Instr>) -> (next: Meeting)
    requires
        s.valid(),
        cont.len() > 0,
        cont[0] is Loop,
        classify(soupify_spec(cont[0]->Loop_0)) is FixedLoop || classify(
            soupify_spec(cont[0]->Loop_0),
        ) is MovingLoop,
        never_faults(raw_at(s, cont)),
    ensures
        advances(s, cont, next),
{
    let raw = raw_at(s, cont);
    let soup = soup_at(s, soupify_spec(cont));
    let body = cont[0]->Loop_0;
    let sb = soupify_spec(body);
    let rest = cont.skip(1);
    lemma_reverse_front(cont);
    lemma_soupify_front(cont);
    lemma_single_batch(body);
    lemma_batch_of_is_batch(body);
    let d = batch_deltas(batch_of(body));
    let h = batch_head(batch_of(body));
    let block = classify(sb);
    lemma_reverse_concat(seq![block], soupify_spec(rest));
    assert(seq![block].reverse() =~= seq![block]);
    assert(soup.stack == soupify_spec(rest).reverse() + seq![block]);
    assert(soup.stack.last() == block);
    assert(soup.stack.drop_last() =~= soupify_spec(rest).reverse());
    lemma_raw_first_step(raw);
    if s.cell() == 0 {
        let next = Meeting { state: s, cont: rest, steps: 1 };
        assert(raw.step() == raw_at(s, rest));
        assert(soup.step() == soup_at(s, soupify_spec(rest)));
        next
    } else {
        let inner = raw.step();
        assert(inner == RawConfig { state: s, stack: cont.reverse() + body.reverse() });
        lemma_raw_run(s, cont.reverse(), body);
        raw.lemma_run_split(1, body.len());
        assert(!(raw.run(1 + body.len()).signal() is Fault));
        let after = s.apply_batch(d, h);
        lemma_apply_batch_valid(s, d, h);
        assert(raw.run(1 + body.len()) == raw_at(after, cont));
        assert(soup.signal() is Continue);
        if after.cell() != 0 {
            let next = Meeting { state: after, cont: cont, steps: 1 + body.len() };
            assert(soup.step() == soup_at(after, soupify_spec(cont)));
            next
        } else {
            let again = raw_at(after, cont);
            lemma_raw_first_step(again);
            assert(again.step() == raw_at(after, rest));
            raw.lemma_run_split(1 + body.len(), 1);
            let next = Meeting { state: after, cont: rest, steps: 2 + body.len() };
            assert(soup.step() == soup_at(after, soupify_spec(rest)));
            next
        }
    }
}

/// From any meeting where something is left to execute the machines reach
/// the next one.
proof fn lemma_advance(s: State, cont: Seq<Instr>) -> (next: Meeting)
    requires
        s.valid(),
        !s.interactive,
        cont.len() > 0,
        never_faults(raw_at(s, cont)),
    ensures
        advances(s, cont, next),
{
    match cont[0] {
        Instr::Output => lemma_advance_io(s, cont),
        Instr::Input => lemma_advance_io(s, cont),
        Instr::Loop(body) => {
            let block = classify(soupify_spec(body));
            if block is Loop {
                lemma_advance_generic(s, cont)
            } else if block is MultFixedLoop {
                lemma_advance_mult(s, cont)
            } else {
                lemma_advance_pass(s, cont)
            }
        },
        _ => lemma_advance_run(s, cont),
    }
}

/// Meeting after meeting, the optimized machine follows the raw machine to
/// its end.
proof fn lemma_simulation(s: State, cont: Seq<Instr>, n: nat)
    requires
        s.valid(),
        !s.interactive,
        raw_at(s, cont).run(n).signal() is Halted,
    ensures
        soup_at(s, soupify_spec(cont)).run(n) == (SoupConfig {
            state: raw_at(s, cont).run(n).state,
            stack: Seq::empty(),
        }),
    decreases n,
{
    let raw = raw_at(s, cont);
    let soup = soup_at(s, soupify_spec(cont));
    if cont.len() == 0 {
        assert(soupify_spec(cont) =~= Seq::<Block>::empty());
        assert(soup.stack =~= Seq::<Block>::empty());
        raw.lemma_stuck(n);
        soup.lemma_stuck(n);
    } else {
        lemma_halting_never_faults(raw, n);
        let next = lemma_advance(s, cont);
        let raw_next = raw_at(next.state, next.cont);
        let soup_next = soup_at(next.state, soupify_spec(next.cont));
        assert(raw.run(0) == raw);
        assert(n >= 1);
        assert(soup.run(n) == soup.step().run((n - 1) as nat));
        if next.steps <= n {
            let left = (n - next.steps) as nat;
            raw.lemma_run_split(next.steps, left);
            lemma_simulation(next.state, next.cont, left);
            assert(soup_next.run(left).signal() is Halted);
            lemma_soup_halted_stays(soup_next, left, (n - 1) as nat);
        } else {
            lemma_raw_halted_stays(raw, n, next.steps);
            assert(next.cont.reverse().len() == 0);
            assert(next.cont =~= Seq::<Instr>::empty());
            assert(soupify_spec(next.cont) =~= Seq::<Block>::empty());
            assert(soup_next.stack =~= Seq::<Block>::empty());
            soup_next.lemma_stuck((n - 1) as nat);
        }
    }
}

/// Meeting after meeting, the raw machine follows the optimized machine to
/// its end. Returns the number of steps it takes.
proof fn lemma_simulation_back(s: State, cont: Seq<Instr>, m: nat) -> (n: nat)
    requires
        s.valid(),
        !s.interactive,
        soup_at(s, soupify_spec(cont)).run(m).signal() is Halted,
        never_faults(raw_at(s, cont)),
    ensures
        raw_at(s, cont).run(n) == (RawConfig {
            state: soup_at(s, soupify_spec(cont)).run(m).state,
            stack: Seq::empty(),
        }),
    decreases m,
{
    let raw = raw_at(s, cont);
    let soup = soup_at(s, soupify_spec(cont));
    if cont.len() == 0 {
        assert(soupify_spec(cont) =~= Seq::<Block>::empty());
        assert(soup.stack =~= Seq::<Block>::empty());
        assert(raw.stack =~= Seq::<Instr>::empty());
        soup.lemma_stuck(m);
        assert(raw.run(0) == raw);
        0
    } else {
        let next = lemma_advance(s, cont);
        let raw_next = raw_at(next.state, next.cont);
        let soup_next = soup_at(next.state, soupify_spec(next.cont));
        assert(soup.run(0) == soup);
        assert(m >= 1);
        assert(soup.run(m) == soup.step().run((m - 1) as nat));
        lemma_never_faults_later(raw, next.steps);
        let n_rest = lemma_simulation_back(next.state, next.cont, (m - 1) as nat);
        raw.lemma_run_split(next.steps, n_rest);
        next.steps + n_rest
    }
}

/// A raw program and its optimized form write the same output.
///
/// If the raw program, run on a fixed input, comes to its end within `n`
/// steps, then so does the optimized program within `n` of its own steps, and
/// it leaves the machine's memory, its output included, as the raw program
/// does.
pub proof fn lemma_optimized_run_agrees(prog: Seq<Instr>, input: Seq<u8>, n: nat)
    requires
        RawConfig::start(prog, input, false).run(n).signal() is Halted,
    ensures
        SoupConfig::start(soupify_spec(prog), input, false).run(n).signal() is Halted,
        SoupConfig::start(soupify_spec(prog), input, false).run(n).state == RawConfig::start(
            prog,
            input,
            false,
        ).run(n).state,
{
    let s = State::initial(input, false);
    assert(RawConfig::start(prog, input, false) == raw_at(s, prog));
    assert(SoupConfig::start(soupify_spec(prog), input, false) == soup_at(s, soupify_spec(prog)));
    lemma_simulation(s, prog, n);
}

/// An optimized program and the raw program it was made of write the same
/// output.
///
/// If the optimized program, run on a fixed input, comes to its end within
/// `m` steps, and the raw program never moves the head off the tape, then
/// the raw program comes to its end too, within the number of steps
/// returned, and it leaves the machine's memory, its output included, as the
/// optimized program does.
pub proof fn lemma_raw_run_agrees(prog: Seq<Instr>, input: Seq<u8>, m: nat) -> (n: nat)
    requires
        SoupConfig::start(soupify_spec(prog), input, false).run(m).signal() is Halted,
        never_faults(RawConfig::start(prog, input, false)),
    ensures
        RawConfig::start(prog, input, false).run(n).signal() is Halted,
        RawConfig::start(prog, input, false).run(n).state == SoupConfig::start(
            soupify_spec(prog),
            input,
            false,
        ).run(m).state,
{
    let s = State::initial(input, false);
    assert(RawConfig::start(prog, input, false) == raw_at(s, prog));
    assert(SoupConfig::start(soupify_spec(prog), input, false) == soup_at(s, soupify_spec(prog)));
    lemma_simulation_back(s, prog, m)
}

/// What the raw interpreter finishes with, the optimized interpreter
/// finishes with.
///
/// Let `raw` be what the raw interpreter reports of `prog` on `input` after
/// at most `max_steps` steps, and `soup` what the optimized interpreter
/// reports of the optimized form of `prog` on the same input and budget. If
/// `raw` is a finished run, then so is `soup`, with the same bytes in the
/// same order.
pub proof fn lemma_outcomes_agree(
    prog: Seq<Instr>,
    input: Seq<u8>,
    max_steps: nat,
    raw: Outcome,
    soup: Outcome,
)
    requires
        raw.reports(
            RawConfig::start(prog, input, false).run(max_steps).signal(),
            RawConfig::start(prog, input, false).run(max_steps).state.output,
        ),
        soup.reports(
            SoupConfig::start(soupify_spec(prog), input, false).run(max_steps).signal(),
            SoupConfig::start(soupify_spec(prog), input, false).run(max_steps).state.output,
        ),
        raw is Finished,
    ensures
        match (raw, soup) {
            (Outcome::Finished(a), Outcome::Finished(b)) => a@ == b@,
            _ => false,
        },
{
    lemma_optimized_run_agrees(prog, input, max_steps);
}

} // verus!
