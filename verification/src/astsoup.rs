//! The optimized program form and the pass that builds it.
//!
//! A straight run of cell edits and head moves is folded into one batch: a map
//! from head-relative offsets to net cell changes, plus the net head move. A
//! loop whose body folds into a single batch is classified by what that batch
//! does to the head and to the cell under it.

use crate::astraw::{instrs, lemma_instrs_push, lemma_view_loop, Instr, RawInstr};
use std::collections::HashMap;
use vstd::prelude::*;
use vstd::std_specs::hash::spec_hash_map_iter;
use vstd::std_specs::iter::IteratorSpec;

verus! {

broadcast use vstd::std_specs::hash::group_hash_axioms;

/// One node of the optimized program.
#[derive(Debug)]
pub enum SoupInstr {
    Soup { cell_deltas: HashMap<isize, isize>, head_delta: isize },
    Output,
    Input,
    /// A loop with no net head move that takes exactly one from the cell under
    /// the head on every pass.
    MultFixedLoop { cell_deltas: HashMap<isize, isize> },
    SoupFixedLoop { cell_deltas: HashMap<isize, isize> },
    SoupMovingLoop { cell_deltas: HashMap<isize, isize>, head_delta: isize },
    Loop(Vec<SoupInstr>),
}

/// The mathematical model of a [`SoupInstr`].
pub enum Block {
    Batch { cell_deltas: Map<int, int>, head_delta: int },
    Output,
    Input,
    MultFixedLoop { cell_deltas: Map<int, int> },
    FixedLoop { cell_deltas: Map<int, int> },
    MovingLoop { cell_deltas: Map<int, int>, head_delta: int },
    Loop(Seq<Block>),
}

/// A machine-integer delta map read as a map over the integers.
pub open spec fn deltas(m: Map<isize, isize>) -> Map<int, int> {
    Map::new(
        |k: int| isize::MIN <= k <= isize::MAX && m.contains_key(k as isize),
        |k: int| m[k as isize] as int,
    )
}

/// The empty map reads as the empty map.
pub proof fn lemma_deltas_empty()
    ensures
        deltas(Map::<isize, isize>::empty()) == Map::<int, int>::empty(),
{
    assert(deltas(Map::<isize, isize>::empty()) =~= Map::<int, int>::empty());
}

/// Reading commutes with inserting an entry.
pub proof fn lemma_deltas_insert(m: Map<isize, isize>, k: isize, v: isize)
    ensures
        deltas(m.insert(k, v)) == deltas(m).insert(k as int, v as int),
{
    assert(deltas(m.insert(k, v)) =~= deltas(m).insert(k as int, v as int));
}

impl View for SoupInstr {
    type V = Block;

    open spec fn view(&self) -> Block
        decreases self,
    {
        match self {
            SoupInstr::Soup { cell_deltas, head_delta } => Block::Batch {
                cell_deltas: deltas(cell_deltas@),
                head_delta: *head_delta as int,
            },
            SoupInstr::Output => Block::Output,
            SoupInstr::Input => Block::Input,
            SoupInstr::MultFixedLoop { cell_deltas } => Block::MultFixedLoop {
                cell_deltas: deltas(cell_deltas@),
            },
            SoupInstr::SoupFixedLoop { cell_deltas } => Block::FixedLoop {
                cell_deltas: deltas(cell_deltas@),
            },
            SoupInstr::SoupMovingLoop { cell_deltas, head_delta } => Block::MovingLoop {
                cell_deltas: deltas(cell_deltas@),
                head_delta: *head_delta as int,
            },
            SoupInstr::Loop(body) => Block::Loop(
                Seq::new(
                    body.len() as nat,
                    |i: int|
                        if 0 <= i < body.len() {
                            body[i].view()
                        } else {
                            Block::Output
                        },
                ),
            ),
        }
    }
}

/// The model of a whole block sequence: the model of each element.
pub open spec fn blocks(p: Seq<SoupInstr>) -> Seq<Block> {
    Seq::new(p.len(), |i: int| p[i]@)
}

/// The model of a generic loop is the loop over the model of its body.
pub proof fn lemma_view_block_loop(body: Vec<SoupInstr>)
    ensures
        SoupInstr::Loop(body)@ == Block::Loop(blocks(body@)),
{
    assert(SoupInstr::Loop(body)@->Loop_0 =~= blocks(body@));
}

impl Clone for SoupInstr {
    fn clone(&self) -> (res: Self)
        ensures
            res@ == self@,
        decreases self,
    {
        match self {
            SoupInstr::Soup { cell_deltas, head_delta } => SoupInstr::Soup {
                cell_deltas: cell_deltas.clone(),
                head_delta: *head_delta,
            },
            SoupInstr::Output => SoupInstr::Output,
            SoupInstr::Input => SoupInstr::Input,
            SoupInstr::MultFixedLoop { cell_deltas } => SoupInstr::MultFixedLoop {
                cell_deltas: cell_deltas.clone(),
            },
            SoupInstr::SoupFixedLoop { cell_deltas } => SoupInstr::SoupFixedLoop {
                cell_deltas: cell_deltas.clone(),
            },
            SoupInstr::SoupMovingLoop { cell_deltas, head_delta } => SoupInstr::SoupMovingLoop {
                cell_deltas: cell_deltas.clone(),
                head_delta: *head_delta,
            },
            SoupInstr::Loop(body) => {
                let mut copy: Vec<SoupInstr> = Vec::new();
                let mut i: usize = 0;
                while i < body.len()
                    invariant
                        i <= body.len(),
                        *self == SoupInstr::Loop(*body),
                        copy.len() == i,
                        forall|j: int| 0 <= j < i ==> copy[j]@ == body[j]@,
                    decreases body.len() - i,
                {
                    proof {
                        assert(decreases_to!(*self => self->Loop_0));
                        assert(decreases_to!(*body => body[i as int]));
                    }
                    let c = body[i].clone();
                    copy.push(c);
                    i = i + 1;
                }
                proof {
                    lemma_view_block_loop(copy);
                    lemma_view_block_loop(*body);
                    assert(blocks(copy@) =~= blocks(body@));
                }
                SoupInstr::Loop(copy)
            },
        }
    }
}

/// The net change a delta map records for the cell at `offset`.
pub open spec fn delta_at(cell_deltas: Map<int, int>, offset: int) -> int {
    if cell_deltas.contains_key(offset) {
        cell_deltas[offset]
    } else {
        0
    }
}

/// The batch that records nothing.
pub open spec fn empty_batch() -> Block {
    Block::Batch { cell_deltas: Map::empty(), head_delta: 0 }
}

/// The batch `b` after one more cell edit or head move. A cell edit lands on
/// the cell the batch's head has reached.
pub open spec fn batch_step(b: Block, x: Instr) -> Block
    recommends
        b is Batch,
        x.is_simple(),
{
    match b {
        Block::Batch { cell_deltas, head_delta } => match x {
            Instr::Plus => Block::Batch {
                cell_deltas: cell_deltas.insert(head_delta, delta_at(cell_deltas, head_delta) + 1),
                head_delta,
            },
            Instr::Minus => Block::Batch {
                cell_deltas: cell_deltas.insert(head_delta, delta_at(cell_deltas, head_delta) - 1),
                head_delta,
            },
            Instr::Left => Block::Batch { cell_deltas, head_delta: head_delta - 1 },
            Instr::Right => Block::Batch { cell_deltas, head_delta: head_delta + 1 },
            _ => b,
        },
        _ => b,
    }
}

/// The block sequence `s` after one more instruction that is not a loop: a
/// cell edit or head move joins the batch at the end of `s`, or opens one;
/// an output or input stands alone.
pub open spec fn extend(s: Seq<Block>, x: Instr) -> Seq<Block>
    recommends
        !(x is Loop),
{
    match x {
        Instr::Output => s.push(Block::Output),
        Instr::Input => s.push(Block::Input),
        _ => if s.len() > 0 && s.last() is Batch {
            s.drop_last().push(batch_step(s.last(), x))
        } else {
            s.push(batch_step(empty_batch(), x))
        },
    }
}

/// The block that stands for a loop with the optimized body `body`.
///
/// A body that is one batch becomes a multiply loop when the batch leaves the
/// head in place and takes exactly one from the cell under it, a fixed loop
/// when it leaves the head in place otherwise, and a moving loop when it moves
/// the head. Every other body, the empty one too, stays a generic loop.
pub open spec fn classify(body: Seq<Block>) -> Block {
    if body.len() == 1 && body[0] is Batch {
        match body[0] {
            Block::Batch { cell_deltas, head_delta } => {
                if head_delta == 0 && cell_deltas.contains_key(0) && cell_deltas[0] == -1 {
                    Block::MultFixedLoop { cell_deltas }
                } else if head_delta == 0 {
                    Block::FixedLoop { cell_deltas }
                } else {
                    Block::MovingLoop { cell_deltas, head_delta }
                }
            },
            _ => Block::Loop(body),
        }
    } else {
        Block::Loop(body)
    }
}

/// The optimized form of the instruction sequence `p`: its instructions taken
/// in order, each loop body optimized before the loop is classified.
pub open spec fn soupify_spec(p: Seq<Instr>) -> Seq<Block>
    decreases p,
{
    if p.len() == 0 {
        Seq::empty()
    } else {
        let s = soupify_spec(p.drop_last());
        match p.last() {
            Instr::Loop(body) => s.push(classify(soupify_spec(body))),
            x => extend(s, x),
        }
    }
}

/// Every multiply loop of `p`, nested ones included, takes exactly one from
/// the cell under the head: what the interpreter and the code generator ask
/// of a program.
pub open spec fn mult_loops_valid(p: Seq<Block>) -> bool
    decreases p,
{
    forall|i: int|
        0 <= i < p.len() ==> match #[trigger] p[i] {
            Block::MultFixedLoop { cell_deltas } => cell_deltas.contains_key(0) && cell_deltas[0]
                == -1,
            Block::Loop(body) => mult_loops_valid(body),
            _ => true,
        }
}

/// What holds of every optimized program: a multiply loop takes exactly one
/// from the cell under the head, a fixed loop does not, a moving loop moves
/// the head, no two batches stand side by side, and a loop that stayed
/// generic has a body that is not a single batch; all of that in nested
/// bodies too.
pub open spec fn well_formed(p: Seq<Block>) -> bool
    decreases p,
{
    &&& forall|i: int|
        0 <= i < p.len() ==> match #[trigger] p[i] {
            Block::MultFixedLoop { cell_deltas } => cell_deltas.contains_key(0) && cell_deltas[0]
                == -1,
            Block::FixedLoop { cell_deltas } => !(cell_deltas.contains_key(0) && cell_deltas[0]
                == -1),
            Block::MovingLoop { head_delta, .. } => head_delta != 0,
            Block::Loop(body) => well_formed(body) && classify(body) is Loop,
            _ => true,
        }
    &&& forall|i: int| 0 <= i < p.len() - 1 ==> !(#[trigger] p[i] is Batch && p[i + 1] is Batch)
}

/// A well-formed program has valid multiply loops.
pub proof fn lemma_well_formed_valid(p: Seq<Block>)
    requires
        well_formed(p),
    ensures
        mult_loops_valid(p),
    decreases p,
{
    assert forall|i: int| 0 <= i < p.len() implies match #[trigger] p[i] {
        Block::MultFixedLoop { cell_deltas } => cell_deltas.contains_key(0) && cell_deltas[0] == -1,
        Block::Loop(body) => mult_loops_valid(body),
        _ => true,
    } by {
        match p[i] {
            Block::Loop(body) => {
                lemma_well_formed_valid(body);
            },
            _ => {},
        }
    }
}

/// The optimizer's result is well formed.
pub proof fn lemma_soupify_well_formed(p: Seq<Instr>)
    ensures
        well_formed(soupify_spec(p)),
    decreases p,
{
    if p.len() > 0 {
        let q = p.drop_last();
        let s = soupify_spec(q);
        lemma_soupify_well_formed(q);
        match p.last() {
            Instr::Loop(body) => {
                lemma_soupify_well_formed(body);
                let block = classify(soupify_spec(body));
                let t = s.push(block);
                assert(!(block is Batch));
                if block is Loop {
                    assert(block == Block::Loop(soupify_spec(body)));
                }
                assert forall|i: int| 0 <= i < t.len() implies match #[trigger] t[i] {
                    Block::MultFixedLoop { cell_deltas } => cell_deltas.contains_key(0)
                        && cell_deltas[0] == -1,
                    Block::FixedLoop { cell_deltas } => !(cell_deltas.contains_key(0)
                        && cell_deltas[0] == -1),
                    Block::MovingLoop { head_delta, .. } => head_delta != 0,
                    Block::Loop(inner) => well_formed(inner) && classify(inner) is Loop,
                    _ => true,
                } by {
                    if i < s.len() {
                        assert(t[i] == s[i]);
                    }
                }
                assert forall|i: int| 0 <= i < t.len() - 1 implies !(#[trigger] t[i] is Batch
                    && t[i + 1] is Batch) by {
                    if i < s.len() - 1 {
                        assert(t[i] == s[i] && t[i + 1] == s[i + 1]);
                    }
                }
            },
            x => {
                let t = extend(s, x);
                assert forall|i: int| 0 <= i < t.len() implies match #[trigger] t[i] {
                    Block::MultFixedLoop { cell_deltas } => cell_deltas.contains_key(0)
                        && cell_deltas[0] == -1,
                    Block::FixedLoop { cell_deltas } => !(cell_deltas.contains_key(0)
                        && cell_deltas[0] == -1),
                    Block::MovingLoop { head_delta, .. } => head_delta != 0,
                    Block::Loop(inner) => well_formed(inner) && classify(inner) is Loop,
                    _ => true,
                } by {
                    if i < t.len() - 1 {
                        assert(t[i] == s[i]);
                    }
                }
                assert forall|i: int| 0 <= i < t.len() - 1 implies !(#[trigger] t[i] is Batch
                    && t[i + 1] is Batch) by {
                    if i < t.len() - 2 {
                        assert(t[i] == s[i] && t[i + 1] == s[i + 1]);
                    } else if t.len() == s.len() {
                        assert(t[i] == s[i]);
                        assert(s[i + 1] is Batch);
                    } else {
                        assert(t[i] == s[i]);
                    }
                }
            },
        }
    }
}

/// Every instruction sequence of `p`, nested ones included, is short enough
/// for its offsets and net changes to be counted in an `isize`.
pub open spec fn lengths_fit(p: Seq<Instr>) -> bool
    decreases p,
{
    &&& p.len() <= isize::MAX
    &&& forall|i: int|
        0 <= i < p.len() ==> match #[trigger] p[i] {
            Instr::Loop(body) => lengths_fit(body),
            _ => true,
        }
}

/// `e` names every entry of `cell_deltas` exactly once, in some order.
pub open spec fn lists(e: Seq<(isize, isize)>, cell_deltas: Map<int, int>) -> bool {
    &&& forall|i: int|
        0 <= i < e.len() ==> cell_deltas.contains_key(#[trigger] e[i].0 as int)
            && cell_deltas[e[i].0 as int] == e[i].1
    &&& forall|k: int| #[trigger]
        cell_deltas.contains_key(k) ==> exists|i: int| 0 <= i < e.len() && #[trigger] e[i].0 == k
    &&& forall|i: int, j: int| 0 <= i < j < e.len() ==> #[trigger] e[i].0 != #[trigger] e[j].0
}

/// The entries of a delta map, in the order the map hands them out.
pub fn entries(cell_deltas: &HashMap<isize, isize>) -> (e: Vec<(isize, isize)>)
    ensures
        lists(e@, deltas(cell_deltas@)),
{
    let mut e: Vec<(isize, isize)> = Vec::new();
    for pair in it: cell_deltas.iter()
        invariant
            it.seq() == spec_hash_map_iter(cell_deltas).remaining(),
            it.seq().no_duplicates(),
            e.len() == it.index(),
            forall|i: int|
                0 <= i < e.len() ==> e[i].0 == *it.seq()[i].0 && e[i].1 == *it.seq()[i].1,
    {
        e.push((*pair.0, *pair.1));
    }
    proof {
        let v = spec_hash_map_iter(cell_deltas).remaining();
        let d = deltas(cell_deltas@);
        assert forall|i: int| 0 <= i < e.len() implies d.contains_key(#[trigger] e[i].0 as int)
            && d[e[i].0 as int] == e[i].1 by {
            assert(cell_deltas@.contains_key(*v[i].0));
        }
        assert forall|k: int| #[trigger] d.contains_key(k) implies exists|i: int|
            0 <= i < e.len() && #[trigger] e[i].0 == k by {
            let key = k as isize;
            assert(cell_deltas@.contains_key(key));
            assert(v.contains((&key, &cell_deltas@[key])));
            let i = choose|i: int| 0 <= i < v.len() && v[i] == (&key, &cell_deltas@[key]);
            assert(e[i].0 == k);
        }
        assert forall|i: int, j: int| 0 <= i < j < e.len() implies #[trigger] e[i].0
            != #[trigger] e[j].0 by {
            if e[i].0 == e[j].0 {
                assert(cell_deltas@.contains_key(*v[i].0));
                assert(cell_deltas@.contains_key(*v[j].0));
                assert(v[i] == v[j]);
            }
        }
    }
    e
}

/// Whether a program is short enough to be optimized: the test that
/// [`soupify`] leaves to its caller.
pub fn has_fitting_lengths(raw_prog: &Vec<RawInstr>) -> (ok: bool)
    ensures
        ok == lengths_fit(instrs(raw_prog@)),
    decreases raw_prog,
{
    if raw_prog.len() > isize::MAX as usize {
        return false;
    }
    let mut i: usize = 0;
    while i < raw_prog.len()
        invariant
            i <= raw_prog.len(),
            raw_prog.len() <= isize::MAX,
            forall|j: int|
                0 <= j < i ==> match #[trigger] instrs(raw_prog@)[j] {
                    Instr::Loop(body) => lengths_fit(body),
                    _ => true,
                },
        decreases raw_prog.len() - i,
    {
        match &raw_prog[i] {
            RawInstr::BracketLoop(body) => {
                proof {
                    lemma_view_loop(*body);
                    assert(instrs(raw_prog@)[i as int] == raw_prog[i as int]@);
                    assert(decreases_to!(*raw_prog => raw_prog[i as int]));
                    assert(decreases_to!(raw_prog[i as int] => raw_prog[i as int]->BracketLoop_0));
                }
                if !has_fitting_lengths(body) {
                    return false;
                }
            },
            _ => {
                proof {
                    assert(instrs(raw_prog@)[i as int] == raw_prog[i as int]@);
                }
            },
        }
        i = i + 1;
    }
    true
}

/// Whether every multiply loop of a program takes exactly one from the cell
/// under the head: the test that the interpreter and the code generator leave
/// to a caller who built the program by hand.
pub fn has_valid_mult_loops(prog: &Vec<SoupInstr>) -> (ok: bool)
    ensures
        ok == mult_loops_valid(blocks(prog@)),
    decreases prog,
{
    let mut i: usize = 0;
    while i < prog.len()
        invariant
            i <= prog.len(),
            forall|j: int|
                0 <= j < i ==> match #[trigger] blocks(prog@)[j] {
                    Block::MultFixedLoop { cell_deltas } => cell_deltas.contains_key(0)
                        && cell_deltas[0] == -1,
                    Block::Loop(body) => mult_loops_valid(body),
                    _ => true,
                },
        decreases prog.len() - i,
    {
        proof {
            assert(blocks(prog@)[i as int] == prog[i as int]@);
        }
        match &prog[i] {
            SoupInstr::MultFixedLoop { cell_deltas } => {
                let ok = match cell_deltas.get(&0) {
                    Some(v) => *v == -1,
                    None => false,
                };
                if !ok {
                    return false;
                }
            },
            SoupInstr::Loop(body) => {
                proof {
                    lemma_view_block_loop(*body);
                    assert(decreases_to!(*prog => prog[i as int]));
                    assert(decreases_to!(prog[i as int] => prog[i as int]->Loop_0));
                }
                if !has_valid_mult_loops(body) {
                    return false;
                }
            },
            _ => {},
        }
        i = i + 1;
    }
    true
}

/// The blocks finished so far, followed by the batch still being filled, if
/// there is one.
spec fn with_pending(
    done: Seq<Block>,
    batching: bool,
    cell_deltas: Map<int, int>,
    head_delta: int,
) -> Seq<Block> {
    if batching {
        done.push(Block::Batch { cell_deltas, head_delta })
    } else {
        done
    }
}

/// Adds `by` to the net change recorded at offset `at`, recording the offset
/// if it is new.
fn bump(cell_deltas: &mut HashMap<isize, isize>, at: isize, by: isize)
    requires
        isize::MIN <= delta_at(deltas(old(cell_deltas)@), at as int) + by <= isize::MAX,
    ensures
        deltas(final(cell_deltas)@) == deltas(old(cell_deltas)@).insert(
            at as int,
            delta_at(deltas(old(cell_deltas)@), at as int) + by,
        ),
        final(cell_deltas)@ == old(cell_deltas)@.insert(
            at,
            (delta_at(deltas(old(cell_deltas)@), at as int) + by) as isize,
        ),
{
    let current: isize = match cell_deltas.get(&at) {
        Some(v) => *v,
        None => 0,
    };
    proof {
        lemma_deltas_insert(cell_deltas@, at, (current + by) as isize);
    }
    cell_deltas.insert(at, current + by);
}

/// Wraps an optimized loop body into the block that stands for the loop.
fn classify_loop(body: Vec<SoupInstr>) -> (r: SoupInstr)
    ensures
        r@ == classify(blocks(body@)),
{
    let mut body = body;
    let ghost whole = blocks(body@);
    if body.len() == 1 {
        match body.pop() {
            Some(SoupInstr::Soup { cell_deltas, head_delta }) => {
                let minus_one_at_head = match cell_deltas.get(&0) {
                    Some(v) => *v == -1,
                    None => false,
                };
                if head_delta == 0 && minus_one_at_head {
                    SoupInstr::MultFixedLoop { cell_deltas }
                } else if head_delta == 0 {
                    SoupInstr::SoupFixedLoop { cell_deltas }
                } else {
                    SoupInstr::SoupMovingLoop { cell_deltas, head_delta }
                }
            },
            Some(other) => {
                body.push(other);
                proof {
                    lemma_view_block_loop(body);
                    assert(blocks(body@) =~= whole);
                }
                SoupInstr::Loop(body)
            },
            None => {
                proof {
                    lemma_view_block_loop(body);
                }
                SoupInstr::Loop(body)
            },
        }
    } else {
        proof {
            lemma_view_block_loop(body);
        }
        SoupInstr::Loop(body)
    }
}

/// Folds a raw program into its optimized form.
pub fn soupify(raw_prog: &Vec<RawInstr>) -> (soup_prog: Vec<SoupInstr>)
    requires
        lengths_fit(instrs(raw_prog@)),
    ensures
        blocks(soup_prog@) == soupify_spec(instrs(raw_prog@)),
        well_formed(blocks(soup_prog@)),
        mult_loops_valid(blocks(soup_prog@)),
    decreases raw_prog,
{
    let mut soup_prog: Vec<SoupInstr> = Vec::new();
    let mut cell_deltas: HashMap<isize, isize> = HashMap::new();
    let mut head_delta: isize = 0;
    let mut batching = false;
    let mut i: usize = 0;
    proof {
        lemma_deltas_empty();
        assert(instrs(raw_prog@.take(0)) =~= Seq::<Instr>::empty());
        assert(blocks(soup_prog@) =~= Seq::<Block>::empty());
    }
    while i < raw_prog.len()
        invariant
            i <= raw_prog.len(),
            lengths_fit(instrs(raw_prog@)),
            soup_prog.len() > 0 ==> !(soup_prog[soup_prog.len() - 1]@ is Batch),
            batching ==> -(i as int) <= head_delta <= i,
            batching ==> forall|k: isize| #[trigger]
                cell_deltas@.contains_key(k) ==> -(i as int) <= cell_deltas@[k] <= i,
            !batching ==> cell_deltas@ == Map::<isize, isize>::empty() && head_delta == 0,
            with_pending(blocks(soup_prog@), batching, deltas(cell_deltas@), head_delta as int)
                == soupify_spec(instrs(raw_prog@.take(i as int))),
        decreases raw_prog.len() - i,
    {
        let ghost done = blocks(soup_prog@);
        let ghost before = soupify_spec(instrs(raw_prog@.take(i as int)));
        proof {
            lemma_instrs_push(raw_prog@, i as int);
            assert(instrs(raw_prog@.take(i + 1)).drop_last() =~= instrs(raw_prog@.take(i as int)));
            assert(instrs(raw_prog@)[i as int] == raw_prog[i as int]@);
            lemma_deltas_empty();
        }
        match &raw_prog[i] {
            RawInstr::Plus => {
                batching = true;
                bump(&mut cell_deltas, head_delta, 1);
            },
            RawInstr::Minus => {
                batching = true;
                bump(&mut cell_deltas, head_delta, -1);
            },
            RawInstr::Left => {
                batching = true;
                head_delta = head_delta - 1;
            },
            RawInstr::Right => {
                batching = true;
                head_delta = head_delta + 1;
            },
            RawInstr::Output => {
                if batching {
                    soup_prog.push(SoupInstr::Soup { cell_deltas, head_delta });
                    cell_deltas = HashMap::new();
                    head_delta = 0;
                    batching = false;
                }
                soup_prog.push(SoupInstr::Output);
            },
            RawInstr::Input => {
                if batching {
                    soup_prog.push(SoupInstr::Soup { cell_deltas, head_delta });
                    cell_deltas = HashMap::new();
                    head_delta = 0;
                    batching = false;
                }
                soup_prog.push(SoupInstr::Input);
            },
            RawInstr::BracketLoop(body) => {
                proof {
                    lemma_view_loop(*body);
                    assert(decreases_to!(*raw_prog => raw_prog[i as int]));
                    assert(decreases_to!(raw_prog[i as int] => raw_prog[i as int]->BracketLoop_0));
                }
                let inner = soupify(body);
                if batching {
                    soup_prog.push(SoupInstr::Soup { cell_deltas, head_delta });
                    cell_deltas = HashMap::new();
                    head_delta = 0;
                    batching = false;
                }
                soup_prog.push(classify_loop(inner));
            },
        }
        proof {
            assert(with_pending(
                blocks(soup_prog@),
                batching,
                deltas(cell_deltas@),
                head_delta as int,
            ) =~= soupify_spec(instrs(raw_prog@.take(i + 1))));
        }
        i = i + 1;
    }
    if batching {
        soup_prog.push(SoupInstr::Soup { cell_deltas, head_delta });
    }
    proof {
        assert(raw_prog@.take(i as int) =~= raw_prog@);
        assert(blocks(soup_prog@) =~= soupify_spec(instrs(raw_prog@)));
        lemma_soupify_well_formed(instrs(raw_prog@));
        lemma_well_formed_valid(blocks(soup_prog@));
    }
    soup_prog
}

} // verus!

