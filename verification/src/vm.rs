//! The machine the programs run on, and the two interpreters.
//!
//! The machine's memory is a tape of byte cells that is unbounded to the right,
//! a head, the input still to be read and the output written so far. Each
//! interpreter keeps the instructions still to be executed on a stack and
//! executes one of them per step, so a deep or long-running loop costs no
//! native recursion. A step never blocks and never prints: it reports what it
//! needs through a [`Signal`] and leaves the reading and writing to its caller.

use crate::astraw::{instrs, lemma_view_loop, Instr, RawInstr};
use crate::astsoup::{
    blocks, delta_at, deltas, entries, lemma_view_block_loop, lists, mult_loops_valid, Block,
    SoupInstr,
};
use std::collections::HashMap;
use vstd::prelude::*;

verus! {

/// Why a run was aborted.
#[derive(Debug, Clone, Copy, PartialEq, Eq, Structural)]
pub enum Fault {
    /// The head, or a cell addressed relative to it, would lie left of cell 0.
    HeadUnderflow,
    /// The head, or a cell addressed relative to it, would lie beyond the last
    /// cell a machine word can index.
    HeadOverflow,
}

/// What one step of an interpreter reports to its caller.
#[derive(Debug, Clone, Copy, PartialEq, Eq, Structural)]
pub enum Signal {
    /// An instruction was executed; nothing is asked of the caller.
    Continue,
    /// An output instruction was executed on an interactive machine: the
    /// caller should show the byte at once.
    Echo(u8),
    /// An input instruction found the input of an interactive machine empty.
    /// Nothing was executed: the caller should supply a byte and step again.
    NeedInput,
    /// No instruction is left.
    Halted,
    /// The next instruction cannot be executed. Nothing was executed and
    /// nothing ever will be: the run is over.
    Fault(Fault),
}

/// The mathematical model of the machine's memory.
pub struct State {
    /// The value of every cell; a cell that was never written holds 0.
    pub cells: Map<int, u8>,
    pub head: int,
    /// The input not yet read, next byte first.
    pub input: Seq<u8>,
    /// The output written so far.
    pub output: Seq<u8>,
    /// Whether the machine talks to a user instead of reading a fixed input.
    pub interactive: bool,
}

/// The number of cells a tape can hold: cell indices run from 0 up to, not
/// including, this bound.
pub open spec fn tape_limit() -> int {
    usize::MAX as int
}

/// The byte that the integer `v` wraps to.
pub open spec fn wrap(v: int) -> u8 {
    (v % 256) as u8
}

/// The cell values that a backing store stands for: its own contents, and 0
/// everywhere else.
pub open spec fn tape_of(backing: Seq<u8>) -> Map<int, u8> {
    Map::total(
        |i: int|
            if 0 <= i < backing.len() {
                backing[i]
            } else {
                0u8
            },
    )
}

impl State {
    /// The state before anything has run.
    pub open spec fn initial(input: Seq<u8>, interactive: bool) -> State {
        State {
            cells: tape_of(Seq::empty()),
            head: 0,
            input,
            output: Seq::empty(),
            interactive,
        }
    }

    /// The value of the cell under the head.
    pub open spec fn cell(self) -> u8 {
        self.cells[self.head]
    }

    /// Every cell has a value and the head is on the tape.
    pub open spec fn valid(self) -> bool {
        &&& 0 <= self.head < tape_limit()
        &&& forall|i: int| self.cells.contains_key(i)
    }

    /// This state with the cell at index `at` set to `v`.
    pub open spec fn write(self, at: int, v: u8) -> State {
        State { cells: self.cells.insert(at, v), ..self }
    }

    /// This state with the head at `head`.
    pub open spec fn seek(self, head: int) -> State {
        State { head, ..self }
    }

    /// This state after the cell under the head was written to the output.
    pub open spec fn emit(self) -> State {
        State { output: self.output.push(self.cell()), ..self }
    }

    /// The byte an input instruction stores: the next input byte, or 0 once
    /// the input is used up.
    pub open spec fn next_input(self) -> u8 {
        if self.input.len() > 0 {
            self.input[0]
        } else {
            0u8
        }
    }

    /// This state after an input instruction. An empty input stays empty.
    pub open spec fn accept(self) -> State {
        State {
            cells: self.cells.insert(self.head, self.next_input()),
            input: if self.input.len() > 0 {
                self.input.drop_first()
            } else {
                self.input
            },
            ..self
        }
    }

    /// Why the changes `cell_deltas` and the head move `head_delta` cannot be
    /// applied here, if they cannot: some cell they address, or the place the
    /// head would reach, lies off the tape. Underflow is reported before
    /// overflow.
    pub open spec fn batch_fault(self, cell_deltas: Map<int, int>, head_delta: int) -> Option<
        Fault,
    > {
        if self.head + head_delta < 0 || exists|k: int| #[trigger]
            cell_deltas.contains_key(k) && self.head + k < 0 {
            Some(Fault::HeadUnderflow)
        } else if self.head + head_delta >= tape_limit() || exists|k: int| #[trigger]
            cell_deltas.contains_key(k) && self.head + k >= tape_limit() {
            Some(Fault::HeadOverflow)
        } else {
            None
        }
    }

    /// This state after `cell_deltas` was applied `times` times at the head,
    /// every cell wrapping around as a byte.
    pub open spec fn shift_cells(self, cell_deltas: Map<int, int>, times: int) -> State {
        State {
            cells: Map::total(
                |i: int| wrap(self.cells[i] + delta_at(cell_deltas, i - self.head) * times),
            ),
            ..self
        }
    }

    /// This state after one batch: the cell changes, then the head move.
    pub open spec fn apply_batch(self, cell_deltas: Map<int, int>, head_delta: int) -> State {
        self.shift_cells(cell_deltas, 1).seek(self.head + head_delta)
    }

    /// This state after a multiply loop: every cell but the one under the head
    /// receives its change once for each unit the head cell holds, and the
    /// head cell is left at 0.
    pub open spec fn apply_mult(self, cell_deltas: Map<int, int>) -> State {
        self.shift_cells(cell_deltas.remove(0), self.cell() as int).write(self.head, 0)
    }
}

/// A machine running a raw program: its memory and the instructions still to
/// be executed, the next one last.
pub struct RawConfig {
    pub state: State,
    pub stack: Seq<Instr>,
}

/// A machine running an optimized program: its memory and the blocks still to
/// be executed, the next one last.
pub struct SoupConfig {
    pub state: State,
    pub stack: Seq<Block>,
}

impl RawConfig {
    /// The machine about to run `prog` from its first instruction.
    pub open spec fn start(prog: Seq<Instr>, input: Seq<u8>, interactive: bool) -> RawConfig {
        RawConfig { state: State::initial(input, interactive), stack: prog.reverse() }
    }

    /// What the next step reports.
    pub open spec fn signal(self) -> Signal {
        if self.stack.len() == 0 {
            Signal::Halted
        } else {
            match self.stack.last() {
                Instr::Left => if self.state.head <= 0 {
                    Signal::Fault(Fault::HeadUnderflow)
                } else {
                    Signal::Continue
                },
                Instr::Right => if self.state.head + 1 >= tape_limit() {
                    Signal::Fault(Fault::HeadOverflow)
                } else {
                    Signal::Continue
                },
                Instr::Output => if self.state.interactive {
                    Signal::Echo(self.state.cell())
                } else {
                    Signal::Continue
                },
                Instr::Input => if self.state.interactive && self.state.input.len() == 0 {
                    Signal::NeedInput
                } else {
                    Signal::Continue
                },
                _ => Signal::Continue,
            }
        }
    }

    /// The machine after the next step. A machine that has halted, faulted or
    /// waits for input stays as it is.
    pub open spec fn step(self) -> RawConfig {
        let s = self.state;
        match self.signal() {
            Signal::Continue | Signal::Echo(_) => {
                let rest = self.stack.drop_last();
                match self.stack.last() {
                    Instr::Plus => RawConfig {
                        state: s.write(s.head, wrap(s.cell() + 1)),
                        stack: rest,
                    },
                    Instr::Minus => RawConfig {
                        state: s.write(s.head, wrap(s.cell() - 1)),
                        stack: rest,
                    },
                    Instr::Left => RawConfig { state: s.seek(s.head - 1), stack: rest },
                    Instr::Right => RawConfig { state: s.seek(s.head + 1), stack: rest },
                    Instr::Output => RawConfig { state: s.emit(), stack: rest },
                    Instr::Input => RawConfig { state: s.accept(), stack: rest },
                    Instr::Loop(body) => if s.cell() != 0 {
                        RawConfig { state: s, stack: self.stack + body.reverse() }
                    } else {
                        RawConfig { state: s, stack: rest }
                    },
                }
            },
            _ => self,
        }
    }

    /// The machine after `n` steps.
    pub open spec fn run(self, n: nat) -> RawConfig
        decreases n,
    {
        if n == 0 {
            self
        } else {
            self.step().run((n - 1) as nat)
        }
    }
}

impl SoupConfig {
    /// The machine about to run `prog` from its first block.
    pub open spec fn start(prog: Seq<Block>, input: Seq<u8>, interactive: bool) -> SoupConfig {
        SoupConfig { state: State::initial(input, interactive), stack: prog.reverse() }
    }

    /// What the next step reports.
    pub open spec fn signal(self) -> Signal {
        if self.stack.len() == 0 {
            Signal::Halted
        } else {
            let fault = match self.stack.last() {
                Block::Batch { cell_deltas, head_delta } => self.state.batch_fault(
                    cell_deltas,
                    head_delta,
                ),
                Block::MultFixedLoop { cell_deltas } => if self.state.cell() == 0 {
                    None
                } else {
                    self.state.batch_fault(cell_deltas, 0)
                },
                Block::FixedLoop { cell_deltas } => if self.state.cell() == 0 {
                    None
                } else {
                    self.state.batch_fault(cell_deltas, 0)
                },
                Block::MovingLoop { cell_deltas, head_delta } => if self.state.cell() == 0 {
                    None
                } else {
                    self.state.batch_fault(cell_deltas, head_delta)
                },
                _ => None,
            };
            match fault {
                Some(f) => Signal::Fault(f),
                None => match self.stack.last() {
                    Block::Output => if self.state.interactive {
                        Signal::Echo(self.state.cell())
                    } else {
                        Signal::Continue
                    },
                    Block::Input => if self.state.interactive && self.state.input.len() == 0 {
                        Signal::NeedInput
                    } else {
                        Signal::Continue
                    },
                    _ => Signal::Continue,
                },
            }
        }
    }

    /// The machine after the next step. A machine that has halted, faulted or
    /// waits for input stays as it is.
    ///
    /// Every loop tests the cell under the head first and, if that cell holds
    /// 0, leaves the stack without touching the memory. Otherwise a fixed or
    /// moving loop applies its batch and tests the cell under the head again:
    /// while that cell is not 0 the loop stays on the stack. A multiply loop
    /// is done in one step.
    pub open spec fn step(self) -> SoupConfig {
        let s = self.state;
        match self.signal() {
            Signal::Continue | Signal::Echo(_) => {
                let rest = self.stack.drop_last();
                match self.stack.last() {
                    Block::Batch { cell_deltas, head_delta } => SoupConfig {
                        state: s.apply_batch(cell_deltas, head_delta),
                        stack: rest,
                    },
                    Block::Output => SoupConfig { state: s.emit(), stack: rest },
                    Block::Input => SoupConfig { state: s.accept(), stack: rest },
                    Block::MultFixedLoop { cell_deltas } => if s.cell() == 0 {
                        SoupConfig { state: s, stack: rest }
                    } else {
                        SoupConfig { state: s.apply_mult(cell_deltas), stack: rest }
                    },
                    Block::FixedLoop { cell_deltas } => if s.cell() == 0 {
                        SoupConfig { state: s, stack: rest }
                    } else {
                        let after = s.apply_batch(cell_deltas, 0);
                        SoupConfig {
                            state: after,
                            stack: if after.cell() != 0 {
                                self.stack
                            } else {
                                rest
                            },
                        }
                    },
                    Block::MovingLoop { cell_deltas, head_delta } => if s.cell() == 0 {
                        SoupConfig { state: s, stack: rest }
                    } else {
                        let after = s.apply_batch(cell_deltas, head_delta);
                        SoupConfig {
                            state: after,
                            stack: if after.cell() != 0 {
                                self.stack
                            } else {
                                rest
                            },
                        }
                    },
                    Block::Loop(body) => if s.cell() != 0 {
                        SoupConfig { state: s, stack: self.stack + body.reverse() }
                    } else {
                        SoupConfig { state: s, stack: rest }
                    },
                }
            },
            _ => self,
        }
    }

    /// The machine after `n` steps.
    pub open spec fn run(self, n: nat) -> SoupConfig
        decreases n,
    {
        if n == 0 {
            self
        } else {
            self.step().run((n - 1) as nat)
        }
    }
}

/// The machine's memory.
pub struct VmMem {
    cell_vec: Vec<u8>,
    head: usize,
    interact_with_user: bool,
    /// The input not yet read, next byte last.
    input_stack: Vec<u8>,
    output_stack: Vec<u8>,
}

impl View for VmMem {
    type V = State;

    closed spec fn view(&self) -> State {
        State {
            cells: tape_of(self.cell_vec@),
            head: self.head as int,
            input: self.input_stack@.reverse(),
            output: self.output_stack@,
            interactive: self.interact_with_user,
        }
    }
}

/// The cell index `offset` cells away from `head`, if it is on the tape.
fn offset_index(head: usize, offset: isize) -> (r: Option<usize>)
    ensures
        r == if 0 <= head + offset < tape_limit() {
            Some((head + offset) as usize)
        } else {
            None::<usize>
        },
{
    match head.checked_add_signed(offset) {
        Some(index) => if index < usize::MAX {
            Some(index)
        } else {
            None
        },
        None => None,
    }
}

/// The remainder of `delta` modulo 256, as a byte.
fn delta_byte(delta: isize) -> (r: u8)
    ensures
        r == wrap(delta as int),
{
    match delta.checked_rem_euclid(256) {
        Some(r) => r as u8,
        None => 0,
    }
}

/// A cell changes by a delta taken a number of times as it does by the
/// delta's byte.
proof fn lemma_wrap_scaled(cell: int, delta: int, times: int)
    ensures
        wrap(cell + delta * times) == wrap(cell + wrap(delta) * times),
{
    vstd::arithmetic::div_mod::lemma_mul_mod_noop_left(delta, times, 256);
    vstd::arithmetic::div_mod::lemma_add_mod_noop_right(cell, delta * times, 256);
    vstd::arithmetic::div_mod::lemma_add_mod_noop_right(cell, (delta % 256) * times, 256);
}

impl VmMem {
    /// The bytes actually stored. Cells beyond them read as 0.
    pub closed spec fn backing(&self) -> Seq<u8> {
        self.cell_vec@
    }

    /// The head is on the tape.
    pub closed spec fn wf(&self) -> bool {
        self.head < usize::MAX
    }

    /// The cells of the model are those of the backing store, and a
    /// well-formed memory has a valid model.
    pub proof fn lemma_model(&self)
        ensures
            self@.cells == tape_of(self.backing()),
            self.wf() ==> self@.valid(),
    {
    }

    /// A fresh memory: an empty tape, the head on cell 0, nothing written.
    /// With an input buffer the machine reads from it and nothing else;
    /// without one it is interactive.
    pub fn new(input: Option<Vec<u8>>) -> (m: VmMem)
        ensures
            m.wf(),
            m.backing() == Seq::<u8>::empty(),
            m@ == State::initial(
                match input {
                    Some(v) => v@,
                    None => Seq::empty(),
                },
                input is None,
            ),
    {
        let mut input_stack: Vec<u8> = Vec::new();
        let interact_with_user = input.is_none();
        match input {
            Some(v) => {
                let mut i = v.len();
                while i > 0
                    invariant
                        i <= v.len(),
                        input_stack.len() == v.len() - i,
                        forall|j: int|
                            0 <= j < input_stack.len() ==> input_stack[j] == v[v.len() - 1 - j],
                    decreases i,
                {
                    i = i - 1;
                    input_stack.push(v[i]);
                }
                assert(input_stack@.reverse() =~= v@);
            },
            None => {
                assert(input_stack@.reverse() =~= Seq::<u8>::empty());
            },
        }
        VmMem {
            cell_vec: Vec::new(),
            head: 0,
            interact_with_user,
            input_stack,
            output_stack: Vec::new(),
        }
    }

    /// The value of the cell at `index`: what was last written there, or 0.
    pub fn get(&self, index: usize) -> (v: u8)
        ensures
            v == self@.cells[index as int],
            v == if index < self.backing().len() {
                self.backing()[index as int]
            } else {
                0u8
            },
    {
        if index < self.cell_vec.len() {
            self.cell_vec[index]
        } else {
            0
        }
    }

    /// Writes `value` to the cell at `index`. A write beyond the backing
    /// store first extends the store with zeros up to `index`.
    pub fn set(&mut self, index: usize, value: u8)
        requires
            index < tape_limit(),
        ensures
            final(self)@ == old(self)@.write(index as int, value),
            final(self).backing() == if index < old(self).backing().len() {
                old(self).backing().update(index as int, value)
            } else {
                old(self).backing() + Seq::new(
                    (index - old(self).backing().len()) as nat,
                    |i: int| 0u8,
                ) + seq![value]
            },
            final(self).wf() == old(self).wf(),
    {
        let ghost before = self.cell_vec@;
        while self.cell_vec.len() <= index
            invariant
                index < usize::MAX,
                self.head == old(self).head,
                self.interact_with_user == old(self).interact_with_user,
                self.input_stack == old(self).input_stack,
                self.output_stack == old(self).output_stack,
                before.len() <= self.cell_vec.len(),
                index < before.len() ==> self.cell_vec@ == before,
                index >= before.len() ==> self.cell_vec.len() <= index + 1,
                self.cell_vec@ == before + Seq::new(
                    (self.cell_vec.len() - before.len()) as nat,
                    |i: int| 0u8,
                ),
            decreases index + 1 - self.cell_vec.len(),
        {
            self.cell_vec.push(0);
            assert(self.cell_vec@ =~= before + Seq::new(
                (self.cell_vec.len() - before.len()) as nat,
                |i: int| 0u8,
            ));
        }
        self.cell_vec[index] = value;
        proof {
            if index < before.len() {
                assert(before + Seq::new(0, |i: int| 0u8) =~= before);
                assert(self.cell_vec@ =~= before.update(index as int, value));
            } else {
                assert(self.cell_vec@ =~= before + Seq::new(
                    (index - before.len()) as nat,
                    |i: int| 0u8,
                ) + seq![value]);
            }
            assert(self@.cells =~= old(self)@.cells.insert(index as int, value));
        }
    }

    /// The index of the cell under the head.
    pub fn head(&self) -> (h: usize)
        ensures
            h == self@.head,
    {
        self.head
    }

    /// The output written so far.
    pub fn output(&self) -> (out: &Vec<u8>)
        ensures
            out@ == self@.output,
    {
        &self.output_stack
    }

    /// Gives up the memory for the output written so far.
    pub fn into_output(self) -> (out: Vec<u8>)
        ensures
            out@ == self@.output,
    {
        self.output_stack
    }

    /// Appends a byte to the output. Returns whether the caller should also
    /// show it at once, which is so exactly on an interactive machine.
    pub fn output_char_value(&mut self, char_value: u8) -> (echo: bool)
        ensures
            final(self)@ == (State { output: old(self)@.output.push(char_value), ..old(self)@ }),
            final(self).backing() == old(self).backing(),
            final(self).wf() == old(self).wf(),
            echo == old(self)@.interactive,
    {
        self.output_stack.push(char_value);
        self.interact_with_user
    }

    /// Takes the next input byte. Once the input is used up, a machine with a
    /// fixed input reads 0 for ever, and an interactive machine returns `None`:
    /// its caller has to fetch a byte and [`feed`](VmMem::feed) it.
    pub fn input_char_value(&mut self) -> (r: Option<u8>)
        ensures
            final(self).backing() == old(self).backing(),
            final(self).wf() == old(self).wf(),
            old(self)@.input.len() > 0 ==> r == Some(old(self)@.input[0]) && final(self)@ == (State {
                input: old(self)@.input.drop_first(),
                ..old(self)@
            }),
            old(self)@.input.len() == 0 ==> final(self)@ == old(self)@ && r == if old(
                self,
            )@.interactive {
                None::<u8>
            } else {
                Some(0u8)
            },
    {
        let ghost before = self.input_stack@;
        match self.input_stack.pop() {
            Some(value) => {
                assert(self.input_stack@.reverse() =~= before.reverse().drop_first());
                Some(value)
            },
            None => if self.interact_with_user {
                None
            } else {
                Some(0)
            },
        }
    }

    /// Puts `byte` in front of the input still to be read.
    pub fn feed(&mut self, byte: u8)
        ensures
            final(self)@ == (State { input: seq![byte] + old(self)@.input, ..old(self)@ }),
            final(self).backing() == old(self).backing(),
            final(self).wf() == old(self).wf(),
    {
        let ghost before = self.input_stack@;
        self.input_stack.push(byte);
        assert(self.input_stack@.reverse() =~= seq![byte] + before.reverse());
    }

    /// Decides whether a batch can be applied at the head.
    fn check_batch(&self, e: &Vec<(isize, isize)>, cell_deltas: Ghost<Map<int, int>>, head_delta: isize) -> (r:
        Option<Fault>)
        requires
            lists(e@, cell_deltas@),
        ensures
            r == self@.batch_fault(cell_deltas@, head_delta as int),
    {
        let mut under = offset_index(self.head, head_delta).is_none() && head_delta < 0;
        let mut over = offset_index(self.head, head_delta).is_none() && head_delta >= 0;
        let mut i: usize = 0;
        while i < e.len()
            invariant
                i <= e.len(),
                under <==> (self.head + head_delta < 0 || exists|j: int|
                    0 <= j < i && self.head + #[trigger] e[j].0 < 0),
                over <==> (self.head + head_delta >= tape_limit() || exists|j: int|
                    0 <= j < i && self.head + #[trigger] e[j].0 >= tape_limit()),
            decreases e.len() - i,
        {
            let offset = e[i].0;
            if offset_index(self.head, offset).is_none() {
                if offset < 0 {
                    under = true;
                } else {
                    over = true;
                }
            }
            i = i + 1;
        }
        proof {
            let d = cell_deltas@;
            let h = self.head as int;
            assert((exists|j: int| 0 <= j < e.len() && h + #[trigger] e[j].0 < 0) <==> (exists|
                k: int,
            | #[trigger] d.contains_key(k) && h + k < 0)) by {
                if exists|j: int| 0 <= j < e.len() && h + #[trigger] e[j].0 < 0 {
                    let j = choose|j: int| 0 <= j < e.len() && h + #[trigger] e[j].0 < 0;
                    assert(d.contains_key(e[j].0 as int));
                }
                if exists|k: int| #[trigger] d.contains_key(k) && h + k < 0 {
                    let k = choose|k: int| #[trigger] d.contains_key(k) && h + k < 0;
                    let j = choose|j: int| 0 <= j < e.len() && #[trigger] e[j].0 == k;
                    assert(h + e[j].0 < 0);
                }
            }
            assert((exists|j: int| 0 <= j < e.len() && h + #[trigger] e[j].0 >= tape_limit())
                <==> (exists|k: int| #[trigger] d.contains_key(k) && h + k >= tape_limit())) by {
                if exists|j: int| 0 <= j < e.len() && h + #[trigger] e[j].0 >= tape_limit() {
                    let j = choose|j: int|
                        0 <= j < e.len() && h + #[trigger] e[j].0 >= tape_limit();
                    assert(d.contains_key(e[j].0 as int));
                }
                if exists|k: int| #[trigger] d.contains_key(k) && h + k >= tape_limit() {
                    let k = choose|k: int| #[trigger] d.contains_key(k) && h + k >= tape_limit();
                    let j = choose|j: int| 0 <= j < e.len() && #[trigger] e[j].0 == k;
                    assert(h + e[j].0 >= tape_limit());
                }
            }
        }
        if under {
            Some(Fault::HeadUnderflow)
        } else if over {
            Some(Fault::HeadOverflow)
        } else {
            None
        }
    }

    /// Applies the listed changes `times` times each, leaving out the cell
    /// under the head if `spare_head` is set.
    fn shift_cells(
        &mut self,
        e: &Vec<(isize, isize)>,
        cell_deltas: Ghost<Map<int, int>>,
        times: u8,
        spare_head: bool,
    )
        requires
            lists(e@, cell_deltas@),
            old(self).wf(),
            old(self)@.batch_fault(cell_deltas@, 0) is None,
        ensures
            final(self).wf(),
            final(self)@ == old(self)@.shift_cells(
                if spare_head {
                    cell_deltas@.remove(0)
                } else {
                    cell_deltas@
                },
                times as int,
            ),
    {
        let ghost d = if spare_head {
            cell_deltas@.remove(0)
        } else {
            cell_deltas@
        };
        let ghost start = self@;
        let mut i: usize = 0;
        while i < e.len()
            invariant
                i <= e.len(),
                lists(e@, cell_deltas@),
                d == if spare_head {
                    cell_deltas@.remove(0)
                } else {
                    cell_deltas@
                },
                start == old(self)@,
                start.batch_fault(cell_deltas@, 0) is None,
                self.wf(),
                self@.head == start.head,
                self@.input == start.input,
                self@.output == start.output,
                self@.interactive == start.interactive,
                forall|j: int|
                    0 <= j < i ==> self@.cells[start.head + #[trigger] e[j].0] == wrap(
                        start.cells[start.head + e[j].0] + delta_at(d, e[j].0 as int) * times,
                    ),
                forall|x: int|
                    (forall|j: int| 0 <= j < i ==> start.head + #[trigger] e[j].0 != x)
                        ==> #[trigger] self@.cells[x] == start.cells[x],
            decreases e.len() - i,
        {
            let offset = e[i].0;
            let delta = e[i].1;
            let ghost now = self@;
            proof {
                assert(cell_deltas@.contains_key(e[i as int].0 as int));
            }
            if !(spare_head && offset == 0) {
                match offset_index(self.head, offset) {
                    Some(index) => {
                        let cell = self.get(index);
                        let byte = delta_byte(delta);
                        assert(0 <= byte * times <= 255 * 255) by (nonlinear_arith)
                            requires
                                0 <= byte <= 255,
                                0 <= times <= 255,
                        ;
                        let sum: u32 = cell as u32 + byte as u32 * times as u32;
                        proof {
                            lemma_wrap_scaled(cell as int, delta as int, times as int);
                            assert(now.cells[index as int] == start.cells[index as int]);
                        }
                        self.set(index, (sum % 256) as u8);
                    },
                    None => {},
                }
            } else {
                proof {
                    assert(now.cells[start.head] == start.cells[start.head]);
                    assert(wrap(start.cells[start.head] as int) == start.cells[start.head]);
                }
            }
            i = i + 1;
        }
        proof {
            let target = start.shift_cells(d, times as int);
            assert forall|x: int| self@.cells[x] == #[trigger] target.cells[x] by {
                let k = x - start.head;
                if cell_deltas@.contains_key(k) {
                    let j = choose|j: int| 0 <= j < e.len() && #[trigger] e[j].0 == k;
                    assert(self@.cells[start.head + e[j].0] == wrap(
                        start.cells[start.head + e[j].0] + delta_at(d, e[j].0 as int) * times,
                    ));
                } else {
                    assert(forall|j: int| 0 <= j < e.len() ==> start.head + #[trigger] e[j].0 != x);
                    assert(wrap(start.cells[x] as int) == start.cells[x]);
                }
            }
            assert(self@.cells =~= target.cells);
        }
    }

    /// Moves the head by `head_delta` cells.
    fn move_head(&mut self, head_delta: isize)
        requires
            0 <= old(self)@.head + head_delta < tape_limit(),
        ensures
            final(self)@ == old(self)@.seek(old(self)@.head + head_delta),
            final(self).wf(),
    {
        match offset_index(self.head, head_delta) {
            Some(head) => {
                self.head = head;
            },
            None => {},
        }
    }
}

/// The model of an interpreter's stack of raw instructions.
pub open spec fn ref_instrs(stack: Seq<&RawInstr>) -> Seq<Instr> {
    Seq::new(stack.len(), |i: int| (*stack[i])@)
}

/// The model of an interpreter's stack of blocks.
pub open spec fn ref_blocks(stack: Seq<&SoupInstr>) -> Seq<Block> {
    Seq::new(stack.len(), |i: int| (*stack[i])@)
}

/// How a run with a fixed input and a step budget ended.
#[derive(Debug)]
pub enum Outcome {
    /// The program ran to its end; this is everything it wrote.
    Finished(Vec<u8>),
    /// The run was aborted.
    Faulted(Fault),
    /// The budget was used up before the program ended.
    OutOfSteps,
}

impl Outcome {
    /// This outcome reports a machine whose next step would signal `signal`
    /// and which has written `output`.
    pub open spec fn reports(self, signal: Signal, output: Seq<u8>) -> bool {
        match self {
            Outcome::Finished(out) => signal is Halted && out@ == output,
            Outcome::Faulted(f) => signal == Signal::Fault(f),
            Outcome::OutOfSteps => !(signal is Halted) && !(signal is Fault),
        }
    }
}

impl State {
    /// Once the input is used up, an input instruction stores 0 and leaves
    /// the input empty.
    pub proof fn lemma_read_past_end(self)
        requires
            self.input.len() == 0,
        ensures
            self.accept().cell() == 0,
            self.accept().input.len() == 0,
            self.accept() == self.write(self.head, 0),
    {
    }
}

impl RawConfig {
    /// A machine with a fixed input never asks its caller to show a byte or
    /// to fetch one, however long it runs.
    pub proof fn lemma_fixed_input_is_silent(self, n: nat)
        requires
            !self.state.interactive,
        ensures
            !self.run(n).state.interactive,
            !(self.run(n).signal() is Echo),
            !(self.run(n).signal() is NeedInput),
        decreases n,
    {
        if n > 0 {
            self.step().lemma_fixed_input_is_silent((n - 1) as nat);
        }
    }

    /// A machine that has halted, faulted or waits for input does not move.
    pub proof fn lemma_stuck(self, n: nat)
        requires
            !(self.signal() is Continue),
            !(self.signal() is Echo),
        ensures
            self.run(n) == self,
        decreases n,
    {
        if n > 0 {
            self.lemma_stuck((n - 1) as nat);
        }
    }

    /// Running `a + b` steps is running `a` steps and then `b` more.
    pub proof fn lemma_run_split(self, a: nat, b: nat)
        ensures
            self.run(a + b) == self.run(a).run(b),
        decreases a,
    {
        if a > 0 {
            self.step().lemma_run_split((a - 1) as nat, b);
        }
    }
}

impl SoupConfig {
    /// A step leaves a stack of valid multiply loops a stack of valid
    /// multiply loops.
    pub proof fn lemma_step_keeps_valid(self)
        requires
            mult_loops_valid(self.stack),
        ensures
            mult_loops_valid(self.step().stack),
    {
        let next = self.step().stack;
        if self.stack.len() > 0 {
            let top = self.stack.last();
            let rest = self.stack.drop_last();
            assert forall|i: int| 0 <= i < next.len() implies match #[trigger] next[i] {
                Block::MultFixedLoop { cell_deltas } => cell_deltas.contains_key(0)
                    && cell_deltas[0] == -1,
                Block::Loop(body) => mult_loops_valid(body),
                _ => true,
            } by {
                if i < self.stack.len() {
                    assert(next[i] == self.stack[i]);
                } else {
                    let body = top->Loop_0;
                    let k = body.len() - 1 - (i - self.stack.len());
                    assert(top == self.stack[self.stack.len() - 1]);
                    assert(top is Loop);
                    assert(next == self.stack + body.reverse());
                    assert(mult_loops_valid(body));
                    assert(next[i] == body[k]);
                    assert(match body[k] {
                        Block::MultFixedLoop { cell_deltas } => cell_deltas.contains_key(0)
                            && cell_deltas[0] == -1,
                        Block::Loop(inner) => mult_loops_valid(inner),
                        _ => true,
                    });
                }
            }
        }
    }

    /// A machine with a fixed input never asks its caller to show a byte or
    /// to fetch one, however long it runs.
    pub proof fn lemma_fixed_input_is_silent(self, n: nat)
        requires
            !self.state.interactive,
        ensures
            !self.run(n).state.interactive,
            !(self.run(n).signal() is Echo),
            !(self.run(n).signal() is NeedInput),
        decreases n,
    {
        if n > 0 {
            self.step().lemma_fixed_input_is_silent((n - 1) as nat);
        }
    }

    /// A machine that has halted, faulted or waits for input does not move.
    pub proof fn lemma_stuck(self, n: nat)
        requires
            !(self.signal() is Continue),
            !(self.signal() is Echo),
        ensures
            self.run(n) == self,
        decreases n,
    {
        if n > 0 {
            self.lemma_stuck((n - 1) as nat);
        }
    }

    /// Running `a + b` steps is running `a` steps and then `b` more.
    pub proof fn lemma_run_split(self, a: nat, b: nat)
        ensures
            self.run(a + b) == self.run(a).run(b),
        decreases a,
    {
        if a > 0 {
            self.step().lemma_run_split((a - 1) as nat, b);
        }
    }
}

/// Pushes the instructions of `body` so that its first comes off first.
fn push_raw_body<'a>(instr_stack: &mut Vec<&'a RawInstr>, body: &'a Vec<RawInstr>)
    ensures
        ref_instrs(final(instr_stack)@) == ref_instrs(old(instr_stack)@) + instrs(body@).reverse(),
{
    let ghost before = ref_instrs(instr_stack@);
    let mut i = body.len();
    assert(instrs(body@).reverse().take(0) =~= Seq::empty());
    assert(before + Seq::empty() =~= before);
    while i > 0
        invariant
            i <= body.len(),
            ref_instrs(instr_stack@) == before + instrs(body@).reverse().take(body.len() - i),
        decreases i,
    {
        let ghost pushed = ref_instrs(instr_stack@);
        i = i - 1;
        instr_stack.push(&body[i]);
        assert(ref_instrs(instr_stack@) =~= pushed.push(body[i as int]@));
        assert(instrs(body@).reverse().take(body.len() - i) =~= instrs(body@).reverse().take(
            body.len() - i - 1,
        ).push(body[i as int]@));
    }
    assert(instrs(body@).reverse().take(body.len() as int) =~= instrs(body@).reverse());
}

/// Pushes the blocks of `body` so that its first comes off first.
fn push_soup_body<'a>(instr_stack: &mut Vec<&'a SoupInstr>, body: &'a Vec<SoupInstr>)
    ensures
        ref_blocks(final(instr_stack)@) == ref_blocks(old(instr_stack)@) + blocks(body@).reverse(),
{
    let ghost before = ref_blocks(instr_stack@);
    let mut i = body.len();
    assert(blocks(body@).reverse().take(0) =~= Seq::empty());
    assert(before + Seq::empty() =~= before);
    while i > 0
        invariant
            i <= body.len(),
            ref_blocks(instr_stack@) == before + blocks(body@).reverse().take(body.len() - i),
        decreases i,
    {
        let ghost pushed = ref_blocks(instr_stack@);
        i = i - 1;
        instr_stack.push(&body[i]);
        assert(ref_blocks(instr_stack@) =~= pushed.push(body[i as int]@));
        assert(blocks(body@).reverse().take(body.len() - i) =~= blocks(body@).reverse().take(
            body.len() - i - 1,
        ).push(body[i as int]@));
    }
    assert(blocks(body@).reverse().take(body.len() as int) =~= blocks(body@).reverse());
}

/// What the next step of a raw machine would report, without taking it.
pub fn signal_raw<'a>(m: &VmMem, instr_stack: &Vec<&'a RawInstr>) -> (signal: Signal)
    requires
        m.wf(),
    ensures
        signal == (RawConfig { state: m@, stack: ref_instrs(instr_stack@) }).signal(),
{
    if instr_stack.len() == 0 {
        return Signal::Halted;
    }
    let top: &'a RawInstr = instr_stack[instr_stack.len() - 1];
    assert(ref_instrs(instr_stack@).last() == top@);
    match top {
        RawInstr::Left => if m.head == 0 {
            Signal::Fault(Fault::HeadUnderflow)
        } else {
            Signal::Continue
        },
        RawInstr::Right => if m.head >= usize::MAX - 1 {
            Signal::Fault(Fault::HeadOverflow)
        } else {
            Signal::Continue
        },
        RawInstr::Output => if m.interact_with_user {
            Signal::Echo(m.get(m.head))
        } else {
            Signal::Continue
        },
        RawInstr::Input => if m.interact_with_user && m.input_stack.len() == 0 {
            Signal::NeedInput
        } else {
            Signal::Continue
        },
        _ => Signal::Continue,
    }
}

/// Takes one step of a raw machine and returns what the step reports.
pub fn step_raw<'a>(m: &mut VmMem, instr_stack: &mut Vec<&'a RawInstr>) -> (signal: Signal)
    requires
        old(m).wf(),
    ensures
        final(m).wf(),
        signal == (RawConfig { state: old(m)@, stack: ref_instrs(old(instr_stack)@) }).signal(),
        (RawConfig { state: final(m)@, stack: ref_instrs(final(instr_stack)@) }) == (RawConfig {
            state: old(m)@,
            stack: ref_instrs(old(instr_stack)@),
        }).step(),
{
    let signal = signal_raw(m, instr_stack);
    let ghost before = RawConfig { state: m@, stack: ref_instrs(instr_stack@) };
    match signal {
        Signal::Continue | Signal::Echo(_) => {},
        _ => {
            return signal;
        },
    }
    let top: &'a RawInstr = instr_stack[instr_stack.len() - 1];
    assert(before.stack.last() == top@);
    match top {
        RawInstr::Plus => {
            let cell = m.get(m.head);
            m.set(m.head, cell.wrapping_add(1));
            instr_stack.pop();
        },
        RawInstr::Minus => {
            let cell = m.get(m.head);
            m.set(m.head, cell.wrapping_sub(1));
            instr_stack.pop();
        },
        RawInstr::Left => {
            m.head = m.head - 1;
            instr_stack.pop();
        },
        RawInstr::Right => {
            m.head = m.head + 1;
            instr_stack.pop();
        },
        RawInstr::Output => {
            let cell = m.get(m.head);
            m.output_char_value(cell);
            instr_stack.pop();
        },
        RawInstr::Input => {
            let byte = match m.input_char_value() {
                Some(b) => b,
                None => 0,
            };
            m.set(m.head, byte);
            instr_stack.pop();
        },
        RawInstr::BracketLoop(body) => {
            proof {
                lemma_view_loop(*body);
            }
            if m.get(m.head) != 0 {
                push_raw_body(instr_stack, body);
            } else {
                instr_stack.pop();
            }
        },
    }
    proof {
        let after = RawConfig { state: m@, stack: ref_instrs(instr_stack@) };
        assert(after.stack =~= before.step().stack);
        assert(after.state.input =~= before.step().state.input);
    }
    signal
}

/// Whether the batch-like block `top` can be applied, and its entries.
fn probe_batch(m: &VmMem, cell_deltas: &HashMap<isize, isize>, head_delta: isize) -> (r: (
    Option<Fault>,
    Vec<(isize, isize)>,
))
    ensures
        r.0 == m@.batch_fault(deltas(cell_deltas@), head_delta as int),
        lists(r.1@, deltas(cell_deltas@)),
{
    let e = entries(cell_deltas);
    let fault = m.check_batch(&e, Ghost(deltas(cell_deltas@)), head_delta);
    (fault, e)
}

/// What the next step of an optimized machine would report, without taking
/// it.
pub fn signal_soup<'a>(m: &VmMem, instr_stack: &Vec<&'a SoupInstr>) -> (signal: Signal)
    requires
        m.wf(),
        mult_loops_valid(ref_blocks(instr_stack@)),
    ensures
        signal == (SoupConfig { state: m@, stack: ref_blocks(instr_stack@) }).signal(),
{
    if instr_stack.len() == 0 {
        return Signal::Halted;
    }
    let top: &'a SoupInstr = instr_stack[instr_stack.len() - 1];
    assert(ref_blocks(instr_stack@).last() == top@);
    let skip = m.get(m.head) == 0;
    let fault = match top {
        SoupInstr::Soup { cell_deltas, head_delta } => probe_batch(m, cell_deltas, *head_delta).0,
        SoupInstr::MultFixedLoop { cell_deltas } => if skip {
            None
        } else {
            probe_batch(m, cell_deltas, 0).0
        },
        SoupInstr::SoupFixedLoop { cell_deltas } => if skip {
            None
        } else {
            probe_batch(m, cell_deltas, 0).0
        },
        SoupInstr::SoupMovingLoop { cell_deltas, head_delta } => if skip {
            None
        } else {
            probe_batch(m, cell_deltas, *head_delta).0
        },
        _ => None,
    };
    match fault {
        Some(f) => Signal::Fault(f),
        None => match top {
            SoupInstr::Output => if m.interact_with_user {
                Signal::Echo(m.get(m.head))
            } else {
                Signal::Continue
            },
            SoupInstr::Input => if m.interact_with_user && m.input_stack.len() == 0 {
                Signal::NeedInput
            } else {
                Signal::Continue
            },
            _ => Signal::Continue,
        },
    }
}

/// Takes one step of an optimized machine and returns what the step reports.
///
/// Every multiply loop on the stack has to take exactly one from the cell
/// under the head, as every multiply loop the optimizer builds does.
pub fn step_soup<'a>(m: &mut VmMem, instr_stack: &mut Vec<&'a SoupInstr>) -> (signal: Signal)
    requires
        old(m).wf(),
        mult_loops_valid(ref_blocks(old(instr_stack)@)),
    ensures
        final(m).wf(),
        mult_loops_valid(ref_blocks(final(instr_stack)@)),
        signal == (SoupConfig { state: old(m)@, stack: ref_blocks(old(instr_stack)@) }).signal(),
        (SoupConfig { state: final(m)@, stack: ref_blocks(final(instr_stack)@) }) == (SoupConfig {
            state: old(m)@,
            stack: ref_blocks(old(instr_stack)@),
        }).step(),
{
    let ghost before = SoupConfig { state: m@, stack: ref_blocks(instr_stack@) };
    proof {
        before.lemma_step_keeps_valid();
    }
    if instr_stack.len() == 0 {
        return Signal::Halted;
    }
    let top: &'a SoupInstr = instr_stack[instr_stack.len() - 1];
    assert(before.stack.last() == top@);
    let mut signal = Signal::Continue;
    match top {
        SoupInstr::Soup { cell_deltas, head_delta } => {
            let (fault, e) = probe_batch(m, cell_deltas, *head_delta);
            match fault {
                Some(f) => {
                    return Signal::Fault(f);
                },
                None => {},
            }
            m.shift_cells(&e, Ghost(deltas(cell_deltas@)), 1, false);
            m.move_head(*head_delta);
            instr_stack.pop();
        },
        SoupInstr::Output => {
            let cell = m.get(m.head);
            if m.output_char_value(cell) {
                signal = Signal::Echo(cell);
            }
            instr_stack.pop();
        },
        SoupInstr::Input => {
            match m.input_char_value() {
                Some(byte) => {
                    m.set(m.head, byte);
                    instr_stack.pop();
                },
                None => {
                    return Signal::NeedInput;
                },
            }
        },
        SoupInstr::MultFixedLoop { cell_deltas } => {
            let n = m.get(m.head);
            if n != 0 {
                let (fault, e) = probe_batch(m, cell_deltas, 0);
                match fault {
                    Some(f) => {
                        return Signal::Fault(f);
                    },
                    None => {},
                }
                m.shift_cells(&e, Ghost(deltas(cell_deltas@)), n, true);
                m.set(m.head, 0);
            }
            instr_stack.pop();
        },
        SoupInstr::SoupFixedLoop { cell_deltas } => {
            if m.get(m.head) != 0 {
                let (fault, e) = probe_batch(m, cell_deltas, 0);
                match fault {
                    Some(f) => {
                        return Signal::Fault(f);
                    },
                    None => {},
                }
                m.shift_cells(&e, Ghost(deltas(cell_deltas@)), 1, false);
                m.move_head(0);
            }
            if m.get(m.head) == 0 {
                instr_stack.pop();
            }
        },
        SoupInstr::SoupMovingLoop { cell_deltas, head_delta } => {
            if m.get(m.head) != 0 {
                let (fault, e) = probe_batch(m, cell_deltas, *head_delta);
                match fault {
                    Some(f) => {
                        return Signal::Fault(f);
                    },
                    None => {},
                }
                m.shift_cells(&e, Ghost(deltas(cell_deltas@)), 1, false);
                m.move_head(*head_delta);
            }
            if m.get(m.head) == 0 {
                instr_stack.pop();
            }
        },
        SoupInstr::Loop(body) => {
            proof {
                lemma_view_block_loop(*body);
            }
            if m.get(m.head) != 0 {
                push_soup_body(instr_stack, body);
            } else {
                instr_stack.pop();
            }
        },
    }
    proof {
        let after = SoupConfig { state: m@, stack: ref_blocks(instr_stack@) };
        assert(after.stack =~= before.step().stack);
        assert(after.state.input =~= before.step().state.input);
    }
    signal
}

/// Runs a raw program on a fixed input for at most `max_steps` steps.
///
/// A program of this language need not end, so the caller sets the budget.
pub fn run_raw(instr_seq: Vec<RawInstr>, input: Vec<u8>, max_steps: usize) -> (r: Outcome)
    ensures
        ({
            let end = RawConfig::start(instrs(instr_seq@), input@, false).run(max_steps as nat);
            r.reports(end.signal(), end.state.output)
        }),
{
    let ghost fixed = input@;
    let ghost start = RawConfig::start(instrs(instr_seq@), fixed, false);
    let mut m = VmMem::new(Some(input));
    let mut instr_stack: Vec<&RawInstr> = Vec::new();
    push_raw_body(&mut instr_stack, &instr_seq);
    let mut steps: usize = 0;
    assert(ref_instrs(instr_stack@) =~= start.stack);
    loop
        invariant
            m.wf(),
            steps <= max_steps,
            fixed == input@,
            start == RawConfig::start(instrs(instr_seq@), fixed, false),
            (RawConfig { state: m@, stack: ref_instrs(instr_stack@) }) == start.run(steps as nat),
        decreases max_steps - steps,
    {
        let ghost now = RawConfig { state: m@, stack: ref_instrs(instr_stack@) };
        if steps == max_steps {
            let signal = signal_raw(&m, &instr_stack);
            return match signal {
                Signal::Halted => Outcome::Finished(m.into_output()),
                Signal::Fault(f) => Outcome::Faulted(f),
                _ => Outcome::OutOfSteps,
            };
        }
        let signal = step_raw(&mut m, &mut instr_stack);
        proof {
            start.lemma_run_split(steps as nat, 1);
            start.lemma_run_split(steps as nat, (max_steps - steps) as nat);
            assert(now.step().run(0) == now.step());
            assert(now.run(1) == now.step());
            if !(signal is Continue) && !(signal is Echo) {
                now.lemma_stuck((max_steps - steps) as nat);
            }
        }
        match signal {
            Signal::Halted => {
                return Outcome::Finished(m.into_output());
            },
            Signal::Fault(f) => {
                return Outcome::Faulted(f);
            },
            Signal::NeedInput => {
                return Outcome::OutOfSteps;
            },
            _ => {},
        }
        steps = steps + 1;
    }
}

/// Runs an optimized program on a fixed input for at most `max_steps` steps.
///
/// A program of this language need not end, so the caller sets the budget.
/// Every multiply loop of the program has to take exactly one from the cell
/// under the head, as every multiply loop the optimizer builds does.
pub fn run_soup(instr_seq: Vec<SoupInstr>, input: Vec<u8>, max_steps: usize) -> (r: Outcome)
    requires
        mult_loops_valid(blocks(instr_seq@)),
    ensures
        ({
            let end = SoupConfig::start(blocks(instr_seq@), input@, false).run(max_steps as nat);
            r.reports(end.signal(), end.state.output)
        }),
{
    let ghost fixed = input@;
    let ghost start = SoupConfig::start(blocks(instr_seq@), fixed, false);
    let mut m = VmMem::new(Some(input));
    let mut instr_stack: Vec<&SoupInstr> = Vec::new();
    push_soup_body(&mut instr_stack, &instr_seq);
    let mut steps: usize = 0;
    assert(ref_blocks(instr_stack@) =~= start.stack);
    proof {
        let prog = blocks(instr_seq@);
        assert forall|i: int| 0 <= i < start.stack.len() implies match #[trigger] start.stack[i] {
            Block::MultFixedLoop { cell_deltas } => cell_deltas.contains_key(0) && cell_deltas[0]
                == -1,
            Block::Loop(body) => mult_loops_valid(body),
            _ => true,
        } by {
            assert(start.stack[i] == prog[prog.len() - 1 - i]);
        }
    }
    loop
        invariant
            m.wf(),
            mult_loops_valid(ref_blocks(instr_stack@)),
            steps <= max_steps,
            fixed == input@,
            start == SoupConfig::start(blocks(instr_seq@), fixed, false),
            (SoupConfig { state: m@, stack: ref_blocks(instr_stack@) }) == start.run(steps as nat),
        decreases max_steps - steps,
    {
        let ghost now = SoupConfig { state: m@, stack: ref_blocks(instr_stack@) };
        if steps == max_steps {
            let signal = signal_soup(&m, &instr_stack);
            return match signal {
                Signal::Halted => Outcome::Finished(m.into_output()),
                Signal::Fault(f) => Outcome::Faulted(f),
                _ => Outcome::OutOfSteps,
            };
        }
        let signal = step_soup(&mut m, &mut instr_stack);
        proof {
            start.lemma_run_split(steps as nat, 1);
            start.lemma_run_split(steps as nat, (max_steps - steps) as nat);
            assert(now.step().run(0) == now.step());
            assert(now.run(1) == now.step());
            if !(signal is Continue) && !(signal is Echo) {
                now.lemma_stuck((max_steps - steps) as nat);
            }
        }
        match signal {
            Signal::Halted => {
                return Outcome::Finished(m.into_output());
            },
            Signal::Fault(f) => {
                return Outcome::Faulted(f);
            },
            Signal::NeedInput => {
                return Outcome::OutOfSteps;
            },
            _ => {},
        }
        steps = steps + 1;
    }
}

} // verus!
