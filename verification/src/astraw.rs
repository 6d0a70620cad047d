//! The raw instruction tree, exactly as the parser builds it.

use vstd::prelude::*;

verus! {

/// One instruction of the source language. A `BracketLoop` owns its body.
#[derive(Debug)]
pub enum RawInstr {
    Plus,
    Minus,
    Left,
    Right,
    Output,
    Input,
    BracketLoop(Vec<RawInstr>),
}

/// The mathematical model of a [`RawInstr`].
pub enum Instr {
    Plus,
    Minus,
    Left,
    Right,
    Output,
    Input,
    Loop(Seq<Instr>),
}

impl Instr {
    /// True for the four instructions that only edit a cell or move the head.
    pub open spec fn is_simple(self) -> bool {
        self is Plus || self is Minus || self is Left || self is Right
    }
}

impl View for RawInstr {
    type V = Instr;

    open spec fn view(&self) -> Instr
        decreases self,
    {
        match self {
            RawInstr::Plus => Instr::Plus,
            RawInstr::Minus => Instr::Minus,
            RawInstr::Left => Instr::Left,
            RawInstr::Right => Instr::Right,
            RawInstr::Output => Instr::Output,
            RawInstr::Input => Instr::Input,
            RawInstr::BracketLoop(body) => Instr::Loop(
                Seq::new(
                    body.len() as nat,
                    |i: int|
                        if 0 <= i < body.len() {
                            body[i].view()
                        } else {
                            Instr::Plus
                        },
                ),
            ),
        }
    }
}

/// The model of a whole instruction sequence: the model of each element.
pub open spec fn instrs(p: Seq<RawInstr>) -> Seq<Instr> {
    Seq::new(p.len(), |i: int| p[i]@)
}

/// The model of a loop is the loop over the model of its body.
pub proof fn lemma_view_loop(body: Vec<RawInstr>)
    ensures
        RawInstr::BracketLoop(body)@ == Instr::Loop(instrs(body@)),
{
    assert(RawInstr::BracketLoop(body)@->Loop_0 =~= instrs(body@));
}

/// Taking a prefix and pushing the next element commute with the model.
pub proof fn lemma_instrs_push(p: Seq<RawInstr>, i: int)
    requires
        0 <= i < p.len(),
    ensures
        instrs(p.take(i + 1)) == instrs(p.take(i)).push(p[i]@),
        instrs(p.take(0)) == Seq::<Instr>::empty(),
        instrs(p.take(p.len() as int)) == instrs(p),
{
    assert(instrs(p.take(i + 1)) =~= instrs(p.take(i)).push(p[i]@));
    assert(instrs(p.take(0)) =~= Seq::<Instr>::empty());
    assert(p.take(p.len() as int) =~= p);
}

impl Clone for RawInstr {
    fn clone(&self) -> (res: Self)
        ensures
            res@ == self@,
        decreases self,
    {
        match self {
            RawInstr::Plus => RawInstr::Plus,
            RawInstr::Minus => RawInstr::Minus,
            RawInstr::Left => RawInstr::Left,
            RawInstr::Right => RawInstr::Right,
            RawInstr::Output => RawInstr::Output,
            RawInstr::Input => RawInstr::Input,
            RawInstr::BracketLoop(body) => {
                let mut copy: Vec<RawInstr> = Vec::new();
                let mut i: usize = 0;
                while i < body.len()
                    invariant
                        i <= body.len(),
                        *self == RawInstr::BracketLoop(*body),
                        copy.len() == i,
                        forall|j: int| 0 <= j < i ==> copy[j]@ == body[j]@,
                    decreases body.len() - i,
                {
                    proof {
                        assert(decreases_to!(*self => self->BracketLoop_0));
                        assert(decreases_to!(*body => body[i as int]));
                    }
                    let c = body[i].clone();
                    copy.push(c);
                    i = i + 1;
                }
                proof {
                    lemma_view_loop(copy);
                    lemma_view_loop(*body);
                    assert(instrs(copy@) =~= instrs(body@));
                }
                RawInstr::BracketLoop(copy)
            }
        }
    }
}

} // verus!
