//! From source text to the raw instruction tree.
//!
//! Eight bytes are instructions and every other byte is a comment. Brackets
//! have to match; every bracket that does not is reported, not only the first.

use crate::astraw::{instrs, lemma_view_loop, Instr, RawInstr};
use vstd::prelude::*;
use vstd::string::StringSliceAdditionalSpecFns;

verus! {

/// A bracket without a partner, with its byte offset in the source.
#[derive(Debug, Clone, Copy, PartialEq, Eq, Structural)]
pub enum ParsingError {
    UnmatchedOpeningBracket { pos: usize },
    UnmatchedClosingBracket { pos: usize },
}

/// The byte `+`.
pub const PLUS: u8 = 43;

/// The byte `-`.
pub const MINUS: u8 = 45;

/// The byte `<`.
pub const LEFT: u8 = 60;

/// The byte `>`.
pub const RIGHT: u8 = 62;

/// The byte `.`.
pub const DOT: u8 = 46;

/// The byte `,`.
pub const COMMA: u8 = 44;

/// The byte `[`.
pub const OPEN: u8 = 91;

/// The byte `]`.
pub const CLOSE: u8 = 93;

/// Whether the byte `b` is one of the eight instructions.
pub open spec fn is_significant(b: u8) -> bool {
    b == PLUS || b == MINUS || b == LEFT || b == RIGHT || b == DOT || b == COMMA || b == OPEN
        || b == CLOSE
}

/// The instruction bytes of `src`, in order, without the comments.
pub open spec fn significant(src: Seq<u8>) -> Seq<u8>
    decreases src.len(),
{
    if src.len() == 0 {
        Seq::empty()
    } else if is_significant(src.last()) {
        significant(src.drop_last()).push(src.last())
    } else {
        significant(src.drop_last())
    }
}

/// The source text of one instruction.
pub open spec fn render_instr(x: Instr) -> Seq<u8>
    decreases x,
{
    match x {
        Instr::Plus => seq![PLUS],
        Instr::Minus => seq![MINUS],
        Instr::Left => seq![LEFT],
        Instr::Right => seq![RIGHT],
        Instr::Output => seq![DOT],
        Instr::Input => seq![COMMA],
        Instr::Loop(body) => seq![OPEN] + render(body) + seq![CLOSE],
    }
}

/// The source text of a program, written without comments.
pub open spec fn render(p: Seq<Instr>) -> Seq<u8>
    decreases p,
{
    if p.len() == 0 {
        Seq::empty()
    } else {
        render(p.drop_last()) + render_instr(p.last())
    }
}

/// The offsets of the opening brackets of `src` that are still open at its
/// end, in ascending order. A closing bracket closes the innermost open one.
pub open spec fn open_brackets(src: Seq<u8>) -> Seq<int>
    decreases src.len(),
{
    if src.len() == 0 {
        Seq::empty()
    } else {
        let before = open_brackets(src.drop_last());
        if src.last() == OPEN {
            before.push(src.len() - 1)
        } else if src.last() == CLOSE && before.len() > 0 {
            before.drop_last()
        } else {
            before
        }
    }
}

/// One error for each closing bracket of `src` that has no bracket to close,
/// in ascending order of offset.
pub open spec fn closing_errors(src: Seq<u8>) -> Seq<ParsingError>
    decreases src.len(),
{
    if src.len() == 0 {
        Seq::empty()
    } else {
        let before = closing_errors(src.drop_last());
        if src.last() == CLOSE && open_brackets(src.drop_last()).len() == 0 {
            before.push(ParsingError::UnmatchedClosingBracket { pos: (src.len() - 1) as usize })
        } else {
            before
        }
    }
}

/// One error for each opening bracket of `src` that is never closed, in
/// ascending order of offset.
pub open spec fn opening_errors(src: Seq<u8>) -> Seq<ParsingError> {
    Seq::new(
        open_brackets(src).len(),
        |i: int| ParsingError::UnmatchedOpeningBracket { pos: open_brackets(src)[i] as usize },
    )
}

/// Everything wrong with the brackets of `src`: the closing brackets without
/// a partner, then the opening ones. Both parts ascend, and every stray
/// closing bracket stands before every opening bracket that stays open.
pub open spec fn bracket_errors(src: Seq<u8>) -> Seq<ParsingError> {
    closing_errors(src) + opening_errors(src)
}

/// The source text of a program, behind anything that ends in an opening
/// bracket, gives the program back: it can be cut off in one way only.
proof fn lemma_render_cancel(p: Seq<Instr>, q: Seq<Instr>, x: Seq<u8>, y: Seq<u8>)
    requires
        x + seq![OPEN] + render(p) == y + seq![OPEN] + render(q),
    ensures
        p == q,
        x == y,
    decreases p,
{
    let left = x + seq![OPEN] + render(p);
    let right = y + seq![OPEN] + render(q);
    if p.len() == 0 || q.len() == 0 {
        if p.len() > 0 {
            let t = render_instr(p.last());
            assert(left =~= x + seq![OPEN] + render(p.drop_last()) + t);
            assert(right =~= y + seq![OPEN]);
            assert(left.last() == t.last());
            assert(right.last() == OPEN);
            assert(false);
        }
        if q.len() > 0 {
            let t = render_instr(q.last());
            assert(right =~= y + seq![OPEN] + render(q.drop_last()) + t);
            assert(left =~= x + seq![OPEN]);
            assert(right.last() == t.last());
            assert(left.last() == OPEN);
            assert(false);
        }
        assert(left =~= x + seq![OPEN]);
        assert(right =~= y + seq![OPEN]);
        assert(x =~= left.drop_last());
        assert(y =~= right.drop_last());
        assert(p =~= q);
    } else {
        let p_front = p.drop_last();
        let q_front = q.drop_last();
        let tp = render_instr(p.last());
        let tq = render_instr(q.last());
        let lp = x + seq![OPEN] + render(p_front);
        let lq = y + seq![OPEN] + render(q_front);
        assert(left =~= lp + tp);
        assert(right =~= lq + tq);
        assert(left.last() == tp.last());
        assert(right.last() == tq.last());
        match p.last() {
            Instr::Loop(bp) => {
                assert(tp.last() == CLOSE);
                assert(q.last() is Loop);
                let bq = q.last()->Loop_0;
                assert(left.drop_last() =~= lp + seq![OPEN] + render(bp));
                assert(right.drop_last() =~= lq + seq![OPEN] + render(bq));
                lemma_render_cancel(bp, bq, lp, lq);
                lemma_render_cancel(p_front, q_front, x, y);
            },
            _ => {
                assert(tp.len() == 1);
                assert(tq.len() == 1 || q.last() is Loop);
                assert(!(q.last() is Loop));
                assert(p.last() == q.last());
                assert(left.drop_last() =~= lp);
                assert(right.drop_last() =~= lq);
                lemma_render_cancel(p_front, q_front, x, y);
            },
        }
        assert(p =~= p_front.push(p.last()));
        assert(q =~= q_front.push(q.last()));
    }
}

/// A program is determined by its source text: two programs that are written
/// alike are the same program.
pub proof fn lemma_render_injective(p: Seq<Instr>, q: Seq<Instr>)
    requires
        render(p) == render(q),
    ensures
        p == q,
{
    let x = Seq::<u8>::empty();
    lemma_render_cancel(p, q, x, x);
}

/// A bracket that is open, with what its enclosing scope held when it opened.
struct Scope {
    opening_bracket_pos: usize,
    instr_seq: Vec<RawInstr>,
}

/// The source text of a program under construction: the enclosing scopes from
/// the outermost in, each followed by its opening bracket, then the innermost
/// scope.
spec fn partial_render(scopes: Seq<Scope>, innermost: Seq<RawInstr>) -> Seq<u8>
    decreases scopes.len(),
{
    if scopes.len() == 0 {
        render(instrs(innermost))
    } else {
        partial_render(scopes.drop_last(), scopes.last().instr_seq@) + seq![OPEN] + render(
            instrs(innermost),
        )
    }
}

proof fn lemma_partial_render_push(scopes: Seq<Scope>, innermost: Seq<RawInstr>, x: RawInstr)
    ensures
        partial_render(scopes, innermost.push(x)) == partial_render(scopes, innermost)
            + render_instr(x@),
{
    let longer = instrs(innermost.push(x));
    assert(longer.drop_last() =~= instrs(innermost));
    assert(longer.last() == x@);
    assert(render(longer) == render(instrs(innermost)) + render_instr(x@));
    if scopes.len() == 0 {
    } else {
        let outer = partial_render(scopes.drop_last(), scopes.last().instr_seq@) + seq![OPEN];
        assert(outer + (render(instrs(innermost)) + render_instr(x@)) =~= outer + render(
            instrs(innermost),
        ) + render_instr(x@));
    }
}

/// Parses source text into a program, or reports every unmatched bracket.
///
/// Offsets count bytes. On success the program, written back out, is the
/// source without its comments.
pub fn parse_instr_seq(src_code: &str) -> (res: Result<Vec<RawInstr>, Vec<ParsingError>>)
    ensures
        match res {
            Ok(prog) => bracket_errors(src_code.spec_bytes()).len() == 0 && render(instrs(prog@))
                == significant(src_code.spec_bytes()),
            Err(errors) => errors.len() > 0 && errors@ == bracket_errors(src_code.spec_bytes()),
        },
{
    let bytes = src_code.as_bytes();
    let mut scope_stack: Vec<Scope> = Vec::new();
    let mut current: Vec<RawInstr> = Vec::new();
    let mut errors: Vec<ParsingError> = Vec::new();
    let mut pos: usize = 0;
    proof {
        assert(instrs(current@) =~= Seq::<Instr>::empty());
    }
    while pos < bytes.len()
        invariant
            pos <= bytes.len(),
            scope_stack.len() == open_brackets(bytes@.take(pos as int)).len(),
            forall|j: int|
                0 <= j < scope_stack.len() ==> (#[trigger] scope_stack[j]).opening_bracket_pos
                    == open_brackets(bytes@.take(pos as int))[j],
            errors@ == closing_errors(bytes@.take(pos as int)),
            errors.len() == 0 ==> partial_render(scope_stack@, current@) == significant(
                bytes@.take(pos as int),
            ),
        decreases bytes.len() - pos,
    {
        let c = bytes[pos];
        let ghost seen = bytes@.take(pos as int);
        let ghost text = partial_render(scope_stack@, current@);
        let ghost scopes = scope_stack@;
        proof {
            assert(bytes@.take(pos + 1).drop_last() =~= seen);
            assert(bytes@.take(pos + 1).last() == c);
        }
        if c == PLUS {
            proof {
                lemma_partial_render_push(scopes, current@, RawInstr::Plus);
            }
            current.push(RawInstr::Plus);
        } else if c == MINUS {
            proof {
                lemma_partial_render_push(scopes, current@, RawInstr::Minus);
            }
            current.push(RawInstr::Minus);
        } else if c == LEFT {
            proof {
                lemma_partial_render_push(scopes, current@, RawInstr::Left);
            }
            current.push(RawInstr::Left);
        } else if c == RIGHT {
            proof {
                lemma_partial_render_push(scopes, current@, RawInstr::Right);
            }
            current.push(RawInstr::Right);
        } else if c == DOT {
            proof {
                lemma_partial_render_push(scopes, current@, RawInstr::Output);
            }
            current.push(RawInstr::Output);
        } else if c == COMMA {
            proof {
                lemma_partial_render_push(scopes, current@, RawInstr::Input);
            }
            current.push(RawInstr::Input);
        } else if c == OPEN {
            scope_stack.push(Scope { opening_bracket_pos: pos, instr_seq: current });
            current = Vec::new();
            proof {
                assert(scope_stack@.drop_last() =~= scopes);
                assert(instrs(current@) =~= Seq::<Instr>::empty());
                assert(partial_render(scope_stack@, current@) =~= text + seq![OPEN]);
            }
        } else if c == CLOSE {
            match scope_stack.pop() {
                Some(scope) => {
                    let ghost inner = current@;
                    let mut outer = scope.instr_seq;
                    proof {
                        lemma_view_loop(current);
                        lemma_partial_render_push(
                            scope_stack@,
                            outer@,
                            RawInstr::BracketLoop(current),
                        );
                        assert(scopes.drop_last() =~= scope_stack@);
                        assert(text == partial_render(scope_stack@, outer@) + seq![OPEN] + render(
                            instrs(inner),
                        ));
                    }
                    outer.push(RawInstr::BracketLoop(current));
                    current = outer;
                    proof {
                        assert(partial_render(scope_stack@, current@) =~= text + seq![CLOSE]);
                    }
                },
                None => {
                    errors.push(ParsingError::UnmatchedClosingBracket { pos });
                },
            }
        }
        pos = pos + 1;
        proof {
            if errors.len() == 0 {
                assert(partial_render(scope_stack@, current@) =~= significant(
                    bytes@.take(pos as int),
                ));
            }
        }
    }
    assert(bytes@.take(pos as int) =~= bytes@);
    let ghost closing = errors@;
    let mut i: usize = 0;
    while i < scope_stack.len()
        invariant
            i <= scope_stack.len(),
            scope_stack.len() == open_brackets(bytes@).len(),
            forall|j: int|
                0 <= j < scope_stack.len() ==> (#[trigger] scope_stack[j]).opening_bracket_pos
                    == open_brackets(bytes@)[j],
            errors@ == closing + opening_errors(bytes@).take(i as int),
        decreases scope_stack.len() - i,
    {
        errors.push(ParsingError::UnmatchedOpeningBracket { pos: scope_stack[i].opening_bracket_pos });
        i = i + 1;
        assert(errors@ =~= closing + opening_errors(bytes@).take(i as int));
    }
    proof {
        assert(opening_errors(bytes@).take(i as int) =~= opening_errors(bytes@));
        assert(closing + opening_errors(bytes@).take(0) =~= closing);
    }
    if errors.len() == 0 {
        Ok(current)
    } else {
        Err(errors)
    }
}

} // verus!
