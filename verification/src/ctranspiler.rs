//! From a program, raw or optimized, to freestanding C source.
//!
//! The generated program keeps the tape in an array of 30000 bytes named `m`
//! and the head in an unsigned index named `h`. Each instruction or block
//! becomes the statements that do what the interpreter does for it; nothing is
//! optimized further here.

use crate::astraw::{instrs, lemma_instrs_push, lemma_view_loop, Instr, RawInstr};
use crate::astsoup::{
    blocks, deltas, entries, lemma_view_block_loop, lists, mult_loops_valid, Block, SoupInstr,
};
use std::collections::HashMap;
use vstd::prelude::*;
use vstd::string::*;

verus! {

/// One line of output: `text` behind the indentation `indent`, closed by a
/// newline.
pub open spec fn line(indent: Seq<char>, text: Seq<char>) -> Seq<char> {
    indent + text + "\n"@
}

/// The decimal digit `d`.
pub open spec fn digit(d: nat) -> Seq<char>
    recommends
        d < 10,
{
    if d == 0 {
        "0"@
    } else if d == 1 {
        "1"@
    } else if d == 2 {
        "2"@
    } else if d == 3 {
        "3"@
    } else if d == 4 {
        "4"@
    } else if d == 5 {
        "5"@
    } else if d == 6 {
        "6"@
    } else if d == 7 {
        "7"@
    } else if d == 8 {
        "8"@
    } else {
        "9"@
    }
}

/// The decimal digits of `n`, without leading zeros.
pub open spec fn digits(n: nat) -> Seq<char>
    decreases n,
{
    if n < 10 {
        digit(n)
    } else {
        digits(n / 10) + digit(n % 10)
    }
}

/// The integer `v` in decimal, with a minus sign if it is negative.
pub open spec fn decimal(v: int) -> Seq<char> {
    if v < 0 {
        "-"@ + digits((-v) as nat)
    } else {
        digits(v as nat)
    }
}

/// The C expression for the index of the cell `offset` cells from the head.
pub open spec fn cell_index(offset: int) -> Seq<char> {
    if offset == 0 {
        "h"@
    } else {
        "h + "@ + decimal(offset)
    }
}

/// The statement that adds `delta` to the cell at `offset`.
pub open spec fn delta_stmt(offset: int, delta: int) -> Seq<char> {
    "m["@ + cell_index(offset) + "] += "@ + decimal(delta) + ";"@
}

/// The statement that adds `delta` times the head cell to the cell at
/// `offset`.
pub open spec fn mult_stmt(offset: int, delta: int) -> Seq<char> {
    "m["@ + cell_index(offset) + "] += m[h] * "@ + decimal(delta) + ";"@
}

/// The statement that moves the head by `head_delta`.
pub open spec fn head_stmt(head_delta: int) -> Seq<char> {
    "h += "@ + decimal(head_delta) + ";"@
}

/// The lines that open a loop at `indent`.
pub open spec fn loop_open(indent: Seq<char>) -> Seq<char> {
    line(indent, "while (m[h])"@) + line(indent, "{"@)
}

/// The line that closes a loop at `indent`.
pub open spec fn loop_close(indent: Seq<char>) -> Seq<char> {
    line(indent, "}"@)
}

/// What stands before the program's statements.
pub open spec fn header() -> Seq<char> {
    line(Seq::empty(), "#include <stdio.h>"@) + line(Seq::empty(), "int main(void)"@) + line(
        Seq::empty(),
        "{"@,
    ) + line("\t"@, "unsigned char m[30000] = {0};"@) + line("\t"@, "unsigned int h = 0;"@)
}

/// What stands behind the program's statements.
pub open spec fn footer() -> Seq<char> {
    line("\t"@, "return 0;"@) + line(Seq::empty(), "}"@)
}

/// The statement for a raw instruction that is not a loop.
pub open spec fn raw_stmt(x: Instr) -> Seq<char>
    recommends
        !(x is Loop),
{
    match x {
        Instr::Plus => "m[h]++;"@,
        Instr::Minus => "m[h]--;"@,
        Instr::Left => "h--;"@,
        Instr::Right => "h++;"@,
        Instr::Output => "putchar(m[h]);"@,
        _ => "m[h] = getchar();"@,
    }
}

/// The statements for a raw program, one line each, behind `indent`. A loop
/// becomes a `while` over its body, one tab deeper.
pub open spec fn raw_code(p: Seq<Instr>, indent: Seq<char>) -> Seq<char>
    decreases p,
{
    if p.len() == 0 {
        Seq::empty()
    } else {
        raw_code(p.drop_last(), indent) + match p.last() {
            Instr::Loop(body) => loop_open(indent) + raw_code(body, indent + "\t"@)
                + loop_close(indent),
            x => line(indent, raw_stmt(x)),
        }
    }
}

/// `e` lists the entries of `cell_deltas` in ascending order of offset.
pub open spec fn lists_ascending(e: Seq<(int, int)>, cell_deltas: Map<int, int>) -> bool {
    &&& forall|i: int|
        0 <= i < e.len() ==> cell_deltas.contains_key(#[trigger] e[i].0) && cell_deltas[e[i].0]
            == e[i].1
    &&& forall|k: int| #[trigger]
        cell_deltas.contains_key(k) ==> exists|i: int| 0 <= i < e.len() && #[trigger] e[i].0 == k
    &&& forall|i: int, j: int| 0 <= i < j < e.len() ==> #[trigger] e[i].0 < #[trigger] e[j].0
}

/// The entries of `cell_deltas` in ascending order of offset.
pub open spec fn sorted_entries(cell_deltas: Map<int, int>) -> Seq<(int, int)> {
    choose|e: Seq<(int, int)>| lists_ascending(e, cell_deltas)
}

/// One line for each entry of `e`, adding its delta to its cell.
pub open spec fn delta_lines(e: Seq<(int, int)>, indent: Seq<char>) -> Seq<char>
    decreases e.len(),
{
    if e.len() == 0 {
        Seq::empty()
    } else {
        delta_lines(e.drop_last(), indent) + line(indent, delta_stmt(e.last().0, e.last().1))
    }
}

/// One line for each entry of `e` but the one for the cell under the head,
/// adding its delta times the head cell to its cell.
pub open spec fn mult_lines(e: Seq<(int, int)>, indent: Seq<char>) -> Seq<char>
    decreases e.len(),
{
    if e.len() == 0 {
        Seq::empty()
    } else if e.last().0 == 0 {
        mult_lines(e.drop_last(), indent)
    } else {
        mult_lines(e.drop_last(), indent) + line(indent, mult_stmt(e.last().0, e.last().1))
    }
}

/// The statements for a block that holds no other blocks, behind `indent`.
///
/// A batch adds to each of its cells in ascending order of offset and then
/// moves the head, if it moves at all. A multiply loop is straight-line code
/// that ends by clearing the head cell. A fixed or moving loop is a `while`
/// over its batch.
pub open spec fn block_code(b: Block, indent: Seq<char>) -> Seq<char>
    recommends
        !(b is Loop),
{
    match b {
        Block::Batch { cell_deltas, head_delta } => delta_lines(
            sorted_entries(cell_deltas),
            indent,
        ) + if head_delta != 0 {
            line(indent, head_stmt(head_delta))
        } else {
            Seq::empty()
        },
        Block::Output => line(indent, "putchar(m[h]);"@),
        Block::Input => line(indent, "m[h] = getchar();"@),
        Block::MultFixedLoop { cell_deltas } => mult_lines(sorted_entries(cell_deltas), indent)
            + line(indent, "m[h] = 0;"@),
        Block::FixedLoop { cell_deltas } => loop_open(indent) + delta_lines(
            sorted_entries(cell_deltas),
            indent + "\t"@,
        ) + loop_close(indent),
        Block::MovingLoop { cell_deltas, head_delta } => loop_open(indent) + delta_lines(
            sorted_entries(cell_deltas),
            indent + "\t"@,
        ) + line(indent + "\t"@, head_stmt(head_delta)) + loop_close(indent),
        Block::Loop(_) => Seq::empty(),
    }
}

/// The statements for an optimized program, one line each, behind `indent`.
/// A generic loop becomes a `while` over its body, one tab deeper.
pub open spec fn soup_code(p: Seq<Block>, indent: Seq<char>) -> Seq<char>
    decreases p,
{
    if p.len() == 0 {
        Seq::empty()
    } else {
        soup_code(p.drop_last(), indent) + match p.last() {
            Block::Loop(body) => loop_open(indent) + soup_code(body, indent + "\t"@)
                + loop_close(indent),
            b => block_code(b, indent),
        }
    }
}

/// The whole C program for an optimized program.
pub open spec fn soup_program(p: Seq<Block>) -> Seq<char> {
    header() + soup_code(p, "\t"@) + footer()
}

/// A map has at most one listing in ascending order.
pub proof fn lemma_ascending_unique(a: Seq<(int, int)>, b: Seq<(int, int)>, d: Map<int, int>)
    requires
        lists_ascending(a, d),
        lists_ascending(b, d),
    ensures
        a == b,
{
    lemma_ascending_prefix(a, b, d, a.len() as int);
    lemma_ascending_prefix(b, a, d, b.len() as int);
    if a.len() < b.len() {
        let k = b[a.len() as int].0;
        assert(d.contains_key(k));
        let j = choose|j: int| 0 <= j < a.len() && #[trigger] a[j].0 == k;
        assert(b[j].0 == a[j].0);
    }
    if b.len() < a.len() {
        let k = a[b.len() as int].0;
        assert(d.contains_key(k));
        let j = choose|j: int| 0 <= j < b.len() && #[trigger] b[j].0 == k;
        assert(b[j].0 == a[j].0);
    }
    assert(a =~= b);
}

/// Two ascending listings of one map agree as far as both reach.
proof fn lemma_ascending_prefix(a: Seq<(int, int)>, b: Seq<(int, int)>, d: Map<int, int>, n: int)
    requires
        lists_ascending(a, d),
        lists_ascending(b, d),
        0 <= n <= a.len(),
    ensures
        forall|i: int| 0 <= i < n && i < b.len() ==> a[i] == b[i],
    decreases n,
{
    if n > 0 {
        lemma_ascending_prefix(a, b, d, n - 1);
        let i = n - 1;
        if i < b.len() {
            let ka = a[i].0;
            let kb = b[i].0;
            assert(d.contains_key(ka));
            assert(d.contains_key(kb));
            let jb = choose|j: int| 0 <= j < b.len() && #[trigger] b[j].0 == ka;
            let ja = choose|j: int| 0 <= j < a.len() && #[trigger] a[j].0 == kb;
            if jb < i {
                assert(a[jb] == b[jb]);
                assert(a[jb].0 < a[i].0);
            }
            if ja < i {
                assert(a[ja] == b[ja]);
                assert(b[ja].0 < b[i].0);
            }
            if jb > i {
                assert(b[i].0 < b[jb].0);
            }
            if ja > i {
                assert(a[i].0 < a[ja].0);
            }
            assert(ka == kb);
        }
    }
}

/// A machine-integer listing read as a listing over the integers.
pub open spec fn widen(e: Seq<(isize, isize)>) -> Seq<(int, int)> {
    Seq::new(e.len(), |i: int| (e[i].0 as int, e[i].1 as int))
}

/// The whole C program for a raw program.
pub open spec fn raw_program(p: Seq<Instr>) -> Seq<char> {
    header() + raw_code(p, "\t"@) + footer()
}

/// No two entries of `s` share an offset, and the offsets ascend.
spec fn ascending(s: Seq<(isize, isize)>) -> bool {
    forall|p: int, q: int| 0 <= p < q < s.len() ==> (#[trigger] s[p]).0 < (#[trigger] s[q]).0
}

/// Inserting `x` where the offsets before are smaller and those behind are
/// larger keeps a sequence ascending and adds `x` to what it holds.
proof fn lemma_insert_ascending(s: Seq<(isize, isize)>, pos: int, x: (isize, isize))
    requires
        ascending(s),
        0 <= pos <= s.len(),
        forall|p: int| 0 <= p < pos ==> (#[trigger] s[p]).0 < x.0,
        forall|p: int| pos <= p < s.len() ==> x.0 < (#[trigger] s[p]).0,
    ensures
        ascending(s.insert(pos, x)),
        forall|y: (isize, isize)| s.insert(pos, x).contains(y) <==> s.contains(y) || y == x,
{
    let t = s.insert(pos, x);
    assert forall|p: int, q: int| 0 <= p < q < t.len() implies (#[trigger] t[p]).0 < (
    #[trigger] t[q]).0 by {
        let p_before = if p < pos {
            p
        } else {
            p - 1
        };
        let q_before = if q < pos {
            q
        } else {
            q - 1
        };
        if p != pos {
            assert(t[p] == s[p_before]);
        }
        if q != pos {
            assert(t[q] == s[q_before]);
        }
    }
    assert forall|y: (isize, isize)| t.contains(y) <==> s.contains(y) || y == x by {
        if t.contains(y) {
            let p = choose|p: int| 0 <= p < t.len() && t[p] == y;
            if p < pos {
                assert(s[p] == y);
            } else if p > pos {
                assert(s[p - 1] == y);
            }
        }
        if s.contains(y) {
            let p = choose|p: int| 0 <= p < s.len() && s[p] == y;
            if p < pos {
                assert(t[p] == y);
            } else {
                assert(t[p + 1] == y);
            }
        }
        if y == x {
            assert(t[pos] == y);
        }
    }
}

/// One more element of a sequence taken adds that element to what is held.
proof fn lemma_take_contains(e: Seq<(isize, isize)>, i: int, y: (isize, isize))
    requires
        0 <= i < e.len(),
    ensures
        e.take(i + 1).contains(y) <==> e.take(i).contains(y) || y == e[i],
{
    let longer = e.take(i + 1);
    let shorter = e.take(i);
    if longer.contains(y) {
        let j = choose|j: int| 0 <= j < longer.len() && longer[j] == y;
        if j < i {
            assert(shorter[j] == y);
        }
    }
    if shorter.contains(y) {
        let j = choose|j: int| 0 <= j < shorter.len() && shorter[j] == y;
        assert(longer[j] == y);
    }
    if y == e[i] {
        assert(longer[i] == y);
    }
}

/// A sequence that ascends and holds what a listing of `d` holds is the
/// ascending listing of `d`.
proof fn lemma_sorted_listing(sorted: Seq<(isize, isize)>, e: Seq<(isize, isize)>, d: Map<int, int>)
    requires
        lists(e, d),
        ascending(sorted),
        forall|y: (isize, isize)| sorted.contains(y) <==> e.contains(y),
    ensures
        lists_ascending(widen(sorted), d),
        widen(sorted) == sorted_entries(d),
{
    let w = widen(sorted);
    assert forall|p: int| 0 <= p < w.len() implies d.contains_key(#[trigger] w[p].0) && d[w[p].0]
        == w[p].1 by {
        assert(sorted.contains(sorted[p]));
        let j = choose|j: int| 0 <= j < e.len() && e[j] == sorted[p];
        assert(d.contains_key(e[j].0 as int));
    }
    assert forall|k: int| #[trigger] d.contains_key(k) implies exists|p: int|
        0 <= p < w.len() && #[trigger] w[p].0 == k by {
        let j = choose|j: int| 0 <= j < e.len() && #[trigger] e[j].0 == k;
        assert(e.contains(e[j]));
        let p = choose|p: int| 0 <= p < sorted.len() && sorted[p] == e[j];
        assert(w[p].0 == k);
    }
    assert forall|p: int, q: int| 0 <= p < q < w.len() implies #[trigger] w[p].0
        < #[trigger] w[q].0 by {
        assert(sorted[p].0 < sorted[q].0);
    }
    assert(lists_ascending(w, d));
    lemma_ascending_unique(w, sorted_entries(d), d);
}

/// The entries of a delta map in ascending order of offset, so that the
/// generated text does not depend on the order the map hands them out in.
fn sort_cell_deltas(cell_deltas: &HashMap<isize, isize>) -> (sorted: Vec<(isize, isize)>)
    ensures
        lists_ascending(widen(sorted@), deltas(cell_deltas@)),
        widen(sorted@) == sorted_entries(deltas(cell_deltas@)),
{
    let e = entries(cell_deltas);
    let mut sorted: Vec<(isize, isize)> = Vec::new();
    let mut i: usize = 0;
    while i < e.len()
        invariant
            i <= e.len(),
            forall|a: int, b: int| 0 <= a < b < e.len() ==> (#[trigger] e[a]).0 != (#[trigger] e[b]).0,
            ascending(sorted@),
            forall|y: (isize, isize)| sorted@.contains(y) <==> e@.take(i as int).contains(y),
        decreases e.len() - i,
    {
        let x = e[i];
        let mut pos: usize = 0;
        while pos < sorted.len() && sorted[pos].0 < x.0
            invariant
                pos <= sorted.len(),
                forall|p: int| 0 <= p < pos ==> (#[trigger] sorted[p]).0 < x.0,
            decreases sorted.len() - pos,
        {
            pos = pos + 1;
        }
        proof {
            assert forall|q: int| pos <= q < sorted.len() implies x.0 < (#[trigger] sorted[q]).0 by {
                assert(sorted@.contains(sorted[q]));
                let j = choose|j: int| 0 <= j < i && e@.take(i as int)[j] == sorted[q];
                assert(e[j].0 != e[i as int].0);
                if q > pos {
                    assert(sorted[pos as int].0 < sorted[q].0);
                }
            }
            lemma_insert_ascending(sorted@, pos as int, x);
        }
        let ghost shorter = sorted@;
        let ghost seen = e@.take(i as int);
        let ghost grown = e@.take(i + 1);
        sorted.insert(pos, x);
        proof {
            assert forall|y: (isize, isize)| sorted@.contains(y) <==> grown.contains(y) by {
                assert(shorter.insert(pos as int, x).contains(y) <==> shorter.contains(y) || y
                    == x);
                lemma_take_contains(e@, i as int, y);
                assert(shorter.contains(y) <==> seen.contains(y));
            }
        }
        i = i + 1;
    }
    proof {
        assert(e@.take(i as int) =~= e@);
        lemma_sorted_listing(sorted@, e@, deltas(cell_deltas@));
    }
    sorted
}

/// The text of one decimal digit.
fn digit_text(d: u8) -> (t: &'static str)
    requires
        d < 10,
    ensures
        t@ == digit(d as nat),
{
    if d == 0 {
        "0"
    } else if d == 1 {
        "1"
    } else if d == 2 {
        "2"
    } else if d == 3 {
        "3"
    } else if d == 4 {
        "4"
    } else if d == 5 {
        "5"
    } else if d == 6 {
        "6"
    } else if d == 7 {
        "7"
    } else if d == 8 {
        "8"
    } else {
        "9"
    }
}

/// The digits of `ds`, the last one first.
spec fn digits_reversed(ds: Seq<u8>) -> Seq<char>
    decreases ds.len(),
{
    if ds.len() == 0 {
        Seq::empty()
    } else {
        digit(ds.last() as nat) + digits_reversed(ds.drop_last())
    }
}

/// Appends `v` in decimal to `text`.
fn push_decimal(text: &mut String, v: isize)
    ensures
        final(text)@ == old(text)@ + decimal(v as int),
{
    let ghost before = text@;
    if v < 0 {
        text.append("-");
    }
    let ghost signed = text@;
    let magnitude: u128 = if v < 0 {
        (-(v as i128)) as u128
    } else {
        v as u128
    };
    let mut ds: Vec<u8> = Vec::new();
    ds.push((magnitude % 10) as u8);
    let mut rest: u128 = magnitude / 10;
    proof {
        assert(ds@.drop_last() =~= Seq::<u8>::empty());
        assert(digits_reversed(ds@.drop_last()) =~= Seq::<char>::empty());
        assert(ds@.last() == (magnitude % 10) as u8);
        assert(digits_reversed(ds@) =~= digit((magnitude % 10) as nat));
        assert(Seq::<char>::empty() + digits_reversed(ds@) =~= digits_reversed(ds@));
    }
    while rest > 0
        invariant
            ds.len() > 0,
            forall|j: int| 0 <= j < ds.len() ==> ds[j] < 10,
            digits(magnitude as nat) == if rest > 0 {
                digits(rest as nat)
            } else {
                Seq::<char>::empty()
            } + digits_reversed(ds@),
        decreases rest,
    {
        let ghost shorter = ds@;
        ds.push((rest % 10) as u8);
        proof {
            assert(ds@.drop_last() =~= shorter);
            let higher = if rest / 10 > 0 {
                digits((rest / 10) as nat)
            } else {
                Seq::<char>::empty()
            };
            assert(digits(rest as nat) =~= higher + digit((rest % 10) as nat));
            assert(higher + digit((rest % 10) as nat) + digits_reversed(shorter) =~= higher + (
            digit((rest % 10) as nat) + digits_reversed(shorter)));
        }
        rest = rest / 10;
    }
    let mut i = ds.len();
    proof {
        assert(Seq::<char>::empty() + digits_reversed(ds@) =~= digits_reversed(ds@));
        assert(ds@.take(i as int) =~= ds@);
    }
    while i > 0
        invariant
            i <= ds.len(),
            forall|j: int| 0 <= j < ds.len() ==> ds[j] < 10,
            text@ + digits_reversed(ds@.take(i as int)) == signed + digits_reversed(ds@),
        decreases i,
    {
        let ghost sofar = text@;
        i = i - 1;
        text.append(digit_text(ds[i]));
        proof {
            assert(ds@.take(i + 1).drop_last() =~= ds@.take(i as int));
            assert(sofar + (digit(ds[i as int] as nat) + digits_reversed(ds@.take(i as int)))
                =~= sofar + digit(ds[i as int] as nat) + digits_reversed(ds@.take(i as int)));
        }
    }
    proof {
        assert(ds@.take(0) =~= Seq::<u8>::empty());
        assert(text@ + Seq::<char>::empty() =~= text@);
        if v < 0 {
            assert(before + "-"@ + digits(magnitude as nat) =~= before + ("-"@ + digits(
                magnitude as nat,
            )));
        }
    }
}

/// The C expression for the index of the cell `relative_head` cells from the
/// head.
fn h(relative_head: isize) -> (expr: String)
    ensures
        expr@ == cell_index(relative_head as int),
{
    if relative_head == 0 {
        String::from_str("h")
    } else {
        let mut expr = String::from_str("h + ");
        push_decimal(&mut expr, relative_head);
        expr
    }
}

/// The statement that adds to the cell at `offset` the value `delta`, or, if
/// `scaled` is set, `delta` times the head cell.
fn cell_statement(offset: isize, delta: isize, scaled: bool) -> (stmt: String)
    ensures
        stmt@ == if scaled {
            mult_stmt(offset as int, delta as int)
        } else {
            delta_stmt(offset as int, delta as int)
        },
{
    let mut stmt = String::from_str("m[");
    let index = h(offset);
    stmt.append(index.as_str());
    if scaled {
        stmt.append("] += m[h] * ");
    } else {
        stmt.append("] += ");
    }
    push_decimal(&mut stmt, delta);
    stmt.append(";");
    stmt
}

/// The statement that moves the head by `head_delta`.
fn head_statement(head_delta: isize) -> (stmt: String)
    ensures
        stmt@ == head_stmt(head_delta as int),
{
    let mut stmt = String::from_str("h += ");
    push_decimal(&mut stmt, head_delta);
    stmt.append(";");
    stmt
}

/// The text under construction.
struct TranspiledC {
    code: String,
}

impl TranspiledC {
    fn new() -> (t: TranspiledC)
        ensures
            t.code@ == Seq::<char>::empty(),
    {
        TranspiledC { code: String::new() }
    }

    fn emit_line(&mut self, indent: &str, line_content: &str)
        ensures
            final(self).code@ == old(self).code@ + line(indent@, line_content@),
    {
        let ghost before = self.code@;
        self.code.append(indent);
        self.code.append(line_content);
        self.code.append("\n");
        assert(self.code@ =~= before + line(indent@, line_content@));
    }

    fn emit_header(&mut self)
        requires
            old(self).code@.len() == 0,
        ensures
            final(self).code@ == header(),
    {
        let outer = String::new();
        self.emit_line(outer.as_str(), "#include <stdio.h>");
        self.emit_line(outer.as_str(), "int main(void)");
        self.emit_line(outer.as_str(), "{");
        self.emit_line("\t", "unsigned char m[30000] = {0};");
        self.emit_line("\t", "unsigned int h = 0;");
        assert(self.code@ =~= header());
    }

    fn emit_footer(&mut self)
        ensures
            final(self).code@ == old(self).code@ + footer(),
    {
        let ghost before = self.code@;
        let outer = String::new();
        self.emit_line("\t", "return 0;");
        self.emit_line(outer.as_str(), "}");
        assert(self.code@ =~= before + footer());
    }

    /// Opens a loop and returns the indentation of its body.
    fn emit_loop_open(&mut self, indent: &str) -> (deeper: String)
        ensures
            final(self).code@ == old(self).code@ + loop_open(indent@),
            deeper@ == indent@ + "\t"@,
    {
        let ghost before = self.code@;
        self.emit_line(indent, "while (m[h])");
        self.emit_line(indent, "{");
        assert(self.code@ =~= before + loop_open(indent@));
        let mut deeper = String::from_str(indent);
        deeper.append("\t");
        deeper
    }

    fn emit_loop_close(&mut self, indent: &str)
        ensures
            final(self).code@ == old(self).code@ + loop_close(indent@),
    {
        self.emit_line(indent, "}");
    }

    fn emit_raw_instr_seq(&mut self, instr_seq: &Vec<RawInstr>, indent: &str)
        ensures
            final(self).code@ == old(self).code@ + raw_code(instrs(instr_seq@), indent@),
        decreases instr_seq,
    {
        let ghost before = self.code@;
        let mut i: usize = 0;
        proof {
            assert(instrs(instr_seq@.take(0)) =~= Seq::<Instr>::empty());
            assert(before + raw_code(instrs(instr_seq@.take(0)), indent@) =~= before);
        }
        while i < instr_seq.len()
            invariant
                i <= instr_seq.len(),
                self.code@ == before + raw_code(instrs(instr_seq@.take(i as int)), indent@),
            decreases instr_seq.len() - i,
        {
            let ghost sofar = self.code@;
            proof {
                lemma_instrs_push(instr_seq@, i as int);
                assert(instrs(instr_seq@.take(i + 1)).drop_last() =~= instrs(
                    instr_seq@.take(i as int),
                ));
            }
            match &instr_seq[i] {
                RawInstr::Plus => self.emit_line(indent, "m[h]++;"),
                RawInstr::Minus => self.emit_line(indent, "m[h]--;"),
                RawInstr::Left => self.emit_line(indent, "h--;"),
                RawInstr::Right => self.emit_line(indent, "h++;"),
                RawInstr::Output => self.emit_line(indent, "putchar(m[h]);"),
                RawInstr::Input => self.emit_line(indent, "m[h] = getchar();"),
                RawInstr::BracketLoop(body) => {
                    proof {
                        lemma_view_loop(*body);
                        assert(decreases_to!(*instr_seq => instr_seq[i as int]));
                        assert(decreases_to!(instr_seq[i as int] => instr_seq[i as int]->BracketLoop_0));
                    }
                    let deeper = self.emit_loop_open(indent);
                    self.emit_raw_instr_seq(body, deeper.as_str());
                    self.emit_loop_close(indent);
                    assert(self.code@ =~= sofar + (loop_open(indent@) + raw_code(
                        instrs(body@),
                        indent@ + "\t"@,
                    ) + loop_close(indent@)));
                },
            }
            i = i + 1;
            assert(self.code@ =~= before + raw_code(instrs(instr_seq@.take(i as int)), indent@));
        }
        assert(instr_seq@.take(i as int) =~= instr_seq@);
    }

    /// One line per entry, in the order given.
    fn emit_cell_lines(&mut self, sorted: &Vec<(isize, isize)>, scaled: bool, indent: &str)
        ensures
            final(self).code@ == old(self).code@ + if scaled {
                mult_lines(widen(sorted@), indent@)
            } else {
                delta_lines(widen(sorted@), indent@)
            },
    {
        let ghost before = self.code@;
        let mut i: usize = 0;
        proof {
            assert(widen(sorted@.take(0)) =~= Seq::<(int, int)>::empty());
            assert(before + Seq::<char>::empty() =~= before);
        }
        while i < sorted.len()
            invariant
                i <= sorted.len(),
                self.code@ == before + if scaled {
                    mult_lines(widen(sorted@.take(i as int)), indent@)
                } else {
                    delta_lines(widen(sorted@.take(i as int)), indent@)
                },
            decreases sorted.len() - i,
        {
            let (offset, delta) = sorted[i];
            proof {
                assert(widen(sorted@.take(i + 1)).drop_last() =~= widen(sorted@.take(i as int)));
                assert(widen(sorted@.take(i + 1)).last() == (offset as int, delta as int));
            }
            if !(scaled && offset == 0) {
                let stmt = cell_statement(offset, delta, scaled);
                self.emit_line(indent, stmt.as_str());
            }
            i = i + 1;
            proof {
                if scaled {
                    assert(self.code@ =~= before + mult_lines(
                        widen(sorted@.take(i as int)),
                        indent@,
                    ));
                } else {
                    assert(self.code@ =~= before + delta_lines(
                        widen(sorted@.take(i as int)),
                        indent@,
                    ));
                }
            }
        }
        assert(sorted@.take(i as int) =~= sorted@);
    }

    /// The statements for a block that holds no other blocks.
    fn emit_block(&mut self, instr: &SoupInstr, indent: &str)
        requires
            !(instr is Loop),
        ensures
            final(self).code@ == old(self).code@ + block_code(instr@, indent@),
    {
        let ghost sofar = self.code@;
        match instr {
            SoupInstr::Soup { cell_deltas, head_delta } => {
                let sorted = sort_cell_deltas(cell_deltas);
                self.emit_cell_lines(&sorted, false, indent);
                if *head_delta != 0 {
                    let stmt = head_statement(*head_delta);
                    self.emit_line(indent, stmt.as_str());
                }
                assert(self.code@ =~= sofar + block_code(instr@, indent@));
            },
            SoupInstr::Output => self.emit_line(indent, "putchar(m[h]);"),
            SoupInstr::Input => self.emit_line(indent, "m[h] = getchar();"),
            SoupInstr::MultFixedLoop { cell_deltas } => {
                let sorted = sort_cell_deltas(cell_deltas);
                self.emit_cell_lines(&sorted, true, indent);
                self.emit_line(indent, "m[h] = 0;");
                assert(self.code@ =~= sofar + block_code(instr@, indent@));
            },
            SoupInstr::SoupFixedLoop { cell_deltas } => {
                let deeper = self.emit_loop_open(indent);
                let sorted = sort_cell_deltas(cell_deltas);
                self.emit_cell_lines(&sorted, false, deeper.as_str());
                self.emit_loop_close(indent);
                assert(self.code@ =~= sofar + block_code(instr@, indent@));
            },
            SoupInstr::SoupMovingLoop { cell_deltas, head_delta } => {
                let deeper = self.emit_loop_open(indent);
                let sorted = sort_cell_deltas(cell_deltas);
                self.emit_cell_lines(&sorted, false, deeper.as_str());
                let stmt = head_statement(*head_delta);
                self.emit_line(deeper.as_str(), stmt.as_str());
                self.emit_loop_close(indent);
                assert(self.code@ =~= sofar + block_code(instr@, indent@));
            },
            SoupInstr::Loop(_) => {},
        }
    }

    fn emit_soup_instr_seq(&mut self, instr_seq: &Vec<SoupInstr>, indent: &str)
        ensures
            final(self).code@ == old(self).code@ + soup_code(blocks(instr_seq@), indent@),
        decreases instr_seq,
    {
        let ghost before = self.code@;
        let mut i: usize = 0;
        proof {
            assert(blocks(instr_seq@.take(0)) =~= Seq::<Block>::empty());
            assert(before + soup_code(blocks(instr_seq@.take(0)), indent@) =~= before);
        }
        while i < instr_seq.len()
            invariant
                i <= instr_seq.len(),
                self.code@ == before + soup_code(blocks(instr_seq@.take(i as int)), indent@),
            decreases instr_seq.len() - i,
        {
            let ghost sofar = self.code@;
            proof {
                assert(blocks(instr_seq@.take(i + 1)).drop_last() =~= blocks(
                    instr_seq@.take(i as int),
                ));
                assert(blocks(instr_seq@.take(i + 1)).last() == instr_seq[i as int]@);
            }
            match &instr_seq[i] {
                SoupInstr::Loop(body) => {
                    proof {
                        lemma_view_block_loop(*body);
                        assert(decreases_to!(*instr_seq => instr_seq[i as int]));
                        assert(decreases_to!(instr_seq[i as int] => instr_seq[i as int]->Loop_0));
                    }
                    let deeper = self.emit_loop_open(indent);
                    self.emit_soup_instr_seq(body, deeper.as_str());
                    self.emit_loop_close(indent);
                    assert(self.code@ =~= sofar + (loop_open(indent@) + soup_code(
                        blocks(body@),
                        indent@ + "\t"@,
                    ) + loop_close(indent@)));
                },
                flat => {
                    self.emit_block(flat, indent);
                },
            }
            i = i + 1;
            assert(self.code@ =~= before + soup_code(blocks(instr_seq@.take(i as int)), indent@));
        }
        assert(instr_seq@.take(i as int) =~= instr_seq@);
    }
}

/// Writes a raw program as C source.
pub fn transpile_raw_to_c(instr_seq: Vec<RawInstr>) -> (code: String)
    ensures
        code@ == raw_program(instrs(instr_seq@)),
{
    let mut transpiled = TranspiledC::new();
    transpiled.emit_header();
    transpiled.emit_raw_instr_seq(&instr_seq, "\t");
    transpiled.emit_footer();
    transpiled.code
}

/// Writes an optimized program as C source.
///
/// Every multiply loop of the program has to take exactly one from the cell
/// under the head, as every multiply loop the optimizer builds does: the
/// text for such a loop ends by clearing the head cell.
pub fn transpile_soup_to_c(instr_seq: Vec<SoupInstr>) -> (code: String)
    requires
        mult_loops_valid(blocks(instr_seq@)),
    ensures
        code@ == soup_program(blocks(instr_seq@)),
{
    let mut transpiled = TranspiledC::new();
    transpiled.emit_header();
    transpiled.emit_soup_instr_seq(&instr_seq, "\t");
    transpiled.emit_footer();
    transpiled.code
}

} // verus!
