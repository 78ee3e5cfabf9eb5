//! The grid decoder: from a two-dimensional text of Hangul syllables to a
//! program with one instruction for each cell and each direction in which
//! the cursor can arrive there.

use crate::error::CompileError;
use crate::ir::{instr_views, BinOp, Instr, InstrView, Op, OpView, Origin, Program, ProgramView};
use crate::num::big_from_usize;
use crate::text::{decode_scalar, utf8_decode};
use vstd::prelude::*;

verus! {

/// First code point of the Hangul syllable block.
pub const SYLLABLE_FIRST: u32 = 0xAC00;

/// Last code point of the Hangul syllable block.
pub const SYLLABLE_LAST: u32 = 0xD7A3;

/// Code point of the line feed, which ends a row.
pub const LINE_FEED: u32 = 10;

/// Code point that fills a row shorter than the grid is wide.
pub const BLANK: u32 = 32;

/// Number of directions in which the cursor can arrive at a cell.
pub const DIRECTIONS: usize = 8;

/// The code points of a text, or the offset of the first byte sequence
/// that is no UTF-8 encoding of a scalar value.
pub open spec fn decode_from(s: Seq<u8>, pos: int) -> Result<Seq<u32>, usize>
    decreases s.len() - pos,
{
    if pos < 0 || pos >= s.len() {
        Ok(Seq::empty())
    } else {
        match utf8_decode(s, pos) {
            None => Err(pos as usize),
            Some((v, w)) => if w < 1 {
                Err(pos as usize)
            } else {
                match decode_from(s, pos + w) {
                    Ok(rest) => Ok(seq![v as u32] + rest),
                    Err(e) => Err(e),
                }
            },
        }
    }
}

/// The result of decoding the rest of a text, after the code points `acc`.
pub open spec fn after(acc: Seq<u32>, rest: Result<Seq<u32>, usize>) -> Result<Seq<u32>, usize> {
    match rest {
        Ok(r) => Ok(acc + r),
        Err(e) => Err(e),
    }
}

/// Decodes a UTF-8 text into its code points.
pub fn decode_text(s: &[u8]) -> (r: Result<Vec<u32>, CompileError>)
    ensures
        match r {
            Ok(v) => decode_from(s@, 0) == Ok::<Seq<u32>, usize>(v@),
            Err(e) => decode_from(s@, 0) is Err && e == CompileError::InvalidEncoding(
                decode_from(s@, 0)->Err_0,
            ),
        },
{
    let mut out: Vec<u32> = Vec::new();
    let mut i: usize = 0;
    assert(Seq::<u32>::empty() + decode_from(s@, 0)->Ok_0 =~= decode_from(s@, 0)->Ok_0);
    while i < s.len()
        invariant
            i <= s@.len(),
            decode_from(s@, 0) == after(out@, decode_from(s@, i as int)),
        decreases s@.len() - i,
    {
        match decode_scalar(s, i) {
            None => {
                return Err(CompileError::InvalidEncoding(i));
            },
            Some((v, w)) => {
                proof {
                    let rest = decode_from(s@, i + w);
                    if rest is Ok {
                        assert(out@ + (seq![v] + rest->Ok_0) =~= out@.push(v) + rest->Ok_0);
                    }
                }
                out.push(v);
                i += w;
            },
        }
    }
    assert(out@ + Seq::<u32>::empty() =~= out@);
    Ok(out)
}

/// The rows of a text: a line feed ends a row and begins the next one.
pub open spec fn split_rows(t: Seq<u32>) -> Seq<Seq<u32>>
    decreases t.len(),
{
    if t.len() == 0 {
        seq![Seq::<u32>::empty()]
    } else {
        let rest = split_rows(t.drop_last());
        if t.last() == LINE_FEED {
            rest.push(Seq::<u32>::empty())
        } else {
            rest.update(rest.len() - 1, rest.last().push(t.last()))
        }
    }
}

/// The code points of each row.
pub open spec fn row_views(rows: Seq<Vec<u32>>) -> Seq<Seq<u32>> {
    Seq::new(rows.len(), |i: int| rows[i]@)
}

/// Splits a text into its rows.
pub fn split(t: &[u32]) -> (rows: Vec<Vec<u32>>)
    ensures
        row_views(rows@) == split_rows(t@),
        rows@.len() >= 1,
{
    let mut rows: Vec<Vec<u32>> = Vec::new();
    rows.push(Vec::new());
    let mut i: usize = 0;
    assert(row_views(rows@) =~= split_rows(t@.take(0)));
    while i < t.len()
        invariant
            i <= t@.len(),
            rows@.len() >= 1,
            row_views(rows@) == split_rows(t@.take(i as int)),
        decreases t@.len() - i,
    {
        let c = t[i];
        let ghost before = rows@;
        proof {
            assert(t@.take(i + 1).drop_last() =~= t@.take(i as int));
        }
        if c == LINE_FEED {
            rows.push(Vec::new());
            assert(row_views(rows@) =~= row_views(before).push(Seq::<u32>::empty()));
        } else {
            let last = rows.len() - 1;
            rows[last].push(c);
            assert(row_views(rows@) =~= row_views(before).update(
                last as int,
                row_views(before).last().push(c),
            ));
        }
        i += 1;
    }
    assert(t@.take(t@.len() as int) =~= t@);
    rows
}

/// Length of the longest of the first `n` rows, and at least 1.
pub open spec fn width_upto(rows: Seq<Seq<u32>>, n: int) -> int
    decreases n,
{
    if n <= 0 {
        1
    } else {
        let w = width_upto(rows, n - 1);
        if rows[n - 1].len() > w {
            rows[n - 1].len() as int
        } else {
            w
        }
    }
}

/// Width of the grid: the length of its longest row, and at least 1.
pub open spec fn grid_width(rows: Seq<Seq<u32>>) -> int {
    width_upto(rows, rows.len() as int)
}

/// Executable form of [`grid_width`].
pub fn width_of(rows: &Vec<Vec<u32>>) -> (w: usize)
    ensures
        w == grid_width(row_views(rows@)),
        w >= 1,
{
    let mut w: usize = 1;
    let mut i: usize = 0;
    while i < rows.len()
        invariant
            i <= rows@.len(),
            w == width_upto(row_views(rows@), i as int),
            w >= 1,
        decreases rows@.len() - i,
    {
        if rows[i].len() > w {
            w = rows[i].len();
        }
        i += 1;
    }
    w
}

/// The code point in a cell; rows are padded with blanks.
pub open spec fn cell_at(rows: Seq<Seq<u32>>, r: int, c: int) -> u32 {
    if 0 <= r < rows.len() && 0 <= c < rows[r].len() {
        rows[r][c]
    } else {
        BLANK
    }
}

/// Whether a code point is a Hangul syllable.
pub open spec fn is_syllable(cp: u32) -> bool {
    SYLLABLE_FIRST <= cp <= SYLLABLE_LAST
}

/// Index of the lead consonant of a syllable; 11, which stands for no
/// operation, for any other code point.
pub open spec fn lead_of(cp: u32) -> int {
    if is_syllable(cp) {
        (cp - SYLLABLE_FIRST) / 588
    } else {
        11
    }
}

/// Index of the vowel of a syllable; 1, which keeps the direction, for any
/// other code point.
pub open spec fn vowel_of(cp: u32) -> int {
    if is_syllable(cp) {
        ((cp - SYLLABLE_FIRST) % 588) / 28
    } else {
        1
    }
}

/// Index of the tail consonant of a syllable, 0 when it has none or the
/// code point is no syllable.
pub open spec fn tail_of(cp: u32) -> int {
    if is_syllable(cp) {
        (cp - SYLLABLE_FIRST) % 28
    } else {
        0
    }
}

/// Number of strokes of each tail consonant: the literal that a push
/// instruction with that tail pushes.
pub open spec fn strokes(tail: int) -> int {
    if tail == 0 {
        0
    } else if tail == 1 || tail == 4 || tail == 19 {
        2
    } else if tail == 7 || tail == 22 || tail == 24 || tail == 27 {
        3
    } else if tail == 2 || tail == 3 || tail == 16 || tail == 17 || tail == 20 || tail == 23
        || tail == 25 || tail == 26 {
        4
    } else if tail == 5 || tail == 6 || tail == 8 {
        5
    } else if tail == 18 {
        6
    } else if tail == 9 || tail == 12 {
        7
    } else if tail == 15 {
        8
    } else if tail == 21 {
        1
    } else {
        9
    }
}

/// The direction opposite to `d`. Directions are numbered: right by one
/// and by two, left by one and by two, up by one and by two, down by one
/// and by two.
pub open spec fn reverse(d: int) -> int {
    if d % 4 < 2 {
        d + 2
    } else {
        d - 2
    }
}

/// The direction in which the cursor leaves a cell with the given vowel
/// when it arrived in direction `d`.
pub open spec fn turn(vowel: int, d: int) -> int {
    if vowel == 0 {
        0
    } else if vowel == 2 {
        1
    } else if vowel == 4 {
        2
    } else if vowel == 6 {
        3
    } else if vowel == 8 {
        4
    } else if vowel == 12 {
        5
    } else if vowel == 13 {
        6
    } else if vowel == 17 {
        7
    } else if vowel == 18 {
        if d >= 4 {
            reverse(d)
        } else {
            d
        }
    } else if vowel == 19 {
        reverse(d)
    } else if vowel == 20 {
        if d < 4 {
            reverse(d)
        } else {
            d
        }
    } else {
        d
    }
}

/// Rows that one move in direction `d` adds to the cursor's row.
pub open spec fn row_delta(d: int) -> int {
    if d == 4 {
        -1
    } else if d == 5 {
        -2
    } else if d == 6 {
        1
    } else if d == 7 {
        2
    } else {
        0
    }
}

/// Columns that one move in direction `d` adds to the cursor's column.
pub open spec fn col_delta(d: int) -> int {
    if d == 0 {
        1
    } else if d == 1 {
        2
    } else if d == 2 {
        -1
    } else if d == 3 {
        -2
    } else {
        0
    }
}

/// Index of the instruction for arriving at cell (`r`, `c`) in direction
/// `d`, in a grid `w` cells wide.
pub open spec fn node(w: int, r: int, c: int, d: int) -> int {
    (r * w + c) * 8 + d
}

/// Whether a cell lies in a grid of `h` rows and `w` columns.
pub open spec fn inside(h: int, w: int, r: int, c: int) -> bool {
    0 <= r < h && 0 <= c < w
}

/// The instruction reached by leaving cell (`r`, `c`) in direction `d`.
/// A move that would leave the grid is reflected: the cursor turns round
/// and moves the other way, or stays in place where that leaves the grid
/// too.
pub open spec fn target(h: int, w: int, r: int, c: int, d: int) -> int {
    let e = reverse(d);
    if inside(h, w, r + row_delta(d), c + col_delta(d)) {
        node(w, r + row_delta(d), c + col_delta(d), d)
    } else if inside(h, w, r + row_delta(e), c + col_delta(e)) {
        node(w, r + row_delta(e), c + col_delta(e), e)
    } else {
        node(w, r, c, e)
    }
}

/// The operation of a syllable with the given lead and tail consonants,
/// where `zero` is the instruction a branch passes control to on zero.
pub open spec fn cell_op(lead: int, tail: int, zero: int) -> OpView {
    if lead == 2 {
        OpView::Binary(BinOp::Div)
    } else if lead == 3 {
        OpView::Binary(BinOp::Add)
    } else if lead == 4 {
        OpView::Binary(BinOp::Mul)
    } else if lead == 5 {
        OpView::Binary(BinOp::Mod)
    } else if lead == 6 {
        if tail == 21 {
            OpView::PopNum
        } else if tail == 27 {
            OpView::PopChar
        } else {
            OpView::Pop
        }
    } else if lead == 7 {
        if tail == 21 {
            OpView::PushNum
        } else if tail == 27 {
            OpView::PushChar
        } else {
            OpView::Push(strokes(tail))
        }
    } else if lead == 8 {
        OpView::Dup
    } else if lead == 9 {
        OpView::Select(tail as u8)
    } else if lead == 10 {
        OpView::Move(tail as u8)
    } else if lead == 12 {
        OpView::Binary(BinOp::Cmp)
    } else if lead == 14 {
        OpView::Brz(zero as usize)
    } else if lead == 16 {
        OpView::Binary(BinOp::Sub)
    } else if lead == 17 {
        OpView::Swap
    } else if lead == 18 {
        OpView::Halt
    } else {
        OpView::Nop
    }
}

/// The instruction with index `id` of the program decoded from `rows`.
pub open spec fn node_instr(rows: Seq<Seq<u32>>, id: int) -> InstrView {
    let h = rows.len() as int;
    let w = grid_width(rows);
    let r = id / (w * 8);
    let c = (id / 8) % w;
    let d = id % 8;
    let cp = cell_at(rows, r, c);
    let out = turn(vowel_of(cp), d);
    let op = cell_op(lead_of(cp), tail_of(cp), target(h, w, r, c, reverse(out)));
    InstrView {
        op,
        next: if op is Halt {
            id as usize
        } else {
            target(h, w, r, c, out) as usize
        },
        origin: Some(Origin { row: r as usize, col: c as usize, ch: cp }),
    }
}

/// The program decoded from a grid: eight instructions for each cell, and
/// the entry at the top-left cell, moving right.
pub open spec fn grid_program(rows: Seq<Seq<u32>>) -> ProgramView {
    ProgramView {
        instrs: Seq::new(
            (rows.len() * grid_width(rows) * 8) as nat,
            |id: int| node_instr(rows, id),
        ),
        entry: 0,
    }
}

/// Executable form of [`strokes`].
fn stroke_count(tail: u32) -> (r: usize)
    requires
        tail < 28,
    ensures
        r == strokes(tail as int),
{
    if tail == 0 {
        0
    } else if tail == 1 || tail == 4 || tail == 19 {
        2
    } else if tail == 7 || tail == 22 || tail == 24 || tail == 27 {
        3
    } else if tail == 2 || tail == 3 || tail == 16 || tail == 17 || tail == 20 || tail == 23
        || tail == 25 || tail == 26 {
        4
    } else if tail == 5 || tail == 6 || tail == 8 {
        5
    } else if tail == 18 {
        6
    } else if tail == 9 || tail == 12 {
        7
    } else if tail == 15 {
        8
    } else if tail == 21 {
        1
    } else {
        9
    }
}

/// Executable form of [`reverse`].
fn reversed(d: usize) -> (r: usize)
    requires
        d < 8,
    ensures
        r == reverse(d as int),
        r < 8,
{
    if d % 4 < 2 {
        d + 2
    } else {
        d - 2
    }
}

/// Executable form of [`turn`].
fn turned(vowel: u32, d: usize) -> (r: usize)
    requires
        d < 8,
    ensures
        r == turn(vowel as int, d as int),
        r < 8,
{
    if vowel == 0 {
        0
    } else if vowel == 2 {
        1
    } else if vowel == 4 {
        2
    } else if vowel == 6 {
        3
    } else if vowel == 8 {
        4
    } else if vowel == 12 {
        5
    } else if vowel == 13 {
        6
    } else if vowel == 17 {
        7
    } else if vowel == 18 {
        if d >= 4 {
            reversed(d)
        } else {
            d
        }
    } else if vowel == 19 {
        reversed(d)
    } else if vowel == 20 {
        if d < 4 {
            reversed(d)
        } else {
            d
        }
    } else {
        d
    }
}

/// The instructions of a grid can be indexed: its size fits the machine.
pub open spec fn fits(h: int, w: int) -> bool {
    h * w * 8 <= usize::MAX
}

/// Instruction indices stay below the size of the program.
pub proof fn lemma_node_bound(h: int, w: int, r: int, c: int, d: int)
    requires
        0 <= r < h,
        0 <= c < w,
        0 <= d < 8,
    ensures
        0 <= node(w, r, c, d) < h * w * 8,
        r * w + c < h * w,
{
    assert(r * w + c < h * w && 0 <= r * w) by (nonlinear_arith)
        requires
            0 <= r < h,
            0 <= c < w,
    ;
}

/// The cell and direction of an instruction index.
pub proof fn lemma_node_parts(h: int, w: int, id: int)
    requires
        0 < w,
        0 <= id < h * w * 8,
    ensures
        0 <= id / (w * 8) < h,
        0 <= (id / 8) % w < w,
        0 <= id % 8 < 8,
{
    assert(0 <= id / (w * 8) < h) by (nonlinear_arith)
        requires
            0 < w,
            0 <= id < h * w * 8,
    ;
    assert(0 <= (id / 8) % w < w) by (nonlinear_arith)
        requires
            0 < w,
            0 <= id,
    ;
}

/// The cell one move away in direction `d`, if it lies in the grid.
fn shifted(h: usize, w: usize, r: usize, c: usize, d: usize) -> (p: Option<(usize, usize)>)
    requires
        r < h,
        c < w,
        d < 8,
        fits(h as int, w as int),
    ensures
        match p {
            Some((r2, c2)) => inside(
                h as int,
                w as int,
                r + row_delta(d as int),
                c + col_delta(d as int),
            ) && r2 == r + row_delta(d as int) && c2 == c + col_delta(d as int),
            None => !inside(h as int, w as int, r + row_delta(d as int), c + col_delta(d as int)),
        },
{
    proof {
        lemma_node_bound(h as int, w as int, r as int, c as int, d as int);
        assert(h <= h * w && w <= h * w) by (nonlinear_arith)
            requires
                1 <= h,
                1 <= w,
        ;
    }
    if d == 0 {
        if c + 1 < w {
            Some((r, c + 1))
        } else {
            None
        }
    } else if d == 1 {
        if c + 2 < w {
            Some((r, c + 2))
        } else {
            None
        }
    } else if d == 2 {
        if c >= 1 {
            Some((r, c - 1))
        } else {
            None
        }
    } else if d == 3 {
        if c >= 2 {
            Some((r, c - 2))
        } else {
            None
        }
    } else if d == 4 {
        if r >= 1 {
            Some((r - 1, c))
        } else {
            None
        }
    } else if d == 5 {
        if r >= 2 {
            Some((r - 2, c))
        } else {
            None
        }
    } else if d == 6 {
        if r + 1 < h {
            Some((r + 1, c))
        } else {
            None
        }
    } else {
        if r + 2 < h {
            Some((r + 2, c))
        } else {
            None
        }
    }
}

/// Executable form of [`node`].
fn node_id(h: usize, w: usize, r: usize, c: usize, d: usize) -> (id: usize)
    requires
        r < h,
        c < w,
        d < 8,
        fits(h as int, w as int),
    ensures
        id == node(w as int, r as int, c as int, d as int),
        id < h * w * 8,
{
    proof {
        lemma_node_bound(h as int, w as int, r as int, c as int, d as int);
        assert(0 <= r * w <= h * w) by (nonlinear_arith)
            requires
                0 <= r < h,
                0 <= w,
        ;
    }
    (r * w + c) * 8 + d
}

/// Executable form of [`target`].
fn target_id(h: usize, w: usize, r: usize, c: usize, d: usize) -> (id: usize)
    requires
        r < h,
        c < w,
        d < 8,
        fits(h as int, w as int),
    ensures
        id == target(h as int, w as int, r as int, c as int, d as int),
        id < h * w * 8,
{
    let e = reversed(d);
    match shifted(h, w, r, c, d) {
        Some((r2, c2)) => node_id(h, w, r2, c2, d),
        None => match shifted(h, w, r, c, e) {
            Some((r3, c3)) => node_id(h, w, r3, c3, e),
            None => node_id(h, w, r, c, e),
        },
    }
}

/// Executable form of [`cell_op`].
fn make_op(lead: u32, tail: u32, zero: usize) -> (op: Op)
    requires
        tail < 28,
    ensures
        op@ == cell_op(lead as int, tail as int, zero as int),
{
    if lead == 2 {
        Op::Binary(BinOp::Div)
    } else if lead == 3 {
        Op::Binary(BinOp::Add)
    } else if lead == 4 {
        Op::Binary(BinOp::Mul)
    } else if lead == 5 {
        Op::Binary(BinOp::Mod)
    } else if lead == 6 {
        if tail == 21 {
            Op::PopNum
        } else if tail == 27 {
            Op::PopChar
        } else {
            Op::Pop
        }
    } else if lead == 7 {
        if tail == 21 {
            Op::PushNum
        } else if tail == 27 {
            Op::PushChar
        } else {
            Op::Push(big_from_usize(stroke_count(tail)))
        }
    } else if lead == 8 {
        Op::Dup
    } else if lead == 9 {
        Op::Select(tail as u8)
    } else if lead == 10 {
        Op::Move(tail as u8)
    } else if lead == 12 {
        Op::Binary(BinOp::Cmp)
    } else if lead == 14 {
        Op::Brz(zero)
    } else if lead == 16 {
        Op::Binary(BinOp::Sub)
    } else if lead == 17 {
        Op::Swap
    } else if lead == 18 {
        Op::Halt
    } else {
        Op::Nop
    }
}

/// The lead, vowel and tail indices of a code point.
fn parts(cp: u32) -> (p: (u32, u32, u32))
    ensures
        p.0 == lead_of(cp),
        p.1 == vowel_of(cp),
        p.2 == tail_of(cp),
        p.2 < 28,
{
    if SYLLABLE_FIRST <= cp && cp <= SYLLABLE_LAST {
        let idx: u32 = cp - SYLLABLE_FIRST;
        (idx / 588, (idx % 588) / 28, idx % 28)
    } else {
        (11, 1, 0)
    }
}

/// Builds the instruction with index `id`.
fn make_node(rows: &Vec<Vec<u32>>, h: usize, w: usize, id: usize) -> (ins: Instr)
    requires
        h == rows@.len(),
        w == grid_width(row_views(rows@)),
        fits(h as int, w as int),
        id < h * w * 8,
    ensures
        ins@ == node_instr(row_views(rows@), id as int),
        ins@.valid_at(id as int, h * w * 8),
{
    proof {
        lemma_node_parts(h as int, w as int, id as int);
        assert(w * 8 <= h * w * 8) by (nonlinear_arith)
            requires
                1 <= h,
                0 <= w,
        ;
    }
    let r = id / (w * 8);
    let c = (id / 8) % w;
    let d = id % 8;
    let cp = if c < rows[r].len() {
        rows[r][c]
    } else {
        BLANK
    };
    let (lead, vowel, tail) = parts(cp);
    let out = turned(vowel, d);
    let zero = target_id(h, w, r, c, reversed(out));
    let op = make_op(lead, tail, zero);
    let next = match op {
        Op::Halt => id,
        _ => target_id(h, w, r, c, out),
    };
    Instr { op, next, origin: Some(Origin { row: r, col: c, ch: cp }) }
}

/// Decodes a grid, given as the code points of its text, into a program.
/// The only failure is a grid too large to index.
pub fn decode_grid(t: &[u32]) -> (r: Result<Program, CompileError>)
    ensures
        match r {
            Ok(p) => p.wf() && p@ == grid_program(split_rows(t@)) && fits(
                split_rows(t@).len() as int,
                grid_width(split_rows(t@)),
            ),
            Err(e) => e == CompileError::TooLarge && !fits(
                split_rows(t@).len() as int,
                grid_width(split_rows(t@)),
            ),
        },
{
    let rows = split(t);
    let w = width_of(&rows);
    let h = rows.len();
    let limit: usize = usize::MAX / 8;
    if h > limit / w {
        proof {
            assert(h * w * 8 > usize::MAX) by (nonlinear_arith)
                requires
                    h > limit / w,
                    limit == usize::MAX / 8,
                    w >= 1,
            ;
        }
        return Err(CompileError::TooLarge);
    }
    proof {
        assert(h * w * 8 <= usize::MAX && 0 <= h * w) by (nonlinear_arith)
            requires
                h <= limit / w,
                limit == usize::MAX / 8,
                w >= 1,
                h >= 0,
        ;
    }
    let total: usize = h * w * 8;
    let mut out: Vec<Instr> = Vec::new();
    let mut id: usize = 0;
    while id < total
        invariant
            id <= total,
            total == h * w * 8,
            h == rows@.len(),
            h >= 1,
            w == grid_width(row_views(rows@)),
            fits(h as int, w as int),
            out@.len() == id,
            forall|j: int|
                0 <= j < id ==> (#[trigger] out@[j])@ == node_instr(row_views(rows@), j)
                    && out@[j]@.valid_at(j, total as int),
        decreases total - id,
    {
        out.push(make_node(&rows, h, w, id));
        id += 1;
    }
    proof {
        let g = grid_program(split_rows(t@));
        assert(instr_views(out@) =~= g.instrs);
        assert(total >= 8) by (nonlinear_arith)
            requires
                total == h * w * 8,
                h >= 1,
                w >= 1,
        ;
    }
    Ok(Program::from_valid(out, 0))
}

} // verus!
