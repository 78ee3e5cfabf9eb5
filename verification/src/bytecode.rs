//! The binary form of a program: a marker, the number of instructions,
//! the entry point, then the instructions. Numbers are written in groups
//! of seven bits, least significant first, so literals of any size fit.

use crate::error::CompileError;
use crate::ir::{instr_views, BinOp, Instr, InstrView, Op, OpView, Program, ProgramView};
use crate::num::{big_add, big_div, big_from_usize, big_lt, big_mul, big_rem, big_sub, big_to_usize, int_of, trunc_div, trunc_rem};
use malachite_bigint::BigInt;
use vstd::prelude::*;

verus! {

/// The four bytes that begin every bytecode.
pub open spec fn marker() -> Seq<u8> {
    seq![255u8, 255u8, 255u8, 255u8]
}

/// A natural number in groups of seven bits, least significant first;
/// every byte but the last has its high bit set.
pub open spec fn varint(n: nat) -> Seq<u8>
    decreases n,
{
    if n < 128 {
        seq![n as u8]
    } else {
        seq![(128 + n % 128) as u8] + varint(n / 128)
    }
}

/// The number written at `pos` and the position after it; `None` when the
/// bytes end before the number does.
pub open spec fn varint_decode(s: Seq<u8>, pos: int) -> Option<(nat, int)>
    decreases s.len() - pos,
{
    if pos < 0 || pos >= s.len() {
        None
    } else if s[pos] < 128 {
        Some((s[pos] as nat, pos + 1))
    } else {
        match varint_decode(s, pos + 1) {
            Some((hi, e)) => Some(((s[pos] - 128 + 128 * hi) as nat, e)),
            None => None,
        }
    }
}

/// The natural number that stands for an integer: even numbers for the
/// non-negative ones, odd numbers for the negative ones.
pub open spec fn zigzag(v: int) -> nat {
    if v >= 0 {
        (2 * v) as nat
    } else {
        (-2 * v - 1) as nat
    }
}

/// The integer that a natural number stands for.
pub open spec fn unzigzag(n: nat) -> int {
    if n % 2 == 0 {
        n as int / 2
    } else {
        -((n as int + 1) / 2)
    }
}

/// The byte that names an operation.
pub open spec fn opcode(op: OpView) -> u8 {
    match op {
        OpView::Binary(BinOp::Div) => 2,
        OpView::Binary(BinOp::Add) => 3,
        OpView::Binary(BinOp::Mul) => 4,
        OpView::Binary(BinOp::Mod) => 5,
        OpView::Pop => 6,
        OpView::Push(_) => 7,
        OpView::Dup => 8,
        OpView::Select(_) => 9,
        OpView::Move(_) => 10,
        OpView::Nop => 11,
        OpView::Binary(BinOp::Cmp) => 12,
        OpView::Brz(_) => 14,
        OpView::Binary(BinOp::Sub) => 16,
        OpView::Swap => 17,
        OpView::Halt => 18,
        OpView::PopNum => 19,
        OpView::PopChar => 20,
        OpView::PushNum => 21,
        OpView::PushChar => 22,
    }
}

/// The operation that a byte names, for the operations without operand.
pub open spec fn plain_op(c: u8) -> Option<OpView> {
    if c == 2 {
        Some(OpView::Binary(BinOp::Div))
    } else if c == 3 {
        Some(OpView::Binary(BinOp::Add))
    } else if c == 4 {
        Some(OpView::Binary(BinOp::Mul))
    } else if c == 5 {
        Some(OpView::Binary(BinOp::Mod))
    } else if c == 6 {
        Some(OpView::Pop)
    } else if c == 8 {
        Some(OpView::Dup)
    } else if c == 11 {
        Some(OpView::Nop)
    } else if c == 12 {
        Some(OpView::Binary(BinOp::Cmp))
    } else if c == 16 {
        Some(OpView::Binary(BinOp::Sub))
    } else if c == 17 {
        Some(OpView::Swap)
    } else if c == 18 {
        Some(OpView::Halt)
    } else if c == 19 {
        Some(OpView::PopNum)
    } else if c == 20 {
        Some(OpView::PopChar)
    } else if c == 21 {
        Some(OpView::PushNum)
    } else if c == 22 {
        Some(OpView::PushChar)
    } else {
        None
    }
}

/// The bytes of an operation's operand.
pub open spec fn operand(op: OpView) -> Seq<u8> {
    match op {
        OpView::Push(v) => varint(zigzag(v)),
        OpView::Select(s) => seq![s],
        OpView::Move(s) => seq![s],
        OpView::Brz(t) => varint(t as nat),
        _ => Seq::empty(),
    }
}

/// The bytes of an instruction: its operation, the operand, and the
/// successor unless the instruction halts.
pub open spec fn enc_instr(ins: InstrView) -> Seq<u8> {
    seq![opcode(ins.op)] + operand(ins.op) + (if ins.op is Halt {
        Seq::<u8>::empty()
    } else {
        varint(ins.next as nat)
    })
}

/// The bytes of the instructions from index `from` on.
pub open spec fn enc_instrs(v: Seq<InstrView>, from: int) -> Seq<u8>
    decreases v.len() - from,
{
    if from < 0 || from >= v.len() {
        Seq::empty()
    } else {
        enc_instr(v[from]) + enc_instrs(v, from + 1)
    }
}

/// The bytecode of a program.
pub open spec fn encode(p: ProgramView) -> Seq<u8> {
    marker() + varint(p.instrs.len()) + varint(p.entry as nat) + enc_instrs(p.instrs, 0)
}

/// The operation written at `pos` and the position after its operand.
pub open spec fn dec_op(s: Seq<u8>, pos: int) -> Option<(OpView, int)> {
    if pos < 0 || pos >= s.len() {
        None
    } else if s[pos] == 7 {
        match varint_decode(s, pos + 1) {
            Some((n, e)) => Some((OpView::Push(unzigzag(n)), e)),
            None => None,
        }
    } else if s[pos] == 9 {
        if pos + 1 < s.len() {
            Some((OpView::Select(s[pos + 1]), pos + 2))
        } else {
            None
        }
    } else if s[pos] == 10 {
        if pos + 1 < s.len() {
            Some((OpView::Move(s[pos + 1]), pos + 2))
        } else {
            None
        }
    } else if s[pos] == 14 {
        match varint_decode(s, pos + 1) {
            Some((n, e)) => if n <= usize::MAX {
                Some((OpView::Brz(n as usize), e))
            } else {
                None
            },
            None => None,
        }
    } else {
        match plain_op(s[pos]) {
            Some(op) => Some((op, pos + 1)),
            None => None,
        }
    }
}

/// The instruction with index `id` written at `pos`, in a program of `n`
/// instructions, and the position after it. `None` when the bytes are cut
/// short, name no operation, or hold a link or a storage id out of range.
pub open spec fn dec_instr(s: Seq<u8>, pos: int, id: int, n: int) -> Option<(InstrView, int)> {
    match dec_op(s, pos) {
        None => None,
        Some((op, e1)) => if op is Halt {
            Some((InstrView { op, next: id as usize, origin: None }, e1))
        } else {
            match varint_decode(s, e1) {
                None => None,
                Some((nx, e2)) => {
                    let ins = InstrView { op, next: nx as usize, origin: None };
                    if nx <= usize::MAX && ins.valid_at(id, n) {
                        Some((ins, e2))
                    } else {
                        None
                    }
                },
            }
        },
    }
}

/// The instructions with indices `id` to `n`, written from `pos` to the
/// end of the bytes.
pub open spec fn dec_instrs(s: Seq<u8>, pos: int, id: int, n: int) -> Option<Seq<InstrView>>
    decreases n - id,
{
    if id >= n {
        if pos == s.len() {
            Some(Seq::empty())
        } else {
            None
        }
    } else {
        match dec_instr(s, pos, id, n) {
            None => None,
            Some((ins, e)) => match dec_instrs(s, e, id + 1, n) {
                None => None,
                Some(rest) => Some(seq![ins] + rest),
            },
        }
    }
}

/// Whether the bytes begin with the marker.
pub open spec fn has_marker(s: Seq<u8>) -> bool {
    s.len() >= 4 && s[0] == 255 && s[1] == 255 && s[2] == 255 && s[3] == 255
}

/// The program written after the marker.
pub open spec fn decode_body(s: Seq<u8>) -> Option<ProgramView> {
    match varint_decode(s, 4) {
        None => None,
        Some((n, e1)) => match varint_decode(s, e1) {
            None => None,
            Some((entry, e2)) => if n > usize::MAX || entry >= n {
                None
            } else {
                match dec_instrs(s, e2, 0, n as int) {
                    None => None,
                    Some(v) => Some(ProgramView { instrs: v, entry: entry as usize }),
                }
            },
        },
    }
}

/// The program that a bytecode holds, or why it holds none.
pub open spec fn decode(s: Seq<u8>) -> Result<ProgramView, CompileError> {
    if !has_marker(s) {
        Err(CompileError::MissingMarker)
    } else {
        match decode_body(s) {
            None => Err(CompileError::Malformed),
            Some(p) => Ok(p),
        }
    }
}

/// A number is read back from where it was written, whatever surrounds it.
pub proof fn lemma_varint_at(pre: Seq<u8>, n: nat, post: Seq<u8>)
    ensures
        varint_decode(pre + varint(n) + post, pre.len() as int) == Some(
            (n, (pre.len() + varint(n).len()) as int),
        ),
    decreases n,
{
    let s = pre + varint(n) + post;
    if n < 128 {
        assert(s[pre.len() as int] == n as u8);
    } else {
        let b0 = (128 + n % 128) as u8;
        let pre2 = pre.push(b0);
        lemma_varint_at(pre2, n / 128, post);
        assert(s =~= pre2 + varint(n / 128) + post);
        assert(s[pre.len() as int] == b0);
    }
}

/// The two number codings are inverse to each other.
pub proof fn lemma_zigzag(v: int)
    ensures
        unzigzag(zigzag(v)) == v,
{
}

/// An instruction is read back from where it was written, without its
/// provenance.
pub proof fn lemma_dec_instr_at(pre: Seq<u8>, ins: InstrView, post: Seq<u8>, id: int, n: int)
    requires
        ins.valid_at(id, n),
    ensures
        dec_instr(pre + enc_instr(ins) + post, pre.len() as int, id, n) == Some(
            (ins.bare(), (pre.len() + enc_instr(ins).len()) as int),
        ),
{
    let s = pre + enc_instr(ins) + post;
    let c = opcode(ins.op);
    let at = pre.len() as int;
    assert(s[at] == c);
    let link = if ins.op is Halt {
        Seq::<u8>::empty()
    } else {
        varint(ins.next as nat)
    };
    let pre1 = pre.push(c);
    let pre2 = pre1 + operand(ins.op);
    assert(s =~= pre1 + operand(ins.op) + (link + post));
    assert(s =~= pre2 + link + post);
    match ins.op {
        OpView::Push(v) => {
            lemma_varint_at(pre1, zigzag(v), link + post);
            lemma_zigzag(v);
        },
        OpView::Brz(t) => {
            lemma_varint_at(pre1, t as nat, link + post);
        },
        OpView::Select(x) => {
            assert(s[at + 1] == x);
        },
        OpView::Move(x) => {
            assert(s[at + 1] == x);
        },
        _ => {
            assert(plain_op(c) == Some(ins.op));
        },
    }
    assert(dec_op(s, at) == Some((ins.op, pre2.len() as int)));
    if !(ins.op is Halt) {
        lemma_varint_at(pre2, ins.next as nat, post);
    }
}

/// The instructions without their provenance.
pub open spec fn bare_instrs(v: Seq<InstrView>) -> Seq<InstrView> {
    v.map_values(|x: InstrView| x.bare())
}

/// A list of instructions is read back from where it was written.
pub proof fn lemma_dec_instrs_at(pre: Seq<u8>, v: Seq<InstrView>, id: int)
    requires
        0 <= id <= v.len(),
        forall|i: int| 0 <= i < v.len() ==> (#[trigger] v[i]).valid_at(i, v.len() as int),
    ensures
        dec_instrs(pre + enc_instrs(v, id), pre.len() as int, id, v.len() as int) == Some(
            bare_instrs(v).subrange(id, v.len() as int),
        ),
    decreases v.len() - id,
{
    let n = v.len() as int;
    let s = pre + enc_instrs(v, id);
    if id >= n {
        assert(s =~= pre);
        assert(bare_instrs(v).subrange(id, n) =~= Seq::<InstrView>::empty());
    } else {
        let rest = enc_instrs(v, id + 1);
        let pre2 = pre + enc_instr(v[id]);
        assert(s =~= pre + enc_instr(v[id]) + rest);
        lemma_dec_instr_at(pre, v[id], rest, id, n);
        lemma_dec_instrs_at(pre2, v, id + 1);
        assert(s =~= pre2 + rest);
        assert(bare_instrs(v).subrange(id, n) =~= seq![v[id].bare()] + bare_instrs(v).subrange(
            id + 1,
            n,
        ));
    }
}

/// Decoding the bytecode of a valid program gives the program back,
/// without its provenance.
pub proof fn lemma_decode_encode(p: ProgramView)
    requires
        p.wf(),
    ensures
        decode(encode(p)) == Ok::<ProgramView, CompileError>(p.bare()),
{
    let n = p.instrs.len();
    let s = encode(p);
    let pre1 = marker() + varint(n);
    let pre2 = pre1 + varint(p.entry as nat);
    lemma_varint_at(marker(), n, varint(p.entry as nat) + enc_instrs(p.instrs, 0));
    assert(s =~= marker() + varint(n) + (varint(p.entry as nat) + enc_instrs(p.instrs, 0)));
    lemma_varint_at(pre1, p.entry as nat, enc_instrs(p.instrs, 0));
    assert(s =~= pre1 + varint(p.entry as nat) + enc_instrs(p.instrs, 0));
    lemma_dec_instrs_at(pre2, p.instrs, 0);
    assert(s =~= pre2 + enc_instrs(p.instrs, 0));
    assert(bare_instrs(p.instrs).subrange(0, n as int) =~= p.bare().instrs);
    assert(has_marker(s));
}

/// Appends a natural number in groups of seven bits.
fn write_varint(v: BigInt, out: &mut Vec<u8>)
    requires
        int_of(v) >= 0,
    ensures
        final(out)@ == old(out)@ + varint(int_of(v) as nat),
{
    let base = big_from_usize(128);
    let mut cur = v;
    while !big_lt(&cur, &base)
        invariant
            int_of(base) == 128,
            int_of(cur) >= 0,
            out@ + varint(int_of(cur) as nat) == old(out)@ + varint(int_of(v) as nat),
        decreases int_of(cur),
    {
        let d = big_rem(&cur, &base);
        let q = big_div(&cur, &base);
        let ghost c = int_of(cur);
        proof {
            vstd::arithmetic::div_mod::lemma_fundamental_div_mod(c, 128);
            assert(trunc_div(c, 128) == c / 128);
            assert(trunc_rem(c, 128) == c % 128);
        }
        let low: u8 = match big_to_usize(&d) {
            Some(x) => (128 + x) as u8,
            None => 128,
        };
        let ghost before = out@;
        out.push(low);
        proof {
            let cn = c as nat;
            assert(before + varint(cn) =~= out@ + varint(cn / 128));
        }
        cur = q;
    }
    let last: u8 = match big_to_usize(&cur) {
        Some(x) => x as u8,
        None => 0,
    };
    out.push(last);
    assert(final(out)@ =~= old(out)@ + varint(int_of(v) as nat));
}

/// Appends a machine integer in groups of seven bits.
fn write_usize(n: usize, out: &mut Vec<u8>)
    ensures
        final(out)@ == old(out)@ + varint(n as nat),
{
    write_varint(big_from_usize(n), out);
}

/// Appends an integer of any sign.
fn write_literal(v: &BigInt, out: &mut Vec<u8>)
    ensures
        final(out)@ == old(out)@ + varint(zigzag(int_of(*v))),
{
    let zero = big_from_usize(0);
    let two = big_from_usize(2);
    let twice = big_mul(v, &two);
    if big_lt(v, &zero) {
        let one = big_from_usize(1);
        let pos = big_sub(&zero, &twice);
        write_varint(big_sub(&pos, &one), out);
    } else {
        write_varint(twice, out);
    }
}

/// Where every byte from `pos` on has its high bit set, no number ends.
proof fn lemma_varint_open(s: Seq<u8>, pos: int)
    requires
        0 <= pos,
        forall|j: int| pos <= j < s.len() ==> #[trigger] s[j] >= 128,
    ensures
        varint_decode(s, pos) is None,
    decreases s.len() - pos,
{
    if pos < s.len() {
        lemma_varint_open(s, pos + 1);
    }
}

/// Reads a natural number written in groups of seven bits.
fn read_varint(s: &[u8], pos: usize) -> (r: Option<(BigInt, usize)>)
    requires
        pos <= s@.len(),
    ensures
        match r {
            Some((v, e)) => varint_decode(s@, pos as int) == Some((int_of(v) as nat, e as int))
                && int_of(v) >= 0 && pos < e <= s@.len(),
            None => varint_decode(s@, pos as int) is None,
        },
{
    let mut e: usize = pos;
    while e < s.len() && s[e] >= 128
        invariant
            pos <= e <= s@.len(),
            forall|j: int| pos <= j < e ==> #[trigger] s@[j] >= 128,
        decreases s@.len() - e,
    {
        e += 1;
    }
    if e >= s.len() {
        proof {
            lemma_varint_open(s@, pos as int);
        }
        return None;
    }
    let base = big_from_usize(128);
    let mut acc = big_from_usize(s[e] as usize);
    let mut i: usize = e;
    while i > pos
        invariant
            pos <= i <= e < s@.len(),
            int_of(base) == 128,
            int_of(acc) >= 0,
            forall|j: int| pos <= j < e ==> #[trigger] s@[j] >= 128,
            varint_decode(s@, i as int) == Some((int_of(acc) as nat, e + 1)),
        decreases i,
    {
        i -= 1;
        let low = big_from_usize((s[i] - 128) as usize);
        let high = big_mul(&acc, &base);
        acc = big_add(&low, &high);
    }
    Some((acc, e + 1))
}

/// Reads a natural number that fits a machine integer.
fn read_usize(s: &[u8], pos: usize) -> (r: Option<(usize, usize)>)
    requires
        pos <= s@.len(),
    ensures
        match r {
            Some((v, e)) => varint_decode(s@, pos as int) == Some((v as nat, e as int)) && pos < e
                <= s@.len(),
            None => match varint_decode(s@, pos as int) {
                Some((v, _)) => v > usize::MAX,
                None => true,
            },
        },
{
    match read_varint(s, pos) {
        None => None,
        Some((v, e)) => match big_to_usize(&v) {
            None => None,
            Some(n) => Some((n, e)),
        },
    }
}

/// The integer that the natural number `n` stands for.
fn from_zigzag(n: &BigInt) -> (r: BigInt)
    requires
        int_of(*n) >= 0,
    ensures
        int_of(r) == unzigzag(int_of(*n) as nat),
{
    let zero = big_from_usize(0);
    let two = big_from_usize(2);
    let rem = big_rem(n, &two);
    proof {
        let c = int_of(*n);
        vstd::arithmetic::div_mod::lemma_fundamental_div_mod(c, 2);
        assert(trunc_div(c, 2) == c / 2);
        assert(trunc_rem(c, 2) == c % 2);
        assert(trunc_div(c + 1, 2) == (c + 1) / 2);
    }
    if big_lt(&zero, &rem) {
        let one = big_from_usize(1);
        let up = big_add(n, &one);
        let half = big_div(&up, &two);
        big_sub(&zero, &half)
    } else {
        big_div(n, &two)
    }
}

/// Executable form of [`plain_op`].
fn plain(c: u8) -> (r: Option<Op>)
    ensures
        match r {
            Some(op) => plain_op(c) == Some(op@),
            None => plain_op(c) is None,
        },
{
    if c == 2 {
        Some(Op::Binary(BinOp::Div))
    } else if c == 3 {
        Some(Op::Binary(BinOp::Add))
    } else if c == 4 {
        Some(Op::Binary(BinOp::Mul))
    } else if c == 5 {
        Some(Op::Binary(BinOp::Mod))
    } else if c == 6 {
        Some(Op::Pop)
    } else if c == 8 {
        Some(Op::Dup)
    } else if c == 11 {
        Some(Op::Nop)
    } else if c == 12 {
        Some(Op::Binary(BinOp::Cmp))
    } else if c == 16 {
        Some(Op::Binary(BinOp::Sub))
    } else if c == 17 {
        Some(Op::Swap)
    } else if c == 18 {
        Some(Op::Halt)
    } else if c == 19 {
        Some(Op::PopNum)
    } else if c == 20 {
        Some(Op::PopChar)
    } else if c == 21 {
        Some(Op::PushNum)
    } else if c == 22 {
        Some(Op::PushChar)
    } else {
        None
    }
}

/// Executable form of [`opcode`].
fn code_of(op: &Op) -> (c: u8)
    ensures
        c == opcode(op@),
{
    match op {
        Op::Binary(BinOp::Div) => 2,
        Op::Binary(BinOp::Add) => 3,
        Op::Binary(BinOp::Mul) => 4,
        Op::Binary(BinOp::Mod) => 5,
        Op::Pop => 6,
        Op::Push(_) => 7,
        Op::Dup => 8,
        Op::Select(_) => 9,
        Op::Move(_) => 10,
        Op::Nop => 11,
        Op::Binary(BinOp::Cmp) => 12,
        Op::Brz(_) => 14,
        Op::Binary(BinOp::Sub) => 16,
        Op::Swap => 17,
        Op::Halt => 18,
        Op::PopNum => 19,
        Op::PopChar => 20,
        Op::PushNum => 21,
        Op::PushChar => 22,
    }
}

/// Reads an operation and its operand.
fn read_op(s: &[u8], pos: usize) -> (r: Option<(Op, usize)>)
    requires
        pos <= s@.len(),
    ensures
        match r {
            Some((op, e)) => dec_op(s@, pos as int) == Some((op@, e as int)) && pos < e <= s@.len(),
            None => dec_op(s@, pos as int) is None,
        },
{
    if pos >= s.len() {
        return None;
    }
    let c = s[pos];
    if c == 7 {
        match read_varint(s, pos + 1) {
            Some((n, e)) => Some((Op::Push(from_zigzag(&n)), e)),
            None => None,
        }
    } else if c == 9 {
        if pos + 1 < s.len() {
            Some((Op::Select(s[pos + 1]), pos + 2))
        } else {
            None
        }
    } else if c == 10 {
        if pos + 1 < s.len() {
            Some((Op::Move(s[pos + 1]), pos + 2))
        } else {
            None
        }
    } else if c == 14 {
        match read_usize(s, pos + 1) {
            Some((n, e)) => Some((Op::Brz(n), e)),
            None => None,
        }
    } else {
        match plain(c) {
            Some(op) => Some((op, pos + 1)),
            None => None,
        }
    }
}

/// Reads the instruction with index `id` of a program of `n` instructions.
fn read_instr(s: &[u8], pos: usize, id: usize, n: usize) -> (r: Option<(Instr, usize)>)
    requires
        pos <= s@.len(),
        id < n,
    ensures
        match r {
            Some((ins, e)) => dec_instr(s@, pos as int, id as int, n as int) == Some(
                (ins@, e as int),
            ) && pos < e <= s@.len() && ins@.valid_at(id as int, n as int),
            None => dec_instr(s@, pos as int, id as int, n as int) is None,
        },
{
    match read_op(s, pos) {
        None => None,
        Some((op, e1)) => {
            if let Op::Halt = op {
                return Some((Instr { op, next: id, origin: None }, e1));
            }
            match read_usize(s, e1) {
                None => None,
                Some((nx, e2)) => {
                    let ins = Instr { op, next: nx, origin: None };
                    if crate::ir::instr_valid_at(&ins, id, n) {
                        Some((ins, e2))
                    } else {
                        None
                    }
                },
            }
        },
    }
}

/// The instructions `acc` followed by the result of decoding the rest.
pub open spec fn joined(acc: Seq<InstrView>, rest: Option<Seq<InstrView>>) -> Option<
    Seq<InstrView>,
> {
    match rest {
        Some(r) => Some(acc + r),
        None => None,
    }
}

/// Renders a program in its binary form.
pub fn emit_bytecode(p: &Program) -> (r: Vec<u8>)
    ensures
        r@ == encode(p@),
{
    let mut out: Vec<u8> = Vec::new();
    out.push(255);
    out.push(255);
    out.push(255);
    out.push(255);
    assert(out@ =~= marker());
    write_usize(p.len(), &mut out);
    write_usize(p.entry(), &mut out);
    let ghost head = out@;
    let n = p.len();
    let mut i: usize = 0;
    while i < n
        invariant
            i <= n,
            n == p@.instrs.len(),
            out@ + enc_instrs(p@.instrs, i as int) == head + enc_instrs(p@.instrs, 0),
        decreases n - i,
    {
        let ins = p.instr(i);
        let ghost before = out@;
        out.push(code_of(&ins.op));
        match &ins.op {
            Op::Push(v) => {
                write_literal(v, &mut out);
            },
            Op::Select(x) => {
                out.push(*x);
            },
            Op::Move(x) => {
                out.push(*x);
            },
            Op::Brz(t) => {
                write_usize(*t, &mut out);
            },
            _ => {},
        }
        match &ins.op {
            Op::Halt => {},
            _ => {
                write_usize(ins.next, &mut out);
            },
        }
        proof {
            assert(out@ =~= before + enc_instr(ins@));
            assert(before + enc_instrs(p@.instrs, i as int) =~= out@ + enc_instrs(
                p@.instrs,
                i + 1,
            ));
        }
        i += 1;
    }
    assert(out@ + enc_instrs(p@.instrs, n as int) =~= out@);
    out
}

/// Reads a program from its binary form. Fails when the marker is absent
/// or the rest is not the encoding of a valid program.
pub fn decode_bytecode(s: &[u8]) -> (r: Result<Program, CompileError>)
    ensures
        match r {
            Ok(p) => decode(s@) == Ok::<ProgramView, CompileError>(p@) && p.wf(),
            Err(e) => decode(s@) == Err::<ProgramView, CompileError>(e),
        },
{
    if !(s.len() >= 4 && s[0] == 255 && s[1] == 255 && s[2] == 255 && s[3] == 255) {
        return Err(CompileError::MissingMarker);
    }
    let (n, e1) = match read_usize(s, 4) {
        None => {
            return Err(CompileError::Malformed);
        },
        Some(x) => x,
    };
    let (entry, e2) = match read_usize(s, e1) {
        None => {
            return Err(CompileError::Malformed);
        },
        Some(x) => x,
    };
    if entry >= n {
        return Err(CompileError::Malformed);
    }
    let mut out: Vec<Instr> = Vec::new();
    let mut pos: usize = e2;
    let mut id: usize = 0;
    proof {
        let d = dec_instrs(s@, e2 as int, 0, n as int);
        if d is Some {
            assert(Seq::<InstrView>::empty() + d->0 =~= d->0);
        }
    }
    while id < n
        invariant
            id <= n,
            pos <= s@.len(),
            out@.len() == id,
            has_marker(s@),
            varint_decode(s@, 4) == Some((n as nat, e1 as int)),
            varint_decode(s@, e1 as int) == Some((entry as nat, e2 as int)),
            entry < n,
            forall|j: int| 0 <= j < id ==> (#[trigger] instr_views(out@)[j]).valid_at(j, n as int),
            dec_instrs(s@, e2 as int, 0, n as int) == joined(
                instr_views(out@),
                dec_instrs(s@, pos as int, id as int, n as int),
            ),
        decreases n - id,
    {
        match read_instr(s, pos, id, n) {
            None => {
                return Err(CompileError::Malformed);
            },
            Some((ins, e)) => {
                proof {
                    let rest = dec_instrs(s@, e as int, id + 1, n as int);
                    if rest is Some {
                        assert(instr_views(out@) + (seq![ins@] + rest->0) =~= instr_views(
                            out@.push(ins),
                        ) + rest->0);
                    }
                    assert(instr_views(out@.push(ins)) =~= instr_views(out@).push(ins@));
                }
                out.push(ins);
                pos = e;
                id += 1;
            },
        }
    }
    if pos != s.len() {
        return Err(CompileError::Malformed);
    }
    assert(instr_views(out@) + Seq::<InstrView>::empty() =~= instr_views(out@));
    Ok(Program::from_valid(out, entry))
}

} // verus!
