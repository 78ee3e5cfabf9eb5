//! The assembly form of a program: one instruction on each line, written
//! as a mnemonic, its operand, and its successor where that is not the
//! next line.

use crate::bytecode::{opcode, plain_op};
use crate::error::CompileError;
use crate::grid::is_syllable;
use crate::ir::{instr_views, BinOp, Instr, InstrView, Op, OpView, Origin, Program, ProgramView, STORAGE_COUNT};
use crate::num::{big_from_usize, big_sub, big_to_usize, int_of};
use crate::text::{all_digits, dec_nat, decimal, digits_value, is_digit, is_space, parse_decimal, read_digits, scan_digits, scan_spaces, skip_spaces, utf8_encode, write_decimal, write_scalar};
use malachite_bigint::BigInt;
use vstd::prelude::*;

verus! {

/// ASCII code of the line feed, which ends a line.
pub const NEWLINE: u8 = 10;

/// ASCII code of the semicolon, which begins a comment.
pub const SEMICOLON: u8 = 59;

/// ASCII code of the space, which separates words.
pub const SPACE: u8 = 32;

/// Code of the mnemonic `JMP`, which stands for `NOP` with a successor.
pub const JUMP: u8 = 23;

/// Code of the word `ENTRY`, which begins the line that names the entry
/// point.
pub const ENTRY: u8 = 24;

/// Code of the word `->`, which precedes a successor.
pub const ARROW: u8 = 25;

/// The words of the assembly language, by code. The operations have the
/// codes that name them in the binary form.
pub open spec fn mnemonic(c: u8) -> Seq<u8> {
    if c == 2 {
        seq![68u8, 73u8, 86u8]
    } else if c == 3 {
        seq![65u8, 68u8, 68u8]
    } else if c == 4 {
        seq![77u8, 85u8, 76u8]
    } else if c == 5 {
        seq![77u8, 79u8, 68u8]
    } else if c == 6 {
        seq![80u8, 79u8, 80u8]
    } else if c == 7 {
        seq![80u8, 85u8, 83u8, 72u8]
    } else if c == 8 {
        seq![68u8, 85u8, 80u8]
    } else if c == 9 {
        seq![83u8, 69u8, 76u8, 69u8, 67u8, 84u8]
    } else if c == 10 {
        seq![77u8, 79u8, 86u8, 69u8]
    } else if c == 11 {
        seq![78u8, 79u8, 80u8]
    } else if c == 12 {
        seq![67u8, 77u8, 80u8]
    } else if c == 14 {
        seq![66u8, 82u8, 90u8]
    } else if c == 16 {
        seq![83u8, 85u8, 66u8]
    } else if c == 17 {
        seq![83u8, 87u8, 65u8, 80u8]
    } else if c == 18 {
        seq![72u8, 65u8, 76u8, 84u8]
    } else if c == 19 {
        seq![80u8, 79u8, 80u8, 78u8, 85u8, 77u8]
    } else if c == 20 {
        seq![80u8, 79u8, 80u8, 67u8, 72u8, 65u8, 82u8]
    } else if c == 21 {
        seq![80u8, 85u8, 83u8, 72u8, 78u8, 85u8, 77u8]
    } else if c == 22 {
        seq![80u8, 85u8, 83u8, 72u8, 67u8, 72u8, 65u8, 82u8]
    } else if c == 23 {
        seq![74u8, 77u8, 80u8]
    } else if c == 24 {
        seq![69u8, 78u8, 84u8, 82u8, 89u8]
    } else if c == 25 {
        seq![45u8, 62u8]
    } else {
        Seq::empty()
    }
}

/// The least code from `c` on whose word is `w`.
pub open spec fn find_code(w: Seq<u8>, c: u8) -> Option<u8>
    decreases 26 - c,
{
    if c >= 26 {
        None
    } else if w.len() > 0 && mnemonic(c) == w {
        Some(c)
    } else {
        find_code(w, (c + 1) as u8)
    }
}

/// The code of a word, if it is a word of the language.
pub open spec fn word_code(w: Seq<u8>) -> Option<u8> {
    find_code(w, 0)
}

/// Whether a byte ends a word.
pub open spec fn is_delim(b: u8) -> bool {
    is_space(b) || b == SEMICOLON
}

/// The first position at or after `pos` that holds the end of a word.
pub open spec fn word_end(s: Seq<u8>, pos: int) -> int
    decreases s.len() - pos,
{
    if 0 <= pos < s.len() && !is_delim(s[pos]) {
        word_end(s, pos + 1)
    } else {
        pos
    }
}

/// [`word_end`] moves forward and stays within the line.
pub proof fn lemma_word_end_bound(s: Seq<u8>, pos: int)
    requires
        0 <= pos <= s.len(),
    ensures
        pos <= word_end(s, pos) <= s.len(),
        pos < s.len() && !is_delim(s[pos]) ==> pos < word_end(s, pos),
    decreases s.len() - pos,
{
    if pos < s.len() && !is_delim(s[pos]) {
        lemma_word_end_bound(s, pos + 1);
    }
}

/// The words of a line from `pos` on: blank space separates them, and a
/// semicolon ends them.
pub open spec fn tokenize(s: Seq<u8>, pos: int) -> Seq<Seq<u8>>
    decreases s.len() - pos,
{
    let a = skip_spaces(s, pos);
    let b = word_end(s, a);
    if pos < 0 || a < pos || a >= s.len() || s[a] == SEMICOLON || b <= a || b > s.len() {
        Seq::empty()
    } else {
        seq![s.subrange(a, b)] + tokenize(s, b)
    }
}

/// The natural number that a word denotes, if it is made of digits.
pub open spec fn nat_token(w: Seq<u8>) -> Option<nat> {
    if w.len() > 0 && all_digits(w) {
        Some(digits_value(w))
    } else {
        None
    }
}

/// Number of operands that follow the word with code `c`.
pub open spec fn arity(c: u8) -> int {
    if c == 7 || c == 9 || c == 10 || c == 14 || c == JUMP {
        1
    } else {
        0
    }
}

/// The operation that the word with code `c` and the operand `arg` denote
/// on line `i`.
pub open spec fn line_op(c: u8, arg: Seq<u8>, i: usize) -> Result<OpView, CompileError> {
    if c == 7 {
        match parse_decimal(arg) {
            Some(v) => Ok(OpView::Push(v)),
            None => Err(CompileError::BadOperand(i)),
        }
    } else if c == 9 || c == 10 {
        match nat_token(arg) {
            None => Err(CompileError::BadOperand(i)),
            Some(v) => if v >= STORAGE_COUNT {
                Err(CompileError::BadStorage(i))
            } else if c == 9 {
                Ok(OpView::Select(v as u8))
            } else {
                Ok(OpView::Move(v as u8))
            },
        }
    } else if c == 14 {
        match nat_token(arg) {
            None => Err(CompileError::BadOperand(i)),
            Some(v) => if v > usize::MAX {
                Err(CompileError::BadTarget(i))
            } else {
                Ok(OpView::Brz(v as usize))
            },
        }
    } else if c == JUMP {
        match nat_token(arg) {
            None => Err(CompileError::BadOperand(i)),
            Some(v) => Ok(OpView::Nop),
        }
    } else {
        match plain_op(c) {
            Some(op) => Ok(op),
            None => Err(CompileError::UnknownMnemonic(i)),
        }
    }
}

/// The successor that the words of line `i` name: the operand of `JMP`,
/// the line itself for `HALT`, the number after `->`, or else the next
/// line.
pub open spec fn line_next(c: u8, toks: Seq<Seq<u8>>, i: usize) -> Result<nat, CompileError> {
    let rest = toks.skip(1 + arity(c));
    if c == JUMP {
        if rest.len() == 0 {
            Ok(nat_token(toks[1])->0)
        } else {
            Err(CompileError::BadOperand(i))
        }
    } else if c == 18 {
        if rest.len() == 0 {
            Ok(i as nat)
        } else {
            Err(CompileError::BadOperand(i))
        }
    } else if rest.len() == 0 {
        Ok((i + 1) as nat)
    } else if rest.len() == 2 && rest[0] == mnemonic(ARROW) {
        match nat_token(rest[1]) {
            Some(v) => Ok(v),
            None => Err(CompileError::BadOperand(i)),
        }
    } else {
        Err(CompileError::BadOperand(i))
    }
}

/// The instruction that the words of line `i` denote in a program of `n`
/// lines.
pub open spec fn parse_tokens(toks: Seq<Seq<u8>>, i: usize, n: usize) -> Result<
    InstrView,
    CompileError,
> {
    if toks.len() == 0 {
        Err(CompileError::UnknownMnemonic(i))
    } else {
        match word_code(toks[0]) {
            None => Err(CompileError::UnknownMnemonic(i)),
            Some(c) => if c >= ENTRY {
                Err(CompileError::UnknownMnemonic(i))
            } else if toks.len() < 1 + arity(c) {
                Err(CompileError::BadOperand(i))
            } else {
                match line_op(c, toks[1], i) {
                    Err(e) => Err(e),
                    Ok(op) => match line_next(c, toks, i) {
                        Err(e) => Err(e),
                        Ok(next) => {
                            let ins = InstrView { op, next: next as usize, origin: None };
                            if next < n && ins.valid_at(i as int, n as int) {
                                Ok(ins)
                            } else {
                                Err(CompileError::BadTarget(i))
                            }
                        },
                    },
                }
            },
        }
    }
}

/// The instruction written on line `i`.
pub open spec fn parse_line(s: Seq<u8>, i: usize, n: usize) -> Result<InstrView, CompileError> {
    parse_tokens(tokenize(s, 0), i, n)
}

/// The instructions written on the lines from index `i` on, or the error
/// of the first line that holds none.
pub open spec fn parse_lines(ls: Seq<Seq<u8>>, i: int) -> Result<Seq<InstrView>, CompileError>
    decreases ls.len() - i,
{
    if i < 0 || i >= ls.len() {
        Ok(Seq::empty())
    } else {
        match parse_line(ls[i], i as usize, ls.len() as usize) {
            Err(e) => Err(e),
            Ok(ins) => match parse_lines(ls, i + 1) {
                Err(e) => Err(e),
                Ok(rest) => Ok(seq![ins] + rest),
            },
        }
    }
}

/// The lines of a text: a line feed ends a line and begins the next one.
pub open spec fn split_lines(t: Seq<u8>) -> Seq<Seq<u8>>
    decreases t.len(),
{
    if t.len() == 0 {
        seq![Seq::<u8>::empty()]
    } else {
        let rest = split_lines(t.drop_last());
        if t.last() == NEWLINE {
            rest.push(Seq::<u8>::empty())
        } else {
            rest.update(rest.len() - 1, rest.last().push(t.last()))
        }
    }
}

/// The lines that hold the program: those of the text, without the empty
/// remainder after the last line feed.
pub open spec fn source_lines(t: Seq<u8>) -> Seq<Seq<u8>> {
    let ls = split_lines(t);
    if ls.len() > 0 && ls.last().len() == 0 {
        ls.drop_last()
    } else {
        ls
    }
}

/// The entry point that a line names, if it is an `ENTRY` line.
pub open spec fn header(line: Seq<u8>) -> Option<nat> {
    let toks = tokenize(line, 0);
    if toks.len() == 2 && toks[0] == mnemonic(ENTRY) {
        nat_token(toks[1])
    } else {
        None
    }
}

/// The program that the lines `ls` hold, with the given entry point.
pub open spec fn parse_body(ls: Seq<Seq<u8>>, entry: nat) -> Result<ProgramView, CompileError> {
    if ls.len() == 0 {
        Err(CompileError::Empty)
    } else if ls.len() > usize::MAX {
        Err(CompileError::TooLarge)
    } else {
        match parse_lines(ls, 0) {
            Err(e) => Err(e),
            Ok(v) => if entry >= ls.len() {
                Err(CompileError::BadTarget(0))
            } else {
                Ok(ProgramView { instrs: v, entry: entry as usize })
            },
        }
    }
}

/// The program that an assembly text holds, or why it holds none. An
/// `ENTRY` line may come first; without it the first instruction is the
/// entry point.
pub open spec fn parse(t: Seq<u8>) -> Result<ProgramView, CompileError> {
    let ls = source_lines(t);
    if ls.len() > 0 && header(ls[0]) is Some {
        parse_body(ls.skip(1), header(ls[0])->0)
    } else {
        parse_body(ls, 0)
    }
}

/// The words that follow the mnemonic: the operand.
pub open spec fn operand_text(op: OpView) -> Seq<u8> {
    match op {
        OpView::Push(v) => seq![SPACE] + decimal(v),
        OpView::Select(s) => seq![SPACE] + dec_nat(s as nat),
        OpView::Move(s) => seq![SPACE] + dec_nat(s as nat),
        OpView::Brz(t) => seq![SPACE] + dec_nat(t as nat),
        _ => Seq::empty(),
    }
}

/// The instruction at index `i` as text, without comment or line feed.
pub open spec fn instr_text(ins: InstrView, i: int) -> Seq<u8> {
    if ins.op is Halt || ins.next == i + 1 {
        mnemonic(opcode(ins.op)) + operand_text(ins.op)
    } else if ins.op is Nop {
        mnemonic(JUMP) + seq![SPACE] + dec_nat(ins.next as nat)
    } else {
        mnemonic(opcode(ins.op)) + operand_text(ins.op) + seq![SPACE] + mnemonic(ARROW) + seq![
            SPACE,
        ] + dec_nat(ins.next as nat)
    }
}

/// The comment that tells where an instruction came from: row and column,
/// and the character when it is a Hangul syllable.
pub open spec fn comment_text(o: Option<Origin>) -> Seq<u8> {
    match o {
        None => Seq::empty(),
        Some(o) => seq![SPACE, SEMICOLON, SPACE] + dec_nat(o.row as nat) + seq![58u8] + dec_nat(
            o.col as nat,
        ) + (if is_syllable(o.ch) {
            seq![SPACE] + utf8_encode(o.ch as int)
        } else {
            Seq::<u8>::empty()
        }),
    }
}

/// One line of assembly, with its line feed.
pub open spec fn line_text(ins: InstrView, i: int, commented: bool) -> Seq<u8> {
    instr_text(ins, i) + (if commented {
        comment_text(ins.origin)
    } else {
        Seq::<u8>::empty()
    }) + seq![NEWLINE]
}

/// The lines of the instructions from index `from` on.
pub open spec fn lines_text(v: Seq<InstrView>, from: int, commented: bool) -> Seq<u8>
    decreases v.len() - from,
{
    if from < 0 || from >= v.len() {
        Seq::empty()
    } else {
        line_text(v[from], from, commented) + lines_text(v, from + 1, commented)
    }
}

/// The line that names the entry point; empty when the entry point is the
/// first instruction.
pub open spec fn header_text(entry: usize) -> Seq<u8> {
    if entry == 0 {
        Seq::empty()
    } else {
        mnemonic(ENTRY) + seq![SPACE] + dec_nat(entry as nat) + seq![NEWLINE]
    }
}

/// The assembly text of a program.
pub open spec fn asm_text(p: ProgramView, commented: bool) -> Seq<u8> {
    header_text(p.entry) + lines_text(p.instrs, 0, commented)
}

/// The bytes of each of a sequence of byte vectors.
pub open spec fn byte_rows(v: Seq<Vec<u8>>) -> Seq<Seq<u8>> {
    Seq::new(v.len(), |i: int| v[i]@)
}

/// Executable form of [`mnemonic`].
fn word(c: u8) -> (r: Vec<u8>)
    ensures
        r@ == mnemonic(c),
{
    let r = if c == 2 {
        vec![68u8, 73u8, 86u8]
    } else if c == 3 {
        vec![65u8, 68u8, 68u8]
    } else if c == 4 {
        vec![77u8, 85u8, 76u8]
    } else if c == 5 {
        vec![77u8, 79u8, 68u8]
    } else if c == 6 {
        vec![80u8, 79u8, 80u8]
    } else if c == 7 {
        vec![80u8, 85u8, 83u8, 72u8]
    } else if c == 8 {
        vec![68u8, 85u8, 80u8]
    } else if c == 9 {
        vec![83u8, 69u8, 76u8, 69u8, 67u8, 84u8]
    } else if c == 10 {
        vec![77u8, 79u8, 86u8, 69u8]
    } else if c == 11 {
        vec![78u8, 79u8, 80u8]
    } else if c == 12 {
        vec![67u8, 77u8, 80u8]
    } else if c == 14 {
        vec![66u8, 82u8, 90u8]
    } else if c == 16 {
        vec![83u8, 85u8, 66u8]
    } else if c == 17 {
        vec![83u8, 87u8, 65u8, 80u8]
    } else if c == 18 {
        vec![72u8, 65u8, 76u8, 84u8]
    } else if c == 19 {
        vec![80u8, 79u8, 80u8, 78u8, 85u8, 77u8]
    } else if c == 20 {
        vec![80u8, 79u8, 80u8, 67u8, 72u8, 65u8, 82u8]
    } else if c == 21 {
        vec![80u8, 85u8, 83u8, 72u8, 78u8, 85u8, 77u8]
    } else if c == 22 {
        vec![80u8, 85u8, 83u8, 72u8, 67u8, 72u8, 65u8, 82u8]
    } else if c == 23 {
        vec![74u8, 77u8, 80u8]
    } else if c == 24 {
        vec![69u8, 78u8, 84u8, 82u8, 89u8]
    } else if c == 25 {
        vec![45u8, 62u8]
    } else {
        Vec::new()
    };
    assert(r@ =~= mnemonic(c));
    r
}

/// Appends the word with code `c`.
fn write_word(c: u8, out: &mut Vec<u8>)
    ensures
        final(out)@ == old(out)@ + mnemonic(c),
{
    let mut w = word(c);
    out.append(&mut w);
}

/// Appends a natural number in decimal.
fn write_nat(n: usize, out: &mut Vec<u8>)
    ensures
        final(out)@ == old(out)@ + dec_nat(n as nat),
{
    let v = big_from_usize(n);
    write_decimal(&v, out);
}

/// Executable form of [`opcode`].
fn code_of(op: &Op) -> (c: u8)
    ensures
        c == opcode(op@),
{
    match op {
        Op::Binary(BinOp::Div) => 2,
        Op::Binary(BinOp::Add) => 3,
        Op::Binary(BinOp::Mul) => 4,
        Op::Binary(BinOp::Mod) => 5,
        Op::Pop => 6,
        Op::Push(_) => 7,
        Op::Dup => 8,
        Op::Select(_) => 9,
        Op::Move(_) => 10,
        Op::Nop => 11,
        Op::Binary(BinOp::Cmp) => 12,
        Op::Brz(_) => 14,
        Op::Binary(BinOp::Sub) => 16,
        Op::Swap => 17,
        Op::Halt => 18,
        Op::PopNum => 19,
        Op::PopChar => 20,
        Op::PushNum => 21,
        Op::PushChar => 22,
    }
}

/// Appends the mnemonic and the operand of an operation.
fn write_op(op: &Op, out: &mut Vec<u8>)
    ensures
        final(out)@ == old(out)@ + (mnemonic(opcode(op@)) + operand_text(op@)),
{
    write_word(code_of(op), out);
    match op {
        Op::Push(v) => {
            out.push(SPACE);
            write_decimal(v, out);
        },
        Op::Select(x) => {
            out.push(SPACE);
            write_nat(*x as usize, out);
        },
        Op::Move(x) => {
            out.push(SPACE);
            write_nat(*x as usize, out);
        },
        Op::Brz(t) => {
            out.push(SPACE);
            write_nat(*t, out);
        },
        _ => {},
    }
    assert(final(out)@ =~= old(out)@ + (mnemonic(opcode(op@)) + operand_text(op@)));
}

/// Appends the comment that tells where an instruction came from.
fn write_comment(o: &Option<Origin>, out: &mut Vec<u8>)
    ensures
        final(out)@ == old(out)@ + comment_text(*o),
{
    match o {
        None => {
            assert(final(out)@ =~= old(out)@ + comment_text(*o));
        },
        Some(o) => {
            out.push(SPACE);
            out.push(SEMICOLON);
            out.push(SPACE);
            write_nat(o.row, out);
            out.push(58);
            write_nat(o.col, out);
            if 0xAC00 <= o.ch && o.ch <= 0xD7A3 {
                out.push(SPACE);
                write_scalar(o.ch, out);
            }
            assert(final(out)@ =~= old(out)@ + comment_text(Some(*o)));
        },
    }
}

/// Appends the line of the instruction at index `i`.
fn write_line(ins: &Instr, i: usize, commented: bool, out: &mut Vec<u8>)
    requires
        i < usize::MAX,
    ensures
        final(out)@ == old(out)@ + line_text(ins@, i as int, commented),
{
    let halts = match &ins.op {
        Op::Halt => true,
        _ => false,
    };
    let nop = match &ins.op {
        Op::Nop => true,
        _ => false,
    };
    let ghost before = out@;
    if halts || ins.next == i + 1 {
        write_op(&ins.op, out);
    } else if nop {
        write_word(JUMP, out);
        out.push(SPACE);
        write_nat(ins.next, out);
    } else {
        write_op(&ins.op, out);
        out.push(SPACE);
        write_word(ARROW, out);
        out.push(SPACE);
        write_nat(ins.next, out);
    }
    assert(out@ =~= before + instr_text(ins@, i as int));
    if commented {
        write_comment(&ins.origin, out);
    }
    out.push(NEWLINE);
    assert(final(out)@ =~= old(out)@ + line_text(ins@, i as int, commented));
}

/// Renders a program as assembly text. With `commented`, each line ends
/// with the grid position and character its instruction came from, where
/// the program has kept them.
pub fn emit_assembly(p: &Program, commented: bool) -> (r: Vec<u8>)
    ensures
        r@ == asm_text(p@, commented),
{
    let mut out: Vec<u8> = Vec::new();
    let entry = p.entry();
    if entry != 0 {
        write_word(ENTRY, &mut out);
        out.push(SPACE);
        write_nat(entry, &mut out);
        out.push(NEWLINE);
    }
    assert(out@ =~= header_text(entry));
    let n = p.len();
    let mut i: usize = 0;
    while i < n
        invariant
            i <= n,
            n == p@.instrs.len(),
            out@ + lines_text(p@.instrs, i as int, commented) == asm_text(p@, commented),
        decreases n - i,
    {
        let ghost before = out@;
        write_line(p.instr(i), i, commented, &mut out);
        proof {
            assert(before + lines_text(p@.instrs, i as int, commented) =~= out@ + lines_text(
                p@.instrs,
                i + 1,
                commented,
            ));
        }
        i += 1;
    }
    assert(out@ + lines_text(p@.instrs, n as int, commented) =~= out@);
    out
}

/// Splits a text into its lines.
fn split(t: &[u8]) -> (rows: Vec<Vec<u8>>)
    ensures
        byte_rows(rows@) == split_lines(t@),
        rows@.len() >= 1,
{
    let mut rows: Vec<Vec<u8>> = Vec::new();
    rows.push(Vec::new());
    let mut i: usize = 0;
    assert(byte_rows(rows@) =~= split_lines(t@.take(0)));
    while i < t.len()
        invariant
            i <= t@.len(),
            rows@.len() >= 1,
            byte_rows(rows@) == split_lines(t@.take(i as int)),
        decreases t@.len() - i,
    {
        let c = t[i];
        let ghost before = rows@;
        proof {
            assert(t@.take(i + 1).drop_last() =~= t@.take(i as int));
        }
        if c == NEWLINE {
            rows.push(Vec::new());
            assert(byte_rows(rows@) =~= byte_rows(before).push(Seq::<u8>::empty()));
        } else {
            let last = rows.len() - 1;
            rows[last].push(c);
            assert(byte_rows(rows@) =~= byte_rows(before).update(
                last as int,
                byte_rows(before).last().push(c),
            ));
        }
        i += 1;
    }
    assert(t@.take(t@.len() as int) =~= t@);
    rows
}

/// Executable form of [`word_end`].
fn scan_word(s: &[u8], pos: usize) -> (r: usize)
    requires
        pos <= s@.len(),
    ensures
        r == word_end(s@, pos as int),
        pos <= r <= s@.len(),
{
    let mut i: usize = pos;
    while i < s.len() && !(s[i] == 32 || s[i] == 9 || s[i] == 10 || s[i] == 13 || s[i] == 59)
        invariant
            pos <= i <= s@.len(),
            word_end(s@, pos as int) == word_end(s@, i as int),
        decreases s@.len() - i,
    {
        i += 1;
    }
    i
}

/// A copy of the bytes `s[a..b]`.
fn slice_of(s: &[u8], a: usize, b: usize) -> (r: Vec<u8>)
    requires
        a <= b <= s@.len(),
    ensures
        r@ == s@.subrange(a as int, b as int),
{
    let mut r: Vec<u8> = Vec::new();
    let mut i: usize = a;
    while i < b
        invariant
            a <= i <= b <= s@.len(),
            r@ == s@.subrange(a as int, i as int),
        decreases b - i,
    {
        r.push(s[i]);
        assert(r@ =~= s@.subrange(a as int, i + 1));
        i += 1;
    }
    r
}

/// Executable form of [`tokenize`].
fn tokens_of(s: &[u8]) -> (r: Vec<Vec<u8>>)
    ensures
        byte_rows(r@) == tokenize(s@, 0),
{
    let mut out: Vec<Vec<u8>> = Vec::new();
    let mut pos: usize = 0;
    assert(byte_rows(out@) + tokenize(s@, 0) =~= tokenize(s@, 0));
    loop
        invariant
            pos <= s@.len(),
            byte_rows(out@) + tokenize(s@, pos as int) == tokenize(s@, 0),
        decreases s@.len() - pos,
    {
        let a = scan_spaces(s, pos);
        if a >= s.len() || s[a] == SEMICOLON {
            assert(byte_rows(out@) + Seq::<Seq<u8>>::empty() =~= byte_rows(out@));
            return out;
        }
        let b = scan_word(s, a);
        proof {
            lemma_skip_stop(s@, pos as int);
            lemma_word_end_bound(s@, a as int);
        }
        let w = slice_of(s, a, b);
        let ghost before = out@;
        out.push(w);
        proof {
            assert(byte_rows(out@) =~= byte_rows(before).push(w@));
            assert(byte_rows(before) + (seq![w@] + tokenize(s@, b as int)) =~= byte_rows(out@)
                + tokenize(s@, b as int));
        }
        pos = b;
    }
}

/// Where [`skip_spaces`] stops before the end, no blank space stands.
pub proof fn lemma_skip_stop(s: Seq<u8>, pos: int)
    requires
        0 <= pos <= s.len(),
    ensures
        pos <= skip_spaces(s, pos) <= s.len(),
        skip_spaces(s, pos) < s.len() ==> !is_space(s[skip_spaces(s, pos)]),
    decreases s.len() - pos,
{
    if pos < s.len() && is_space(s[pos]) {
        lemma_skip_stop(s, pos + 1);
    }
}

/// Whether two byte strings are equal.
fn same(a: &[u8], b: &[u8]) -> (r: bool)
    ensures
        r == (a@ == b@),
{
    if a.len() != b.len() {
        return false;
    }
    let mut i: usize = 0;
    while i < a.len()
        invariant
            i <= a@.len(),
            a@.len() == b@.len(),
            forall|j: int| 0 <= j < i ==> a@[j] == b@[j],
        decreases a@.len() - i,
    {
        if a[i] != b[i] {
            return false;
        }
        i += 1;
    }
    assert(a@ =~= b@);
    true
}

/// Executable form of [`word_code`].
fn code_of_word(w: &[u8]) -> (r: Option<u8>)
    ensures
        r == word_code(w@),
{
    if w.len() == 0 {
        proof {
            lemma_find_none(w@, 0);
        }
        return None;
    }
    let mut c: u8 = 0;
    while c < 26
        invariant
            c <= 26,
            w@.len() > 0,
            word_code(w@) == find_code(w@, c),
        decreases 26 - c,
    {
        let m = word(c);
        if same(w, m.as_slice()) {
            return Some(c);
        }
        c += 1;
    }
    None
}

/// The empty word has no code.
proof fn lemma_find_none(w: Seq<u8>, c: u8)
    requires
        w.len() == 0,
    ensures
        find_code(w, c) is None,
    decreases 26 - c,
{
    if c < 26 {
        lemma_find_none(w, (c + 1) as u8);
    }
}

/// Executable form of [`nat_token`].
fn parse_nat(w: &[u8]) -> (r: Option<BigInt>)
    ensures
        match r {
            Some(v) => nat_token(w@) == Some(int_of(v) as nat) && int_of(v) >= 0,
            None => nat_token(w@) is None,
        },
{
    if w.len() == 0 {
        return None;
    }
    let e = scan_digits(w, 0);
    if e != w.len() {
        proof {
            lemma_digits_stop(w@, 0);
            if all_digits(w@) {
                assert(is_digit(w@[e as int]));
            }
        }
        return None;
    }
    assert(w@.subrange(0, w@.len() as int) =~= w@);
    Some(read_digits(w, 0, e))
}

/// Where [`crate::text::digits_end`] stops before the end, no digit stands.
proof fn lemma_digits_stop(s: Seq<u8>, pos: int)
    requires
        0 <= pos <= s.len(),
    ensures
        crate::text::digits_end(s, pos) < s.len() ==> !is_digit(
            s[crate::text::digits_end(s, pos)],
        ),
        pos <= crate::text::digits_end(s, pos) <= s.len(),
    decreases s.len() - pos,
{
    if pos < s.len() && is_digit(s[pos]) {
        lemma_digits_stop(s, pos + 1);
    }
}

/// Executable form of [`parse_decimal`].
fn parse_int(w: &[u8]) -> (r: Option<BigInt>)
    ensures
        match r {
            Some(v) => parse_decimal(w@) == Some(int_of(v)),
            None => parse_decimal(w@) is None,
        },
{
    if w.len() > 0 && w[0] == 45 {
        let d = slice_of(w, 1, w.len());
        assert(d@ =~= w@.drop_first());
        match parse_nat(d.as_slice()) {
            None => None,
            Some(m) => {
                let zero = big_from_usize(0);
                Some(big_sub(&zero, &m))
            },
        }
    } else {
        parse_nat(w)
    }
}

/// Executable form of [`arity`].
fn arity_of(c: u8) -> (k: usize)
    ensures
        k == arity(c),
{
    if c == 7 || c == 9 || c == 10 || c == 14 || c == JUMP {
        1
    } else {
        0
    }
}

/// Executable form of [`plain_op`].
fn plain(c: u8) -> (r: Option<Op>)
    ensures
        match r {
            Some(op) => plain_op(c) == Some(op@),
            None => plain_op(c) is None,
        },
{
    if c == 2 {
        Some(Op::Binary(BinOp::Div))
    } else if c == 3 {
        Some(Op::Binary(BinOp::Add))
    } else if c == 4 {
        Some(Op::Binary(BinOp::Mul))
    } else if c == 5 {
        Some(Op::Binary(BinOp::Mod))
    } else if c == 6 {
        Some(Op::Pop)
    } else if c == 8 {
        Some(Op::Dup)
    } else if c == 11 {
        Some(Op::Nop)
    } else if c == 12 {
        Some(Op::Binary(BinOp::Cmp))
    } else if c == 16 {
        Some(Op::Binary(BinOp::Sub))
    } else if c == 17 {
        Some(Op::Swap)
    } else if c == 18 {
        Some(Op::Halt)
    } else if c == 19 {
        Some(Op::PopNum)
    } else if c == 20 {
        Some(Op::PopChar)
    } else if c == 21 {
        Some(Op::PushNum)
    } else if c == 22 {
        Some(Op::PushChar)
    } else {
        None
    }
}

/// Executable form of [`line_op`].
fn op_of(c: u8, toks: &Vec<Vec<u8>>, i: usize) -> (r: Result<Op, CompileError>)
    requires
        toks@.len() >= 1 + arity(c),
    ensures
        match r {
            Ok(op) => line_op(c, byte_rows(toks@)[1], i) == Ok::<OpView, CompileError>(op@),
            Err(e) => line_op(c, byte_rows(toks@)[1], i) == Err::<OpView, CompileError>(e),
        },
{
    if c == 7 {
        match parse_int(toks[1].as_slice()) {
            Some(v) => Ok(Op::Push(v)),
            None => Err(CompileError::BadOperand(i)),
        }
    } else if c == 9 || c == 10 {
        match parse_nat(toks[1].as_slice()) {
            None => Err(CompileError::BadOperand(i)),
            Some(v) => match big_to_usize(&v) {
                None => Err(CompileError::BadStorage(i)),
                Some(x) => if x >= STORAGE_COUNT as usize {
                    Err(CompileError::BadStorage(i))
                } else if c == 9 {
                    Ok(Op::Select(x as u8))
                } else {
                    Ok(Op::Move(x as u8))
                },
            },
        }
    } else if c == 14 {
        match parse_nat(toks[1].as_slice()) {
            None => Err(CompileError::BadOperand(i)),
            Some(v) => match big_to_usize(&v) {
                None => Err(CompileError::BadTarget(i)),
                Some(x) => Ok(Op::Brz(x)),
            },
        }
    } else if c == JUMP {
        match parse_nat(toks[1].as_slice()) {
            None => Err(CompileError::BadOperand(i)),
            Some(_) => Ok(Op::Nop),
        }
    } else {
        match plain(c) {
            Some(op) => Ok(op),
            None => Err(CompileError::UnknownMnemonic(i)),
        }
    }
}

/// The machine integer that a natural-number word denotes; `None` when it
/// does not fit.
fn index_of(w: &[u8]) -> (r: Option<usize>)
    requires
        nat_token(w@) is Some,
    ensures
        match r {
            Some(v) => nat_token(w@) == Some(v as nat),
            None => nat_token(w@)->0 > usize::MAX,
        },
{
    match parse_nat(w) {
        None => None,
        Some(v) => big_to_usize(&v),
    }
}

/// Executable form of [`line_next`]; the successor is `None` when it does
/// not fit a machine integer.
fn next_of(c: u8, toks: &Vec<Vec<u8>>, i: usize) -> (r: Result<Option<usize>, CompileError>)
    requires
        toks@.len() >= 1 + arity(c),
        i < usize::MAX,
        c == JUMP ==> nat_token(toks@[1]@) is Some,
    ensures
        match r {
            Ok(Some(v)) => line_next(c, byte_rows(toks@), i) == Ok::<nat, CompileError>(v as nat),
            Ok(None) => line_next(c, byte_rows(toks@), i) is Ok && line_next(
                c,
                byte_rows(toks@),
                i,
            )->Ok_0 > usize::MAX,
            Err(e) => line_next(c, byte_rows(toks@), i) == Err::<nat, CompileError>(e),
        },
{
    let k = arity_of(c);
    let extra = toks.len() - 1 - k;
    let ghost rest = byte_rows(toks@).skip(1 + arity(c));
    assert(rest.len() == extra);
    if c == JUMP {
        if extra == 0 {
            Ok(index_of(toks[1].as_slice()))
        } else {
            Err(CompileError::BadOperand(i))
        }
    } else if c == 18 {
        if extra == 0 {
            Ok(Some(i))
        } else {
            Err(CompileError::BadOperand(i))
        }
    } else if extra == 0 {
        Ok(Some(i + 1))
    } else if extra == 2 {
        let arrow = word(ARROW);
        assert(rest[0] == toks@[1 + k]@);
        assert(rest[1] == toks@[2 + k]@);
        if same(toks[1 + k].as_slice(), arrow.as_slice()) {
            match parse_nat(toks[2 + k].as_slice()) {
                None => Err(CompileError::BadOperand(i)),
                Some(v) => Ok(big_to_usize(&v)),
            }
        } else {
            Err(CompileError::BadOperand(i))
        }
    } else {
        Err(CompileError::BadOperand(i))
    }
}

/// Executable form of [`parse_tokens`].
fn parse_instr(toks: &Vec<Vec<u8>>, i: usize, n: usize) -> (r: Result<Instr, CompileError>)
    requires
        i < n,
    ensures
        match r {
            Ok(ins) => parse_tokens(byte_rows(toks@), i, n) == Ok::<InstrView, CompileError>(ins@)
                && ins@.valid_at(i as int, n as int),
            Err(e) => parse_tokens(byte_rows(toks@), i, n) == Err::<InstrView, CompileError>(e),
        },
{
    if toks.len() == 0 {
        return Err(CompileError::UnknownMnemonic(i));
    }
    let c = match code_of_word(toks[0].as_slice()) {
        None => {
            return Err(CompileError::UnknownMnemonic(i));
        },
        Some(c) => c,
    };
    if c >= ENTRY {
        return Err(CompileError::UnknownMnemonic(i));
    }
    if toks.len() < 1 + arity_of(c) {
        return Err(CompileError::BadOperand(i));
    }
    let op = match op_of(c, toks, i) {
        Err(e) => {
            return Err(e);
        },
        Ok(op) => op,
    };
    let next = match next_of(c, toks, i) {
        Err(e) => {
            return Err(e);
        },
        Ok(None) => {
            return Err(CompileError::BadTarget(i));
        },
        Ok(Some(v)) => v,
    };
    let ins = Instr { op, next, origin: None };
    if crate::ir::instr_valid_at(&ins, i, n) {
        Ok(ins)
    } else {
        Err(CompileError::BadTarget(i))
    }
}

/// The instructions `acc` followed by the result of parsing the rest.
pub open spec fn joined(acc: Seq<InstrView>, rest: Result<Seq<InstrView>, CompileError>) -> Result<
    Seq<InstrView>,
    CompileError,
> {
    match rest {
        Ok(r) => Ok(acc + r),
        Err(e) => Err(e),
    }
}

/// Executable form of [`parse_body`].
fn parse_rows(rows: &Vec<Vec<u8>>, entry: Option<usize>) -> (r: Result<Program, CompileError>)
    ensures
        ({
            let e: nat = match entry {
                Some(v) => v as nat,
                None => (usize::MAX + 1) as nat,
            };
            match r {
                Ok(p) => parse_body(byte_rows(rows@), e) == Ok::<ProgramView, CompileError>(p@)
                    && p.wf(),
                Err(x) => parse_body(byte_rows(rows@), e) == Err::<ProgramView, CompileError>(x),
            }
        }),
{
    let n = rows.len();
    if n == 0 {
        return Err(CompileError::Empty);
    }
    let ghost ls = byte_rows(rows@);
    let mut out: Vec<Instr> = Vec::new();
    let mut i: usize = 0;
    proof {
        let d = parse_lines(ls, 0);
        if d is Ok {
            assert(Seq::<InstrView>::empty() + d->Ok_0 =~= d->Ok_0);
        }
    }
    while i < n
        invariant
            i <= n,
            n == rows@.len(),
            n > 0,
            ls == byte_rows(rows@),
            out@.len() == i,
            forall|j: int| 0 <= j < i ==> (#[trigger] instr_views(out@)[j]).valid_at(j, n as int),
            parse_lines(ls, 0) == joined(instr_views(out@), parse_lines(ls, i as int)),
        decreases n - i,
    {
        let toks = tokens_of(rows[i].as_slice());
        match parse_instr(&toks, i, n) {
            Err(e) => {
                return Err(e);
            },
            Ok(ins) => {
                proof {
                    let rest = parse_lines(ls, i + 1);
                    if rest is Ok {
                        assert(instr_views(out@) + (seq![ins@] + rest->Ok_0) =~= instr_views(
                            out@.push(ins),
                        ) + rest->Ok_0);
                    }
                    assert(instr_views(out@.push(ins)) =~= instr_views(out@).push(ins@));
                }
                out.push(ins);
                i += 1;
            },
        }
    }
    assert(instr_views(out@) + Seq::<InstrView>::empty() =~= instr_views(out@));
    match entry {
        Some(e) => {
            if e >= n {
                Err(CompileError::BadTarget(0))
            } else {
                Ok(Program::from_valid(out, e))
            }
        },
        None => Err(CompileError::BadTarget(0)),
    }
}

/// Reads a program from assembly text. Fails on a line that begins with no
/// known mnemonic, on a missing, malformed or excess operand, on a storage
/// or an instruction that does not exist, and on a text without lines.
pub fn parse_assembly(t: &[u8]) -> (r: Result<Program, CompileError>)
    ensures
        match r {
            Ok(p) => parse(t@) == Ok::<ProgramView, CompileError>(p@) && p.wf(),
            Err(e) => parse(t@) == Err::<ProgramView, CompileError>(e),
        },
{
    let mut rows = split(t);
    let last = rows.len() - 1;
    if rows[last].len() == 0 {
        let ghost before = rows@;
        let _ = rows.pop();
        assert(byte_rows(rows@) =~= byte_rows(before).drop_last());
    }
    assert(byte_rows(rows@) == source_lines(t@));
    if rows.len() > 0 {
        let toks = tokens_of(rows[0].as_slice());
        if toks.len() == 2 {
            let w = word(ENTRY);
            if same(toks[0].as_slice(), w.as_slice()) {
                match parse_nat(toks[1].as_slice()) {
                    Some(v) => {
                        let entry = big_to_usize(&v);
                        let ghost before = rows@;
                        let _ = rows.remove(0);
                        assert(byte_rows(rows@) =~= byte_rows(before).skip(1));
                        return parse_rows(&rows, entry);
                    },
                    None => {},
                }
            }
        }
    }
    parse_rows(&rows, Some(0))
}

} // verus!
