//! What holds of the assembly form: a program is read back from its text.

use crate::assembly::{arity, asm_text, find_code, header, header_text, instr_text, is_delim, lemma_skip_stop, line_next, line_op, line_text, lines_text, mnemonic, nat_token, operand_text, parse, parse_line, parse_lines, parse_tokens, source_lines, split_lines, tokenize, word_code, word_end, ARROW, ENTRY, JUMP, NEWLINE, SEMICOLON, SPACE};
use crate::bytecode::{bare_instrs, opcode, plain_op};
use crate::error::CompileError;
use crate::ir::{InstrView, OpView, ProgramView};
use crate::text::{dec_nat, decimal, is_digit, lemma_dec_nat, lemma_parse_decimal};
use crate::assembly::comment_text;
use crate::grid::is_syllable;
use crate::text::utf8_encode;
use crate::unicode::{ascii, lemma_ascii_valid, lemma_scalar_valid};
use vstd::prelude::*;
use vstd::utf8::valid_utf8;

verus! {

/// A word: not empty, and free of blank space and semicolons.
pub open spec fn clean(w: Seq<u8>) -> bool {
    w.len() > 0 && forall|i: int| 0 <= i < w.len() ==> !is_delim(#[trigger] w[i])
}

/// Words joined by single spaces.
pub open spec fn join(ws: Seq<Seq<u8>>) -> Seq<u8>
    decreases ws.len(),
{
    if ws.len() == 0 {
        Seq::empty()
    } else if ws.len() == 1 {
        ws[0]
    } else {
        ws[0] + seq![SPACE] + join(ws.skip(1))
    }
}

/// A word is read to its end from where it was written.
pub proof fn lemma_word_at(pre: Seq<u8>, w: Seq<u8>, post: Seq<u8>)
    requires
        forall|i: int| 0 <= i < w.len() ==> !is_delim(#[trigger] w[i]),
        post.len() == 0 || is_delim(post[0]),
    ensures
        word_end(pre + w + post, pre.len() as int) == pre.len() + w.len(),
    decreases w.len(),
{
    let s = pre + w + post;
    let p = pre.len() as int;
    if w.len() == 0 {
        if post.len() > 0 {
            assert(s[p] == post[0]);
        }
    } else {
        assert(s[p] == w[0]);
        let pre2 = pre.push(w[0]);
        let w2 = w.drop_first();
        assert forall|i: int| 0 <= i < w2.len() implies !is_delim(#[trigger] w2[i]) by {
            assert(w2[i] == w[i + 1]);
        }
        lemma_word_at(pre2, w2, post);
        assert(s =~= pre2 + w2 + post);
    }
}

/// What may follow the words of a line: nothing, or a space and a
/// comment.
pub open spec fn trailer(post: Seq<u8>) -> bool {
    post.len() == 0 || (post.len() >= 2 && post[0] == SPACE && post[1] == SEMICOLON)
}

/// Joined words are read back one by one, and a comment after them is
/// passed over.
pub proof fn lemma_tokenize_join(pre: Seq<u8>, ws: Seq<Seq<u8>>, post: Seq<u8>)
    requires
        forall|i: int| 0 <= i < ws.len() ==> clean(#[trigger] ws[i]),
        trailer(post),
    ensures
        tokenize(pre + join(ws) + post, pre.len() as int) == ws,
    decreases ws.len(),
{
    let s = pre + join(ws) + post;
    let p = pre.len() as int;
    if ws.len() == 0 {
        assert(s =~= pre + post);
        if post.len() > 0 {
            assert(s[p] == SPACE);
            assert(s[p + 1] == SEMICOLON);
            lemma_skip_stop(s, p + 1);
        }
        assert(tokenize(s, p) =~= ws);
    } else {
        let w = ws[0];
        assert(clean(w));
        assert(!is_delim(w[0]));
        if ws.len() == 1 {
            assert(s =~= pre + w + post);
            lemma_word_at(pre, w, post);
            assert(s[p] == w[0]);
            let b = p + w.len();
            assert(s.subrange(p, b) =~= w);
            if post.len() > 0 {
                assert(s[b] == SPACE);
                assert(s[b + 1] == SEMICOLON);
                lemma_skip_stop(s, b + 1);
            }
            assert(tokenize(s, b) =~= Seq::<Seq<u8>>::empty());
            assert(tokenize(s, p) =~= ws);
        } else {
            let rest = ws.skip(1);
            let tail = seq![SPACE] + join(rest) + post;
            assert(s =~= pre + w + tail);
            lemma_word_at(pre, w, tail);
            assert(s[p] == w[0]);
            let b = p + w.len();
            assert(s.subrange(p, b) =~= w);
            let pre2 = pre + w + seq![SPACE];
            assert forall|i: int| 0 <= i < rest.len() implies clean(#[trigger] rest[i]) by {
                assert(rest[i] == ws[i + 1]);
            }
            lemma_tokenize_join(pre2, rest, post);
            assert(s =~= pre2 + join(rest) + post);
            assert(s[b] == SPACE);
            lemma_skip_stop(s, b + 1);
            assert(tokenize(s, b) == tokenize(s, b + 1));
            assert(tokenize(s, p) =~= seq![w] + rest);
            assert(seq![w] + rest =~= ws);
        }
    }
}

/// The digits of a number form a word, and the word denotes the number.
pub proof fn lemma_nat_word(n: nat)
    ensures
        clean(dec_nat(n)),
        nat_token(dec_nat(n)) == Some(n),
{
    lemma_dec_nat(n);
    assert forall|i: int| 0 <= i < dec_nat(n).len() implies !is_delim(#[trigger] dec_nat(n)[i]) by {
        assert(is_digit(dec_nat(n)[i]));
    }
}

/// The numeral of an integer forms a word.
pub proof fn lemma_decimal_word(v: int)
    ensures
        clean(decimal(v)),
{
    if v < 0 {
        let m = (-v) as nat;
        lemma_nat_word(m);
        assert forall|i: int| 0 <= i < decimal(v).len() implies !is_delim(
            #[trigger] decimal(v)[i],
        ) by {
            if i > 0 {
                assert(decimal(v)[i] == dec_nat(m)[i - 1]);
            }
        }
    } else {
        lemma_nat_word(v as nat);
    }
}

/// Whether `c` is the code of a word of the language.
pub open spec fn is_code(c: u8) -> bool {
    2 <= c < 26 && c != 13 && c != 15
}

/// Every word of the language is a word, and no two of them are equal.
pub proof fn lemma_mnemonic(c: u8)
    requires
        is_code(c),
    ensures
        clean(mnemonic(c)),
        word_code(mnemonic(c)) == Some(c),
{
    let w = mnemonic(c);
    assert(w.len() >= 2);
    assert(w[0] >= 45 && w[1] >= 62);
    assert(w.len() >= 3 ==> w[2] >= 65);
    assert(w.len() >= 4 ==> w[3] >= 65);
    assert(w.len() >= 5 ==> w[4] >= 65);
    assert(w.len() >= 6 ==> w[5] >= 65);
    assert(w.len() >= 7 ==> w[6] >= 65);
    assert(w.len() >= 8 ==> w[7] >= 65);
    assert(w.len() <= 8);
    assert(clean(w));
    lemma_find(w, c, 0);
}

/// The search for the word with code `c` finds it from any code up to `c`.
proof fn lemma_find(w: Seq<u8>, c: u8, from: u8)
    requires
        is_code(c),
        w == mnemonic(c),
        from <= c,
    ensures
        find_code(w, from) == Some(c),
    decreases c - from,
{
    if from < c {
        lemma_find(w, c, (from + 1) as u8);
        lemma_distinct(from, c);
    }
}

/// Two different codes have different words.
proof fn lemma_distinct(a: u8, b: u8)
    requires
        is_code(b),
        a != b,
    ensures
        mnemonic(a) != mnemonic(b),
{
    let x = mnemonic(a);
    let y = mnemonic(b);
    if x.len() == y.len() {
        assert(x.len() >= 2);
        assert(x[0] != y[0] || x[1] != y[1] || x[2] != y[2] || (x.len() > 3 && x[3] != y[3]) || (
        x.len() > 4 && x[4] != y[4]));
    }
}

/// The operand of an operation as words.
pub open spec fn operand_words(op: OpView) -> Seq<Seq<u8>> {
    match op {
        OpView::Push(v) => seq![decimal(v)],
        OpView::Select(s) => seq![dec_nat(s as nat)],
        OpView::Move(s) => seq![dec_nat(s as nat)],
        OpView::Brz(t) => seq![dec_nat(t as nat)],
        _ => Seq::empty(),
    }
}

/// The words of the instruction at index `i`.
pub open spec fn instr_words(ins: InstrView, i: int) -> Seq<Seq<u8>> {
    let head = seq![mnemonic(opcode(ins.op))] + operand_words(ins.op);
    if ins.op is Halt || ins.next == i + 1 {
        head
    } else if ins.op is Nop {
        seq![mnemonic(JUMP), dec_nat(ins.next as nat)]
    } else {
        head + seq![mnemonic(ARROW), dec_nat(ins.next as nat)]
    }
}

/// Joining a word to the front of at least one more.
proof fn lemma_join_cons(w: Seq<u8>, rest: Seq<Seq<u8>>)
    requires
        rest.len() > 0,
    ensures
        join(seq![w] + rest) == w + seq![SPACE] + join(rest),
{
    assert((seq![w] + rest).skip(1) =~= rest);
}

/// Joining one, two, three or four words.
proof fn lemma_join_small(a: Seq<u8>, b: Seq<u8>, c: Seq<u8>, d: Seq<u8>)
    ensures
        join(seq![a]) == a,
        join(seq![a, b]) == a + seq![SPACE] + b,
        join(seq![a, b, c]) == a + seq![SPACE] + b + seq![SPACE] + c,
        join(seq![a, b, c, d]) == a + seq![SPACE] + b + seq![SPACE] + c + seq![SPACE] + d,
{
    assert(join(seq![d]) == d);
    assert(join(seq![c]) == c);
    assert(join(seq![b]) == b);
    lemma_join_cons(c, seq![d]);
    assert(seq![c] + seq![d] =~= seq![c, d]);
    lemma_join_cons(b, seq![c]);
    assert(seq![b] + seq![c] =~= seq![b, c]);
    lemma_join_cons(a, seq![b]);
    assert(seq![a] + seq![b] =~= seq![a, b]);
    lemma_join_cons(b, seq![c, d]);
    assert(seq![b] + seq![c, d] =~= seq![b, c, d]);
    lemma_join_cons(a, seq![b, c]);
    assert(seq![a] + seq![b, c] =~= seq![a, b, c]);
    lemma_join_cons(a, seq![b, c, d]);
    assert(seq![a] + seq![b, c, d] =~= seq![a, b, c, d]);
    assert(join(seq![a, b, c]) =~= a + seq![SPACE] + b + seq![SPACE] + c);
    assert(join(seq![a, b, c, d]) =~= a + seq![SPACE] + b + seq![SPACE] + c + seq![SPACE] + d);
}

/// The code of an operation is the code of a word.
proof fn lemma_opcode(op: OpView)
    ensures
        is_code(opcode(op)),
        opcode(op) < JUMP,
        arity(opcode(op)) == operand_words(op).len(),
        arity(opcode(op)) == 0 ==> plain_op(opcode(op)) == Some(op),
{
}

/// The text of an instruction is its words joined, each of them a word.
pub proof fn lemma_instr_words(ins: InstrView, i: int)
    ensures
        join(instr_words(ins, i)) == instr_text(ins, i),
        forall|k: int| 0 <= k < instr_words(ins, i).len() ==> clean(#[trigger] instr_words(ins, i)[k]),
        1 <= instr_words(ins, i).len() <= 4,
{
    let m = mnemonic(opcode(ins.op));
    let nx = dec_nat(ins.next as nat);
    let e = Seq::<u8>::empty();
    lemma_opcode(ins.op);
    lemma_mnemonic(opcode(ins.op));
    lemma_mnemonic(JUMP);
    lemma_mnemonic(ARROW);
    lemma_nat_word(ins.next as nat);
    let ws = instr_words(ins, i);
    let ow = operand_words(ins.op);
    match ins.op {
        OpView::Push(v) => {
            lemma_decimal_word(v);
        },
        OpView::Select(x) => {
            lemma_nat_word(x as nat);
        },
        OpView::Move(x) => {
            lemma_nat_word(x as nat);
        },
        OpView::Brz(t) => {
            lemma_nat_word(t as nat);
        },
        _ => {},
    }
    if ow.len() == 0 {
        assert(seq![m] + ow =~= seq![m]);
        assert(seq![m] + ow + seq![mnemonic(ARROW), nx] =~= seq![m, mnemonic(ARROW), nx]);
        lemma_join_small(m, mnemonic(ARROW), nx, e);
        lemma_join_small(mnemonic(JUMP), nx, e, e);
        assert(operand_text(ins.op) =~= e);
        assert(join(ws) =~= instr_text(ins, i));
    } else {
        let o = ow[0];
        assert(ow =~= seq![o]);
        assert(seq![m] + ow =~= seq![m, o]);
        assert(seq![m] + ow + seq![mnemonic(ARROW), nx] =~= seq![m, o, mnemonic(ARROW), nx]);
        lemma_join_small(m, o, mnemonic(ARROW), nx);
        assert(operand_text(ins.op) =~= seq![SPACE] + o);
        assert(join(ws) =~= instr_text(ins, i));
    }
}

/// The words of a valid instruction denote the instruction, without its
/// provenance.
pub proof fn lemma_parse_words(ins: InstrView, i: usize, n: usize)
    requires
        ins.valid_at(i as int, n as int),
        i < n,
    ensures
        parse_tokens(instr_words(ins, i as int), i, n) == Ok::<InstrView, CompileError>(ins.bare()),
{
    let ws = instr_words(ins, i as int);
    let c0 = opcode(ins.op);
    lemma_opcode(ins.op);
    lemma_mnemonic(c0);
    lemma_mnemonic(JUMP);
    lemma_mnemonic(ARROW);
    lemma_nat_word(ins.next as nat);
    let ow = operand_words(ins.op);
    let nx = dec_nat(ins.next as nat);
    match ins.op {
        OpView::Push(v) => {
            lemma_parse_decimal(v);
        },
        OpView::Select(x) => {
            lemma_nat_word(x as nat);
        },
        OpView::Move(x) => {
            lemma_nat_word(x as nat);
        },
        OpView::Brz(t) => {
            lemma_nat_word(t as nat);
        },
        _ => {},
    }
    if ins.op is Halt || ins.next == i + 1 {
        let c = c0;
        assert(ws[0] == mnemonic(c));
        assert(ws.skip(1 + arity(c)) =~= Seq::<Seq<u8>>::empty());
        if arity(c) == 1 {
            assert(ws[1] == ow[0]);
        }
        assert(line_op(c, ws[1], i) == Ok::<OpView, CompileError>(ins.op));
    } else if ins.op is Nop {
        let c = JUMP;
        assert(ws[0] == mnemonic(c));
        assert(ws[1] == nx);
        assert(ws.skip(2) =~= Seq::<Seq<u8>>::empty());
        assert(line_op(c, ws[1], i) == Ok::<OpView, CompileError>(ins.op));
    } else {
        let c = c0;
        assert(ws[0] == mnemonic(c));
        let rest = ws.skip(1 + arity(c));
        assert(rest =~= seq![mnemonic(ARROW), nx]);
        if arity(c) == 1 {
            assert(ws[1] == ow[0]);
        }
        assert(line_op(c, ws[1], i) == Ok::<OpView, CompileError>(ins.op));
        assert(line_next(c, ws, i) == Ok::<nat, CompileError>(ins.next as nat));
    }
}

/// The comment of an instruction, where comments are written.
pub open spec fn note(ins: InstrView, commented: bool) -> Seq<u8> {
    if commented {
        comment_text(ins.origin)
    } else {
        Seq::empty()
    }
}

/// Whether a text holds no line feed.
pub open spec fn one_line(l: Seq<u8>) -> bool {
    forall|i: int| 0 <= i < l.len() ==> #[trigger] l[i] != NEWLINE
}

/// A comment holds no line feed, and it is empty or begins with a space
/// and a semicolon.
pub proof fn lemma_note(ins: InstrView, commented: bool)
    ensures
        one_line(note(ins, commented)),
        trailer(note(ins, commented)),
{
    let c = note(ins, commented);
    if commented && ins.origin is Some {
        let o = ins.origin->0;
        let head = seq![SPACE, SEMICOLON, SPACE];
        let r = dec_nat(o.row as nat);
        let k = dec_nat(o.col as nat);
        lemma_dec_nat(o.row as nat);
        lemma_dec_nat(o.col as nat);
        let base = head + r + seq![58u8] + k;
        assert(one_line(base)) by {
            assert forall|i: int| 0 <= i < base.len() implies #[trigger] base[i] != NEWLINE by {
                if i < 3 {
                } else if i < 3 + r.len() {
                    assert(is_digit(r[i - 3]));
                } else if i == 3 + r.len() {
                } else {
                    assert(is_digit(k[i - 4 - r.len()]));
                }
            }
        }
        assert(base[0] == SPACE && base[1] == SEMICOLON);
        if is_syllable(o.ch) {
            let v = o.ch as int;
            let u = utf8_encode(v);
            assert(u.len() == 3);
            assert(u[0] >= 0x80 && u[1] >= 0x80 && u[2] >= 0x80);
            let t = seq![SPACE] + u;
            assert(c == base + t);
            assert forall|i: int| 0 <= i < c.len() implies #[trigger] c[i] != NEWLINE by {
                if i < base.len() {
                    assert(c[i] == base[i]);
                } else {
                    assert(c[i] == t[i - base.len()]);
                }
            }
            assert(c[0] == base[0] && c[1] == base[1]);
        } else {
            assert(c =~= base);
        }
    }
}

/// The line of a valid instruction, with or without its comment, is read
/// back as the instruction without its provenance.
pub proof fn lemma_parse_line(ins: InstrView, i: usize, n: usize, commented: bool)
    requires
        ins.valid_at(i as int, n as int),
        i < n,
    ensures
        parse_line(instr_text(ins, i as int) + note(ins, commented), i, n) == Ok::<
            InstrView,
            CompileError,
        >(ins.bare()),
{
    lemma_instr_words(ins, i as int);
    lemma_parse_words(ins, i, n);
    lemma_note(ins, commented);
    lemma_tokenize_join(Seq::empty(), instr_words(ins, i as int), note(ins, commented));
    assert(Seq::<u8>::empty() + instr_text(ins, i as int) + note(ins, commented) =~= instr_text(
        ins,
        i as int,
    ) + note(ins, commented));
}

/// A text has at least one line.
pub proof fn lemma_split_len(t: Seq<u8>)
    ensures
        split_lines(t).len() >= 1,
    decreases t.len(),
{
    if t.len() > 0 {
        lemma_split_len(t.drop_last());
    }
}

/// A text without line feed is one line.
pub proof fn lemma_split_one(l: Seq<u8>)
    requires
        one_line(l),
    ensures
        split_lines(l) == seq![l],
    decreases l.len(),
{
    if l.len() == 0 {
        assert(l =~= Seq::<u8>::empty());
    } else {
        let t = l.drop_last();
        assert forall|i: int| 0 <= i < t.len() implies #[trigger] t[i] != NEWLINE by {
            assert(t[i] == l[i]);
        }
        lemma_split_one(t);
        assert(l.last() == l[l.len() - 1]);
        assert(t.push(l.last()) =~= l);
        assert(split_lines(l) =~= seq![l]);
    }
}

/// A line followed by a line feed and more text is the first line of the
/// whole, and the lines of the rest follow.
pub proof fn lemma_split_first(l: Seq<u8>, rest: Seq<u8>)
    requires
        one_line(l),
    ensures
        split_lines(l + seq![NEWLINE] + rest) == seq![l] + split_lines(rest),
    decreases rest.len(),
{
    let t = l + seq![NEWLINE] + rest;
    if rest.len() == 0 {
        lemma_split_one(l);
        assert(t.drop_last() =~= l);
        assert(t.last() == NEWLINE);
        assert(rest =~= Seq::<u8>::empty());
        assert(split_lines(t) =~= seq![l] + split_lines(rest));
    } else {
        let r2 = rest.drop_last();
        lemma_split_first(l, r2);
        lemma_split_len(r2);
        assert(t.drop_last() =~= l + seq![NEWLINE] + r2);
        assert(t.last() == rest.last());
        assert(split_lines(t) =~= seq![l] + split_lines(rest));
    }
}

/// Joined words hold no line feed.
pub proof fn lemma_join_one_line(ws: Seq<Seq<u8>>)
    requires
        forall|i: int| 0 <= i < ws.len() ==> clean(#[trigger] ws[i]),
    ensures
        one_line(join(ws)),
    decreases ws.len(),
{
    if ws.len() == 0 {
    } else if ws.len() == 1 {
        assert(clean(ws[0]));
        assert forall|i: int| 0 <= i < ws[0].len() implies #[trigger] ws[0][i] != NEWLINE by {
            assert(!is_delim(ws[0][i]));
        }
    } else {
        let rest = ws.skip(1);
        assert forall|i: int| 0 <= i < rest.len() implies clean(#[trigger] rest[i]) by {
            assert(rest[i] == ws[i + 1]);
        }
        lemma_join_one_line(rest);
        assert(clean(ws[0]));
        let j = join(ws);
        assert forall|i: int| 0 <= i < j.len() implies #[trigger] j[i] != NEWLINE by {
            if i < ws[0].len() {
                assert(j[i] == ws[0][i]);
                assert(!is_delim(ws[0][i]));
            } else if i == ws[0].len() {
                assert(j[i] == SPACE);
            } else {
                assert(j[i] == join(rest)[i - ws[0].len() - 1]);
            }
        }
    }
}

/// The texts of the instructions from index `from` on, one for each line.
pub open spec fn texts(v: Seq<InstrView>, from: int, commented: bool) -> Seq<Seq<u8>> {
    Seq::new(
        (v.len() - from) as nat,
        |k: int| instr_text(v[from + k], from + k) + note(v[from + k], commented),
    )
}

/// The lines of a text are the texts of its instructions, and an empty
/// remainder.
pub proof fn lemma_split_text(v: Seq<InstrView>, from: int, commented: bool)
    requires
        0 <= from <= v.len(),
    ensures
        split_lines(lines_text(v, from, commented)) == texts(v, from, commented).push(
            Seq::<u8>::empty(),
        ),
    decreases v.len() - from,
{
    if from >= v.len() {
        assert(texts(v, from, commented) =~= Seq::<Seq<u8>>::empty());
        assert(split_lines(lines_text(v, from, commented)) =~= texts(v, from, commented).push(
            Seq::<u8>::empty(),
        ));
    } else {
        let it = instr_text(v[from], from);
        let c = note(v[from], commented);
        let l = it + c;
        let rest = lines_text(v, from + 1, commented);
        lemma_instr_words(v[from], from);
        lemma_join_one_line(instr_words(v[from], from));
        lemma_note(v[from], commented);
        assert(one_line(l)) by {
            assert forall|i: int| 0 <= i < l.len() implies #[trigger] l[i] != NEWLINE by {
                if i < it.len() {
                    assert(l[i] == it[i]);
                } else {
                    assert(l[i] == c[i - it.len()]);
                }
            }
        }
        lemma_split_first(l, rest);
        lemma_split_text(v, from + 1, commented);
        assert(lines_text(v, from, commented) =~= l + seq![NEWLINE] + rest);
        assert(seq![l] + texts(v, from + 1, commented).push(Seq::<u8>::empty()) =~= texts(
            v,
            from,
            commented,
        ).push(Seq::<u8>::empty()));
    }
}

/// The lines of a valid program are read back as its instructions,
/// without their provenance.
pub proof fn lemma_parse_texts(v: Seq<InstrView>, i: int, commented: bool)
    requires
        0 <= i <= v.len() <= usize::MAX,
        forall|k: int| 0 <= k < v.len() ==> (#[trigger] v[k]).valid_at(k, v.len() as int),
    ensures
        parse_lines(texts(v, 0, commented), i) == Ok::<Seq<InstrView>, CompileError>(
            bare_instrs(v).subrange(i, v.len() as int),
        ),
    decreases v.len() - i,
{
    let n = v.len() as int;
    let ls = texts(v, 0, commented);
    if i >= n {
        assert(bare_instrs(v).subrange(i, n) =~= Seq::<InstrView>::empty());
    } else {
        lemma_parse_line(v[i], i as usize, n as usize, commented);
        lemma_parse_texts(v, i + 1, commented);
        assert(ls[i] == instr_text(v[i], i) + note(v[i], commented));
        assert(bare_instrs(v).subrange(i, n) =~= seq![v[i].bare()] + bare_instrs(v).subrange(
            i + 1,
            n,
        ));
    }
}

/// Reading the assembly text of a valid program, with or without
/// comments, gives the program back, without its provenance.
pub proof fn lemma_parse_emit(p: ProgramView, commented: bool)
    requires
        p.wf(),
    ensures
        parse(asm_text(p, commented)) == Ok::<ProgramView, CompileError>(p.bare()),
{
    let v = p.instrs;
    let n = v.len() as int;
    let body = lines_text(v, 0, commented);
    let e = Seq::<u8>::empty();
    lemma_split_text(v, 0, commented);
    lemma_parse_texts(v, 0, commented);
    assert(bare_instrs(v).subrange(0, n) =~= p.bare().instrs);
    let ls = texts(v, 0, commented);
    assert(ls.push(e).drop_last() =~= ls);
    if p.entry == 0 {
        assert(asm_text(p, commented) =~= body);
        assert(source_lines(body) == ls);
        lemma_instr_words(v[0], 0);
        lemma_note(v[0], commented);
        lemma_tokenize_join(e, instr_words(v[0], 0), note(v[0], commented));
        assert(e + instr_text(v[0], 0) + note(v[0], commented) =~= instr_text(v[0], 0) + note(
            v[0],
            commented,
        ));
        assert(ls[0] == instr_text(v[0], 0) + note(v[0], commented));
        lemma_opcode(v[0].op);
        lemma_mnemonic(JUMP);
        lemma_distinct(ENTRY, opcode(v[0].op));
        lemma_distinct(ENTRY, JUMP);
        assert(header(ls[0]) is None);
    } else {
        let num = dec_nat(p.entry as nat);
        let h = mnemonic(ENTRY) + seq![SPACE] + num;
        lemma_mnemonic(ENTRY);
        lemma_nat_word(p.entry as nat);
        let hw = seq![mnemonic(ENTRY), num];
        lemma_join_small(mnemonic(ENTRY), num, e, e);
        lemma_tokenize_join(e, hw, e);
        assert(e + h + e =~= h);
        lemma_join_one_line(hw);
        lemma_split_first(h, body);
        assert(asm_text(p, commented) =~= h + seq![NEWLINE] + body);
        let all = seq![h] + ls.push(e);
        assert(all.drop_last() =~= seq![h] + ls);
        assert(source_lines(asm_text(p, commented)) == seq![h] + ls);
        assert((seq![h] + ls).skip(1) =~= ls);
        assert((seq![h] + ls)[0] == h);
        assert(header(h) == Some(p.entry as nat));
    }
}

/// The uncommented text of a program does not depend on its provenance.
pub proof fn lemma_text_bare(v: Seq<InstrView>, from: int)
    requires
        0 <= from <= v.len(),
    ensures
        lines_text(bare_instrs(v), from, false) == lines_text(v, from, false),
    decreases v.len() - from,
{
    if from < v.len() {
        lemma_text_bare(v, from + 1);
    }
}

/// Emitting, reading and emitting again gives the same text as emitting
/// once: for every valid program `p`, the text of `p` without comments is
/// read back as a program whose text is that same text.
pub proof fn lemma_assembly_idempotent(p: ProgramView)
    requires
        p.wf(),
    ensures
        parse(asm_text(p, false)) is Ok,
        asm_text(parse(asm_text(p, false))->Ok_0, false) == asm_text(p, false),
{
    lemma_parse_emit(p, false);
    lemma_text_bare(p.instrs, 0);
}

/// Comments change nothing: the commented text of a valid program is read
/// back as the same program as its uncommented text.
pub proof fn lemma_comments_ignored(p: ProgramView)
    requires
        p.wf(),
    ensures
        parse(asm_text(p, true)) == parse(asm_text(p, false)),
{
    lemma_parse_emit(p, true);
    lemma_parse_emit(p, false);
}

/// Every word of the language, every numeral and the separators between
/// them are valid UTF-8.
pub proof fn lemma_pieces_valid(c: u8, n: nat, v: int)
    ensures
        valid_utf8(mnemonic(c)),
        valid_utf8(dec_nat(n)),
        valid_utf8(decimal(v)),
        valid_utf8(seq![SPACE]),
        valid_utf8(seq![NEWLINE]),
        valid_utf8(seq![58u8]),
        valid_utf8(seq![SPACE, SEMICOLON, SPACE]),
        valid_utf8(Seq::<u8>::empty()),
{
    let m = mnemonic(c);
    assert(ascii(m)) by {
        assert(m.len() <= 8);
        assert forall|i: int| 0 <= i < m.len() implies #[trigger] m[i] < 128 by {
            assert(i == 0 || i == 1 || i == 2 || i == 3 || i == 4 || i == 5 || i == 6 || i == 7);
        }
    }
    lemma_ascii_valid(m);
    lemma_dec_nat(n);
    assert(ascii(dec_nat(n))) by {
        assert forall|i: int| 0 <= i < dec_nat(n).len() implies #[trigger] dec_nat(n)[i] < 128 by {
            assert(is_digit(dec_nat(n)[i]));
        }
    }
    lemma_ascii_valid(dec_nat(n));
    if v < 0 {
        let k = (-v) as nat;
        lemma_dec_nat(k);
        assert(ascii(decimal(v))) by {
            assert forall|i: int| 0 <= i < decimal(v).len() implies #[trigger] decimal(v)[i]
                < 128 by {
                if i > 0 {
                    assert(decimal(v)[i] == dec_nat(k)[i - 1]);
                    assert(is_digit(dec_nat(k)[i - 1]));
                }
            }
        }
    } else {
        let k = v as nat;
        lemma_dec_nat(k);
        assert(ascii(decimal(v))) by {
            assert forall|i: int| 0 <= i < decimal(v).len() implies #[trigger] decimal(v)[i]
                < 128 by {
                assert(is_digit(dec_nat(k)[i]));
            }
        }
    }
    lemma_ascii_valid(decimal(v));
    lemma_ascii_valid(seq![SPACE]);
    lemma_ascii_valid(seq![NEWLINE]);
    lemma_ascii_valid(seq![58u8]);
    lemma_ascii_valid(seq![SPACE, SEMICOLON, SPACE]);
}

/// A line of assembly is valid UTF-8, with or without its comment.
pub proof fn lemma_line_valid(ins: InstrView, i: int, commented: bool)
    ensures
        valid_utf8(line_text(ins, i, commented)),
{
    broadcast use vstd::utf8::valid_utf8_concat;

    let m = mnemonic(opcode(ins.op));
    let nx = dec_nat(ins.next as nat);
    let sp = seq![SPACE];
    lemma_pieces_valid(opcode(ins.op), ins.next as nat, 0);
    lemma_pieces_valid(JUMP, 0, 0);
    lemma_pieces_valid(ARROW, 0, 0);
    let ot = operand_text(ins.op);
    match ins.op {
        OpView::Push(v) => {
            lemma_pieces_valid(0, 0, v);
            assert(valid_utf8(sp + decimal(v)));
        },
        OpView::Select(x) => {
            lemma_pieces_valid(0, x as nat, 0);
            assert(valid_utf8(sp + dec_nat(x as nat)));
        },
        OpView::Move(x) => {
            lemma_pieces_valid(0, x as nat, 0);
            assert(valid_utf8(sp + dec_nat(x as nat)));
        },
        OpView::Brz(t) => {
            lemma_pieces_valid(0, t as nat, 0);
            assert(valid_utf8(sp + dec_nat(t as nat)));
        },
        _ => {},
    }
    assert(valid_utf8(ot));
    assert(valid_utf8(m + ot));
    assert(valid_utf8(mnemonic(JUMP) + sp));
    assert(valid_utf8(mnemonic(JUMP) + sp + nx));
    assert(valid_utf8(m + ot + sp));
    assert(valid_utf8(m + ot + sp + mnemonic(ARROW)));
    assert(valid_utf8(m + ot + sp + mnemonic(ARROW) + sp));
    assert(valid_utf8(m + ot + sp + mnemonic(ARROW) + sp + nx));
    let it = instr_text(ins, i);
    assert(valid_utf8(it));
    let ct = if commented {
        comment_text(ins.origin)
    } else {
        Seq::<u8>::empty()
    };
    assert(valid_utf8(ct)) by {
        if commented && ins.origin is Some {
            let o = ins.origin->0;
            lemma_pieces_valid(0, o.row as nat, 0);
            lemma_pieces_valid(0, o.col as nat, 0);
            let a = seq![SPACE, SEMICOLON, SPACE];
            let r = dec_nat(o.row as nat);
            let c = dec_nat(o.col as nat);
            assert(valid_utf8(a + r));
            assert(valid_utf8(a + r + seq![58u8]));
            assert(valid_utf8(a + r + seq![58u8] + c));
            if is_syllable(o.ch) {
                lemma_scalar_valid(o.ch as int);
                assert(valid_utf8(sp + utf8_encode(o.ch as int)));
            }
        }
    }
    assert(valid_utf8(it + ct));
    assert(valid_utf8(it + ct + seq![NEWLINE]));
}

/// The lines of a program are valid UTF-8.
pub proof fn lemma_lines_valid(v: Seq<InstrView>, from: int, commented: bool)
    requires
        0 <= from <= v.len(),
    ensures
        valid_utf8(lines_text(v, from, commented)),
    decreases v.len() - from,
{
    broadcast use vstd::utf8::valid_utf8_concat;

    if from < v.len() {
        lemma_line_valid(v[from], from, commented);
        lemma_lines_valid(v, from + 1, commented);
        assert(valid_utf8(
            line_text(v[from], from, commented) + lines_text(v, from + 1, commented),
        ));
    }
}

/// The assembly text of every program is valid UTF-8.
pub proof fn lemma_text_valid(p: ProgramView, commented: bool)
    ensures
        valid_utf8(asm_text(p, commented)),
{
    broadcast use vstd::utf8::valid_utf8_concat;

    lemma_lines_valid(p.instrs, 0, commented);
    lemma_pieces_valid(ENTRY, p.entry as nat, 0);
    let h = header_text(p.entry);
    if p.entry != 0 {
        let a = mnemonic(ENTRY) + seq![SPACE];
        assert(valid_utf8(a));
        assert(valid_utf8(a + dec_nat(p.entry as nat)));
        assert(valid_utf8(a + dec_nat(p.entry as nat) + seq![NEWLINE]));
    }
    assert(valid_utf8(h));
    assert(valid_utf8(h + lines_text(p.instrs, 0, commented)));
}

} // verus!
