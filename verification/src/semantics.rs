//! What running a program means: the machine's state as a mathematical
//! value, one step as a function on it, and a run as repeated steps.

use crate::ir::{BinOp, InstrView, OpView, ProgramView, PRIORITY_ID, QUEUE_ID, STORAGE_COUNT};
use crate::num::{trunc_div, trunc_rem};
use crate::text::{decimal, digits_end, digits_value, is_scalar, skip_spaces, utf8_decode, utf8_encode};
use vstd::prelude::*;

verus! {

/// How a storage hands its values back.
#[derive(Clone, Copy, Debug, PartialEq, Eq, Structural)]
pub enum Kind {
    /// The value pushed last comes out first.
    Stack,
    /// The value pushed first comes out first.
    Queue,
    /// The least value comes out first.
    Priority,
}

/// The kind of each storage: a queue for ieung, a priority storage for
/// hieut, a stack for the default storage and every other tail consonant.
pub open spec fn kind_of(id: u8) -> Kind {
    if id == QUEUE_ID {
        Kind::Queue
    } else if id == PRIORITY_ID {
        Kind::Priority
    } else {
        Kind::Stack
    }
}

/// Why a run stopped without a halt value.
#[derive(Clone, Copy, Debug, PartialEq, Eq, Structural)]
pub enum Fault {
    /// Division or modulo by zero.
    DivisionByZero,
    /// An operation needed more values than the active storage holds.
    EmptyStorage,
    /// The input holds no number, or no well-formed character, where one
    /// is read.
    MalformedInput,
    /// The input ended where a number or a character is read.
    UnexpectedEof,
    /// A value written as a character is no Unicode scalar value.
    InvalidCharacter,
}

/// Index of the first least element of a non-empty sequence.
pub open spec fn min_index(s: Seq<int>) -> int
    decreases s.len(),
{
    if s.len() <= 1 {
        0
    } else {
        let m = min_index(s.drop_last());
        if s.last() < s[m] {
            s.len() - 1
        } else {
            m
        }
    }
}

/// What comes out of a priority storage is a least value: the index found
/// by [`min_index`] is in range and no element is smaller than the one there.
pub proof fn lemma_min_index(s: Seq<int>)
    requires
        s.len() > 0,
    ensures
        0 <= min_index(s) < s.len(),
        forall|i: int| 0 <= i < s.len() ==> s[min_index(s)] <= #[trigger] s[i],
    decreases s.len(),
{
    if s.len() > 1 {
        let t = s.drop_last();
        lemma_min_index(t);
        assert forall|i: int| 0 <= i < s.len() implies s[min_index(s)] <= #[trigger] s[i] by {
            if i < t.len() {
                assert(t[i] == s[i]);
            }
        }
    }
}

/// Position of the value that comes out next. Values are kept in the
/// order in which they were pushed.
pub open spec fn top_index(k: Kind, s: Seq<int>) -> int {
    match k {
        Kind::Stack => s.len() - 1,
        Kind::Queue => 0,
        Kind::Priority => min_index(s),
    }
}

/// The value that comes out next.
pub open spec fn peek(k: Kind, s: Seq<int>) -> int {
    s[top_index(k, s)]
}

/// The storage without the value that comes out next.
pub open spec fn pop(k: Kind, s: Seq<int>) -> Seq<int> {
    s.remove(top_index(k, s))
}

/// The storage with its next value doubled: the copy comes out next, and
/// the value itself right after it.
pub open spec fn dup(k: Kind, s: Seq<int>) -> Seq<int> {
    match k {
        Kind::Queue => seq![s[0]] + s,
        _ => s.push(peek(k, s)),
    }
}

/// The storage with its two next values exchanged. In a priority storage
/// the order of removal is fixed by the values, so nothing changes.
pub open spec fn swap(k: Kind, s: Seq<int>) -> Seq<int> {
    match k {
        Kind::Stack => s.update(s.len() - 1, s[s.len() - 2]).update(s.len() - 2, s[s.len() - 1]),
        Kind::Queue => s.update(0, s[1]).update(1, s[0]),
        Kind::Priority => s,
    }
}

/// Whether an operation divides.
pub open spec fn divides(op: BinOp) -> bool {
    op == BinOp::Div || op == BinOp::Mod
}

/// Result of a binary operation on `b` (popped second) and `a` (popped
/// first). Division rounds towards zero and the remainder has the sign of
/// the dividend.
pub open spec fn binary(op: BinOp, b: int, a: int) -> int {
    match op {
        BinOp::Add => b + a,
        BinOp::Sub => b - a,
        BinOp::Mul => b * a,
        BinOp::Div => trunc_div(b, a),
        BinOp::Mod => trunc_rem(b, a),
        BinOp::Cmp => if b >= a {
            1
        } else {
            0
        },
    }
}

/// The number read at `pos`: blank space is skipped, then an optional
/// minus sign and at least one digit are taken. The result holds the value
/// and the position after the last digit.
pub open spec fn read_number(s: Seq<u8>, pos: int) -> Result<(int, int), Fault> {
    let a = skip_spaces(s, pos);
    if a >= s.len() {
        Err(Fault::UnexpectedEof)
    } else {
        let b = if s[a] == 45 {
            a + 1
        } else {
            a
        };
        let e = digits_end(s, b);
        if e == b {
            Err(Fault::MalformedInput)
        } else {
            let mag = digits_value(s.subrange(b, e)) as int;
            Ok((
                if s[a] == 45 {
                    -mag
                } else {
                    mag
                },
                e,
            ))
        }
    }
}

/// The character read at `pos`: its code point and the position after it.
pub open spec fn read_char(s: Seq<u8>, pos: int) -> Result<(int, int), Fault> {
    if pos >= s.len() {
        Err(Fault::UnexpectedEof)
    } else {
        match utf8_decode(s, pos) {
            Some((v, w)) => Ok((v, pos + w)),
            None => Err(Fault::MalformedInput),
        }
    }
}

/// State of a machine between two steps.
pub struct MachineView {
    /// Index of the instruction that runs next.
    pub pc: usize,
    /// The active storage.
    pub active: u8,
    /// The values of every storage, in the order in which they were pushed.
    pub storages: Seq<Seq<int>>,
    /// The whole input.
    pub input: Seq<u8>,
    /// How much of the input has been read.
    pub pos: int,
    /// Everything written so far.
    pub output: Seq<u8>,
}

impl MachineView {
    /// The state in which a run of `p` on `input` begins.
    pub open spec fn init(p: ProgramView, input: Seq<u8>) -> MachineView {
        MachineView {
            pc: p.entry,
            active: 0,
            storages: Seq::new(STORAGE_COUNT as nat, |i: int| Seq::<int>::empty()),
            input,
            pos: 0,
            output: Seq::empty(),
        }
    }

    /// Whether the state fits the program `p`.
    pub open spec fn wf(self, p: ProgramView) -> bool {
        &&& self.pc < p.instrs.len()
        &&& self.active < STORAGE_COUNT
        &&& self.storages.len() == STORAGE_COUNT
        &&& 0 <= self.pos <= self.input.len()
    }

    /// The values of the active storage.
    pub open spec fn cur(self) -> Seq<int> {
        self.storages[self.active as int]
    }

    /// The kind of the active storage.
    pub open spec fn kind(self) -> Kind {
        kind_of(self.active)
    }

    /// The state with the active storage replaced.
    pub open spec fn with_cur(self, s: Seq<int>) -> MachineView {
        MachineView { storages: self.storages.update(self.active as int, s), ..self }
    }

    /// The state with control at instruction `pc`.
    pub open spec fn goto(self, pc: usize) -> MachineView {
        MachineView { pc, ..self }
    }

    /// The state with `bytes` written.
    pub open spec fn emit(self, bytes: Seq<u8>) -> MachineView {
        MachineView { output: self.output + bytes, ..self }
    }
}

/// What one step does.
pub enum StepView {
    /// The machine goes on in the given state.
    Next(MachineView),
    /// The machine halts with the given value; its state is unchanged.
    Halt(int),
    /// The step fails; the state is unchanged.
    Fail(Fault),
}

/// One step of `p` from state `m`.
pub open spec fn step(p: ProgramView, m: MachineView) -> StepView {
    step_instr(p.instrs[m.pc as int], m)
}

/// What the instruction `ins` does to the state `m`.
pub open spec fn step_instr(ins: InstrView, m: MachineView) -> StepView {
    let k = m.kind();
    let s = m.cur();
    match ins.op {
        OpView::Nop => StepView::Next(m.goto(ins.next)),
        OpView::Push(v) => StepView::Next(m.with_cur(s.push(v)).goto(ins.next)),
        OpView::Pop => if s.len() == 0 {
            StepView::Fail(Fault::EmptyStorage)
        } else {
            StepView::Next(m.with_cur(pop(k, s)).goto(ins.next))
        },
        OpView::PopNum => if s.len() == 0 {
            StepView::Fail(Fault::EmptyStorage)
        } else {
            StepView::Next(m.with_cur(pop(k, s)).emit(decimal(peek(k, s))).goto(ins.next))
        },
        OpView::PopChar => if s.len() == 0 {
            StepView::Fail(Fault::EmptyStorage)
        } else if !is_scalar(peek(k, s)) {
            StepView::Fail(Fault::InvalidCharacter)
        } else {
            StepView::Next(m.with_cur(pop(k, s)).emit(utf8_encode(peek(k, s))).goto(ins.next))
        },
        OpView::PushNum => match read_number(m.input, m.pos) {
            Ok((v, e)) => StepView::Next(
                MachineView { pos: e, ..m.with_cur(s.push(v)).goto(ins.next) },
            ),
            Err(f) => StepView::Fail(f),
        },
        OpView::PushChar => match read_char(m.input, m.pos) {
            Ok((v, e)) => StepView::Next(
                MachineView { pos: e, ..m.with_cur(s.push(v)).goto(ins.next) },
            ),
            Err(f) => StepView::Fail(f),
        },
        OpView::Dup => if s.len() == 0 {
            StepView::Fail(Fault::EmptyStorage)
        } else {
            StepView::Next(m.with_cur(dup(k, s)).goto(ins.next))
        },
        OpView::Swap => if s.len() < 2 {
            StepView::Fail(Fault::EmptyStorage)
        } else {
            StepView::Next(m.with_cur(swap(k, s)).goto(ins.next))
        },
        OpView::Binary(op) => if s.len() < 2 {
            StepView::Fail(Fault::EmptyStorage)
        } else {
            let a = peek(k, s);
            let s1 = pop(k, s);
            let b = peek(k, s1);
            let s2 = pop(k, s1);
            if divides(op) && a == 0 {
                StepView::Fail(Fault::DivisionByZero)
            } else {
                StepView::Next(m.with_cur(s2.push(binary(op, b, a))).goto(ins.next))
            }
        },
        OpView::Select(t) => StepView::Next(MachineView { active: t, ..m.goto(ins.next) }),
        OpView::Move(t) => if s.len() == 0 {
            StepView::Fail(Fault::EmptyStorage)
        } else {
            let m1 = m.with_cur(pop(k, s));
            StepView::Next(
                MachineView {
                    storages: m1.storages.update(t as int, m1.storages[t as int].push(peek(k, s))),
                    ..m1.goto(ins.next)
                },
            )
        },
        OpView::Brz(t) => if s.len() == 0 {
            StepView::Fail(Fault::EmptyStorage)
        } else {
            StepView::Next(
                m.with_cur(pop(k, s)).goto(
                    if peek(k, s) == 0 {
                        t
                    } else {
                        ins.next
                    },
                ),
            )
        },
        OpView::Halt => StepView::Halt(
            if s.len() == 0 {
                0
            } else {
                peek(k, s)
            },
        ),
    }
}

/// How far a run has come.
pub enum StatusView {
    /// The machine can take another step.
    Running,
    /// The machine halted with this value.
    Halted(int),
    /// The machine failed.
    Failed(Fault),
}

/// A machine state together with how far its run has come.
pub struct RunView {
    pub machine: MachineView,
    pub status: StatusView,
}

/// The run of `p` from `m`, cut off after `n` steps. When a step halts or
/// fails the run ends in the state before that step.
pub open spec fn run_steps(p: ProgramView, m: MachineView, n: nat) -> RunView
    decreases n,
{
    if n == 0 {
        RunView { machine: m, status: StatusView::Running }
    } else {
        match step(p, m) {
            StepView::Next(m2) => run_steps(p, m2, (n - 1) as nat),
            StepView::Halt(v) => RunView { machine: m, status: StatusView::Halted(v) },
            StepView::Fail(f) => RunView { machine: m, status: StatusView::Failed(f) },
        }
    }
}

/// A step of a valid program from a fitting state leads to a fitting state.
pub proof fn lemma_step_wf(p: ProgramView, m: MachineView)
    requires
        p.wf(),
        m.wf(p),
    ensures
        step(p, m) is Next ==> step(p, m)->Next_0.wf(p) && step(p, m)->Next_0.input == m.input,
{
    let ins = p.instrs[m.pc as int];
    assert(ins.valid_at(m.pc as int, p.instrs.len() as int));
    match ins.op {
        OpView::PushNum => {
            lemma_skip_spaces_bound(m.input, m.pos);
            let a = skip_spaces(m.input, m.pos);
            if a < m.input.len() {
                let b = if m.input[a] == 45 {
                    a + 1
                } else {
                    a
                };
                lemma_digits_end_bound(m.input, b);
            }
        },
        _ => {},
    }
}

/// [`skip_spaces`] moves forward and stays within the input.
pub proof fn lemma_skip_spaces_bound(s: Seq<u8>, pos: int)
    requires
        0 <= pos <= s.len(),
    ensures
        pos <= skip_spaces(s, pos) <= s.len(),
    decreases s.len() - pos,
{
    if pos < s.len() && crate::text::is_space(s[pos]) {
        lemma_skip_spaces_bound(s, pos + 1);
    }
}

/// [`digits_end`] moves forward and stays within the input.
pub proof fn lemma_digits_end_bound(s: Seq<u8>, pos: int)
    requires
        0 <= pos <= s.len(),
    ensures
        pos <= digits_end(s, pos) <= s.len(),
    decreases s.len() - pos,
{
    if pos < s.len() && crate::text::is_digit(s[pos]) {
        lemma_digits_end_bound(s, pos + 1);
    }
}

} // verus!
