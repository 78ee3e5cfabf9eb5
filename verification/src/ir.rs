//! The intermediate representation shared by every source form and both
//! serializers: a graph of instructions with explicit successor links.

use crate::num::{big_clone, int_of};
use malachite_bigint::BigInt;
use vstd::prelude::*;

verus! {

/// Number of storages: the default one and one per tail consonant.
pub const STORAGE_COUNT: u8 = 28;

/// Storage selected by the tail consonant ieung: the queue.
pub const QUEUE_ID: u8 = 21;

/// Storage selected by the tail consonant hieut: the priority storage.
pub const PRIORITY_ID: u8 = 27;

/// The binary operations. Each pops `a`, then `b`, and pushes `b op a`.
#[derive(Clone, Copy, Debug, PartialEq, Eq, Structural)]
pub enum BinOp {
    Add,
    Sub,
    Mul,
    Div,
    Mod,
    /// Pushes 1 when `b >= a`, otherwise 0.
    Cmp,
}

/// Where an instruction came from in a source grid.
#[derive(Clone, Copy, Debug, PartialEq, Eq, Structural)]
pub struct Origin {
    pub row: usize,
    pub col: usize,
    pub ch: u32,
}

/// What an instruction does to the machine.
#[derive(Debug)]
pub enum Op {
    /// No effect; control passes to the successor.
    Nop,
    /// Pushes the literal on the active storage.
    Push(BigInt),
    /// Discards the top of the active storage.
    Pop,
    /// Pops a value and writes it in decimal.
    PopNum,
    /// Pops a value and writes the character with that code point.
    PopChar,
    /// Reads a decimal integer and pushes it.
    PushNum,
    /// Reads one character and pushes its code point.
    PushChar,
    /// Duplicates the top of the active storage.
    Dup,
    /// Exchanges the two topmost values of the active storage.
    Swap,
    /// Arithmetic or comparison on the two topmost values.
    Binary(BinOp),
    /// Makes the given storage the active one.
    Select(u8),
    /// Pops from the active storage and pushes on the given one.
    Move(u8),
    /// Pops a value; control passes to the given instruction when it is
    /// zero, and to the successor otherwise.
    Brz(usize),
    /// Stops the machine.
    Halt,
}

/// Mathematical model of an [`Op`]: the literal of a push is an `int`.
pub enum OpView {
    Nop,
    Push(int),
    Pop,
    PopNum,
    PopChar,
    PushNum,
    PushChar,
    Dup,
    Swap,
    Binary(BinOp),
    Select(u8),
    Move(u8),
    Brz(usize),
    Halt,
}

impl View for Op {
    type V = OpView;

    open spec fn view(&self) -> OpView {
        match *self {
            Op::Nop => OpView::Nop,
            Op::Push(v) => OpView::Push(int_of(v)),
            Op::Pop => OpView::Pop,
            Op::PopNum => OpView::PopNum,
            Op::PopChar => OpView::PopChar,
            Op::PushNum => OpView::PushNum,
            Op::PushChar => OpView::PushChar,
            Op::Dup => OpView::Dup,
            Op::Swap => OpView::Swap,
            Op::Binary(b) => OpView::Binary(b),
            Op::Select(s) => OpView::Select(s),
            Op::Move(s) => OpView::Move(s),
            Op::Brz(t) => OpView::Brz(t),
            Op::Halt => OpView::Halt,
        }
    }
}

impl Op {
    /// A copy of the operation with an equal model.
    pub fn duplicate(&self) -> (r: Op)
        ensures
            r@ == self@,
    {
        match self {
            Op::Nop => Op::Nop,
            Op::Push(v) => Op::Push(big_clone(v)),
            Op::Pop => Op::Pop,
            Op::PopNum => Op::PopNum,
            Op::PopChar => Op::PopChar,
            Op::PushNum => Op::PushNum,
            Op::PushChar => Op::PushChar,
            Op::Dup => Op::Dup,
            Op::Swap => Op::Swap,
            Op::Binary(b) => Op::Binary(*b),
            Op::Select(s) => Op::Select(*s),
            Op::Move(s) => Op::Move(*s),
            Op::Brz(t) => Op::Brz(*t),
            Op::Halt => Op::Halt,
        }
    }
}

/// One node of the program graph.
#[derive(Debug)]
pub struct Instr {
    pub op: Op,
    /// The instruction that runs after this one. For `Halt` it is the
    /// instruction's own index.
    pub next: usize,
    /// The grid cell this instruction was decoded from, if known.
    pub origin: Option<Origin>,
}

/// Mathematical model of an [`Instr`].
pub struct InstrView {
    pub op: OpView,
    pub next: usize,
    pub origin: Option<Origin>,
}

impl View for Instr {
    type V = InstrView;

    open spec fn view(&self) -> InstrView {
        InstrView { op: self.op@, next: self.next, origin: self.origin }
    }
}

impl Instr {
    /// A copy of the instruction with an equal model.
    pub fn duplicate(&self) -> (r: Instr)
        ensures
            r@ == self@,
    {
        Instr { op: self.op.duplicate(), next: self.next, origin: self.origin }
    }
}

impl InstrView {
    /// Whether the links and storage ids of an instruction at index `i` are
    /// valid in a program of `n` instructions.
    pub open spec fn valid_at(self, i: int, n: int) -> bool {
        &&& self.next < n
        &&& match self.op {
            OpView::Select(s) => s < STORAGE_COUNT,
            OpView::Move(s) => s < STORAGE_COUNT,
            OpView::Brz(t) => t < n,
            OpView::Halt => self.next == i,
            _ => true,
        }
    }

    /// The instruction without its provenance.
    pub open spec fn bare(self) -> InstrView {
        InstrView { op: self.op, next: self.next, origin: None }
    }
}

/// Mathematical model of a [`Program`].
pub struct ProgramView {
    pub instrs: Seq<InstrView>,
    pub entry: usize,
}

impl ProgramView {
    /// Every link points into the program, every storage id names a
    /// storage, and the entry point exists.
    pub open spec fn wf(self) -> bool {
        &&& self.entry < self.instrs.len()
        &&& self.instrs.len() <= usize::MAX
        &&& forall|i: int|
            0 <= i < self.instrs.len() ==> (#[trigger] self.instrs[i]).valid_at(
                i,
                self.instrs.len() as int,
            )
    }

    /// The program without provenance.
    pub open spec fn bare(self) -> ProgramView {
        ProgramView { instrs: self.instrs.map_values(|x: InstrView| x.bare()), entry: self.entry }
    }
}

/// The models of a sequence of instructions.
pub open spec fn instr_views(s: Seq<Instr>) -> Seq<InstrView> {
    s.map_values(|x: Instr| x@)
}

/// An executable program: instructions ordered by id, and an entry point.
#[derive(Debug)]
pub struct Program {
    instrs: Vec<Instr>,
    entry: usize,
}

impl View for Program {
    type V = ProgramView;

    closed spec fn view(&self) -> ProgramView {
        ProgramView { instrs: instr_views(self.instrs@), entry: self.entry }
    }
}

/// Executable test of [`InstrView::valid_at`].
pub fn instr_valid_at(ins: &Instr, i: usize, n: usize) -> (r: bool)
    ensures
        r == ins@.valid_at(i as int, n as int),
{
    ins.next < n && match &ins.op {
        Op::Select(s) => *s < STORAGE_COUNT,
        Op::Move(s) => *s < STORAGE_COUNT,
        Op::Brz(t) => *t < n,
        Op::Halt => ins.next == i,
        _ => true,
    }
}

impl Program {
    /// The validity that every `Program` value has.
    pub open spec fn wf(&self) -> bool {
        self@.wf()
    }

    /// Builds a program, or returns `None` when a link, a storage id or the
    /// entry point is out of range.
    pub fn new(instrs: Vec<Instr>, entry: usize) -> (r: Option<Program>)
        ensures
            r is Some <==> (ProgramView { instrs: instr_views(instrs@), entry }).wf(),
            r is Some ==> r->0@ == (ProgramView { instrs: instr_views(instrs@), entry }),
    {
        let n = instrs.len();
        if entry >= n {
            return None;
        }
        let mut i: usize = 0;
        while i < n
            invariant
                n == instrs.len(),
                i <= n,
                forall|j: int|
                    0 <= j < i ==> (#[trigger] instr_views(instrs@)[j]).valid_at(j, n as int),
            decreases n - i,
        {
            if !instr_valid_at(&instrs[i], i, n) {
                assert(instr_views(instrs@)[i as int] == instrs[i as int]@);
                return None;
            }
            assert(instr_views(instrs@)[i as int] == instrs[i as int]@);
            i += 1;
        }
        Some(Program { instrs, entry })
    }

    /// Builds a program from parts already known to be valid.
    pub(crate) fn from_valid(instrs: Vec<Instr>, entry: usize) -> (r: Program)
        requires
            (ProgramView { instrs: instr_views(instrs@), entry }).wf(),
        ensures
            r@ == (ProgramView { instrs: instr_views(instrs@), entry }),
            r.wf(),
    {
        Program { instrs, entry }
    }

    /// Number of instructions.
    pub fn len(&self) -> (n: usize)
        ensures
            n == self@.instrs.len(),
    {
        self.instrs.len()
    }

    /// Index of the instruction that runs first.
    pub fn entry(&self) -> (e: usize)
        ensures
            e == self@.entry,
    {
        self.entry
    }

    /// The instruction with the given index.
    pub fn instr(&self, i: usize) -> (r: &Instr)
        requires
            i < self@.instrs.len(),
        ensures
            r@ == self@.instrs[i as int],
    {
        &self.instrs[i]
    }

    /// A copy of the program with an equal model.
    pub fn duplicate(&self) -> (r: Program)
        ensures
            r@ == self@,
    {
        let mut out: Vec<Instr> = Vec::new();
        let mut i: usize = 0;
        while i < self.instrs.len()
            invariant
                i <= self.instrs.len(),
                out@.len() == i,
                forall|j: int| 0 <= j < i ==> (#[trigger] out@[j])@ == self.instrs@[j]@,
            decreases self.instrs.len() - i,
        {
            out.push(self.instrs[i].duplicate());
            i += 1;
        }
        assert(instr_views(out@) =~= instr_views(self.instrs@));
        Program { instrs: out, entry: self.entry }
    }
}

} // verus!
