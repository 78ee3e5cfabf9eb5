//! The execution engine: a machine that owns its program, its storages,
//! its input and what it has written, and that is advanced step by step.

use crate::ir::{BinOp, Op, Origin, Program, ProgramView, PRIORITY_ID, QUEUE_ID, STORAGE_COUNT};
use crate::num::{big_add, big_clone, big_div, big_from_usize, big_lt, big_mul, big_rem, big_sub, big_to_usize, int_of, ints_of};
use crate::semantics::{binary, divides, dup, kind_of, min_index, peek, pop, read_number, run_steps, step, swap, top_index, Fault, Kind, MachineView, RunView, StatusView, StepView};
use crate::text::{decimal, decode_scalar, is_scalar, utf8_encode, read_digits, scan_digits, scan_spaces, write_decimal, write_scalar};
use malachite_bigint::BigInt;
use vstd::prelude::*;

verus! {

/// Executable form of [`kind_of`].
pub fn storage_kind(id: u8) -> (k: Kind)
    ensures
        k == kind_of(id),
{
    if id == QUEUE_ID {
        Kind::Queue
    } else if id == PRIORITY_ID {
        Kind::Priority
    } else {
        Kind::Stack
    }
}

/// The integers held by each of a sequence of storages.
pub open spec fn stores_of(v: Seq<Vec<BigInt>>) -> Seq<Seq<int>> {
    Seq::new(v.len(), |i: int| ints_of(v[i]@))
}

/// Index of the first least element.
fn find_min(st: &Vec<BigInt>) -> (r: usize)
    requires
        st@.len() > 0,
    ensures
        r == min_index(ints_of(st@)),
        r < st@.len(),
{
    let ghost s = ints_of(st@);
    let mut best: usize = 0;
    let mut i: usize = 1;
    assert(s.take(1).len() == 1);
    while i < st.len()
        invariant
            s == ints_of(st@),
            1 <= i <= st@.len(),
            best < i,
            best == min_index(s.take(i as int)),
        decreases st@.len() - i,
    {
        proof {
            let t = s.take(i + 1);
            assert(t.drop_last() =~= s.take(i as int));
            assert(t.last() == int_of(st@[i as int]));
            assert(t[best as int] == int_of(st@[best as int]));
        }
        if big_lt(&st[i], &st[best]) {
            best = i;
        }
        i += 1;
    }
    assert(s.take(st@.len() as int) =~= s);
    best
}

/// Position of the value that comes out next.
fn top_of(k: Kind, st: &Vec<BigInt>) -> (r: usize)
    requires
        st@.len() > 0,
    ensures
        r == top_index(k, ints_of(st@)),
        r < st@.len(),
{
    match k {
        Kind::Stack => st.len() - 1,
        Kind::Queue => 0,
        Kind::Priority => find_min(st),
    }
}

/// Removes and returns the value that comes out next.
fn take_top(k: Kind, st: &mut Vec<BigInt>) -> (r: BigInt)
    requires
        old(st)@.len() > 0,
    ensures
        int_of(r) == peek(k, ints_of(old(st)@)),
        ints_of(final(st)@) == pop(k, ints_of(old(st)@)),
        final(st)@.len() + 1 == old(st)@.len(),
{
    let i = top_of(k, st);
    let r = st.remove(i);
    assert(ints_of(final(st)@) =~= ints_of(old(st)@).remove(i as int));
    r
}

/// Appends a value.
fn put(st: &mut Vec<BigInt>, v: BigInt)
    ensures
        ints_of(final(st)@) == ints_of(old(st)@).push(int_of(v)),
{
    st.push(v);
    assert(ints_of(final(st)@) =~= ints_of(old(st)@).push(int_of(v)));
}

/// Doubles the value that comes out next.
fn double_top(k: Kind, st: &mut Vec<BigInt>)
    requires
        old(st)@.len() > 0,
    ensures
        ints_of(final(st)@) == dup(k, ints_of(old(st)@)),
{
    let i = top_of(k, st);
    let c = big_clone(&st[i]);
    match k {
        Kind::Queue => {
            st.insert(0, c);
            assert(ints_of(final(st)@) =~= dup(k, ints_of(old(st)@)));
        },
        _ => {
            st.push(c);
            assert(ints_of(final(st)@) =~= dup(k, ints_of(old(st)@)));
        },
    }
}

/// Exchanges the two values that come out next.
fn exchange_top(k: Kind, st: &mut Vec<BigInt>)
    requires
        old(st)@.len() >= 2,
    ensures
        ints_of(final(st)@) == swap(k, ints_of(old(st)@)),
{
    match k {
        Kind::Stack => {
            let n = st.len();
            let a = st.remove(n - 1);
            let b = st.remove(n - 2);
            st.push(a);
            st.push(b);
            assert(ints_of(final(st)@) =~= swap(k, ints_of(old(st)@)));
        },
        Kind::Queue => {
            let a = st.remove(0);
            st.insert(1, a);
            assert(ints_of(final(st)@) =~= swap(k, ints_of(old(st)@)));
        },
        Kind::Priority => {},
    }
}

/// Computes a binary operation on `b` and `a`.
pub(crate) fn compute(op: BinOp, b: &BigInt, a: &BigInt) -> (r: BigInt)
    requires
        (op == BinOp::Div || op == BinOp::Mod) ==> int_of(*a) != 0,
    ensures
        int_of(r) == binary(op, int_of(*b), int_of(*a)),
{
    match op {
        BinOp::Add => big_add(b, a),
        BinOp::Sub => big_sub(b, a),
        BinOp::Mul => big_mul(b, a),
        BinOp::Div => big_div(b, a),
        BinOp::Mod => big_rem(b, a),
        BinOp::Cmp => if big_lt(b, a) {
            big_from_usize(0)
        } else {
            big_from_usize(1)
        },
    }
}

/// Whether a value is zero.
pub(crate) fn is_zero(v: &BigInt) -> (r: bool)
    ensures
        r == (int_of(*v) == 0),
{
    let zero = big_from_usize(0);
    !big_lt(v, &zero) && !big_lt(&zero, v)
}

/// The value as a Unicode scalar, if it is one.
fn as_scalar(v: &BigInt) -> (r: Option<u32>)
    ensures
        match r {
            Some(c) => c == int_of(*v) && is_scalar(c as int),
            None => !is_scalar(int_of(*v)),
        },
{
    match big_to_usize(v) {
        Some(x) => {
            if x < 0xD800 || (0xE000 <= x && x <= 0x10FFFF) {
                Some(x as u32)
            } else {
                None
            }
        },
        None => None,
    }
}

/// Reads a number from `input` at `pos`.
fn scan_number(input: &[u8], pos: usize) -> (r: Result<(BigInt, usize), Fault>)
    requires
        pos <= input@.len(),
    ensures
        match r {
            Ok((v, e)) => read_number(input@, pos as int) == Ok::<(int, int), Fault>(
                (int_of(v), e as int),
            ) && e <= input@.len(),
            Err(f) => read_number(input@, pos as int) == Err::<(int, int), Fault>(f),
        },
{
    let a = scan_spaces(input, pos);
    if a >= input.len() {
        return Err(Fault::UnexpectedEof);
    }
    let negative = input[a] == 45;
    let b = if negative {
        a + 1
    } else {
        a
    };
    let e = scan_digits(input, b);
    if e == b {
        return Err(Fault::MalformedInput);
    }
    let mag = read_digits(input, b, e);
    if negative {
        let zero = big_from_usize(0);
        Ok((big_sub(&zero, &mag), e))
    } else {
        Ok((mag, e))
    }
}

/// Replacing one storage replaces its integers and leaves the others.
proof fn lemma_store_update(before: Seq<Vec<BigInt>>, after: Seq<Vec<BigInt>>, a: int, s: Seq<int>)
    requires
        after.len() == before.len(),
        0 <= a < before.len(),
        forall|j: int| 0 <= j < before.len() && j != a ==> after[j] == before[j],
        ints_of(after[a]@) == s,
    ensures
        stores_of(after) == stores_of(before).update(a, s),
{
    assert(stores_of(after) =~= stores_of(before).update(a, s));
}

/// How far a run has come.
#[derive(Debug)]
pub enum Status {
    /// The machine can take another step.
    Running,
    /// The machine halted with this value.
    Halted(BigInt),
    /// The machine failed.
    Failed(Fault),
}

impl View for Status {
    type V = StatusView;

    open spec fn view(&self) -> StatusView {
        match *self {
            Status::Running => StatusView::Running,
            Status::Halted(v) => StatusView::Halted(int_of(v)),
            Status::Failed(f) => StatusView::Failed(f),
        }
    }
}

/// The state of one execution.
pub struct Machine {
    program: Program,
    pc: usize,
    active: u8,
    storages: Vec<Vec<BigInt>>,
    input: Vec<u8>,
    pos: usize,
    output: Vec<u8>,
}

impl View for Machine {
    type V = MachineView;

    closed spec fn view(&self) -> MachineView {
        MachineView {
            pc: self.pc,
            active: self.active,
            storages: stores_of(self.storages@),
            input: self.input@,
            pos: self.pos as int,
            output: self.output@,
        }
    }
}

impl Machine {
    /// The program that the machine runs.
    pub closed spec fn program(&self) -> ProgramView {
        self.program@
    }

    /// The validity that every machine has: its program is valid and its
    /// state fits the program.
    pub open spec fn wf(&self) -> bool {
        self.program().wf() && self@.wf(self.program())
    }

    /// A machine about to run `program` on `input`.
    pub fn new(program: Program, input: Vec<u8>) -> (m: Machine)
        requires
            program.wf(),
        ensures
            m.wf(),
            m.program() == program@,
            m@ == MachineView::init(program@, input@),
    {
        let mut storages: Vec<Vec<BigInt>> = Vec::new();
        let mut i: u8 = 0;
        while i < STORAGE_COUNT
            invariant
                i <= STORAGE_COUNT,
                storages@.len() == i,
                forall|j: int| 0 <= j < i ==> (#[trigger] storages@[j])@.len() == 0,
            decreases STORAGE_COUNT - i,
        {
            storages.push(Vec::new());
            i += 1;
        }
        let entry = program.entry();
        let m = Machine { program, pc: entry, active: 0, storages, input, pos: 0, output: Vec::new() };
        assert(m@.storages =~= MachineView::init(program@, input@).storages) by {
            assert forall|j: int| 0 <= j < STORAGE_COUNT implies #[trigger] m@.storages[j]
                =~= Seq::<int>::empty() by {}
        }
        m
    }

    /// Index of the instruction that runs next. After a failed step it is
    /// the instruction that failed.
    pub fn pc(&self) -> (r: usize)
        ensures
            r == self@.pc,
    {
        self.pc
    }

    /// Where the instruction that runs next came from, if that is known.
    pub fn origin(&self) -> (r: Option<Origin>)
        requires
            self.wf(),
        ensures
            r == self.program().instrs[self@.pc as int].origin,
    {
        self.program.instr(self.pc).origin
    }

    /// Everything written so far.
    pub fn output(&self) -> (r: &Vec<u8>)
        ensures
            r@ == self@.output,
    {
        &self.output
    }

    /// Number of values in the active storage.
    fn depth(&self) -> (n: usize)
        requires
            self.wf(),
        ensures
            n == self@.cur().len(),
    {
        self.storages[self.active as usize].len()
    }

    /// Pushes `x` on the active storage and passes control on.
    fn op_push(&mut self, x: BigInt, pos: usize, next: usize)
        requires
            old(self).wf(),
            next < old(self).program().instrs.len(),
            pos <= old(self).input@.len(),
        ensures
            final(self).wf(),
            final(self).program() == old(self).program(),
            final(self)@ == (MachineView {
                pos: pos as int,
                ..old(self)@.with_cur(old(self)@.cur().push(int_of(x))).goto(next)
            }),
    {
        let a = self.active as usize;
        put(&mut self.storages[a], x);
        self.pos = pos;
        self.pc = next;
        proof {
            lemma_store_update(
                old(self).storages@,
                self.storages@,
                a as int,
                old(self)@.cur().push(int_of(x)),
            );
        }
    }

    /// Removes the next value of the active storage and passes control on.
    fn op_take(&mut self, next: usize) -> (v: BigInt)
        requires
            old(self).wf(),
            next < old(self).program().instrs.len(),
            old(self)@.cur().len() > 0,
        ensures
            final(self).wf(),
            final(self).program() == old(self).program(),
            int_of(v) == peek(old(self)@.kind(), old(self)@.cur()),
            final(self)@ == old(self)@.with_cur(pop(old(self)@.kind(), old(self)@.cur())).goto(
                next,
            ),
    {
        let a = self.active as usize;
        let k = storage_kind(self.active);
        let v = take_top(k, &mut self.storages[a]);
        self.pc = next;
        proof {
            lemma_store_update(
                old(self).storages@,
                self.storages@,
                a as int,
                pop(k, old(self)@.cur()),
            );
        }
        v
    }

    /// A copy of the next value of the active storage.
    fn top(&self) -> (v: BigInt)
        requires
            self.wf(),
            self@.cur().len() > 0,
        ensures
            int_of(v) == peek(self@.kind(), self@.cur()),
    {
        let a = self.active as usize;
        let k = storage_kind(self.active);
        let i = top_of(k, &self.storages[a]);
        big_clone(&self.storages[a][i])
    }

    /// Writes the next value as a number.
    fn op_pop_num(&mut self, next: usize) -> (r: Status)
        requires
            old(self).wf(),
            next < old(self).program().instrs.len(),
            old(self)@.cur().len() > 0,
        ensures
            final(self).wf(),
            final(self).program() == old(self).program(),
            r@ is Running,
            final(self)@ == old(self)@.with_cur(pop(old(self)@.kind(), old(self)@.cur())).emit(
                decimal(peek(old(self)@.kind(), old(self)@.cur())),
            ).goto(next),
    {
        let v = self.op_take(next);
        write_decimal(&v, &mut self.output);
        Status::Running
    }

    /// Writes the next value as a character.
    fn op_pop_char(&mut self, next: usize) -> (r: Status)
        requires
            old(self).wf(),
            next < old(self).program().instrs.len(),
            old(self)@.cur().len() > 0,
        ensures
            final(self).wf(),
            final(self).program() == old(self).program(),
            match r@ {
                StatusView::Running => is_scalar(peek(old(self)@.kind(), old(self)@.cur()))
                    && final(self)@ == old(self)@.with_cur(
                    pop(old(self)@.kind(), old(self)@.cur()),
                ).emit(utf8_encode(peek(old(self)@.kind(), old(self)@.cur()))).goto(next),
                StatusView::Failed(f) => f == Fault::InvalidCharacter && !is_scalar(
                    peek(old(self)@.kind(), old(self)@.cur()),
                ) && final(self)@ == old(self)@,
                StatusView::Halted(_) => false,
            },
    {
        let v = self.top();
        match as_scalar(&v) {
            None => Status::Failed(Fault::InvalidCharacter),
            Some(c) => {
                let _ = self.op_take(next);
                write_scalar(c, &mut self.output);
                Status::Running
            },
        }
    }

    /// Doubles or exchanges the next values.
    fn op_shuffle(&mut self, exchange: bool, next: usize)
        requires
            old(self).wf(),
            next < old(self).program().instrs.len(),
            old(self)@.cur().len() >= (if exchange {
                2nat
            } else {
                1nat
            }),
        ensures
            final(self).wf(),
            final(self).program() == old(self).program(),
            final(self)@ == old(self)@.with_cur(
                if exchange {
                    swap(old(self)@.kind(), old(self)@.cur())
                } else {
                    dup(old(self)@.kind(), old(self)@.cur())
                },
            ).goto(next),
    {
        let a = self.active as usize;
        let k = storage_kind(self.active);
        if exchange {
            exchange_top(k, &mut self.storages[a]);
        } else {
            double_top(k, &mut self.storages[a]);
        }
        self.pc = next;
        proof {
            lemma_store_update(
                old(self).storages@,
                self.storages@,
                a as int,
                if exchange {
                    swap(k, old(self)@.cur())
                } else {
                    dup(k, old(self)@.cur())
                },
            );
        }
    }

    /// Arithmetic or comparison on the two next values.
    fn op_binary(&mut self, op: BinOp, next: usize) -> (r: Status)
        requires
            old(self).wf(),
            next < old(self).program().instrs.len(),
            old(self)@.cur().len() >= 2,
        ensures
            final(self).wf(),
            final(self).program() == old(self).program(),
            ({
                let k = old(self)@.kind();
                let s = old(self)@.cur();
                let x = peek(k, s);
                let s1 = pop(k, s);
                let y = peek(k, s1);
                let s2 = pop(k, s1);
                match r@ {
                    StatusView::Running => !(divides(op) && x == 0) && final(self)@ == old(
                        self,
                    )@.with_cur(s2.push(binary(op, y, x))).goto(next),
                    StatusView::Failed(f) => f == Fault::DivisionByZero && divides(op) && x == 0
                        && final(self)@ == old(self)@,
                    StatusView::Halted(_) => false,
                }
            }),
    {
        let a = self.active as usize;
        let k = storage_kind(self.active);
        let i = top_of(k, &self.storages[a]);
        if (op == BinOp::Div || op == BinOp::Mod) && is_zero(&self.storages[a][i]) {
            return Status::Failed(Fault::DivisionByZero);
        }
        let x = take_top(k, &mut self.storages[a]);
        let y = take_top(k, &mut self.storages[a]);
        let z = compute(op, &y, &x);
        put(&mut self.storages[a], z);
        self.pc = next;
        proof {
            let s1 = pop(k, old(self)@.cur());
            let s2 = pop(k, s1);
            lemma_store_update(
                old(self).storages@,
                self.storages@,
                a as int,
                s2.push(binary(op, peek(k, s1), peek(k, old(self)@.cur()))),
            );
        }
        Status::Running
    }

    /// Moves the next value to storage `t`.
    fn op_move(&mut self, t: u8, next: usize)
        requires
            old(self).wf(),
            next < old(self).program().instrs.len(),
            t < STORAGE_COUNT,
            old(self)@.cur().len() > 0,
        ensures
            final(self).wf(),
            final(self).program() == old(self).program(),
            ({
                let k = old(self)@.kind();
                let s = old(self)@.cur();
                let m1 = old(self)@.with_cur(pop(k, s));
                final(self)@ == (MachineView {
                    storages: m1.storages.update(t as int, m1.storages[t as int].push(peek(k, s))),
                    ..m1.goto(next)
                })
            }),
    {
        let v = self.op_take(next);
        let ghost mid = self.storages@;
        put(&mut self.storages[t as usize], v);
        proof {
            lemma_store_update(
                mid,
                self.storages@,
                t as int,
                stores_of(mid)[t as int].push(int_of(v)),
            );
        }
    }

    /// Takes one step. The result tells whether the machine went on, halted
    /// or failed; in the last two cases its state is unchanged.
    pub fn step(&mut self) -> (r: Status)
        requires
            old(self).wf(),
        ensures
            final(self).wf(),
            final(self).program() == old(self).program(),
            match r@ {
                StatusView::Running => step(old(self).program(), old(self)@) == StepView::Next(
                    final(self)@,
                ),
                StatusView::Halted(v) => step(old(self).program(), old(self)@) == StepView::Halt(v)
                    && final(self)@ == old(self)@,
                StatusView::Failed(f) => step(old(self).program(), old(self)@) == StepView::Fail(f)
                    && final(self)@ == old(self)@,
            },
    {
        let depth = self.depth();
        proof {
            let p = self.program@;
            assert(p.instrs[self.pc as int].valid_at(self.pc as int, p.instrs.len() as int));
        }
        let ins = self.program.instr(self.pc);
        let next = ins.next;
        match &ins.op {
            Op::Nop => {
                self.pc = next;
                Status::Running
            },
            Op::Push(v) => {
                let x = big_clone(v);
                let pos = self.pos;
                self.op_push(x, pos, next);
                Status::Running
            },
            Op::Pop => {
                if depth == 0 {
                    return Status::Failed(Fault::EmptyStorage);
                }
                let _ = self.op_take(next);
                Status::Running
            },
            Op::PopNum => {
                if depth == 0 {
                    return Status::Failed(Fault::EmptyStorage);
                }
                self.op_pop_num(next)
            },
            Op::PopChar => {
                if depth == 0 {
                    return Status::Failed(Fault::EmptyStorage);
                }
                self.op_pop_char(next)
            },
            Op::PushNum => {
                match scan_number(self.input.as_slice(), self.pos) {
                    Err(f) => Status::Failed(f),
                    Ok((v, e)) => {
                        proof {
                            crate::semantics::lemma_step_wf(self.program@, self@);
                        }
                        self.op_push(v, e, next);
                        Status::Running
                    },
                }
            },
            Op::PushChar => {
                if self.pos >= self.input.len() {
                    return Status::Failed(Fault::UnexpectedEof);
                }
                match decode_scalar(self.input.as_slice(), self.pos) {
                    None => Status::Failed(Fault::MalformedInput),
                    Some((c, w)) => {
                        let v = big_from_usize(c as usize);
                        let e = self.pos + w;
                        self.op_push(v, e, next);
                        Status::Running
                    },
                }
            },
            Op::Dup => {
                if depth == 0 {
                    return Status::Failed(Fault::EmptyStorage);
                }
                self.op_shuffle(false, next);
                Status::Running
            },
            Op::Swap => {
                if depth < 2 {
                    return Status::Failed(Fault::EmptyStorage);
                }
                self.op_shuffle(true, next);
                Status::Running
            },
            Op::Binary(op) => {
                if depth < 2 {
                    return Status::Failed(Fault::EmptyStorage);
                }
                let op = *op;
                self.op_binary(op, next)
            },
            Op::Select(t) => {
                self.active = *t;
                self.pc = next;
                Status::Running
            },
            Op::Move(t) => {
                if depth == 0 {
                    return Status::Failed(Fault::EmptyStorage);
                }
                let t = *t;
                self.op_move(t, next);
                Status::Running
            },
            Op::Brz(t) => {
                if depth == 0 {
                    return Status::Failed(Fault::EmptyStorage);
                }
                let t = *t;
                let v = self.top();
                let target = if is_zero(&v) {
                    t
                } else {
                    next
                };
                let _ = self.op_take(target);
                Status::Running
            },
            Op::Halt => {
                if depth == 0 {
                    Status::Halted(big_from_usize(0))
                } else {
                    Status::Halted(self.top())
                }
            },
        }
    }

    /// Takes steps until the machine halts or fails, but no more than
    /// `budget` of them.
    pub fn run(&mut self, budget: u64) -> (r: Status)
        requires
            old(self).wf(),
        ensures
            final(self).wf(),
            final(self).program() == old(self).program(),
            run_steps(old(self).program(), old(self)@, budget as nat) == (RunView {
                machine: final(self)@,
                status: r@,
            }),
    {
        let mut left: u64 = budget;
        while left > 0
            invariant
                self.wf(),
                self.program() == old(self).program(),
                run_steps(old(self).program(), old(self)@, budget as nat) == run_steps(
                    self.program(),
                    self@,
                    left as nat,
                ),
            decreases left,
        {
            let r = self.step();
            match r {
                Status::Running => {},
                _ => {
                    return r;
                },
            }
            left -= 1;
        }
        Status::Running
    }
}

} // verus!
