//! The optimizer's transformations as functions on programs, and what
//! each of them keeps.

use crate::equivalence::{equivalent, finished, finishes, keeps_up, lemma_finishes_after, lemma_prefix_trans, lemma_refinement, lemma_refinement_stream, lemma_run_add, lemma_written_grows, refinement, refines_at, written};
use crate::ir::{InstrView, OpView, ProgramView};
use crate::cli::Opt;
use crate::semantics::{binary, divides, kind_of, lemma_step_wf, peek, pop, run_steps, step, step_instr, Kind, MachineView, RunView, StatusView, StepView};
use crate::equivalence::{lemma_equivalent_refl, lemma_equivalent_sym, lemma_equivalent_trans};
use vstd::prelude::*;

verus! {

/// The operation with the target of a branch replaced by `g` of it.
pub open spec fn relink_op(op: OpView, g: spec_fn(usize) -> usize) -> OpView {
    match op {
        OpView::Brz(t) => OpView::Brz(g(t)),
        _ => op,
    }
}

/// The instruction with each of its links replaced by `g` of it.
pub open spec fn relink_instr(ins: InstrView, g: spec_fn(usize) -> usize) -> InstrView {
    InstrView { op: relink_op(ins.op, g), next: g(ins.next), origin: ins.origin }
}

/// The result of a step with control passed to `g` of where it went.
pub open spec fn relabel(s: StepView, g: spec_fn(usize) -> usize) -> StepView {
    match s {
        StepView::Next(m) => StepView::Next(m.goto(g(m.pc))),
        _ => s,
    }
}

/// An instruction with replaced links does what the instruction does, and
/// passes control to the replaced link.
pub proof fn lemma_step_relink(ins: InstrView, g: spec_fn(usize) -> usize, m: MachineView)
    ensures
        step_instr(relink_instr(ins, g), m) == relabel(step_instr(ins, m), g),
{
}

/// Greatest number of no-operation instructions that one link skips.
pub const HOP_LIMIT: usize = 4096;

/// The instruction reached from `j` by passing over no-operation
/// instructions, at most `k` of them.
pub open spec fn skip(p: ProgramView, j: usize, k: nat) -> usize
    decreases k,
{
    if k == 0 || j >= p.instrs.len() || !(p.instrs[j as int].op is Nop) {
        j
    } else {
        skip(p, p.instrs[j as int].next, (k - 1) as nat)
    }
}

/// Number of no-operation instructions passed over by [`skip`].
pub open spec fn hops(p: ProgramView, j: usize, k: nat) -> nat
    decreases k,
{
    if k == 0 || j >= p.instrs.len() || !(p.instrs[j as int].op is Nop) {
        0
    } else {
        1 + hops(p, p.instrs[j as int].next, (k - 1) as nat)
    }
}

/// Where a link to `j` leads once chains of no-operation instructions are
/// collapsed.
pub open spec fn resolve(p: ProgramView, j: usize) -> usize {
    skip(p, j, HOP_LIMIT as nat)
}

/// The program with every link passed over chains of no-operation
/// instructions. No instruction is removed or renumbered.
pub open spec fn collapse(p: ProgramView) -> ProgramView {
    ProgramView {
        instrs: Seq::new(
            p.instrs.len(),
            |i: int| relink_instr(p.instrs[i], |j: usize| resolve(p, j)),
        ),
        entry: resolve(p, p.entry),
    }
}

/// Passing over no-operation instructions stays within a valid program.
pub proof fn lemma_skip_range(p: ProgramView, j: usize, k: nat)
    requires
        p.wf(),
        j < p.instrs.len(),
    ensures
        skip(p, j, k) < p.instrs.len(),
    decreases k,
{
    if !(k == 0 || !(p.instrs[j as int].op is Nop)) {
        assert(p.instrs[j as int].valid_at(j as int, p.instrs.len() as int));
        lemma_skip_range(p, p.instrs[j as int].next, (k - 1) as nat);
    }
}

/// Passing over an instruction that is no no-operation goes nowhere.
pub proof fn lemma_skip_stays(p: ProgramView, j: usize, k: nat)
    requires
        j < p.instrs.len(),
        !(p.instrs[j as int].op is Nop),
    ensures
        skip(p, j, k) == j,
{
}

/// Running over a chain of no-operation instructions changes nothing but
/// the instruction that runs next.
pub proof fn lemma_nop_run(p: ProgramView, m: MachineView, k: nat)
    requires
        m.pc < p.instrs.len(),
    ensures
        run_steps(p, m, hops(p, m.pc, k)) == (RunView {
            machine: m.goto(skip(p, m.pc, k)),
            status: StatusView::Running,
        }),
    decreases k,
{
    if k == 0 || !(p.instrs[m.pc as int].op is Nop) {
        assert(m.goto(m.pc) == m);
    } else {
        let m2 = m.goto(p.instrs[m.pc as int].next);
        assert(step(p, m) == StepView::Next(m2));
        if m2.pc < p.instrs.len() {
            lemma_nop_run(p, m2, (k - 1) as nat);
            assert(m2.goto(skip(p, m2.pc, (k - 1) as nat)) == m.goto(skip(p, m.pc, k)));
        } else {
            assert(skip(p, m2.pc, (k - 1) as nat) == m2.pc);
            assert(hops(p, m2.pc, (k - 1) as nat) == 0);
            assert(m2.goto(m2.pc) == m2);
        }
    }
}

/// Collapsing keeps a valid program valid.
pub proof fn lemma_collapse_wf(p: ProgramView)
    requires
        p.wf(),
    ensures
        collapse(p).wf(),
        collapse(p).instrs.len() == p.instrs.len(),
{
    let q = collapse(p);
    let n = p.instrs.len() as int;
    lemma_skip_range(p, p.entry, HOP_LIMIT as nat);
    assert forall|i: int| 0 <= i < n implies (#[trigger] q.instrs[i]).valid_at(i, n) by {
        let ins = p.instrs[i];
        assert(ins.valid_at(i, n));
        lemma_skip_range(p, ins.next, HOP_LIMIT as nat);
        match ins.op {
            OpView::Brz(t) => {
                lemma_skip_range(p, t, HOP_LIMIT as nat);
            },
            OpView::Halt => {
                lemma_skip_stays(p, i as usize, HOP_LIMIT as nat);
            },
            _ => {},
        }
    }
}

/// One step of the collapsed program is one step of the program followed
/// by the no-operation instructions that the link passes over.
pub proof fn lemma_collapse_refines(p: ProgramView)
    requires
        p.wf(),
    ensures
        refinement(p, collapse(p), |m: MachineView| m.wf(p)),
{
    let q = collapse(p);
    let inv = |m: MachineView| m.wf(p);
    let g = |j: usize| resolve(p, j);
    assert forall|m: MachineView| #[trigger] inv(m) implies refines_at(p, q, m) && (!finished(
        run_steps(q, m, 1),
    ) ==> inv(run_steps(q, m, 1).machine)) by {
        let ins = p.instrs[m.pc as int];
        assert(q.instrs[m.pc as int] == relink_instr(ins, g));
        lemma_step_relink(ins, g, m);
        lemma_step_wf(p, m);
        assert(run_steps(q, m, 0).status is Running);
        assert(run_steps(p, m, 0).status is Running);
        match step(p, m) {
            StepView::Next(m2) => {
                let h = hops(p, m2.pc, HOP_LIMIT as nat);
                lemma_nop_run(p, m2, HOP_LIMIT as nat);
                lemma_skip_range(p, m2.pc, HOP_LIMIT as nat);
                let m3 = m2.goto(g(m2.pc));
                assert(step(q, m) == StepView::Next(m3));
                assert(run_steps(q, m3, 0).machine == m3);
                assert(run_steps(q, m, 1) == RunView { machine: m3, status: StatusView::Running });
                lemma_run_add(p, m, 1, h);
                assert(run_steps(p, m2, 0).machine == m2);
                assert(run_steps(p, m, 1) == RunView { machine: m2, status: StatusView::Running });
                assert(run_steps(p, m, 1 + h) == run_steps(q, m, 1));
            },
            _ => {
                assert(run_steps(p, m, 1) == run_steps(q, m, 1));
            },
        }
    }
}

/// Collapsing chains of no-operation instructions gives an equivalent
/// program.
pub proof fn lemma_collapse_equivalent(p: ProgramView)
    requires
        p.wf(),
    ensures
        equivalent(p, collapse(p)),
{
    let q = collapse(p);
    let inv = |m: MachineView| m.wf(p);
    lemma_collapse_refines(p);
    lemma_skip_range(p, p.entry, HOP_LIMIT as nat);
    assert forall|input: Seq<u8>, st: StatusView, out: Seq<u8>|
        crate::equivalence::behaves(p, input, st, out) == crate::equivalence::behaves(
            q,
            input,
            st,
            out,
        ) by {
        let m0 = MachineView::init(p, input);
        let m1 = MachineView::init(q, input);
        assert(m1 == m0.goto(q.entry));
        lemma_nop_run(p, m0, HOP_LIMIT as nat);
        lemma_finishes_after(p, m0, hops(p, p.entry, HOP_LIMIT as nat), st, out);
        assert(inv(m1));
        lemma_refinement(p, q, inv, m1, st, out);
    }
    assert forall|input: Seq<u8>, n: nat| keeps_up(p, q, input, n) && keeps_up(q, p, input, n) by {
        let m0 = MachineView::init(p, input);
        let m1 = MachineView::init(q, input);
        let h = hops(p, p.entry, HOP_LIMIT as nat);
        assert(m1 == m0.goto(q.entry));
        assert(inv(m1));
        lemma_nop_run(p, m0, HOP_LIMIT as nat);
        lemma_refinement_stream(p, q, inv, m1, n);
        lemma_written_grows(p, m0, n, h + n);
        lemma_run_add(p, m0, h, n);
        let k = choose|k: nat| written(p, m1, n).is_prefix_of(#[trigger] written(q, m1, k));
        lemma_prefix_trans(written(p, m0, n), written(p, m1, n), written(q, m1, k));
        let k2 = choose|k: nat| written(q, m1, n).is_prefix_of(#[trigger] written(p, m1, k));
        lemma_run_add(p, m0, h, k2);
        assert(written(q, m1, n).is_prefix_of(written(p, m0, h + k2)));
    }
}

/// Whether control can pass from instruction `i` straight to `j`.
pub open spec fn is_succ(p: ProgramView, i: usize, j: usize) -> bool {
    i < p.instrs.len() && (p.instrs[i as int].next == j || p.instrs[i as int].op == OpView::Brz(j))
}

/// Whether `j` is reached from the entry point over at most `k` links.
pub open spec fn reach_in(p: ProgramView, j: usize, k: nat) -> bool
    decreases k,
{
    if k == 0 {
        j == p.entry
    } else {
        reach_in(p, j, (k - 1) as nat) || exists|i: usize|
            reach_in(p, i, (k - 1) as nat) && #[trigger] is_succ(p, i, j)
    }
}

/// Whether `j` is reached from the entry point over links.
pub open spec fn reachable(p: ProgramView, j: usize) -> bool {
    exists|k: nat| reach_in(p, j, k)
}

/// For each instruction, whether it is reachable.
pub open spec fn reach_set(p: ProgramView) -> Seq<bool> {
    Seq::new(p.instrs.len(), |i: int| reachable(p, i as usize))
}

/// Number of kept instructions with an index below `i`.
pub open spec fn rank(keep: Seq<bool>, i: int) -> int
    decreases i,
{
    if i <= 0 {
        0
    } else {
        rank(keep, i - 1) + if keep[i - 1] {
            1int
        } else {
            0int
        }
    }
}

/// The indices below `n` of the kept instructions, in order.
pub open spec fn kept(keep: Seq<bool>, n: int) -> Seq<usize>
    decreases n,
{
    if n <= 0 {
        Seq::empty()
    } else if keep[n - 1] {
        kept(keep, n - 1).push((n - 1) as usize)
    } else {
        kept(keep, n - 1)
    }
}

/// The new index of each instruction: its rank among the kept ones.
pub open spec fn renumber(keep: Seq<bool>) -> spec_fn(usize) -> usize {
    |j: usize| rank(keep, j as int) as usize
}

/// The program made of the kept instructions, in order, with every link
/// renumbered.
pub open spec fn compact_with(p: ProgramView, keep: Seq<bool>) -> ProgramView {
    ProgramView {
        instrs: kept(keep, p.instrs.len() as int).map_values(
            |x: usize| relink_instr(p.instrs[x as int], renumber(keep)),
        ),
        entry: rank(keep, p.entry as int) as usize,
    }
}

/// The program without the instructions that cannot be reached from the
/// entry point.
pub open spec fn compact(p: ProgramView) -> ProgramView {
    compact_with(p, reach_set(p))
}

/// Whether the kept instructions hold the entry point and every successor
/// of a kept instruction.
pub open spec fn closed(p: ProgramView, keep: Seq<bool>) -> bool {
    &&& keep.len() == p.instrs.len()
    &&& keep[p.entry as int]
    &&& forall|i: usize, j: usize|
        i < keep.len() && keep[i as int] && #[trigger] is_succ(p, i, j) ==> keep[j as int]
}

/// Ranks grow with the index, and by one over each kept instruction.
pub proof fn lemma_rank(keep: Seq<bool>, i: int, n: int)
    requires
        0 <= i <= n,
    ensures
        0 <= rank(keep, i) <= i,
        rank(keep, i) <= rank(keep, n),
        i < n && keep[i] ==> rank(keep, i) < rank(keep, n),
    decreases n,
{
    if i < n {
        lemma_rank(keep, i, n - 1);
    }
    lemma_rank_least(keep, i);
}

/// A rank is between zero and the index.
pub proof fn lemma_rank_least(keep: Seq<bool>, i: int)
    ensures
        0 <= rank(keep, i),
        i >= 0 ==> rank(keep, i) <= i,
    decreases i,
{
    if i > 0 {
        lemma_rank_least(keep, i - 1);
    }
}

/// The kept indices are as many as the rank says, each stands at its rank,
/// and each is kept.
pub proof fn lemma_kept(keep: Seq<bool>, n: int)
    requires
        0 <= n <= keep.len(),
        n <= usize::MAX,
    ensures
        kept(keep, n).len() == rank(keep, n),
        forall|i: int| 0 <= i < n && keep[i] ==> kept(keep, n)[#[trigger] rank(keep, i)] == i,
        forall|k: int|
            0 <= k < kept(keep, n).len() ==> 0 <= #[trigger] kept(keep, n)[k] < n && keep[kept(
                keep,
                n,
            )[k] as int],
    decreases n,
{
    if n > 0 {
        lemma_kept(keep, n - 1);
        assert forall|i: int| 0 <= i < n && keep[i] implies kept(keep, n)[#[trigger] rank(keep, i)]
            == i by {
            lemma_rank(keep, i, n - 1);
        }
    }
}

/// Where control is makes no difference to what an instruction does.
pub proof fn lemma_step_anywhere(ins: InstrView, m: MachineView, pc: usize)
    ensures
        step_instr(ins, m.goto(pc)) == step_instr(ins, m),
{
}

/// A step passes control to a successor.
pub proof fn lemma_step_succ(p: ProgramView, m: MachineView)
    requires
        m.pc < p.instrs.len(),
    ensures
        step(p, m) is Next ==> is_succ(p, m.pc, step(p, m)->Next_0.pc),
{
}

/// A run with control renumbered.
pub open spec fn renumbered(r: RunView, g: spec_fn(usize) -> usize) -> RunView {
    RunView { machine: r.machine.goto(g(r.machine.pc)), status: r.status }
}

/// Compacting a valid program over a closed set of instructions gives a
/// valid program.
pub proof fn lemma_compact_wf(p: ProgramView, keep: Seq<bool>)
    requires
        p.wf(),
        closed(p, keep),
    ensures
        compact_with(p, keep).wf(),
{
    let q = compact_with(p, keep);
    let n = p.instrs.len() as int;
    let ks = kept(keep, n);
    let g = renumber(keep);
    lemma_kept(keep, n);
    lemma_rank(keep, p.entry as int, n);
    assert forall|k: int| 0 <= k < q.instrs.len() implies (#[trigger] q.instrs[k]).valid_at(
        k,
        q.instrs.len() as int,
    ) by {
        let i = ks[k];
        let ins = p.instrs[i as int];
        assert(ins.valid_at(i as int, n));
        assert(q.instrs[k] == relink_instr(ins, g));
        assert(is_succ(p, i, ins.next));
        lemma_rank(keep, ins.next as int, n);
        match ins.op {
            OpView::Brz(t) => {
                assert(is_succ(p, i, t));
                lemma_rank(keep, t as int, n);
            },
            OpView::Halt => {
                lemma_rank(keep, i as int, n);
                assert(ks[rank(keep, i as int)] == i);
                lemma_kept_distinct(keep, n, k, rank(keep, i as int));
            },
            _ => {},
        }
    }
    lemma_rank(keep, n, n);
}

/// The kept indices grow, so each stands at one place only.
pub proof fn lemma_kept_distinct(keep: Seq<bool>, n: int, a: int, b: int)
    requires
        0 <= n <= keep.len(),
        n <= usize::MAX,
        0 <= a < kept(keep, n).len(),
        0 <= b < kept(keep, n).len(),
        kept(keep, n)[a] == kept(keep, n)[b],
    ensures
        a == b,
    decreases n,
{
    if n > 0 {
        lemma_kept(keep, n - 1);
        lemma_kept(keep, n);
        let prev = kept(keep, n - 1);
        if keep[n - 1] {
            if a < prev.len() && b < prev.len() {
                lemma_kept_distinct(keep, n - 1, a, b);
            }
        } else {
            lemma_kept_distinct(keep, n - 1, a, b);
        }
    }
}

/// The compacted program runs as the program does, step for step, with
/// control renumbered.
pub proof fn lemma_compact_run(p: ProgramView, keep: Seq<bool>, m: MachineView, n: nat)
    requires
        p.wf(),
        closed(p, keep),
        m.wf(p),
        keep[m.pc as int],
    ensures
        run_steps(compact_with(p, keep), m.goto(renumber(keep)(m.pc)), n) == renumbered(
            run_steps(p, m, n),
            renumber(keep),
        ),
    decreases n,
{
    let q = compact_with(p, keep);
    let g = renumber(keep);
    let len = p.instrs.len() as int;
    if n > 0 {
        let ins = p.instrs[m.pc as int];
        let m1 = m.goto(g(m.pc));
        lemma_kept(keep, len);
        lemma_rank(keep, m.pc as int, len);
        assert(kept(keep, len)[rank(keep, m.pc as int)] == m.pc);
        assert(q.instrs[m1.pc as int] == relink_instr(ins, g));
        lemma_step_relink(ins, g, m1);
        lemma_step_anywhere(ins, m, g(m.pc));
        lemma_step_wf(p, m);
        lemma_step_succ(p, m);
        match step(p, m) {
            StepView::Next(m2) => {
                assert(is_succ(p, m.pc, m2.pc));
                lemma_compact_run(p, keep, m2, (n - 1) as nat);
            },
            _ => {},
        }
    }
}

/// Compacting a valid program over a closed set of instructions gives an
/// equivalent program.
pub proof fn lemma_compact_equivalent(p: ProgramView, keep: Seq<bool>)
    requires
        p.wf(),
        closed(p, keep),
    ensures
        equivalent(p, compact_with(p, keep)),
{
    let q = compact_with(p, keep);
    let g = renumber(keep);
    assert forall|input: Seq<u8>, st: StatusView, out: Seq<u8>|
        crate::equivalence::behaves(p, input, st, out) == crate::equivalence::behaves(
            q,
            input,
            st,
            out,
        ) by {
        let m0 = MachineView::init(p, input);
        let m1 = MachineView::init(q, input);
        assert(m1 == m0.goto(g(m0.pc)));
        if finishes(p, m0, st, out) {
            let n = choose|n: nat|
                (#[trigger] run_steps(p, m0, n)).status == st && run_steps(
                    p,
                    m0,
                    n,
                ).machine.output == out;
            lemma_compact_run(p, keep, m0, n);
            assert(run_steps(q, m1, n).status == st);
        }
        if finishes(q, m1, st, out) {
            let n = choose|n: nat|
                (#[trigger] run_steps(q, m1, n)).status == st && run_steps(
                    q,
                    m1,
                    n,
                ).machine.output == out;
            lemma_compact_run(p, keep, m0, n);
            assert(run_steps(p, m0, n).status == st);
        }
    }
    assert forall|input: Seq<u8>, n: nat| keeps_up(p, q, input, n) && keeps_up(q, p, input, n) by {
        let m0 = MachineView::init(p, input);
        let m1 = MachineView::init(q, input);
        assert(m1 == m0.goto(g(m0.pc)));
        lemma_compact_run(p, keep, m0, n);
        lemma_written_grows(p, m0, n, n);
        assert(written(q, m1, n) == written(p, m0, n));
    }
}

/// The reachable instructions hold the entry point and every successor of
/// a reachable instruction.
pub proof fn lemma_reach_closed(p: ProgramView)
    requires
        p.wf(),
    ensures
        closed(p, reach_set(p)),
{
    let keep = reach_set(p);
    assert(reach_in(p, p.entry, 0));
    assert forall|i: usize, j: usize|
        i < keep.len() && keep[i as int] && #[trigger] is_succ(p, i, j) implies keep[j as int] by {
        let k = choose|k: nat| reach_in(p, i, k);
        assert(reach_in(p, j, k + 1));
        assert(p.instrs[i as int].valid_at(i as int, p.instrs.len() as int));
    }
}

/// Removing the unreachable instructions of a valid program gives a valid
/// and equivalent program.
pub proof fn lemma_compact(p: ProgramView)
    requires
        p.wf(),
    ensures
        compact(p).wf(),
        equivalent(p, compact(p)),
{
    lemma_reach_closed(p);
    lemma_compact_wf(p, reach_set(p));
    lemma_compact_equivalent(p, reach_set(p));
}

/// Whether instruction `i` selects a storage that is no stack.
pub open spec fn leaves_other(p: ProgramView, i: usize) -> bool {
    i < p.instrs.len() && match p.instrs[i as int].op {
        OpView::Select(s) => kind_of(s) != Kind::Stack,
        _ => false,
    }
}

/// Whether instruction `i` leaves the active storage as it found it.
pub open spec fn passes_on(p: ProgramView, i: usize) -> bool {
    i < p.instrs.len() && !(p.instrs[i as int].op is Select)
}

/// Whether, over at most `k` further links, control can come to `j` from
/// an instruction that selects a storage that is no stack, without
/// another selection on the way.
pub open spec fn tainted_in(p: ProgramView, j: usize, k: nat) -> bool
    decreases k,
{
    if k == 0 {
        exists|i: usize| leaves_other(p, i) && #[trigger] is_succ(p, i, j)
    } else {
        tainted_in(p, j, (k - 1) as nat) || exists|i: usize|
            tainted_in(p, i, (k - 1) as nat) && passes_on(p, i) && #[trigger] is_succ(p, i, j)
    }
}

/// Whether the active storage may be no stack when control comes to `j`.
/// Where this is false, the active storage is a stack whenever `j` runs.
pub open spec fn tainted(p: ProgramView, j: usize) -> bool {
    exists|k: nat| tainted_in(p, j, k)
}

/// For each instruction, whether the active storage may be no stack when
/// it runs.
pub open spec fn taint_set(p: ProgramView) -> Seq<bool> {
    Seq::new(p.instrs.len(), |j: int| tainted(p, j as usize))
}

/// The instruction that replaces instruction `i`: a push followed by a
/// pop becomes a no-operation; a push followed by a push and a binary
/// operation that cannot fail becomes the push of the result; any other
/// instruction stays.
pub open spec fn rewrite(p: ProgramView, i: int) -> InstrView {
    let a = p.instrs[i];
    match a.op {
        OpView::Push(x) => {
            let b = p.instrs[a.next as int];
            match b.op {
                OpView::Pop => InstrView { op: OpView::Nop, next: b.next, origin: a.origin },
                OpView::Push(y) => {
                    let c = p.instrs[b.next as int];
                    match c.op {
                        OpView::Binary(op) => if divides(op) && y == 0 {
                            a
                        } else {
                            InstrView {
                                op: OpView::Push(binary(op, x, y)),
                                next: c.next,
                                origin: a.origin,
                            }
                        },
                        _ => a,
                    }
                },
                _ => a,
            }
        },
        _ => a,
    }
}

/// The program with every instruction rewritten that runs on a stack for
/// certain. No instruction is removed or renumbered.
pub open spec fn simplify(p: ProgramView) -> ProgramView {
    ProgramView {
        instrs: Seq::new(
            p.instrs.len(),
            |i: int|
                if tainted(p, i as usize) {
                    p.instrs[i]
                } else {
                    rewrite(p, i)
                },
        ),
        entry: p.entry,
    }
}

/// The program simplified `k` times over.
pub open spec fn simplify_n(p: ProgramView, k: nat) -> ProgramView
    decreases k,
{
    if k == 0 {
        p
    } else {
        simplify_n(simplify(p), (k - 1) as nat)
    }
}

/// On a stack, what was pushed last is on top, and popping it gives the
/// stack as it was.
pub proof fn lemma_stack_top(s: Seq<int>, x: int)
    ensures
        peek(Kind::Stack, s.push(x)) == x,
        pop(Kind::Stack, s.push(x)) == s,
{
    assert(s.push(x).remove(s.len() as int) =~= s);
}

/// Replacing the active storage twice is replacing it once.
pub proof fn lemma_with_cur(m: MachineView, s1: Seq<int>, s2: Seq<int>)
    requires
        m.active < m.storages.len(),
    ensures
        m.with_cur(s1).with_cur(s2) == m.with_cur(s2),
        m.with_cur(m.cur()) == m,
        m.with_cur(s1).cur() == s1,
{
    assert(m.storages.update(m.active as int, s1).update(m.active as int, s2) =~= m.storages.update(
        m.active as int,
        s2,
    ));
    assert(m.storages.update(m.active as int, m.cur()) =~= m.storages);
}

/// A run of one step.
pub proof fn lemma_one_step(p: ProgramView, m: MachineView)
    ensures
        run_steps(p, m, 1) == (match step(p, m) {
            StepView::Next(m2) => RunView { machine: m2, status: StatusView::Running },
            StepView::Halt(v) => RunView { machine: m, status: StatusView::Halted(v) },
            StepView::Fail(f) => RunView { machine: m, status: StatusView::Failed(f) },
        }),
{
    match step(p, m) {
        StepView::Next(m2) => {
            assert(run_steps(p, m2, 0).machine == m2);
        },
        _ => {},
    }
}

/// The states in which the simplified program runs: they fit the program,
/// and the active storage is a stack where the next instruction is known to
/// run on a stack.
pub open spec fn on_stack(p: ProgramView) -> spec_fn(MachineView) -> bool {
    |m: MachineView| m.wf(p) && (!tainted(p, m.pc) ==> kind_of(m.active) == Kind::Stack)
}

/// Only a selection changes the active storage.
pub proof fn lemma_step_active(ins: InstrView, m: MachineView)
    ensures
        step_instr(ins, m) is Next ==> step_instr(ins, m)->Next_0.active == (match ins.op {
            OpView::Select(s) => s,
            _ => m.active,
        }),
{
}

/// A step of the program leads from a state in which the simplified
/// program runs to another such state.
pub proof fn lemma_taint_step(p: ProgramView, m: MachineView)
    requires
        p.wf(),
        on_stack(p)(m),
    ensures
        step(p, m) is Next ==> on_stack(p)(step(p, m)->Next_0),
{
    let i = m.pc;
    let ins = p.instrs[i as int];
    lemma_step_wf(p, m);
    lemma_step_succ(p, m);
    lemma_step_active(ins, m);
    match step(p, m) {
        StepView::Next(m2) => {
            let j = m2.pc;
            assert(is_succ(p, i, j));
            if !tainted(p, j) {
                if ins.op is Select {
                    if leaves_other(p, i) {
                        assert(tainted_in(p, j, 0));
                    }
                } else {
                    if tainted(p, i) {
                        let k = choose|k: nat| tainted_in(p, i, k);
                        assert(passes_on(p, i));
                        assert(tainted_in(p, j, k + 1));
                    }
                }
            }
        },
        _ => {},
    }
}

/// Simplifying keeps a valid program valid.
pub proof fn lemma_simplify_wf(p: ProgramView)
    requires
        p.wf(),
    ensures
        simplify(p).wf(),
        simplify(p).instrs.len() == p.instrs.len(),
{
    let q = simplify(p);
    let n = p.instrs.len() as int;
    assert forall|i: int| 0 <= i < n implies (#[trigger] q.instrs[i]).valid_at(i, n) by {
        let a = p.instrs[i];
        assert(a.valid_at(i, n));
        let b = p.instrs[a.next as int];
        assert(b.valid_at(a.next as int, n));
        let c = p.instrs[b.next as int];
        assert(c.valid_at(b.next as int, n));
    }
}

/// One step of the simplified program is one, two or three steps of the
/// program.
pub proof fn lemma_simplify_refines(p: ProgramView)
    requires
        p.wf(),
    ensures
        refinement(p, simplify(p), on_stack(p)),
{
    let q = simplify(p);
    let inv = on_stack(p);
    let n = p.instrs.len() as int;
    assert forall|m: MachineView| #[trigger] inv(m) implies refines_at(p, q, m) && (!finished(
        run_steps(q, m, 1),
    ) ==> inv(run_steps(q, m, 1).machine)) by {
        let i = m.pc as int;
        let a = p.instrs[i];
        assert(a.valid_at(i, n));
        lemma_one_step(q, m);
        lemma_one_step(p, m);
        lemma_taint_step(p, m);
        let s = m.cur();
        if q.instrs[i] == a {
            assert(step(q, m) == step(p, m));
            assert(run_steps(p, m, 1) == run_steps(q, m, 1));
        } else {
            assert(!tainted(p, m.pc));
            assert(q.instrs[i] == rewrite(p, i));
            let x = a.op->Push_0;
            let b = p.instrs[a.next as int];
            assert(b.valid_at(a.next as int, n));
            let m1 = m.with_cur(s.push(x)).goto(a.next);
            assert(step(p, m) == StepView::Next(m1));
            lemma_with_cur(m, s.push(x), s);
            lemma_stack_top(s, x);
            assert(m1.cur() == s.push(x));
            lemma_one_step(p, m1);
            lemma_taint_step(p, m1);
            lemma_run_add(p, m, 1, 1);
            if b.op is Pop {
                let m2 = m.goto(b.next);
                assert(m1.with_cur(s) == m.goto(a.next));
                assert(step(p, m1) == StepView::Next(m2));
                assert(step(q, m) == StepView::Next(m2));
                assert(run_steps(p, m, 2) == run_steps(q, m, 1));
            } else {
                let y = b.op->Push_0;
                let c = p.instrs[b.next as int];
                assert(c.valid_at(b.next as int, n));
                let op = c.op->Binary_0;
                let s2 = s.push(x).push(y);
                let m2 = m1.with_cur(s2).goto(b.next);
                assert(step(p, m1) == StepView::Next(m2));
                lemma_with_cur(m, s.push(x), s2);
                lemma_with_cur(m, s2, s.push(binary(op, x, y)));
                assert(m2 == m.with_cur(s2).goto(b.next));
                lemma_stack_top(s.push(x), y);
                assert(m2.cur() == s2);
                let m3 = m.with_cur(s.push(binary(op, x, y))).goto(c.next);
                assert(step(p, m2) == StepView::Next(m3));
                lemma_one_step(p, m2);
                lemma_taint_step(p, m2);
                lemma_run_add(p, m, 2, 1);
                assert(step(q, m) == StepView::Next(m3));
                assert(run_steps(p, m, 3) == run_steps(q, m, 1));
            }
        }
    }
}

/// Simplifying a valid program gives an equivalent program.
pub proof fn lemma_simplify_equivalent(p: ProgramView)
    requires
        p.wf(),
    ensures
        equivalent(p, simplify(p)),
{
    let q = simplify(p);
    lemma_simplify_refines(p);
    let inv = on_stack(p);
    assert forall|input: Seq<u8>, st: StatusView, out: Seq<u8>|
        crate::equivalence::behaves(p, input, st, out) == crate::equivalence::behaves(
            q,
            input,
            st,
            out,
        ) by {
        let m0 = MachineView::init(p, input);
        assert(MachineView::init(q, input) == m0);
        assert(inv(m0));
        lemma_refinement(p, q, inv, m0, st, out);
    }
    assert forall|input: Seq<u8>, n: nat| keeps_up(p, q, input, n) && keeps_up(q, p, input, n) by {
        let m0 = MachineView::init(p, input);
        assert(MachineView::init(q, input) == m0);
        assert(inv(m0));
        lemma_refinement_stream(p, q, inv, m0, n);
    }
}

/// Simplifying any number of times keeps a valid program valid and gives
/// an equivalent program.
pub proof fn lemma_simplify_n(p: ProgramView, k: nat)
    requires
        p.wf(),
    ensures
        simplify_n(p, k).wf(),
        equivalent(p, simplify_n(p, k)),
    decreases k,
{
    if k > 0 {
        lemma_simplify_wf(p);
        lemma_simplify_equivalent(p);
        lemma_simplify_n(simplify(p), (k - 1) as nat);
        lemma_equivalent_trans(p, simplify(p), simplify_n(p, k));
    } else {
        lemma_equivalent_refl(p);
    }
}

/// Number of times that the second level simplifies.
pub const ROUNDS: usize = 16;

/// The first level: the instructions that cannot be reached are removed,
/// chains of no-operation instructions are collapsed into direct links,
/// and the instructions that cannot be reached any more are removed.
pub open spec fn level_one(p: ProgramView) -> ProgramView {
    compact(collapse(compact(p)))
}

/// The second level: the first level, then constant folding and the
/// merging of pushes with the pops that follow them, then the first level
/// again on what is left.
pub open spec fn level_two(p: ProgramView) -> ProgramView {
    level_one(simplify_n(level_one(p), ROUNDS as nat))
}

/// The program optimized at the given level. Level 0 is the program
/// itself.
pub open spec fn optimized(p: ProgramView, level: Opt) -> ProgramView {
    match level {
        Opt::O0 => p,
        Opt::O1 => level_one(p),
        Opt::O2 => level_two(p),
    }
}

/// The first level keeps a valid program valid and gives an equivalent
/// program.
pub proof fn lemma_level_one(p: ProgramView)
    requires
        p.wf(),
    ensures
        level_one(p).wf(),
        equivalent(p, level_one(p)),
{
    let a = compact(p);
    lemma_compact(p);
    lemma_collapse_wf(a);
    lemma_collapse_equivalent(a);
    lemma_compact(collapse(a));
    lemma_equivalent_trans(p, a, collapse(a));
    lemma_equivalent_trans(p, collapse(a), level_one(p));
}

/// Optimizing a valid program at any level gives a valid and equivalent
/// program.
pub proof fn lemma_optimized(p: ProgramView, level: Opt)
    requires
        p.wf(),
    ensures
        optimized(p, level).wf(),
        equivalent(p, optimized(p, level)),
{
    match level {
        Opt::O0 => {
            lemma_equivalent_refl(p);
        },
        Opt::O1 => {
            lemma_level_one(p);
        },
        Opt::O2 => {
            let a = level_one(p);
            let b = simplify_n(a, ROUNDS as nat);
            lemma_level_one(p);
            lemma_simplify_n(a, ROUNDS as nat);
            lemma_level_one(b);
            lemma_equivalent_trans(p, a, b);
            lemma_equivalent_trans(p, b, level_one(b));
        },
    }
}

/// Optimization is transparent: for every valid program and any two
/// levels, the two optimized programs are equivalent. On every input they
/// halt with the same value and output, fail with the same fault and
/// output, or both run for ever and write the same stream.
pub proof fn lemma_optimization_transparent(p: ProgramView, l1: Opt, l2: Opt)
    requires
        p.wf(),
    ensures
        equivalent(optimized(p, l1), optimized(p, l2)),
{
    lemma_optimized(p, l1);
    lemma_optimized(p, l2);
    lemma_equivalent_sym(p, optimized(p, l1));
    lemma_equivalent_trans(optimized(p, l1), p, optimized(p, l2));
}

} // verus!
