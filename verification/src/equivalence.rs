//! When two programs cannot be told apart by running them, and the means
//! to prove it.

use crate::bytecode::{decode, encode, lemma_decode_encode};
use crate::ir::{InstrView, ProgramView};
use crate::semantics::{run_steps, step, step_instr, MachineView, RunView, StatusView, StepView};
use vstd::prelude::*;

verus! {

/// Whether a run has halted or failed.
pub open spec fn finished(r: RunView) -> bool {
    !(r.status is Running)
}

/// Whether the run of `p` from `m` ends, after some number of steps, with
/// status `st` and having written `out`.
pub open spec fn finishes(p: ProgramView, m: MachineView, st: StatusView, out: Seq<u8>) -> bool {
    !(st is Running) && exists|n: nat|
        (#[trigger] run_steps(p, m, n)).status == st && run_steps(p, m, n).machine.output == out
}

/// Whether `p`, run on `input`, ends with status `st` and output `out`.
pub open spec fn behaves(p: ProgramView, input: Seq<u8>, st: StatusView, out: Seq<u8>) -> bool {
    finishes(p, MachineView::init(p, input), st, out)
}

/// Whether two programs end alike: on every input, one halts with a value
/// and an output exactly when the other halts with the same value and
/// output, and one fails with a fault and an output exactly when the other
/// fails with the same fault and output. Then one runs for ever exactly
/// when the other does.
pub open spec fn same_ends(p: ProgramView, q: ProgramView) -> bool {
    forall|input: Seq<u8>, st: StatusView, out: Seq<u8>|
        #![trigger behaves(p, input, st, out)]
        #![trigger behaves(q, input, st, out)]
        behaves(p, input, st, out) == behaves(q, input, st, out)
}

/// What the run of `p` from `m` has written after `n` steps.
pub open spec fn written(p: ProgramView, m: MachineView, n: nat) -> Seq<u8> {
    run_steps(p, m, n).machine.output
}

/// Whether what `p` has written after `n` steps from `mp` is the
/// beginning of what `q` has written after some number of steps from `mq`.
pub open spec fn trails(
    p: ProgramView,
    mp: MachineView,
    q: ProgramView,
    mq: MachineView,
    n: nat,
) -> bool {
    exists|k: nat| written(p, mp, n).is_prefix_of(#[trigger] written(q, mq, k))
}

/// Whether, on `input`, what `p` has written after `n` steps is the
/// beginning of what `q` writes.
pub open spec fn keeps_up(p: ProgramView, q: ProgramView, input: Seq<u8>, n: nat) -> bool {
    trails(p, MachineView::init(p, input), q, MachineView::init(q, input), n)
}

/// Whether two programs write alike: on every input, whatever one has
/// written at some time is the beginning of what the other has written at
/// some time. So two runs without end write the same stream.
pub open spec fn same_stream(p: ProgramView, q: ProgramView) -> bool {
    forall|input: Seq<u8>, n: nat|
        #![trigger keeps_up(p, q, input, n)]
        #![trigger keeps_up(q, p, input, n)]
        keeps_up(p, q, input, n) && keeps_up(q, p, input, n)
}

/// Two programs are equivalent when no run tells them apart: they end
/// alike and they write alike.
pub open spec fn equivalent(p: ProgramView, q: ProgramView) -> bool {
    same_ends(p, q) && same_stream(p, q)
}

/// A run of `a + b` steps is a run of `a` steps followed by one of `b`.
pub proof fn lemma_run_add(p: ProgramView, m: MachineView, a: nat, b: nat)
    ensures
        run_steps(p, m, a + b) == (if finished(run_steps(p, m, a)) {
            run_steps(p, m, a)
        } else {
            run_steps(p, run_steps(p, m, a).machine, b)
        }),
    decreases a,
{
    if a > 0 {
        match step(p, m) {
            StepView::Next(m2) => {
                lemma_run_add(p, m2, (a - 1) as nat, b);
                assert(((a - 1) as nat) + b == (a + b - 1) as nat);
            },
            _ => {},
        }
    }
}

/// A run that has ended stays as it is, however many steps are allowed.
pub proof fn lemma_run_stable(p: ProgramView, m: MachineView, a: nat, b: nat)
    requires
        a <= b,
        finished(run_steps(p, m, a)),
    ensures
        run_steps(p, m, b) == run_steps(p, m, a),
{
    lemma_run_add(p, m, a, (b - a) as nat);
    assert(a + (b - a) as nat == b);
}

/// A run ends in one way only.
pub proof fn lemma_run_unique(p: ProgramView, m: MachineView, a: nat, b: nat)
    requires
        finished(run_steps(p, m, a)),
        finished(run_steps(p, m, b)),
    ensures
        run_steps(p, m, a) == run_steps(p, m, b),
{
    if a <= b {
        lemma_run_stable(p, m, a, b);
    } else {
        lemma_run_stable(p, m, b, a);
    }
}

/// Where `k` steps lead from `m` to `m2`, runs from `m` and from `m2` end
/// alike.
pub proof fn lemma_finishes_after(
    p: ProgramView,
    m: MachineView,
    k: nat,
    st: StatusView,
    out: Seq<u8>,
)
    requires
        !finished(run_steps(p, m, k)),
    ensures
        finishes(p, m, st, out) == finishes(p, run_steps(p, m, k).machine, st, out),
{
    let m2 = run_steps(p, m, k).machine;
    if finishes(p, m, st, out) {
        let n = choose|n: nat|
            (#[trigger] run_steps(p, m, n)).status == st && run_steps(p, m, n).machine.output
                == out;
        if n <= k {
            lemma_run_stable(p, m, n, k);
        }
        lemma_run_add(p, m, k, (n - k) as nat);
        assert(k + (n - k) as nat == n);
        assert(run_steps(p, m2, (n - k) as nat).status == st);
    }
    if finishes(p, m2, st, out) {
        let n = choose|n: nat|
            (#[trigger] run_steps(p, m2, n)).status == st && run_steps(p, m2, n).machine.output
                == out;
        lemma_run_add(p, m, k, n);
        assert(run_steps(p, m, k + n).status == st);
    }
}

/// From state `m`, one step of `q` does what some positive number of
/// steps of `p` do.
pub open spec fn refines_at(p: ProgramView, q: ProgramView, m: MachineView) -> bool {
    exists|k: nat| k >= 1 && #[trigger] run_steps(p, m, k) == run_steps(q, m, 1)
}

/// In every state that satisfies `inv`, one step of `q` does what some
/// steps of `p` do, and leads to a state that satisfies `inv` again.
pub open spec fn refinement(
    p: ProgramView,
    q: ProgramView,
    inv: spec_fn(MachineView) -> bool,
) -> bool {
    forall|m: MachineView| #[trigger]
        inv(m) ==> refines_at(p, q, m) && (!finished(run_steps(q, m, 1)) ==> inv(
            run_steps(q, m, 1).machine,
        ))
}

/// Under a refinement, every run of `q` is matched by a run of `p` that
/// is at least as long, unless the run has ended.
pub proof fn lemma_refinement_back(
    p: ProgramView,
    q: ProgramView,
    inv: spec_fn(MachineView) -> bool,
    m: MachineView,
    n: nat,
) -> (j: nat)
    requires
        refinement(p, q, inv),
        inv(m),
    ensures
        run_steps(p, m, j) == run_steps(q, m, n),
        j >= n || finished(run_steps(q, m, n)),
    decreases n,
{
    if n == 0 {
        0
    } else {
        assert(refines_at(p, q, m));
        let k = choose|k: nat| k >= 1 && #[trigger] run_steps(p, m, k) == run_steps(q, m, 1);
        let r1 = run_steps(q, m, 1);
        if finished(r1) {
            lemma_run_stable(q, m, 1, n);
            k
        } else {
            lemma_run_add(q, m, 1, (n - 1) as nat);
            assert(1 + (n - 1) as nat == n);
            let j2 = lemma_refinement_back(p, q, inv, r1.machine, (n - 1) as nat);
            lemma_run_add(p, m, k, j2);
            k + j2
        }
    }
}

/// Under a refinement, a run of `p` that ends is matched by a run of `q`.
pub proof fn lemma_refinement_forth(
    p: ProgramView,
    q: ProgramView,
    inv: spec_fn(MachineView) -> bool,
    m: MachineView,
    n: nat,
) -> (j: nat)
    requires
        refinement(p, q, inv),
        inv(m),
        finished(run_steps(p, m, n)),
    ensures
        run_steps(q, m, j) == run_steps(p, m, n),
    decreases n,
{
    assert(refines_at(p, q, m));
    let k = choose|k: nat| k >= 1 && #[trigger] run_steps(p, m, k) == run_steps(q, m, 1);
    let r1 = run_steps(q, m, 1);
    if finished(r1) {
        lemma_run_unique(p, m, k, n);
        1
    } else {
        if n <= k {
            lemma_run_stable(p, m, n, k);
        }
        lemma_run_add(p, m, k, (n - k) as nat);
        assert(k + (n - k) as nat == n);
        let j2 = lemma_refinement_forth(p, q, inv, r1.machine, (n - k) as nat);
        lemma_run_add(q, m, 1, j2);
        1 + j2
    }
}

/// Under a refinement, runs of the two programs from a state that
/// satisfies the invariant end alike.
pub proof fn lemma_refinement(
    p: ProgramView,
    q: ProgramView,
    inv: spec_fn(MachineView) -> bool,
    m: MachineView,
    st: StatusView,
    out: Seq<u8>,
)
    requires
        refinement(p, q, inv),
        inv(m),
    ensures
        finishes(p, m, st, out) == finishes(q, m, st, out),
{
    if finishes(p, m, st, out) {
        let n = choose|n: nat|
            (#[trigger] run_steps(p, m, n)).status == st && run_steps(p, m, n).machine.output
                == out;
        let j = lemma_refinement_forth(p, q, inv, m, n);
        assert(run_steps(q, m, j).status == st);
    }
    if finishes(q, m, st, out) {
        let n = choose|n: nat|
            (#[trigger] run_steps(q, m, n)).status == st && run_steps(q, m, n).machine.output
                == out;
        let j = lemma_refinement_back(p, q, inv, m, n);
        assert(run_steps(p, m, j).status == st);
    }
}

/// A prefix of a prefix is a prefix.
pub proof fn lemma_prefix_trans(a: Seq<u8>, b: Seq<u8>, c: Seq<u8>)
    requires
        a.is_prefix_of(b),
        b.is_prefix_of(c),
    ensures
        a.is_prefix_of(c),
{
    assert(a =~= c.subrange(0, a.len() as int)) by {
        assert forall|i: int| 0 <= i < a.len() implies a[i] == c[i] by {
            assert(a[i] == b.subrange(0, a.len() as int)[i]);
            assert(b[i] == c.subrange(0, b.len() as int)[i]);
        }
    }
}

/// An instruction takes nothing back of what was written.
pub proof fn lemma_step_output(ins: InstrView, m: MachineView)
    ensures
        step_instr(ins, m) is Next ==> m.output.is_prefix_of(step_instr(ins, m)->Next_0.output),
{
    match step_instr(ins, m) {
        StepView::Next(m2) => {
            assert(m.output =~= m2.output.subrange(0, m.output.len() as int));
        },
        _ => {},
    }
}

/// What a run has written stays written.
pub proof fn lemma_output_kept(p: ProgramView, m: MachineView, n: nat)
    ensures
        m.output.is_prefix_of(written(p, m, n)),
    decreases n,
{
    if n > 0 {
        match step(p, m) {
            StepView::Next(m2) => {
                lemma_step_output(p.instrs[m.pc as int], m);
                lemma_output_kept(p, m2, (n - 1) as nat);
                lemma_prefix_trans(m.output, m2.output, written(p, m2, (n - 1) as nat));
            },
            _ => {
                assert(m.output =~= m.output.subrange(0, m.output.len() as int));
            },
        }
    } else {
        assert(m.output =~= m.output.subrange(0, m.output.len() as int));
    }
}

/// What a run has written after `a` steps is the beginning of what it has
/// written after more steps.
pub proof fn lemma_written_grows(p: ProgramView, m: MachineView, a: nat, b: nat)
    requires
        a <= b,
    ensures
        written(p, m, a).is_prefix_of(written(p, m, b)),
{
    lemma_run_add(p, m, a, (b - a) as nat);
    assert(a + (b - a) as nat == b);
    let r = run_steps(p, m, a);
    if finished(r) {
        assert(r.machine.output =~= r.machine.output.subrange(0, r.machine.output.len() as int));
    } else {
        lemma_output_kept(p, r.machine, (b - a) as nat);
    }
}

/// Under a refinement, the two programs write alike from a state that
/// satisfies the invariant.
pub proof fn lemma_refinement_stream(
    p: ProgramView,
    q: ProgramView,
    inv: spec_fn(MachineView) -> bool,
    m: MachineView,
    n: nat,
)
    requires
        refinement(p, q, inv),
        inv(m),
    ensures
        trails(p, m, q, m, n),
        trails(q, m, p, m, n),
{
    let j = lemma_refinement_back(p, q, inv, m, n);
    assert(written(q, m, n) == written(p, m, j));
    lemma_written_grows(p, m, j, j);
    assert(written(q, m, n).is_prefix_of(written(p, m, j)));
    if j >= n {
        lemma_written_grows(p, m, n, j);
    } else {
        lemma_run_stable(p, m, j, n);
        lemma_written_grows(p, m, n, n);
    }
    assert(written(p, m, n).is_prefix_of(written(q, m, n)));
}

/// Every program is equivalent to itself.
pub proof fn lemma_equivalent_refl(p: ProgramView)
    ensures
        equivalent(p, p),
{
    assert forall|input: Seq<u8>, n: nat| keeps_up(p, p, input, n) by {
        let m = MachineView::init(p, input);
        lemma_written_grows(p, m, n, n);
    }
}

/// Equivalence does not depend on the order of the two programs.
pub proof fn lemma_equivalent_sym(p: ProgramView, q: ProgramView)
    requires
        equivalent(p, q),
    ensures
        equivalent(q, p),
{
    assert forall|input: Seq<u8>, n: nat| keeps_up(q, p, input, n) && keeps_up(p, q, input, n) by {
        assert(keeps_up(p, q, input, n));
    }
}

/// Where `p` keeps up with `q` and `q` with `r`, `p` keeps up with `r`.
proof fn lemma_keeps_up_trans(
    p: ProgramView,
    q: ProgramView,
    r: ProgramView,
    input: Seq<u8>,
    n: nat,
)
    requires
        same_stream(p, q),
        same_stream(q, r),
    ensures
        keeps_up(p, r, input, n),
        keeps_up(r, p, input, n),
{
    let mp = MachineView::init(p, input);
    let mq = MachineView::init(q, input);
    let mr = MachineView::init(r, input);
    assert(keeps_up(p, q, input, n));
    let k1 = choose|k: nat| written(p, mp, n).is_prefix_of(#[trigger] written(q, mq, k));
    assert(keeps_up(q, r, input, k1));
    let k2 = choose|k: nat| written(q, mq, k1).is_prefix_of(#[trigger] written(r, mr, k));
    lemma_prefix_trans(written(p, mp, n), written(q, mq, k1), written(r, mr, k2));
    assert(keeps_up(r, q, input, n));
    let k3 = choose|k: nat| written(r, mr, n).is_prefix_of(#[trigger] written(q, mq, k));
    assert(keeps_up(q, p, input, k3));
    let k4 = choose|k: nat| written(q, mq, k3).is_prefix_of(#[trigger] written(p, mp, k));
    lemma_prefix_trans(written(r, mr, n), written(q, mq, k3), written(p, mp, k4));
}

/// Two programs equivalent to a third are equivalent to each other.
pub proof fn lemma_equivalent_trans(p: ProgramView, q: ProgramView, r: ProgramView)
    requires
        equivalent(p, q),
        equivalent(q, r),
    ensures
        equivalent(p, r),
{
    assert forall|input: Seq<u8>, st: StatusView, out: Seq<u8>|
        behaves(p, input, st, out) == behaves(r, input, st, out) by {
        assert(behaves(p, input, st, out) == behaves(q, input, st, out));
        assert(behaves(q, input, st, out) == behaves(r, input, st, out));
    }
    assert forall|input: Seq<u8>, n: nat| keeps_up(p, r, input, n) && keeps_up(r, p, input, n) by {
        lemma_keeps_up_trans(p, q, r, input, n);
    }
}

/// Provenance does not change what an instruction does.
pub proof fn lemma_step_bare(ins: InstrView, m: MachineView)
    ensures
        step_instr(ins.bare(), m) == step_instr(ins, m),
{
}

/// A program and the same program without provenance run alike, step for
/// step.
pub proof fn lemma_run_bare(p: ProgramView, m: MachineView, n: nat)
    requires
        0 <= m.pc < p.instrs.len(),
        p.wf(),
    ensures
        run_steps(p.bare(), m, n) == run_steps(p, m, n),
    decreases n,
{
    if n > 0 {
        lemma_step_bare(p.instrs[m.pc as int], m);
        assert(p.bare().instrs[m.pc as int] == p.instrs[m.pc as int].bare());
        match step(p, m) {
            StepView::Next(m2) => {
                lemma_next_in_range(p, m);
                lemma_run_bare(p, m2, (n - 1) as nat);
            },
            _ => {},
        }
    }
}

/// A step of a valid program leads to an instruction of the program.
pub proof fn lemma_next_in_range(p: ProgramView, m: MachineView)
    requires
        0 <= m.pc < p.instrs.len(),
        p.wf(),
    ensures
        step(p, m) is Next ==> step(p, m)->Next_0.pc < p.instrs.len(),
{
    let ins = p.instrs[m.pc as int];
    assert(ins.valid_at(m.pc as int, p.instrs.len() as int));
}

/// Writing a valid program as bytecode and reading it back gives a program
/// that runs exactly as the first does: on every input and for every
/// number of steps, the two runs have the same status, the same output
/// and the same state.
pub proof fn lemma_bytecode_round_trip(p: ProgramView, input: Seq<u8>, n: nat)
    requires
        p.wf(),
    ensures
        decode(encode(p)) is Ok,
        run_steps(decode(encode(p))->Ok_0, MachineView::init(decode(encode(p))->Ok_0, input), n)
            == run_steps(p, MachineView::init(p, input), n),
{
    lemma_decode_encode(p);
    lemma_run_bare(p, MachineView::init(p, input), n);
}

} // verus!
