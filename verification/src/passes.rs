//! The optimizer: the executable transformations, each proved to compute
//! the function on programs that stands for it.

use crate::cli::Opt;
use crate::equivalence::equivalent;
use crate::ir::{instr_views, Instr, InstrView, Op, OpView, Program, ProgramView};
use crate::optimize::{closed, collapse, compact, is_succ, kept, lemma_collapse_wf, lemma_compact_wf, lemma_optimized, lemma_reach_closed, lemma_simplify_wf, level_one, level_two, optimized, rank, reach_in, reach_set, reachable, relink_instr, renumber, resolve, rewrite, simplify, simplify_n, skip, leaves_other, passes_on, taint_set, tainted, tainted_in, HOP_LIMIT, ROUNDS};
use crate::semantics::{kind_of, Kind};
use crate::ir::BinOp;
use crate::vm::{compute, is_zero, storage_kind};
use vstd::prelude::*;

verus! {

/// Executable form of [`resolve`].
fn resolve_link(p: &Program, j: usize) -> (r: usize)
    requires
        p.wf(),
        j < p@.instrs.len(),
    ensures
        r == resolve(p@, j),
        r < p@.instrs.len(),
{
    let mut cur: usize = j;
    let mut left: usize = HOP_LIMIT;
    loop
        invariant
            p.wf(),
            cur < p@.instrs.len(),
            left <= HOP_LIMIT,
            skip(p@, j, HOP_LIMIT as nat) == skip(p@, cur, left as nat),
        decreases left,
    {
        if left == 0 {
            return cur;
        }
        let ins = p.instr(cur);
        proof {
            assert(p@.instrs[cur as int].valid_at(cur as int, p@.instrs.len() as int));
        }
        match &ins.op {
            Op::Nop => {
                cur = ins.next;
                left -= 1;
            },
            _ => {
                return cur;
            },
        }
    }
}

/// A copy of an instruction with its links replaced.
fn with_links(ins: &Instr, next: usize, zero: usize) -> (r: Instr)
    ensures
        r@ == (InstrView {
            op: match ins@.op {
                OpView::Brz(_) => OpView::Brz(zero),
                o => o,
            },
            next,
            origin: ins@.origin,
        }),
{
    let op = match &ins.op {
        Op::Brz(_) => Op::Brz(zero),
        o => o.duplicate(),
    };
    Instr { op, next, origin: ins.origin }
}

/// Executable form of [`collapse`].
fn collapse_program(p: &Program) -> (r: Program)
    requires
        p.wf(),
    ensures
        r@ == collapse(p@),
        r.wf(),
{
    let n = p.len();
    let ghost g = |j: usize| resolve(p@, j);
    let mut out: Vec<Instr> = Vec::new();
    let mut i: usize = 0;
    while i < n
        invariant
            p.wf(),
            i <= n,
            n == p@.instrs.len(),
            out@.len() == i,
            g == (|j: usize| resolve(p@, j)),
            forall|k: int| 0 <= k < i ==> (#[trigger] out@[k])@ == relink_instr(p@.instrs[k], g),
        decreases n - i,
    {
        let ins = p.instr(i);
        proof {
            assert(p@.instrs[i as int].valid_at(i as int, n as int));
        }
        let next = resolve_link(p, ins.next);
        let zero = match &ins.op {
            Op::Brz(t) => resolve_link(p, *t),
            _ => 0,
        };
        out.push(with_links(ins, next, zero));
        i += 1;
    }
    let entry = resolve_link(p, p.entry());
    proof {
        lemma_collapse_wf(p@);
        assert(instr_views(out@) =~= collapse(p@).instrs);
    }
    Program::from_valid(out, entry)
}

/// Number of instructions not marked.
pub open spec fn unmarked(s: Seq<bool>) -> nat
    decreases s.len(),
{
    if s.len() == 0 {
        0
    } else {
        unmarked(s.drop_last()) + if s.last() {
            0nat
        } else {
            1nat
        }
    }
}

/// Marking an unmarked instruction leaves one less unmarked.
proof fn lemma_unmarked(s: Seq<bool>, j: int)
    requires
        0 <= j < s.len(),
        !s[j],
    ensures
        unmarked(s.update(j, true)) + 1 == unmarked(s),
    decreases s.len(),
{
    let t = s.update(j, true);
    if j == s.len() - 1 {
        assert(t.drop_last() =~= s.drop_last());
    } else {
        lemma_unmarked(s.drop_last(), j);
        assert(t.drop_last() =~= s.drop_last().update(j, true));
    }
}

/// Marks `j` and remembers it for a visit, unless it is marked already.
fn visit(marks: &mut Vec<bool>, stack: &mut Vec<usize>, j: usize)
    requires
        j < old(marks)@.len(),
    ensures
        final(marks)@ == old(marks)@.update(j as int, true),
        final(stack)@ == (if old(marks)@[j as int] {
            old(stack)@
        } else {
            old(stack)@.push(j)
        }),
        2 * unmarked(final(marks)@) + final(stack)@.len() <= 2 * unmarked(old(marks)@) + old(
            stack,
        )@.len(),
{
    if !marks[j] {
        proof {
            lemma_unmarked(marks@, j as int);
        }
        marks[j] = true;
        stack.push(j);
    } else {
        assert(marks@ =~= marks@.update(j as int, true));
    }
}

/// What is reached over links is in every closed set.
proof fn lemma_closed_holds(p: ProgramView, keep: Seq<bool>, j: usize, k: nat)
    requires
        p.wf(),
        closed(p, keep),
        reach_in(p, j, k),
    ensures
        j < p.instrs.len(),
        keep[j as int],
    decreases k,
{
    if k > 0 {
        if reach_in(p, j, (k - 1) as nat) {
            lemma_closed_holds(p, keep, j, (k - 1) as nat);
        } else {
            let i = choose|i: usize| reach_in(p, i, (k - 1) as nat) && #[trigger] is_succ(p, i, j);
            lemma_closed_holds(p, keep, i, (k - 1) as nat);
            assert(p.instrs[i as int].valid_at(i as int, p.instrs.len() as int));
        }
    }
}

/// Finds the instructions that can be reached from the entry point.
fn mark(p: &Program) -> (marks: Vec<bool>)
    requires
        p.wf(),
    ensures
        marks@ == reach_set(p@),
{
    let n = p.len();
    let mut marks: Vec<bool> = Vec::new();
    let mut i: usize = 0;
    while i < n
        invariant
            i <= n,
            marks@.len() == i,
            forall|k: int| 0 <= k < i ==> !marks@[k],
        decreases n - i,
    {
        marks.push(false);
        i += 1;
    }
    let mut stack: Vec<usize> = Vec::new();
    let entry = p.entry();
    marks[entry] = true;
    stack.push(entry);
    proof {
        assert(reach_in(p@, entry, 0));
        assert(stack@[0] == entry);
    }
    while stack.len() > 0
        invariant
            p.wf(),
            n == p@.instrs.len(),
            marks@.len() == n,
            marks@[p@.entry as int],
            forall|k: int| 0 <= k < n && marks@[k] ==> reachable(p@, k as usize),
            forall|k: int| 0 <= k < stack@.len() ==> #[trigger] stack@[k] < n && marks@[stack@[k] as int],
            forall|a: usize, b: usize|
                a < n && marks@[a as int] && !stack@.contains(a) && #[trigger] is_succ(p@, a, b)
                    ==> marks@[b as int],
        decreases 2 * unmarked(marks@) + stack@.len(),
    {
        let ghost marks0 = marks@;
        let ghost stack0 = stack@;
        let cur = stack.pop().unwrap();
        let ghost stack1 = stack@;
        let ins = p.instr(cur);
        proof {
            assert(stack0[stack0.len() - 1] == cur);
            assert(p@.instrs[cur as int].valid_at(cur as int, n as int));
            let k = choose|k: nat| reach_in(p@, cur, k);
            assert(is_succ(p@, cur, ins.next));
            assert(reach_in(p@, ins.next, k + 1));
        }
        visit(&mut marks, &mut stack, ins.next);
        let ghost marks1 = marks@;
        let ghost stack2 = stack@;
        match &ins.op {
            Op::Brz(t) => {
                proof {
                    let k = choose|k: nat| reach_in(p@, cur, k);
                    assert(is_succ(p@, cur, *t));
                    assert(reach_in(p@, *t, k + 1));
                }
                visit(&mut marks, &mut stack, *t);
            },
            _ => {},
        }
        proof {
            assert forall|k: int| 0 <= k < stack@.len() implies #[trigger] stack@[k] < n && marks@[stack@[k] as int] by {
                if k < stack1.len() {
                    assert(stack@[k] == stack0[k]);
                }
            }
            assert forall|a: usize, b: usize|
                a < n && marks@[a as int] && !stack@.contains(a) && #[trigger] is_succ(
                    p@,
                    a,
                    b,
                ) implies marks@[b as int] by {
                if a == cur {
                } else if marks0[a as int] {
                    if stack0.contains(a) {
                        let k = choose|k: int| 0 <= k < stack0.len() && stack0[k] == a;
                        assert(k < stack1.len());
                        assert(stack@[k] == a);
                    }
                } else {
                    if a == ins.next {
                        assert(stack2[stack1.len() as int] == a);
                        assert(stack@[stack1.len() as int] == a);
                    } else {
                        assert(stack@[stack@.len() - 1] == a);
                    }
                }
            }
        }
    }
    proof {
        assert(closed(p@, marks@)) by {
            assert forall|a: usize, b: usize|
                a < marks@.len() && marks@[a as int] && #[trigger] is_succ(
                    p@,
                    a,
                    b,
                ) implies marks@[b as int] by {
                assert(!stack@.contains(a));
            }
        }
        assert forall|k: int| 0 <= k < n implies marks@[k] == reachable(p@, k as usize) by {
            let ku = k as usize;
            if reachable(p@, ku) {
                let d = choose|d: nat| reach_in(p@, ku, d);
                lemma_closed_holds(p@, marks@, ku, d);
            }
        }
        assert(marks@ =~= reach_set(p@));
    }
    marks
}

/// The rank of each instruction among the kept ones.
fn ranks(keep: &Vec<bool>) -> (r: Vec<usize>)
    ensures
        r@.len() == keep@.len(),
        forall|i: int| 0 <= i < r@.len() ==> #[trigger] r@[i] == rank(keep@, i),
{
    let mut r: Vec<usize> = Vec::new();
    let mut count: usize = 0;
    let mut i: usize = 0;
    while i < keep.len()
        invariant
            i <= keep@.len(),
            r@.len() == i,
            count == rank(keep@, i as int),
            count <= i,
            forall|k: int| 0 <= k < i ==> #[trigger] r@[k] == rank(keep@, k),
        decreases keep@.len() - i,
    {
        r.push(count);
        if keep[i] {
            count += 1;
        }
        i += 1;
    }
    r
}

/// Executable form of [`compact`].
fn compact_program(p: &Program) -> (r: Program)
    requires
        p.wf(),
    ensures
        r@ == compact(p@),
        r.wf(),
{
    let n = p.len();
    let keep = mark(p);
    let rk = ranks(&keep);
    let ghost g = renumber(keep@);
    let mut out: Vec<Instr> = Vec::new();
    let mut i: usize = 0;
    proof {
        lemma_reach_closed(p@);
    }
    while i < n
        invariant
            p.wf(),
            i <= n,
            n == p@.instrs.len(),
            keep@ == reach_set(p@),
            closed(p@, keep@),
            rk@.len() == n,
            forall|k: int| 0 <= k < n ==> #[trigger] rk@[k] == rank(keep@, k),
            g == renumber(keep@),
            instr_views(out@) == kept(keep@, i as int).map_values(
                |x: usize| relink_instr(p@.instrs[x as int], g),
            ),
        decreases n - i,
    {
        if keep[i] {
            let ins = p.instr(i);
            proof {
                assert(p@.instrs[i as int].valid_at(i as int, n as int));
            }
            let next = rk[ins.next];
            let zero = match &ins.op {
                Op::Brz(t) => rk[*t],
                _ => 0,
            };
            let ghost before = out@;
            out.push(with_links(ins, next, zero));
            proof {
                assert(instr_views(out@) =~= instr_views(before).push(
                    relink_instr(p@.instrs[i as int], g),
                ));
                assert(instr_views(out@) =~= kept(keep@, i + 1).map_values(
                    |x: usize| relink_instr(p@.instrs[x as int], g),
                ));
            }
        }
        i += 1;
    }
    let entry = rk[p.entry()];
    proof {
        lemma_compact_wf(p@, keep@);
    }
    Program::from_valid(out, entry)
}

/// Whether the marked instructions hold every successor of a selection of
/// a storage that is no stack, and every successor of a marked instruction
/// that leaves the active storage as it found it.
pub open spec fn taint_closed(p: ProgramView, marks: Seq<bool>) -> bool {
    &&& marks.len() == p.instrs.len()
    &&& forall|a: usize, b: usize|
        leaves_other(p, a) && #[trigger] is_succ(p, a, b) ==> marks[b as int]
    &&& forall|a: usize, b: usize|
        a < marks.len() && marks[a as int] && passes_on(p, a) && #[trigger] is_succ(p, a, b)
            ==> marks[b as int]
}

/// What may run on another storage than a stack is in every such set.
proof fn lemma_taint_closed(p: ProgramView, marks: Seq<bool>, j: usize, k: nat)
    requires
        p.wf(),
        taint_closed(p, marks),
        tainted_in(p, j, k),
    ensures
        j < p.instrs.len(),
        marks[j as int],
    decreases k,
{
    if k == 0 {
        let i = choose|i: usize| leaves_other(p, i) && #[trigger] is_succ(p, i, j);
        assert(p.instrs[i as int].valid_at(i as int, p.instrs.len() as int));
    } else {
        if tainted_in(p, j, (k - 1) as nat) {
            lemma_taint_closed(p, marks, j, (k - 1) as nat);
        } else {
            let i = choose|i: usize|
                tainted_in(p, i, (k - 1) as nat) && passes_on(p, i) && #[trigger] is_succ(p, i, j);
            lemma_taint_closed(p, marks, i, (k - 1) as nat);
            assert(p.instrs[i as int].valid_at(i as int, p.instrs.len() as int));
        }
    }
}

/// Whether an instruction selects a storage that is no stack.
fn selects_other(ins: &Instr) -> (r: bool)
    ensures
        r == match ins@.op {
            OpView::Select(s) => kind_of(s) != Kind::Stack,
            _ => false,
        },
{
    match &ins.op {
        Op::Select(s) => match storage_kind(*s) {
            Kind::Stack => false,
            _ => true,
        },
        _ => false,
    }
}

/// Finds the instructions that may run on another storage than a stack.
fn taint(p: &Program) -> (marks: Vec<bool>)
    requires
        p.wf(),
    ensures
        marks@ == taint_set(p@),
{
    let n = p.len();
    let mut marks: Vec<bool> = Vec::new();
    let mut i: usize = 0;
    while i < n
        invariant
            i <= n,
            marks@.len() == i,
            forall|k: int| 0 <= k < i ==> !marks@[k],
        decreases n - i,
    {
        marks.push(false);
        i += 1;
    }
    let mut stack: Vec<usize> = Vec::new();
    i = 0;
    while i < n
        invariant
            p.wf(),
            i <= n,
            n == p@.instrs.len(),
            marks@.len() == n,
            forall|k: int| 0 <= k < n && marks@[k] ==> tainted(p@, k as usize),
            forall|k: int|
                0 <= k < stack@.len() ==> #[trigger] stack@[k] < n && marks@[stack@[k] as int],
            forall|k: int| 0 <= k < n && marks@[k] ==> stack@.contains(k as usize),
            forall|a: usize, b: usize|
                a < i && leaves_other(p@, a) && #[trigger] is_succ(p@, a, b) ==> marks@[b as int],
        decreases n - i,
    {
        let ins = p.instr(i);
        let ghost stack0 = stack@;
        let ghost marks0 = marks@;
        if selects_other(ins) {
            proof {
                assert(p@.instrs[i as int].valid_at(i as int, n as int));
                assert(is_succ(p@, i, ins.next));
                assert(tainted_in(p@, ins.next, 0));
            }
            visit(&mut marks, &mut stack, ins.next);
        }
        proof {
            assert forall|k: int| 0 <= k < stack@.len() implies #[trigger] stack@[k] < n && marks@[stack@[k] as int] by {
                if k < stack0.len() {
                    assert(stack@[k] == stack0[k]);
                }
            }
            assert forall|k: int| 0 <= k < n && marks@[k] implies stack@.contains(k as usize) by {
                if marks0[k] {
                    let x = choose|x: int| 0 <= x < stack0.len() && stack0[x] == k as usize;
                    assert(stack@[x] == k as usize);
                } else {
                    assert(stack@[stack0.len() as int] == k as usize);
                }
            }
        }
        i += 1;
    }
    while stack.len() > 0
        invariant
            p.wf(),
            n == p@.instrs.len(),
            marks@.len() == n,
            forall|k: int| 0 <= k < n && marks@[k] ==> tainted(p@, k as usize),
            forall|k: int|
                0 <= k < stack@.len() ==> #[trigger] stack@[k] < n && marks@[stack@[k] as int],
            forall|a: usize, b: usize|
                leaves_other(p@, a) && #[trigger] is_succ(p@, a, b) ==> marks@[b as int],
            forall|a: usize, b: usize|
                a < n && marks@[a as int] && !stack@.contains(a) && passes_on(p@, a)
                    && #[trigger] is_succ(p@, a, b) ==> marks@[b as int],
        decreases 2 * unmarked(marks@) + stack@.len(),
    {
        let ghost marks0 = marks@;
        let ghost stack0 = stack@;
        let cur = stack.pop().unwrap();
        let ghost stack1 = stack@;
        let ins = p.instr(cur);
        let ghost next = ins.next;
        proof {
            assert(stack0[stack0.len() - 1] == cur);
            assert(p@.instrs[cur as int].valid_at(cur as int, n as int));
        }
        let passes = match &ins.op {
            Op::Select(_) => false,
            _ => true,
        };
        let ghost mut stack2 = stack@;
        if passes {
            proof {
                let k = choose|k: nat| tainted_in(p@, cur, k);
                assert(is_succ(p@, cur, ins.next));
                assert(tainted_in(p@, ins.next, k + 1));
            }
            visit(&mut marks, &mut stack, ins.next);
            proof {
                stack2 = stack@;
            }
            match &ins.op {
                Op::Brz(t) => {
                    proof {
                        let k = choose|k: nat| tainted_in(p@, cur, k);
                        assert(is_succ(p@, cur, *t));
                        assert(tainted_in(p@, *t, k + 1));
                    }
                    visit(&mut marks, &mut stack, *t);
                },
                _ => {},
            }
        }
        proof {
            assert forall|k: int| 0 <= k < stack@.len() implies #[trigger] stack@[k] < n && marks@[stack@[k] as int] by {
                if k < stack1.len() {
                    assert(stack@[k] == stack0[k]);
                }
            }
            assert forall|a: usize, b: usize|
                a < n && marks@[a as int] && !stack@.contains(a) && passes_on(p@, a)
                    && #[trigger] is_succ(p@, a, b) implies marks@[b as int] by {
                if a == cur {
                } else if marks0[a as int] {
                    if stack0.contains(a) {
                        let k = choose|k: int| 0 <= k < stack0.len() && stack0[k] == a;
                        assert(k < stack1.len());
                        assert(stack@[k] == a);
                    }
                } else {
                    if a == next {
                        assert(stack2[stack1.len() as int] == a);
                        assert(stack@[stack1.len() as int] == a);
                    } else {
                        assert(stack@[stack@.len() - 1] == a);
                    }
                }
            }
        }
    }
    proof {
        assert(taint_closed(p@, marks@)) by {
            assert forall|a: usize, b: usize|
                a < marks@.len() && marks@[a as int] && passes_on(p@, a) && #[trigger] is_succ(
                    p@,
                    a,
                    b,
                ) implies marks@[b as int] by {
                assert(!stack@.contains(a));
            }
        }
        assert forall|k: int| 0 <= k < n implies marks@[k] == tainted(p@, k as usize) by {
            let ku = k as usize;
            if tainted(p@, ku) {
                let d = choose|d: nat| tainted_in(p@, ku, d);
                lemma_taint_closed(p@, marks@, ku, d);
            }
        }
        assert(marks@ =~= taint_set(p@));
    }
    marks
}

/// Executable form of [`rewrite`].
fn rewritten(p: &Program, i: usize) -> (r: Instr)
    requires
        p.wf(),
        i < p@.instrs.len(),
    ensures
        r@ == rewrite(p@, i as int),
{
    let n = p.len();
    let a = p.instr(i);
    proof {
        assert(p@.instrs[i as int].valid_at(i as int, n as int));
    }
    if let Op::Push(x) = &a.op {
        let b = p.instr(a.next);
        proof {
            assert(p@.instrs[a.next as int].valid_at(a.next as int, n as int));
        }
        match &b.op {
            Op::Pop => {
                return Instr { op: Op::Nop, next: b.next, origin: a.origin };
            },
            Op::Push(y) => {
                let c = p.instr(b.next);
                if let Op::Binary(op) = &c.op {
                    let op = *op;
                    let fails = (op == BinOp::Div || op == BinOp::Mod) && is_zero(y);
                    if !fails {
                        return Instr { op: Op::Push(compute(op, x, y)), next: c.next, origin: a.origin };
                    }
                }
            },
            _ => {},
        }
    }
    a.duplicate()
}

/// Executable form of [`simplify`].
fn simplify_program(p: &Program) -> (r: Program)
    requires
        p.wf(),
    ensures
        r@ == simplify(p@),
        r.wf(),
{
    let marks = taint(p);
    let n = p.len();
    let mut out: Vec<Instr> = Vec::new();
    let mut i: usize = 0;
    while i < n
        invariant
            p.wf(),
            i <= n,
            n == p@.instrs.len(),
            marks@ == taint_set(p@),
            out@.len() == i,
            forall|k: int| 0 <= k < i ==> (#[trigger] out@[k])@ == simplify(p@).instrs[k],
        decreases n - i,
    {
        if marks[i] {
            out.push(p.instr(i).duplicate());
        } else {
            out.push(rewritten(p, i));
        }
        i += 1;
    }
    proof {
        lemma_simplify_wf(p@);
        assert(instr_views(out@) =~= simplify(p@).instrs);
    }
    Program::from_valid(out, p.entry())
}

/// Simplifying once more, after `k` times, is simplifying `k + 1` times.
proof fn lemma_simplify_more(p: ProgramView, k: nat)
    ensures
        simplify_n(p, k + 1) == simplify(simplify_n(p, k)),
    decreases k,
{
    if k > 0 {
        lemma_simplify_more(simplify(p), (k - 1) as nat);
    } else {
        assert(simplify_n(simplify(p), 0) == simplify(p));
    }
}

/// Executable form of [`level_one`].
fn first_level(p: &Program) -> (r: Program)
    requires
        p.wf(),
    ensures
        r@ == level_one(p@),
        r.wf(),
{
    let a = compact_program(p);
    let b = collapse_program(&a);
    compact_program(&b)
}

/// Executable form of [`level_two`].
fn second_level(p: &Program) -> (r: Program)
    requires
        p.wf(),
    ensures
        r@ == level_two(p@),
        r.wf(),
{
    let first = first_level(p);
    let ghost a = first@;
    let mut cur = first;
    let mut i: usize = 0;
    while i < ROUNDS
        invariant
            i <= ROUNDS,
            cur.wf(),
            cur@ == simplify_n(a, i as nat),
        decreases ROUNDS - i,
    {
        proof {
            lemma_simplify_more(a, i as nat);
        }
        cur = simplify_program(&cur);
        i += 1;
    }
    first_level(&cur)
}

/// Optimizes a program at the given level. The result is the program
/// that [`optimized`] describes; it is valid, and it is equivalent to the
/// program given: on every input the two halt with the same value and
/// output, fail with the same fault and output, or both run for ever and
/// write the same stream.
pub fn optimize(p: &Program, level: Opt) -> (r: Program)
    requires
        p.wf(),
    ensures
        r@ == optimized(p@, level),
        r.wf(),
        equivalent(p@, r@),
{
    proof {
        lemma_optimized(p@, level);
    }
    match level {
        Opt::O0 => p.duplicate(),
        Opt::O1 => first_level(p),
        Opt::O2 => second_level(p),
    }
}

} // verus!
