//! The largest operand-stack depth that a block graph can reach, found by a
//! work list over block entry depths that grow until nothing changes.
use crate::instruction::{BlockIdx, Instruction, DEPTH_MAX, DEPTH_MIN};
use crate::ir::{falls_to, graph_wf, in_order, instrs_of, Block};
use vstd::prelude::*;

verus! {

/// The entry depth of a block that no path has reached yet.
pub const UNREACHED: i64 = -2147483649;

/// A depth held within the tracked range.
pub open spec fn clamp(x: int) -> int {
    if x < DEPTH_MIN {
        DEPTH_MIN as int
    } else if x > DEPTH_MAX {
        DEPTH_MAX as int
    } else {
        x
    }
}

/// The depth before instruction `k` of `s` when the block is entered at
/// depth `start`.
pub open spec fn depth_at(s: Seq<Instruction>, start: int, k: int) -> int
    decreases k,
{
    if k <= 0 {
        start
    } else {
        clamp(depth_at(s, start, k - 1) + s[k - 1].effect_spec(false))
    }
}

/// The depth at the branch target of instruction `k` when it branches.
pub open spec fn jump_depth(s: Seq<Instruction>, start: int, k: int) -> int {
    clamp(depth_at(s, start, k) + s[k].effect_spec(true))
}

/// Instruction `k` of `s`, run from entry depth `start`, stays within `m`,
/// and its branch target is entered at no less than it can bring.
pub open spec fn instr_bounded(s: Seq<Instruction>, start: int, k: int, d: Seq<i64>, m: int) -> bool {
    &&& depth_at(s, start, k + 1) <= m
    &&& match s[k].target_spec() {
        Some(t) => jump_depth(s, start, k) <= m && d[t as int] >= jump_depth(s, start, k),
        None => true,
    }
}

/// The block at position `p` of `order`, entered at its depth in `d`, stays
/// within `m` along every instruction it reaches, and each successor is
/// entered in `d` at no less than the block hands to it.
pub open spec fn block_bounded(blocks: Seq<Block>, order: Seq<BlockIdx>, d: Seq<i64>, m: int, p: int) -> bool {
    let s = instrs_of(blocks[order[p] as int]);
    let start = d[order[p] as int] as int;
    &&& forall|k: int| 0 <= k < s.len() && falls_to(s, k) ==> #[trigger] instr_bounded(s, start, k, d, m)
    &&& falls_to(s, s.len() as int) && p + 1 < order.len()
        ==> d[order[p + 1] as int] >= depth_at(s, start, s.len() as int)
}

/// `d` gives each block an entry depth, or `UNREACHED`, such that the entry
/// block is entered at depth 0 or more, and every reached block stays within
/// `m` and hands its successors no more than their entry depth. Every path
/// from the entry block then stays within `m`.
pub open spec fn depth_bound(blocks: Seq<Block>, order: Seq<BlockIdx>, d: Seq<i64>, m: int) -> bool {
    &&& 0 <= m <= DEPTH_MAX
    &&& d.len() == blocks.len()
    &&& d[0] >= 0
    &&& forall|b: int| 0 <= b < d.len() ==> UNREACHED <= #[trigger] d[b] <= DEPTH_MAX
    &&& forall|p: int|
        0 <= p < order.len() && d[order[p] as int] != UNREACHED ==> #[trigger] block_bounded(blocks, order, d, m, p)
}

/// Instruction `k` of the block at position `p` of `order`, entered at
/// depth `s`, is reached and branches to the block at position `q`, which it
/// enters at depth `u`.
pub open spec fn branches_to(blocks: Seq<Block>, order: Seq<BlockIdx>, p: int, s: int, k: int, q: int, u: int) -> bool {
    let x = instrs_of(blocks[order[p] as int]);
    &&& 0 <= k < x.len()
    &&& falls_to(x, k)
    &&& x[k].target_spec() == Some(order[q])
    &&& u == jump_depth(x, s, k)
}

/// The block at position `p` of `order`, entered at depth `s`, hands control
/// to the block at position `q` at depth `u`: by a branch, or by running off
/// its end into the next block of the order.
pub open spec fn steps_to(blocks: Seq<Block>, order: Seq<BlockIdx>, p: int, s: int, q: int, u: int) -> bool {
    let x = instrs_of(blocks[order[p] as int]);
    &&& 0 <= p < order.len()
    &&& 0 <= q < order.len()
    &&& {
        ||| exists|k: int| #[trigger] branches_to(blocks, order, p, s, k, q, u)
        ||| falls_to(x, x.len() as int) && q == p + 1 && u == depth_at(x, s, x.len() as int)
    }
}

/// A path of (position in `order`, entry depth) pairs that starts at the
/// entry block at depth 0 and follows control from block to block.
pub open spec fn is_path(blocks: Seq<Block>, order: Seq<BlockIdx>, path: Seq<(int, int)>) -> bool {
    &&& path.len() >= 1
    &&& 0 <= path[0].0 < order.len()
    &&& order[path[0].0] == 0
    &&& path[0].1 == 0
    &&& forall|i: int|
        0 <= i < path.len() - 1 ==> #[trigger] steps_to(blocks, order, path[i].0, path[i].1, path[i + 1].0, path[i + 1].1)
}

/// Some path enters the block at position `q` at depth `u`.
pub open spec fn reached_at(blocks: Seq<Block>, order: Seq<BlockIdx>, q: int, u: int) -> bool {
    exists|path: Seq<(int, int)>| #[trigger] is_path(blocks, order, path) && path.last() == (q, u)
}

/// Instruction `k` of the block at position `q`, entered at depth `s`, is
/// reached and leaves depth `m` behind it, or hands `m` to its branch target.
pub open spec fn leaves_depth(blocks: Seq<Block>, order: Seq<BlockIdx>, q: int, s: int, k: int, m: int) -> bool {
    let x = instrs_of(blocks[order[q] as int]);
    &&& 0 <= k < x.len()
    &&& falls_to(x, k)
    &&& (m == depth_at(x, s, k + 1) || (x[k].target_spec() is Some && m == jump_depth(x, s, k)))
}

/// Some path from the entry block reaches stack depth `m`.
pub open spec fn depth_seen(blocks: Seq<Block>, order: Seq<BlockIdx>, m: int) -> bool {
    exists|q: int, s: int, k: int| reached_at(blocks, order, q, s) && #[trigger] leaves_depth(blocks, order, q, s, k, m)
}

proof fn lemma_depth_at_range(x: Seq<Instruction>, s: int, k: int)
    requires
        DEPTH_MIN <= s <= DEPTH_MAX,
    ensures
        DEPTH_MIN <= depth_at(x, s, k) <= DEPTH_MAX,
    decreases k,
{
    if k > 0 {
        lemma_depth_at_range(x, s, k - 1);
    }
}

proof fn lemma_depth_at_monotone(x: Seq<Instruction>, s1: int, s2: int, k: int)
    requires
        s1 <= s2,
    ensures
        depth_at(x, s1, k) <= depth_at(x, s2, k),
        0 <= k < x.len() ==> jump_depth(x, s1, k) <= jump_depth(x, s2, k),
    decreases k,
{
    if k > 0 {
        lemma_depth_at_monotone(x, s1, s2, k - 1);
    }
}

/// Along a path, each block is entered in a depth bound at no less than the
/// path enters it.
proof fn lemma_path_within(blocks: Seq<Block>, order: Seq<BlockIdx>, d: Seq<i64>, m: int, path: Seq<(int, int)>, i: int)
    requires
        graph_wf(blocks, order),
        depth_bound(blocks, order, d, m),
        is_path(blocks, order, path),
        0 <= i < path.len(),
    ensures
        0 <= path[i].0 < order.len(),
        DEPTH_MIN <= path[i].1 <= DEPTH_MAX,
        d[order[path[i].0] as int] >= path[i].1,
    decreases i,
{
    if i > 0 {
        lemma_path_within(blocks, order, d, m, path, i - 1);
        let (p, s) = path[i - 1];
        let (q, u) = path[i];
        let j = i - 1;
        assert(steps_to(blocks, order, path[j].0, path[j].1, path[j + 1].0, path[j + 1].1));
        let x = instrs_of(blocks[order[p] as int]);
        let start = d[order[p] as int] as int;
        assert(order[p] < blocks.len());
        assert(d[order[p] as int] != UNREACHED);
        assert(block_bounded(blocks, order, d, m, p));
        lemma_depth_at_range(x, s, x.len() as int);
        if exists|k: int| #[trigger] branches_to(blocks, order, p, s, k, q, u) {
            let k = choose|k: int| #[trigger] branches_to(blocks, order, p, s, k, q, u);
            assert(instr_bounded(x, start, k, d, m));
            lemma_depth_at_monotone(x, s, start, k);
        } else {
            lemma_depth_at_monotone(x, s, start, x.len() as int);
        }
    }
}

/// No path from the entry block goes deeper than a depth bound.
pub proof fn lemma_depth_bound_is_sound(blocks: Seq<Block>, order: Seq<BlockIdx>, d: Seq<i64>, m: int, depth: int)
    requires
        graph_wf(blocks, order),
        depth_bound(blocks, order, d, m),
        depth_seen(blocks, order, depth),
    ensures
        depth <= m,
{
    let (q, s, k) = choose|q: int, s: int, k: int|
        reached_at(blocks, order, q, s) && #[trigger] leaves_depth(blocks, order, q, s, k, depth);
    let path = choose|path: Seq<(int, int)>| #[trigger] is_path(blocks, order, path) && path.last() == (q, s);
    lemma_path_within(blocks, order, d, m, path, path.len() - 1);
    let x = instrs_of(blocks[order[q] as int]);
    let start = d[order[q] as int] as int;
    assert(order[q] < blocks.len());
    assert(block_bounded(blocks, order, d, m, q));
    assert(instr_bounded(x, start, k, d, m));
    lemma_depth_at_monotone(x, s, start, k + 1);
    lemma_depth_at_monotone(x, s, start, k);
}

/// How far the entry depths are from the largest tracked depth, in all.
pub open spec fn gap(d: Seq<i64>) -> int
    decreases d.len(),
{
    if d.len() == 0 {
        0
    } else {
        gap(d.drop_last()) + (DEPTH_MAX - d.last())
    }
}

proof fn lemma_gap_update(d: Seq<i64>, i: int, v: i64)
    requires
        0 <= i < d.len(),
    ensures
        gap(d.update(i, v)) == gap(d) - v + d[i],
    decreases d.len(),
{
    let e = d.update(i, v);
    if i == d.len() - 1 {
        assert(e.drop_last() =~= d.drop_last());
    } else {
        assert(e.drop_last() =~= d.drop_last().update(i, v));
        lemma_gap_update(d.drop_last(), i, v);
    }
}

proof fn lemma_gap_nonneg(d: Seq<i64>)
    requires
        forall|b: int| 0 <= b < d.len() ==> #[trigger] d[b] <= DEPTH_MAX,
    ensures
        gap(d) >= 0,
    decreases d.len(),
{
    if d.len() > 0 {
        lemma_gap_nonneg(d.drop_last());
    }
}

fn clamp_depth(x: i64) -> (r: i64)
    requires
        -0x1_0000_0000_0000 <= x <= 0x1_0000_0000_0000,
    ensures
        r as int == clamp(x as int),
{
    if x < DEPTH_MIN {
        DEPTH_MIN
    } else if x > DEPTH_MAX {
        DEPTH_MAX
    } else {
        x
    }
}

/// Records that `target` can be entered at `depth`, and queues it for a
/// walk, where that is deeper than its recorded entry depth.
pub fn stackdepth_push(stack: &mut Vec<BlockIdx>, startdepths: &mut Vec<i64>, target: BlockIdx, depth: i64)
    requires
        target < old(startdepths)@.len(),
    ensures
        depth > old(startdepths)@[target as int] ==> final(startdepths)@ == old(startdepths)@.update(
            target as int,
            depth,
        ) && final(stack)@ == old(stack)@.push(target),
        depth <= old(startdepths)@[target as int] ==> final(startdepths)@ == old(startdepths)@
            && final(stack)@ == old(stack)@,
{
    let t = target as usize;
    if depth > startdepths[t] {
        startdepths.set(t, depth);
        stack.push(target);
    }
}

/// The position of each block in `order`.
fn positions(order: &Vec<BlockIdx>, n: usize) -> (r: Vec<usize>)
    requires
        crate::ir::is_permutation(order@, n as int),
    ensures
        r@.len() == n,
        forall|p: int| 0 <= p < n ==> r@[#[trigger] order@[p] as int] == p,
        forall|b: int| 0 <= b < n ==> #[trigger] r@[b] < n,
{
    let mut r: Vec<usize> = Vec::new();
    while r.len() < n
        invariant
            r@.len() <= n,
        decreases n - r.len(),
    {
        r.push(0);
    }
    let mut p: usize = 0;
    while p < n
        invariant
            crate::ir::is_permutation(order@, n as int),
            r@.len() == n,
            p <= n,
            forall|q: int| 0 <= q < p ==> r@[#[trigger] order@[q] as int] == q,
        decreases n - p,
    {
        r.set(order[p] as usize, p);
        p = p + 1;
    }
    assert forall|b: int| 0 <= b < n implies #[trigger] r@[b] < n by {
        assert(in_order(order@, b));
    }
    r
}


/// The facts of one instruction still hold once entry depths and the bound
/// have grown.
proof fn lemma_instr_bounded_grows(s: Seq<Instruction>, start: int, k: int, d: Seq<i64>, m: int, d2: Seq<i64>, m2: int)
    requires
        0 <= k < s.len(),
        instr_bounded(s, start, k, d, m),
        m <= m2,
        d2.len() == d.len(),
        forall|i: int| 0 <= i < d.len() ==> #[trigger] d2[i] >= d[i],
        s[k].target_spec() is Some ==> s[k].target_spec()->0 < d.len(),
    ensures
        instr_bounded(s, start, k, d2, m2),
{
    if let Some(t) = s[k].target_spec() {
        assert(d2[t as int] >= d[t as int]);
    }
}

/// The facts of a block still hold once the other blocks' entry depths and
/// the bound have grown.
proof fn lemma_block_bounded_grows(blocks: Seq<Block>, order: Seq<BlockIdx>, d: Seq<i64>, m: int, d2: Seq<i64>, m2: int, p: int)
    requires
        graph_wf(blocks, order),
        0 <= p < order.len(),
        block_bounded(blocks, order, d, m, p),
        m <= m2,
        d.len() == blocks.len(),
        d2.len() == d.len(),
        forall|i: int| 0 <= i < d.len() ==> #[trigger] d2[i] >= d[i],
        d2[order[p] as int] == d[order[p] as int],
    ensures
        block_bounded(blocks, order, d2, m2, p),
{
    let blk = blocks[order[p] as int];
    let s = instrs_of(blk);
    let start = d[order[p] as int] as int;
    assert forall|k: int| 0 <= k < s.len() && falls_to(s, k) implies #[trigger] instr_bounded(s, start, k, d2, m2) by {
        assert(s[k] == blk.instructions@[k].instr);
        lemma_instr_bounded_grows(s, start, k, d, m, d2, m2);
    }
    if falls_to(s, s.len() as int) && p + 1 < order.len() {
        assert(order[p + 1] < blocks.len());
    }
}

proof fn lemma_prefix_contains(a: Seq<BlockIdx>, b: Seq<BlockIdx>, x: BlockIdx)
    requires
        a.len() <= b.len(),
        b.subrange(0, a.len() as int) == a,
        a.contains(x),
    ensures
        b.contains(x),
{
    let i = choose|i: int| 0 <= i < a.len() && a[i] == x;
    assert(b[i] == b.subrange(0, a.len() as int)[i]);
}

/// The largest operand-stack depth reached on any path from the entry block
/// (block 0), where a block that ends without an unconditional transfer
/// continues at the next block of `order`, and the last one stops.
pub fn max_stack_depth(blocks: &Vec<Block>, order: &Vec<BlockIdx>) -> (r: u32)
    requires
        graph_wf(blocks@, order@),
    ensures
        r == 0 || depth_seen(blocks@, order@, r as int),
        forall|m: int| depth_seen(blocks@, order@, m) ==> m <= r,
{
    let n = blocks.len();
    let pos = positions(order, n);
    let mut startdepths: Vec<i64> = Vec::new();
    while startdepths.len() < n
        invariant
            startdepths@.len() <= n,
            forall|i: int| 0 <= i < startdepths@.len() ==> #[trigger] startdepths@[i] == UNREACHED,
        decreases n - startdepths.len(),
    {
        startdepths.push(UNREACHED);
    }
    startdepths.set(0, 0);
    let mut stack: Vec<BlockIdx> = Vec::new();
    stack.push(0);
    let mut maxdepth: i64 = 0;
    proof {
        lemma_gap_nonneg(startdepths@);
        assert(stack@[0] == 0);
        assert forall|q: int| 0 <= q < n && startdepths@[order@[q] as int] != UNREACHED
            implies reached_at(blocks@, order@, q, #[trigger] startdepths@[order@[q] as int] as int) by {
            assert(order@[q] == 0);
            let path = seq![(q, 0int)];
            assert(is_path(blocks@, order@, path));
            assert(path.last() == (q, startdepths@[order@[q] as int] as int));
        }
        assert forall|p: int| 0 <= p < n && startdepths@[order@[p] as int] != UNREACHED
            implies #[trigger] block_bounded(blocks@, order@, startdepths@, maxdepth as int, p)
                || stack@.contains(order@[p]) by {
            if order@[p] != 0 {
                assert(startdepths@[order@[p] as int] == UNREACHED);
            }
        }
    }
    while stack.len() > 0
        invariant
            graph_wf(blocks@, order@),
            n == blocks@.len(),
            pos@.len() == n,
            forall|p: int| 0 <= p < n ==> pos@[#[trigger] order@[p] as int] == p,
            forall|b: int| 0 <= b < n ==> #[trigger] pos@[b] < n,
            startdepths@.len() == n,
            forall|b: int| 0 <= b < n ==> UNREACHED <= #[trigger] startdepths@[b] <= DEPTH_MAX,
            startdepths@[0] >= 0,
            0 <= maxdepth <= DEPTH_MAX,
            gap(startdepths@) >= 0,
            forall|j: int| 0 <= j < stack@.len() ==> #[trigger] stack@[j] < n && startdepths@[stack@[j] as int] != UNREACHED,
            forall|p: int| 0 <= p < n && startdepths@[order@[p] as int] != UNREACHED
                ==> #[trigger] block_bounded(blocks@, order@, startdepths@, maxdepth as int, p)
                    || stack@.contains(order@[p]),
            forall|q: int| 0 <= q < n && startdepths@[order@[q] as int] != UNREACHED
                ==> reached_at(blocks@, order@, q, #[trigger] startdepths@[order@[q] as int] as int),
            maxdepth == 0 || depth_seen(blocks@, order@, maxdepth as int),
        decreases gap(startdepths@), stack@.len(),
    {
        let ghost d0 = startdepths@;
        let ghost m0 = maxdepth as int;
        let ghost stack0 = stack@;
        let b = stack.pop().unwrap();
        let ghost stack1 = stack@;
        assert(stack0 == stack1.push(b));
        let p = pos[b as usize];
        proof {
            assert(in_order(order@, b as int));
            let q = choose|q: int| 0 <= q < order@.len() && order@[q] == b;
            assert(pos@[order@[q] as int] == q);
        }
        let block = &blocks[b as usize];
        let ghost s = instrs_of(*block);
        let start = startdepths[b as usize];
        assert(startdepths@[order@[p as int] as int] == start);
        let ghost pb = choose|path: Seq<(int, int)>| #[trigger] is_path(blocks@, order@, path)
            && path.last() == (p as int, start as int);
        let m = block.instructions.len();
        let mut depth = start;
        let mut k: usize = 0;
        let mut falls = true;
        while k < m && falls
            invariant
                graph_wf(blocks@, order@),
                n == blocks@.len(),
                0 <= b < n,
                p < n,
                order@[p as int] == b,
                block == &blocks@[b as int],
                s == instrs_of(*block),
                m == s.len(),
                start == d0[b as int],
                DEPTH_MIN <= start <= DEPTH_MAX,
                d0.len() == n,
                startdepths@.len() == n,
                forall|i: int| 0 <= i < n ==> UNREACHED <= #[trigger] startdepths@[i] <= DEPTH_MAX,
                forall|i: int| 0 <= i < n ==> #[trigger] startdepths@[i] >= d0[i],
                forall|i: int| 0 <= i < n && #[trigger] startdepths@[i] != d0[i] ==> stack@.contains(i as BlockIdx),
                stack1.len() <= stack@.len(),
                stack@.subrange(0, stack1.len() as int) == stack1,
                forall|j: int| 0 <= j < stack@.len() ==> #[trigger] stack@[j] < n && startdepths@[stack@[j] as int] != UNREACHED,
                m0 <= maxdepth <= DEPTH_MAX,
                gap(startdepths@) <= gap(d0),
                gap(startdepths@) == gap(d0) ==> stack@.len() == stack1.len(),
                k <= m,
                falls_to(s, k as int),
                forall|j: int| 0 <= j < k ==> #[trigger] instr_bounded(s, start as int, j, startdepths@, maxdepth as int),
                !falls ==> k < m && s[k as int].unconditional_spec()
                    && instr_bounded(s, start as int, k as int, startdepths@, maxdepth as int),
                depth as int == depth_at(s, start as int, if falls { k as int } else { k as int + 1 }),
                DEPTH_MIN <= depth <= DEPTH_MAX,
                pos@.len() == n,
                forall|q: int| 0 <= q < n ==> pos@[#[trigger] order@[q] as int] == q,
                forall|c: int| 0 <= c < n ==> #[trigger] pos@[c] < n,
                is_path(blocks@, order@, pb),
                pb.last() == (p as int, start as int),
                forall|q: int| 0 <= q < n && startdepths@[order@[q] as int] != UNREACHED
                    ==> reached_at(blocks@, order@, q, #[trigger] startdepths@[order@[q] as int] as int),
                maxdepth == 0 || depth_seen(blocks@, order@, maxdepth as int),
            decreases m - k + (if falls { 1int } else { 0int }),
        {
            let ghost dk = startdepths@;
            let ghost mk = maxdepth as int;
            let instr = block.instructions[k].instr;
            assert(instr == s[k as int]);
            let new_depth = clamp_depth(depth + instr.stack_effect(false) as i64);
            proof {
                assert(reached_at(blocks@, order@, p as int, start as int));
                assert(leaves_depth(blocks@, order@, p as int, start as int, k as int, new_depth as int));
            }
            if new_depth > maxdepth {
                maxdepth = new_depth;
            }
            if let Some(t) = instr.label_arg() {
                assert(t < n);
                let target_depth = clamp_depth(depth + instr.stack_effect(true) as i64);
                let ghost qt = pos@[t as int] as int;
                proof {
                    assert(reached_at(blocks@, order@, p as int, start as int));
                    assert(leaves_depth(blocks@, order@, p as int, start as int, k as int, target_depth as int));
                    assert(in_order(order@, t as int));
                    let q0 = choose|q0: int| 0 <= q0 < order@.len() && order@[q0] == t;
                    assert(pos@[order@[q0] as int] == q0);
                    assert(order@[qt] == t);
                    assert(branches_to(blocks@, order@, p as int, start as int, k as int, qt, target_depth as int));
                    let np = pb.push((qt, target_depth as int));
                    assert forall|i: int| 0 <= i < np.len() - 1
                        implies #[trigger] steps_to(blocks@, order@, np[i].0, np[i].1, np[i + 1].0, np[i + 1].1) by {
                        if i < pb.len() - 1 {
                            assert(np[i] == pb[i] && np[i + 1] == pb[i + 1]);
                        } else {
                            assert(np[i] == (p as int, start as int));
                        }
                    }
                    assert(is_path(blocks@, order@, np));
                    assert(reached_at(blocks@, order@, qt, target_depth as int));
                }
                if target_depth > maxdepth {
                    maxdepth = target_depth;
                }
                proof {
                    if target_depth > startdepths@[t as int] {
                        lemma_gap_update(startdepths@, t as int, target_depth);
                    }
                }
                let ghost before = stack@;
                stackdepth_push(&mut stack, &mut startdepths, t, target_depth);
                proof {
                    assert forall|q: int| 0 <= q < n && startdepths@[order@[q] as int] != UNREACHED
                        implies reached_at(blocks@, order@, q, #[trigger] startdepths@[order@[q] as int] as int) by {
                        if order@[q] == t && target_depth > dk[t as int] {
                            assert(q == qt);
                        } else {
                            assert(startdepths@[order@[q] as int] == dk[order@[q] as int]);
                        }
                    }
                    assert(stack@.subrange(0, stack1.len() as int) =~= before.subrange(0, stack1.len() as int));
                    assert forall|i: int| 0 <= i < n && #[trigger] startdepths@[i] != d0[i] implies stack@.contains(i as BlockIdx) by {
                        if i == t as int && target_depth > dk[t as int] {
                            assert(stack@[stack@.len() - 1] == t);
                        } else {
                            assert(before.contains(i as BlockIdx));
                            assert(stack@.subrange(0, before.len() as int) =~= before);
                            lemma_prefix_contains(before, stack@, i as BlockIdx);
                        }
                    }
                }
            }
            proof {
                assert forall|j: int| 0 <= j < k implies #[trigger] instr_bounded(s, start as int, j, startdepths@, maxdepth as int) by {
                    assert(s[j] == block.instructions@[j].instr);
                    lemma_instr_bounded_grows(s, start as int, j, dk, mk, startdepths@, maxdepth as int);
                }
            }
            depth = new_depth;
            if instr.unconditional_branch() {
                falls = false;
            } else {
                k = k + 1;
            }
        }
        if falls && p + 1 < n {
            let next = order[p + 1];
            let ghost dk = startdepths@;
            proof {
                let qn = p as int + 1;
                let np = pb.push((qn, depth as int));
                assert(steps_to(blocks@, order@, p as int, start as int, qn, depth as int));
                assert forall|i: int| 0 <= i < np.len() - 1
                    implies #[trigger] steps_to(blocks@, order@, np[i].0, np[i].1, np[i + 1].0, np[i + 1].1) by {
                    if i < pb.len() - 1 {
                        assert(np[i] == pb[i] && np[i + 1] == pb[i + 1]);
                    } else {
                        assert(np[i] == (p as int, start as int));
                    }
                }
                assert(is_path(blocks@, order@, np));
                assert(reached_at(blocks@, order@, qn, depth as int));
                if depth > startdepths@[next as int] {
                    lemma_gap_update(startdepths@, next as int, depth);
                }
            }
            let ghost before = stack@;
            stackdepth_push(&mut stack, &mut startdepths, next, depth);
            proof {
                assert forall|q: int| 0 <= q < n && startdepths@[order@[q] as int] != UNREACHED
                    implies reached_at(blocks@, order@, q, #[trigger] startdepths@[order@[q] as int] as int) by {
                    if order@[q] == next && depth > dk[next as int] {
                        assert(q == p as int + 1);
                    } else {
                        assert(startdepths@[order@[q] as int] == dk[order@[q] as int]);
                    }
                }
                assert(stack@.subrange(0, stack1.len() as int) =~= before.subrange(0, stack1.len() as int));
                assert forall|i: int| 0 <= i < n && #[trigger] startdepths@[i] != d0[i] implies stack@.contains(i as BlockIdx) by {
                    if i == next as int && depth > dk[next as int] {
                        assert(stack@[stack@.len() - 1] == next);
                    } else {
                        assert(before.contains(i as BlockIdx));
                        assert(stack@.subrange(0, before.len() as int) =~= before);
                        lemma_prefix_contains(before, stack@, i as BlockIdx);
                    }
                }
                assert forall|j: int| 0 <= j < k implies #[trigger] instr_bounded(s, start as int, j, startdepths@, maxdepth as int) by {
                    assert(s[j] == block.instructions@[j].instr);
                    lemma_instr_bounded_grows(s, start as int, j, dk, maxdepth as int, startdepths@, maxdepth as int);
                }
            }
        }
        proof {
            let d = startdepths@;
            let md = maxdepth as int;
            lemma_gap_nonneg(d);
            if d[b as int] == start {
                assert forall|kk: int| 0 <= kk < s.len() && falls_to(s, kk) implies #[trigger] instr_bounded(s, start as int, kk, d, md) by {
                    if !falls && kk > k {
                        assert(!s[k as int].unconditional_spec());
                    }
                }
                if falls_to(s, s.len() as int) {
                    if !falls {
                        assert(!s[k as int].unconditional_spec());
                    }
                }
                assert(block_bounded(blocks@, order@, d, md, p as int));
            }
            assert forall|q: int| 0 <= q < n && d[order@[q] as int] != UNREACHED
                implies #[trigger] block_bounded(blocks@, order@, d, md, q) || stack@.contains(order@[q]) by {
                let c = order@[q];
                if d[c as int] != d0[c as int] {
                    assert(stack@.contains(c as int as BlockIdx));
                } else if c == b {
                    assert(q == p as int);
                    if d[b as int] != start {
                        assert(stack@.contains(b as int as BlockIdx));
                    }
                } else if block_bounded(blocks@, order@, d0, m0, q) {
                    lemma_block_bounded_grows(blocks@, order@, d0, m0, d, md, q);
                } else {
                    assert(stack0.contains(c));
                    let i = choose|i: int| 0 <= i < stack0.len() && stack0[i] == c;
                    assert(i < stack1.len());
                    assert(stack1.contains(c));
                    lemma_prefix_contains(stack1, stack@, c);
                }
            }
        }
    }
    assert(depth_bound(blocks@, order@, startdepths@, maxdepth as int));
    assert forall|m: int| depth_seen(blocks@, order@, m) implies m <= maxdepth by {
        lemma_depth_bound_is_sound(blocks@, order@, startdepths@, maxdepth as int, m);
    }
    maxdepth as u32
}

} // verus!
