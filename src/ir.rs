//! The block graph of one code unit, and its finalization.
use crate::instruction::{BlockIdx, Instruction};
use rustpython_bytecode::bytecode::Location;
use vstd::prelude::*;

verus! {

/// An instruction together with the source position it came from.
#[derive(Clone, Copy)]
pub struct InstructionInfo {
    /// A branch operand here names a block, not a code offset.
    pub instr: Instruction,
    pub location: Location,
}

pub struct Block {
    pub instructions: Vec<InstructionInfo>,
    pub done: bool,
}

impl Default for Block {
    fn default() -> (r: Block)
        ensures
            r.instructions@.len() == 0,
            !r.done,
    {
        Block { instructions: Vec::new(), done: false }
    }
}

/// The instructions of a block, without their positions.
pub open spec fn instrs_of(b: Block) -> Seq<Instruction> {
    b.instructions@.map_values(|i: InstructionInfo| i.instr)
}

/// Every instruction before index `k` lets control fall through.
pub open spec fn falls_to(s: Seq<Instruction>, k: int) -> bool {
    forall|j: int| 0 <= j < k ==> !(#[trigger] s[j]).unconditional_spec()
}

/// `r` instructions of `s` are live: those up to and including the first
/// unconditional transfer, or all of them where there is none.
pub open spec fn is_live_len(s: Seq<Instruction>, r: int) -> bool {
    ||| r == s.len() && falls_to(s, r)
    ||| 1 <= r <= s.len() && falls_to(s, r - 1) && s[r - 1].unconditional_spec()
}

/// The live length of a sequence is unique.
pub proof fn lemma_live_len_unique(s: Seq<Instruction>, r1: int, r2: int)
    requires
        is_live_len(s, r1),
        is_live_len(s, r2),
    ensures
        r1 == r2,
{
    if r1 < r2 {
        assert(!s[r1 - 1].unconditional_spec());
    } else if r2 < r1 {
        assert(!s[r2 - 1].unconditional_spec());
    }
}

/// Removing dead code from a block that has already lost its dead code
/// leaves it as it is.
pub proof fn lemma_dead_code_removal_idempotent(s: Seq<Instruction>, r: int, r2: int)
    requires
        is_live_len(s, r),
        is_live_len(s.take(r), r2),
    ensures
        r2 == r,
        s.take(r).take(r2) == s.take(r),
{
    let t = s.take(r);
    assert(is_live_len(t, r)) by {
        if r == s.len() {
            assert(t =~= s);
        } else {
            assert(t[r - 1] == s[r - 1]);
            assert(falls_to(t, r - 1)) by {
                assert forall|j: int| 0 <= j < r - 1 implies !(#[trigger] t[j]).unconditional_spec() by {
                    assert(t[j] == s[j]);
                }
            }
        }
    }
    lemma_live_len_unique(t, r, r2);
    assert(t.take(r2) =~= t);
}

/// The number of live instructions at the head of a block.
pub fn live_len(block: &Block) -> (r: usize)
    ensures
        is_live_len(instrs_of(*block), r as int),
{
    let ghost s = instrs_of(*block);
    let n = block.instructions.len();
    let mut i: usize = 0;
    while i < n
        invariant
            n == s.len(),
            s == instrs_of(*block),
            i <= n,
            falls_to(s, i as int),
        decreases n - i,
    {
        assert(s[i as int] == block.instructions@[i as int].instr);
        if block.instructions[i].instr.unconditional_branch() {
            return i + 1;
        }
        i = i + 1;
    }
    n
}

/// Where each block begins when the blocks at positions before `p` of
/// `order` are laid out one after another.
pub open spec fn start_of(blocks: Seq<Block>, order: Seq<BlockIdx>, p: int) -> int
    decreases p,
{
    if p <= 0 {
        0
    } else {
        start_of(blocks, order, p - 1) + blocks[order[p - 1] as int].instructions@.len()
    }
}

/// The number of instructions in all blocks of `order`.
pub open spec fn total_len(blocks: Seq<Block>, order: Seq<BlockIdx>) -> int {
    start_of(blocks, order, order.len() as int)
}

/// `order` holds every block index below `n` exactly once.
pub open spec fn is_permutation(order: Seq<BlockIdx>, n: int) -> bool {
    &&& order.len() == n
    &&& forall|p: int| 0 <= p < n ==> (#[trigger] order[p]) < n
    &&& forall|p: int, q: int| 0 <= p < n && 0 <= q < n && order[p] == order[q] ==> p == q
    &&& forall|b: int| 0 <= b < n ==> #[trigger] in_order(order, b)
}

/// Block `b` stands somewhere in `order`.
pub open spec fn in_order(order: Seq<BlockIdx>, b: int) -> bool {
    exists|p: int| 0 <= p < order.len() && order[p] == b
}

/// The position of block `b` in `order`.
pub open spec fn pos_of(order: Seq<BlockIdx>, b: BlockIdx) -> int {
    choose|p: int| 0 <= p < order.len() && order[p] == b
}

/// Every branch operand names a block.
pub open spec fn targets_in_range(blocks: Seq<Block>) -> bool {
    forall|b: int, k: int|
        0 <= b < blocks.len() && 0 <= k < blocks[b].instructions@.len()
            ==> match (#[trigger] blocks[b].instructions@[k]).instr.target_spec() {
            Some(t) => t < blocks.len(),
            None => true,
        }
}

/// A block graph that can be finalized: a non-empty set of blocks, an order
/// that lists each once, branch operands that name blocks, and offsets that
/// fit a block index.
pub open spec fn graph_wf(blocks: Seq<Block>, order: Seq<BlockIdx>) -> bool {
    &&& 1 <= blocks.len() <= u32::MAX
    &&& is_permutation(order, blocks.len() as int)
    &&& targets_in_range(blocks)
    &&& total_len(blocks, order) <= u32::MAX
}

/// An instruction with its branch operand turned from a block into the
/// offset at which that block begins.
pub open spec fn relocated(blocks: Seq<Block>, order: Seq<BlockIdx>, i: InstructionInfo) -> InstructionInfo {
    match i.instr.target_spec() {
        Some(t) => InstructionInfo {
            instr: i.instr.with_target(start_of(blocks, order, pos_of(order, t)) as BlockIdx),
            location: i.location,
        },
        None => i,
    }
}

/// The blocks at positions before `p` of `order`, laid out one after
/// another, with their branch operands relocated.
pub open spec fn laid_out(blocks: Seq<Block>, order: Seq<BlockIdx>, p: int) -> Seq<InstructionInfo>
    decreases p,
{
    if p <= 0 {
        seq![]
    } else {
        laid_out(blocks, order, p - 1) + blocks[order[p - 1] as int].instructions@.map_values(
            |i: InstructionInfo| relocated(blocks, order, i),
        )
    }
}

pub proof fn lemma_start_of_monotone(blocks: Seq<Block>, order: Seq<BlockIdx>, p: int, q: int)
    requires
        0 <= p <= q <= order.len(),
        forall|i: int| 0 <= i < order.len() ==> (#[trigger] order[i]) < blocks.len(),
    ensures
        start_of(blocks, order, p) <= start_of(blocks, order, q),
    decreases q - p,
{
    if p < q {
        lemma_start_of_monotone(blocks, order, p, q - 1);
    }
}

pub proof fn lemma_laid_out_len(blocks: Seq<Block>, order: Seq<BlockIdx>, p: int)
    requires
        0 <= p <= order.len(),
    ensures
        laid_out(blocks, order, p).len() == start_of(blocks, order, p),
    decreases p,
{
    if p > 0 {
        lemma_laid_out_len(blocks, order, p - 1);
    }
}


/// Each element of a layout is a relocated instruction of one block, at the
/// offset where that block begins plus its index within the block.
pub proof fn lemma_laid_out_index(blocks: Seq<Block>, order: Seq<BlockIdx>, p: int, i: int) -> (qk: (int, int))
    requires
        0 <= p <= order.len(),
        0 <= i < laid_out(blocks, order, p).len(),
    ensures
        0 <= qk.0 < p,
        0 <= qk.1 < blocks[order[qk.0] as int].instructions@.len(),
        i == start_of(blocks, order, qk.0) + qk.1,
        laid_out(blocks, order, p)[i] == relocated(blocks, order, blocks[order[qk.0] as int].instructions@[qk.1]),
    decreases p,
{
    lemma_laid_out_len(blocks, order, p - 1);
    let prev = laid_out(blocks, order, p - 1);
    if i < prev.len() {
        lemma_laid_out_index(blocks, order, p - 1, i)
    } else {
        (p - 1, i - prev.len())
    }
}

/// Every branch operand of a laid-out graph is the offset at which some block
/// of the order begins, and lies within the stream where the last block of
/// the order is not empty.
pub proof fn lemma_layout_targets_are_block_starts(blocks: Seq<Block>, order: Seq<BlockIdx>, i: int)
    requires
        graph_wf(blocks, order),
        0 <= i < laid_out(blocks, order, order.len() as int).len(),
        laid_out(blocks, order, order.len() as int)[i].instr.target_spec() is Some,
    ensures
        ({
            let x = laid_out(blocks, order, order.len() as int)[i].instr.target_spec()->0 as int;
            &&& exists|p: int| 0 <= p < order.len() && x == start_of(blocks, order, p)
            &&& x <= total_len(blocks, order)
            &&& blocks[order[order.len() - 1] as int].instructions@.len() > 0 ==> x < total_len(blocks, order)
        }),
{
    let n = order.len() as int;
    let (q, k) = lemma_laid_out_index(blocks, order, n, i);
    let orig = blocks[order[q] as int].instructions@[k];
    let t = orig.instr.target_spec()->0;
    assert(t < blocks.len());
    assert(in_order(order, t as int));
    let pt = pos_of(order, t);
    assert(0 <= pt < n && order[pt] == t);
    lemma_start_of_monotone(blocks, order, pt, n);
    let x = start_of(blocks, order, pt);
    lemma_start_of_monotone(blocks, order, 0, pt);
    assert(0 <= x <= u32::MAX);
    assert(orig.instr.with_target(x as BlockIdx).target_spec() == Some(x as BlockIdx));
    assert(relocated(blocks, order, orig).instr == orig.instr.with_target(x as BlockIdx));
    assert(laid_out(blocks, order, n)[i].instr.target_spec()->0 as int == x);
    if blocks[order[n - 1] as int].instructions@.len() > 0 {
        lemma_start_of_monotone(blocks, order, pt, n - 1);
    }
}

/// The offset at which each block begins once the blocks are laid out in
/// `order`.
pub fn block_offsets(blocks: &Vec<Block>, order: &Vec<BlockIdx>) -> (r: Vec<BlockIdx>)
    requires
        graph_wf(blocks@, order@),
    ensures
        r@.len() == blocks@.len(),
        forall|b: int| 0 <= b < blocks@.len()
            ==> #[trigger] r@[b] as int == start_of(blocks@, order@, pos_of(order@, b as BlockIdx)),
{
    let n = blocks.len();
    let mut r: Vec<BlockIdx> = Vec::new();
    while r.len() < n
        invariant
            r@.len() <= n,
        decreases n - r.len(),
    {
        r.push(0);
    }
    let mut num: usize = 0;
    let mut p: usize = 0;
    while p < n
        invariant
            n == blocks@.len(),
            graph_wf(blocks@, order@),
            r@.len() == n,
            p <= n,
            num as int == start_of(blocks@, order@, p as int),
            forall|q: int| 0 <= q < p ==> r@[order@[q] as int] as int == start_of(blocks@, order@, q),
        decreases n - p,
    {
        let b = order[p] as usize;
        proof {
            lemma_start_of_monotone(blocks@, order@, p as int + 1, n as int);
        }
        r.set(b, num as BlockIdx);
        num = num + blocks[b].instructions.len();
        p = p + 1;
    }
    assert forall|b: int| 0 <= b < blocks@.len()
        implies #[trigger] r@[b] as int == start_of(blocks@, order@, pos_of(order@, b as BlockIdx)) by {
        assert(in_order(order@, b));
        let q = pos_of(order@, b as BlockIdx);
        assert(0 <= q < n && order@[q] == b);
    }
    r
}

/// The instructions of the graph laid out in `order`, with every branch
/// operand turned into the offset of its block, and their source positions.
pub fn linearize(blocks: &Vec<Block>, order: &Vec<BlockIdx>) -> (r: (Vec<Instruction>, Vec<Location>))
    requires
        graph_wf(blocks@, order@),
    ensures
        r.0@ == laid_out(blocks@, order@, order@.len() as int).map_values(|i: InstructionInfo| i.instr),
        r.1@ == laid_out(blocks@, order@, order@.len() as int).map_values(|i: InstructionInfo| i.location),
{
    let offsets = block_offsets(blocks, order);
    let n = order.len();
    let mut instructions: Vec<Instruction> = Vec::new();
    let mut locations: Vec<Location> = Vec::new();
    let mut p: usize = 0;
    while p < n
        invariant
            n == order@.len(),
            graph_wf(blocks@, order@),
            offsets@.len() == blocks@.len(),
            forall|b: int| 0 <= b < blocks@.len()
                ==> #[trigger] offsets@[b] as int == start_of(blocks@, order@, pos_of(order@, b as BlockIdx)),
            p <= n,
            instructions@ == laid_out(blocks@, order@, p as int).map_values(|i: InstructionInfo| i.instr),
            locations@ == laid_out(blocks@, order@, p as int).map_values(|i: InstructionInfo| i.location),
        decreases n - p,
    {
        let b = order[p] as usize;
        let block = &blocks[b];
        let ghost done = laid_out(blocks@, order@, p as int);
        let ghost cur = block.instructions@.map_values(|i: InstructionInfo| relocated(blocks@, order@, i));
        let m = block.instructions.len();
        let mut k: usize = 0;
        while k < m
            invariant
                n == order@.len(),
                graph_wf(blocks@, order@),
                0 <= b < blocks@.len(),
                block == &blocks@[b as int],
                m == block.instructions@.len(),
                cur == block.instructions@.map_values(|i: InstructionInfo| relocated(blocks@, order@, i)),
                offsets@.len() == blocks@.len(),
                forall|b: int| 0 <= b < blocks@.len()
                    ==> #[trigger] offsets@[b] as int == start_of(blocks@, order@, pos_of(order@, b as BlockIdx)),
                k <= m,
                instructions@ == (done + cur.take(k as int)).map_values(|i: InstructionInfo| i.instr),
                locations@ == (done + cur.take(k as int)).map_values(|i: InstructionInfo| i.location),
            decreases m - k,
        {
            let mut info = block.instructions[k];
            if let Some(t) = info.instr.label_arg() {
                proof {
                    assert(t < blocks@.len());
                    assert(in_order(order@, t as int));
                    let q = pos_of(order@, t);
                    lemma_start_of_monotone(blocks@, order@, q, n as int);
                }
                info.instr.set_label_arg(offsets[t as usize]);
            }
            assert(info == cur[k as int]);
            instructions.push(info.instr);
            locations.push(info.location);
            proof {
                assert(cur.take(k as int + 1) =~= cur.take(k as int).push(info));
                assert(instructions@ =~= (done + cur.take(k as int + 1)).map_values(|i: InstructionInfo| i.instr));
                assert(locations@ =~= (done + cur.take(k as int + 1)).map_values(|i: InstructionInfo| i.location));
            }
            k = k + 1;
        }
        proof {
            assert(cur.take(m as int) =~= cur);
            assert(laid_out(blocks@, order@, p as int + 1) == done + cur);
        }
        p = p + 1;
    }
    (instructions, locations)
}


/// `c` is block `b` with the instructions after its first unconditional
/// transfer removed.
pub open spec fn is_live_part(b: Block, c: Block) -> bool {
    &&& is_live_len(instrs_of(b), c.instructions@.len() as int)
    &&& c.instructions@ == b.instructions@.take(c.instructions@.len() as int)
    &&& c.done == b.done
}

/// Every block of `c` is the live part of the block of `b` at its index.
pub open spec fn are_live_parts(b: Seq<Block>, c: Seq<Block>) -> bool {
    &&& c.len() == b.len()
    &&& forall|i: int| 0 <= i < b.len() ==> #[trigger] is_live_part(b[i], c[i])
}

proof fn lemma_start_of_live_parts(b: Seq<Block>, c: Seq<Block>, order: Seq<BlockIdx>, p: int)
    requires
        are_live_parts(b, c),
        0 <= p <= order.len(),
        forall|i: int| 0 <= i < order.len() ==> (#[trigger] order[i]) < b.len(),
    ensures
        start_of(c, order, p) <= start_of(b, order, p),
    decreases p,
{
    if p > 0 {
        lemma_start_of_live_parts(b, c, order, p - 1);
        assert(is_live_part(b[order[p - 1] as int], c[order[p - 1] as int]));
    }
}

/// Removing dead code keeps a graph well formed.
pub proof fn lemma_live_parts_wf(b: Seq<Block>, c: Seq<Block>, order: Seq<BlockIdx>)
    requires
        graph_wf(b, order),
        are_live_parts(b, c),
    ensures
        graph_wf(c, order),
{
    lemma_start_of_live_parts(b, c, order, order.len() as int);
    assert forall|x: int, k: int| 0 <= x < c.len() && 0 <= k < c[x].instructions@.len() implies match (
    #[trigger] c[x].instructions@[k]).instr.target_spec() {
        Some(t) => t < c.len(),
        None => true,
    } by {
        assert(is_live_part(b[x], c[x]));
        assert(c[x].instructions@[k] == b[x].instructions@[k]);
    }
}

/// Cuts each block after its first unconditional transfer.
pub fn remove_dead_code(blocks: &mut Vec<Block>)
    ensures
        are_live_parts(old(blocks)@, final(blocks)@),
{
    let n = blocks.len();
    let mut i: usize = 0;
    while i < n
        invariant
            n == old(blocks)@.len(),
            blocks@.len() == n,
            i <= n,
            forall|j: int| 0 <= j < i ==> #[trigger] is_live_part(old(blocks)@[j], blocks@[j]),
            forall|j: int| i <= j < n ==> #[trigger] blocks@[j] == old(blocks)@[j],
        decreases n - i,
    {
        let r = live_len(&blocks[i]);
        blocks[i].instructions.truncate(r);
        assert(is_live_part(old(blocks)@[i as int], blocks@[i as int]));
        i = i + 1;
    }
}

} // verus!
