//! The graph of a code unit with its metadata and interned names, and its
//! finalization into a code object.
use crate::external::{interned, interned_get, interned_index_of, interned_into_vec, interned_len, variadic_flags};
use crate::instruction::{BlockIdx, Instruction};
use crate::ir::{
    are_live_parts, graph_wf, is_live_part, laid_out, lemma_dead_code_removal_idempotent, lemma_laid_out_len,
    lemma_layout_targets_are_block_starts, lemma_live_parts_wf, linearize, remove_dead_code, start_of, total_len, Block,
    InstructionInfo, instrs_of,
};
use crate::stackdepth::{depth_seen, max_stack_depth};
use indexmap::IndexSet;
use rustpython_bytecode::bytecode::{CodeFlags, Location};
use std::collections::hash_map::RandomState;
use vstd::prelude::*;

verus! {

pub struct CodeInfo {
    pub flags: CodeFlags,
    pub posonlyarg_count: usize,
    /// Positional parameters, the positional-only ones included.
    pub arg_count: usize,
    pub kwonlyarg_count: usize,
    pub source_path: String,
    pub first_line_number: usize,
    /// The name of the object that this code belongs to.
    pub obj_name: String,
    pub blocks: Vec<Block>,
    pub block_order: Vec<BlockIdx>,
    pub name_cache: IndexSet<String, RandomState>,
    pub varname_cache: IndexSet<String, RandomState>,
    pub cellvar_cache: IndexSet<String, RandomState>,
    pub freevar_cache: IndexSet<String, RandomState>,
}

/// A finalized code unit: one flat instruction stream whose branch operands
/// are instruction offsets.
pub struct CodeObject {
    pub flags: CodeFlags,
    pub posonlyarg_count: usize,
    pub arg_count: usize,
    pub kwonlyarg_count: usize,
    pub source_path: String,
    pub first_line_number: usize,
    pub obj_name: String,
    pub max_stacksize: u32,
    pub instructions: Vec<Instruction>,
    /// The source position of each instruction.
    pub locations: Vec<Location>,
    pub names: Vec<String>,
    pub varnames: Vec<String>,
    pub cellvars: Vec<String>,
    pub freevars: Vec<String>,
    /// For each cell variable, the parameter it starts out as, or -1.
    pub cell2arg: Option<Vec<isize>>,
}

/// The parameter that a cell variable named `cell` is: its index among the
/// local variables where that is below `total_args`, else -1.
pub open spec fn cell_slot(varnames: Seq<Seq<char>>, cell: Seq<char>, total_args: int) -> int {
    if exists|j: int| 0 <= j < varnames.len() && j < total_args && varnames[j] == cell {
        choose|j: int| 0 <= j < varnames.len() && j < total_args && varnames[j] == cell
    } else {
        -1
    }
}

/// The table that maps each cell variable to its parameter, where any cell
/// variable is a parameter; none otherwise.
pub open spec fn cell_table_ok(
    varnames: Seq<Seq<char>>,
    cells: Seq<Seq<char>>,
    total_args: int,
    r: Option<Vec<isize>>,
) -> bool {
    match r {
        None => forall|i: int| 0 <= i < cells.len() ==> #[trigger] cell_slot(varnames, cells[i], total_args) == -1,
        Some(v) => {
            &&& v@.len() == cells.len()
            &&& forall|i: int| 0 <= i < cells.len() ==> #[trigger] v@[i] as int == cell_slot(varnames, cells[i], total_args)
            &&& exists|i: int| 0 <= i < cells.len() && #[trigger] cell_slot(varnames, cells[i], total_args) != -1
        },
    }
}

/// Maps each cell variable to the parameter of the same name among the first
/// `total_args` local variables.
pub fn cell_to_arg(
    varnames: &IndexSet<String, RandomState>,
    cellvars: &IndexSet<String, RandomState>,
    total_args: usize,
) -> (r: Option<Vec<isize>>)
    requires
        total_args <= isize::MAX,
    ensures
        cell_table_ok(interned(*varnames), interned(*cellvars), total_args as int, r),
{
    let ghost vs = interned(*varnames);
    let ghost cs = interned(*cellvars);
    let n = interned_len(cellvars);
    let mut table: Vec<isize> = Vec::new();
    let mut found_cellarg = false;
    let mut i: usize = 0;
    while i < n
        invariant
            n == cs.len(),
            vs == interned(*varnames),
            cs == interned(*cellvars),
            total_args <= isize::MAX,
            i <= n,
            table@.len() == i,
            forall|j: int| 0 <= j < i ==> #[trigger] table@[j] as int == cell_slot(vs, cs[j], total_args as int),
            found_cellarg <==> exists|j: int| 0 <= j < i && #[trigger] cell_slot(vs, cs[j], total_args as int) != -1,
        decreases n - i,
    {
        let var = interned_get(cellvars, i).unwrap();
        let slot: isize = match interned_index_of(varnames, var) {
            Some(j) => {
                if j < total_args {
                    assert(vs[j as int] == cs[i as int]);
                    found_cellarg = true;
                    j as isize
                } else {
                    assert(!exists|j2: int| 0 <= j2 < vs.len() && j2 < total_args && vs[j2] == cs[i as int]);
                    -1
                }
            },
            None => -1,
        };
        assert(slot as int == cell_slot(vs, cs[i as int], total_args as int));
        table.push(slot);
        i = i + 1;
    }
    if found_cellarg {
        Some(table)
    } else {
        None
    }
}

impl CodeInfo {
    /// The block graph is one that finalization accepts, and the parameter
    /// counts can be summed.
    pub open spec fn wf(&self) -> bool {
        &&& graph_wf(self.blocks@, self.block_order@)
        &&& self.arg_count + self.kwonlyarg_count + 2 <= isize::MAX
    }

    /// Maps each cell variable to the parameter of the same name, counting as
    /// parameters the positional and keyword-only ones and the two variadic
    /// ones where the flags hold them.
    pub fn cell2arg(&self) -> (r: Option<Vec<isize>>)
        requires
            self.arg_count + self.kwonlyarg_count + 2 <= isize::MAX,
        ensures
            exists|total: int|
                self.arg_count + self.kwonlyarg_count <= total <= self.arg_count + self.kwonlyarg_count + 2
                    && cell_table_ok(interned(self.varname_cache), interned(self.cellvar_cache), total, r),
    {
        let (varargs, varkeywords) = variadic_flags(&self.flags);
        let total_args = self.arg_count + self.kwonlyarg_count + varargs as usize + varkeywords as usize;
        let r = cell_to_arg(&self.varname_cache, &self.cellvar_cache, total_args);
        assert(cell_table_ok(interned(self.varname_cache), interned(self.cellvar_cache), total_args as int, r));
        r
    }

    /// Cuts each block after its first unconditional transfer; nothing else
    /// changes.
    pub fn dce(&mut self)
        ensures
            are_live_parts(old(self).blocks@, final(self).blocks@),
            final(self).block_order == old(self).block_order,
            final(self).flags == old(self).flags,
            final(self).posonlyarg_count == old(self).posonlyarg_count,
            final(self).arg_count == old(self).arg_count,
            final(self).kwonlyarg_count == old(self).kwonlyarg_count,
            final(self).source_path == old(self).source_path,
            final(self).first_line_number == old(self).first_line_number,
            final(self).obj_name == old(self).obj_name,
            final(self).name_cache == old(self).name_cache,
            final(self).varname_cache == old(self).varname_cache,
            final(self).cellvar_cache == old(self).cellvar_cache,
            final(self).freevar_cache == old(self).freevar_cache,
    {
        remove_dead_code(&mut self.blocks);
    }

    /// Lays the graph out as one code object. Its stack size bounds every
    /// path from the entry block, its cell table maps cell variables to
    /// parameters, and its instructions are the blocks in order (each cut
    /// after its first unconditional transfer where `optimize` is above 0)
    /// with branch operands turned into offsets.
    pub fn finalize_code(self, optimize: u8) -> (r: CodeObject)
        requires
            self.wf(),
        ensures
            r.max_stacksize == 0 || depth_seen(self.blocks@, self.block_order@, r.max_stacksize as int),
            forall|m: int| depth_seen(self.blocks@, self.block_order@, m) ==> m <= r.max_stacksize,
            exists|total: int|
                self.arg_count + self.kwonlyarg_count <= total <= self.arg_count + self.kwonlyarg_count + 2
                    && cell_table_ok(interned(self.varname_cache), interned(self.cellvar_cache), total, r.cell2arg),
            optimize == 0 ==> finalized_from(self.blocks@, self.block_order@, r),
            optimize > 0 ==> exists|live: Seq<Block>|
                are_live_parts(self.blocks@, live) && finalized_from(live, self.block_order@, r),
            r.names@.map_values(|x: String| x@) == interned(self.name_cache),
            r.varnames@.map_values(|x: String| x@) == interned(self.varname_cache),
            r.cellvars@.map_values(|x: String| x@) == interned(self.cellvar_cache),
            r.freevars@.map_values(|x: String| x@) == interned(self.freevar_cache),
            r.flags == self.flags,
            r.posonlyarg_count == self.posonlyarg_count,
            r.arg_count == self.arg_count,
            r.kwonlyarg_count == self.kwonlyarg_count,
            r.source_path == self.source_path,
            r.first_line_number == self.first_line_number,
            r.obj_name == self.obj_name,
    {
        let ghost orig = self.blocks@;
        let ghost order0 = self.block_order@;
        let max_stacksize = max_stack_depth(&self.blocks, &self.block_order);
        let cell2arg = self.cell2arg();
        let mut code = self;
        if optimize > 0 {
            code.dce();
            proof {
                lemma_live_parts_wf(orig, code.blocks@, code.block_order@);
            }
        }
        let CodeInfo {
            flags,
            posonlyarg_count,
            arg_count,
            kwonlyarg_count,
            source_path,
            first_line_number,
            obj_name,
            blocks,
            block_order,
            name_cache,
            varname_cache,
            cellvar_cache,
            freevar_cache,
        } = code;
        let (instructions, locations) = linearize(&blocks, &block_order);
        let r = CodeObject {
            flags,
            posonlyarg_count,
            arg_count,
            kwonlyarg_count,
            source_path,
            first_line_number,
            obj_name,
            max_stacksize,
            instructions,
            locations,
            names: interned_into_vec(name_cache),
            varnames: interned_into_vec(varname_cache),
            cellvars: interned_into_vec(cellvar_cache),
            freevars: interned_into_vec(freevar_cache),
            cell2arg,
        };
        assert(orig == self.blocks@ && order0 == self.block_order@);
        r
    }
}

/// The instructions and positions of `r` are the blocks laid out in `order`.
pub open spec fn finalized_from(blocks: Seq<Block>, order: Seq<BlockIdx>, r: CodeObject) -> bool {
    &&& r.instructions@ == laid_out(blocks, order, order.len() as int).map_values(|i: InstructionInfo| i.instr)
    &&& r.locations@ == laid_out(blocks, order, order.len() as int).map_values(|i: InstructionInfo| i.location)
}


/// A finalized code object holds as many instructions, and as many source
/// positions, as the blocks it was laid out from.
pub proof fn lemma_finalized_lengths(blocks: Seq<Block>, order: Seq<BlockIdx>, r: CodeObject)
    requires
        graph_wf(blocks, order),
        finalized_from(blocks, order, r),
    ensures
        r.instructions@.len() == total_len(blocks, order),
        r.locations@.len() == total_len(blocks, order),
{
    lemma_laid_out_len(blocks, order, order.len() as int);
}

/// Every branch operand of a finalized code object is the offset at which a
/// block of the order begins; it indexes an instruction unless it lies past
/// the end, which happens only where the last block of the order is empty.
pub proof fn lemma_finalized_targets(blocks: Seq<Block>, order: Seq<BlockIdx>, r: CodeObject, i: int)
    requires
        graph_wf(blocks, order),
        finalized_from(blocks, order, r),
        0 <= i < r.instructions@.len(),
        r.instructions@[i].target_spec() is Some,
    ensures
        exists|p: int| 0 <= p < order.len() && r.instructions@[i].target_spec()->0 == start_of(blocks, order, p),
        blocks[order[order.len() - 1] as int].instructions@.len() > 0
            ==> r.instructions@[i].target_spec()->0 < r.instructions@.len(),
{
    lemma_laid_out_len(blocks, order, order.len() as int);
    assert(r.instructions@[i] == laid_out(blocks, order, order.len() as int)[i].instr);
    lemma_layout_targets_are_block_starts(blocks, order, i);
}

/// Removing dead code from a graph that has already lost its dead code
/// changes no block.
pub proof fn lemma_remove_dead_code_idempotent(a: Seq<Block>, b: Seq<Block>, c: Seq<Block>)
    requires
        are_live_parts(a, b),
        are_live_parts(b, c),
    ensures
        c.len() == b.len(),
        forall|i: int| 0 <= i < b.len() ==> #[trigger] c[i].instructions@ == b[i].instructions@ && c[i].done == b[i].done,
{
    assert forall|i: int| 0 <= i < b.len() implies #[trigger] c[i].instructions@ == b[i].instructions@ && c[i].done
        == b[i].done by {
        assert(is_live_part(a[i], b[i]));
        assert(is_live_part(b[i], c[i]));
        let s = instrs_of(a[i]);
        let r = b[i].instructions@.len() as int;
        let r2 = c[i].instructions@.len() as int;
        assert(instrs_of(b[i]) =~= s.take(r));
        lemma_dead_code_removal_idempotent(s, r, r2);
        assert(c[i].instructions@ =~= b[i].instructions@);
    }
}

} // verus!
