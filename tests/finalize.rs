use indexmap::IndexSet;
use rustpython_bytecode::bytecode::{CodeFlags, Location};
use rustpython_compiler::code::{cell_to_arg, CodeInfo};
use rustpython_compiler::instruction::Instruction;
use rustpython_compiler::ir::{linearize, live_len, Block, InstructionInfo};
use rustpython_compiler::stackdepth::max_stack_depth;

fn info(instr: Instruction, row: usize) -> InstructionInfo {
    InstructionInfo { instr, location: Location::new(row, 1) }
}

fn block(instrs: Vec<Instruction>) -> Block {
    let mut b = Block::default();
    for (i, ins) in instrs.into_iter().enumerate() {
        b.instructions.push(info(ins, i + 1));
    }
    b
}

fn names(xs: &[&str]) -> IndexSet<String> {
    let mut s = IndexSet::new();
    for x in xs {
        s.insert(x.to_string());
    }
    s
}

fn code_info(blocks: Vec<Block>, order: Vec<u32>) -> CodeInfo {
    CodeInfo {
        flags: CodeFlags::empty(),
        posonlyarg_count: 0,
        arg_count: 0,
        kwonlyarg_count: 0,
        source_path: "mod.py".to_string(),
        first_line_number: 1,
        obj_name: "f".to_string(),
        blocks,
        block_order: order,
        name_cache: names(&["print"]),
        varname_cache: names(&[]),
        cellvar_cache: names(&[]),
        freevar_cache: names(&[]),
    }
}

fn push() -> Instruction {
    Instruction::Simple { effect: 1 }
}

fn pop() -> Instruction {
    Instruction::Simple { effect: -1 }
}

fn ret() -> Instruction {
    Instruction::Exit { effect: -1 }
}

/// A -> B -> C, C branches back to A or falls through to the exit block;
/// B pushes one value and C pops it.
fn loop_graph() -> Vec<Block> {
    vec![
        block(vec![Instruction::Simple { effect: 0 }]),
        block(vec![push()]),
        block(vec![pop(), Instruction::Branch { target: 0, effect: 0, jump_effect: 0 }]),
        block(vec![Instruction::Simple { effect: 1 }, ret()]),
    ]
}

#[test]
fn loop_max_depth_is_one() {
    let blocks = loop_graph();
    assert_eq!(max_stack_depth(&blocks, &vec![0, 1, 2, 3]), 1);
}

#[test]
fn loop_finalizes_with_depth_one() {
    let code = code_info(loop_graph(), vec![0, 1, 2, 3]).finalize_code(0);
    assert_eq!(code.max_stacksize, 1);
    assert_eq!(code.instructions.len(), 6);
    assert_eq!(code.instructions[3], Instruction::Branch { target: 0, effect: 0, jump_effect: 0 });
}

#[test]
fn depth_grows_when_a_loop_is_reentered_deeper() {
    // Block 1 pushes and jumps back to itself only through block 2 which
    // pops again, so the loop is balanced; block 0 enters it at depth 2.
    let blocks = vec![
        block(vec![push(), push()]),
        block(vec![push()]),
        block(vec![pop(), Instruction::Branch { target: 1, effect: 0, jump_effect: 0 }]),
        block(vec![ret()]),
    ];
    assert_eq!(max_stack_depth(&blocks, &vec![0, 1, 2, 3]), 3);
}

#[test]
fn branch_effect_counts_toward_the_maximum() {
    let blocks = vec![
        block(vec![Instruction::Branch { target: 1, effect: -1, jump_effect: 4 }, ret()]),
        block(vec![ret()]),
    ];
    assert_eq!(max_stack_depth(&blocks, &vec![0, 1]), 4);
}

#[test]
fn unreachable_block_does_not_count() {
    let blocks = vec![block(vec![ret()]), block(vec![push(), push(), push()])];
    assert_eq!(max_stack_depth(&blocks, &vec![0, 1]), 0);
}

#[test]
fn truncation_drops_code_after_return() {
    let b = block(vec![push(), ret(), pop()]);
    assert_eq!(live_len(&b), 2);
    let mut code = code_info(vec![b, block(vec![push(), pop()])], vec![0, 1]);
    code.dce();
    assert_eq!(code.blocks[0].instructions.len(), 2);
    assert_eq!(code.blocks[0].instructions[1].instr, ret());
    assert_eq!(code.blocks[1].instructions.len(), 2);
}

#[test]
fn block_without_transfer_is_unchanged() {
    let b = block(vec![push(), pop(), push()]);
    assert_eq!(live_len(&b), 3);
    assert_eq!(live_len(&Block::default()), 0);
}

#[test]
fn truncation_is_idempotent() {
    let mut code = code_info(
        vec![block(vec![push(), Instruction::Jump { target: 1, effect: 0 }, pop(), pop()]), block(vec![ret()])],
        vec![0, 1],
    );
    code.dce();
    assert_eq!(code.blocks[0].instructions.len(), 2);
    code.dce();
    assert_eq!(code.blocks[0].instructions.len(), 2);
    assert_eq!(code.blocks[1].instructions.len(), 1);
}

#[test]
fn finalize_with_optimization_truncates() {
    let code = code_info(vec![block(vec![push(), ret(), pop()])], vec![0]).finalize_code(1);
    assert_eq!(code.instructions, vec![push(), ret()]);
    assert_eq!(code.locations.len(), 2);
    let code = code_info(vec![block(vec![push(), ret(), pop()])], vec![0]).finalize_code(0);
    assert_eq!(code.instructions.len(), 3);
}

#[test]
fn cell_mapping_of_parameter_and_local() {
    let vars = names(&["a", "b"]);
    assert_eq!(cell_to_arg(&vars, &names(&["b", "c"]), 2), Some(vec![1, -1]));
    assert_eq!(cell_to_arg(&vars, &names(&[]), 2), None);
    assert_eq!(cell_to_arg(&vars, &names(&["c"]), 2), None);
}

#[test]
fn cell_mapping_through_code_info() {
    let mut code = code_info(vec![block(vec![ret()])], vec![0]);
    code.arg_count = 2;
    code.varname_cache = names(&["a", "b"]);
    code.cellvar_cache = names(&["b", "c"]);
    assert_eq!(code.cell2arg(), Some(vec![1, -1]));
    code.cellvar_cache = names(&["c"]);
    assert_eq!(code.cell2arg(), None);
    code.cellvar_cache = names(&[]);
    assert_eq!(code.cell2arg(), None);
}

#[test]
fn cell_mapping_ignores_locals_past_the_parameters() {
    let vars = names(&["a", "b", "x"]);
    assert_eq!(cell_to_arg(&vars, &names(&["x", "a"]), 2), Some(vec![-1, 0]));
}

#[test]
fn variadic_parameters_count_as_parameters() {
    let mut code = code_info(vec![block(vec![ret()])], vec![0]);
    code.arg_count = 1;
    code.flags = CodeFlags::HAS_VARARGS;
    code.varname_cache = names(&["a", "args"]);
    code.cellvar_cache = names(&["args"]);
    assert_eq!(code.cell2arg(), Some(vec![1]));
    code.flags = CodeFlags::empty();
    assert_eq!(code.cell2arg(), None);
}

#[test]
fn empty_block_target_resolves_to_next_content() {
    let blocks = vec![
        block(vec![Instruction::Branch { target: 1, effect: 0, jump_effect: 0 }, push()]),
        Block::default(),
        block(vec![ret()]),
    ];
    let (instrs, locs) = linearize(&blocks, &vec![0, 1, 2]);
    assert_eq!(instrs.len(), 3);
    assert_eq!(locs.len(), 3);
    assert_eq!(instrs[0], Instruction::Branch { target: 2, effect: 0, jump_effect: 0 });
}

#[test]
fn layout_follows_block_order_and_rewrites_targets() {
    let blocks = vec![
        block(vec![Instruction::Jump { target: 2, effect: 0 }]),
        block(vec![ret()]),
        block(vec![push(), Instruction::Branch { target: 1, effect: -1, jump_effect: -1 }, pop()]),
    ];
    let code = code_info(blocks, vec![0, 2, 1]).finalize_code(0);
    assert_eq!(
        code.instructions,
        vec![
            Instruction::Jump { target: 1, effect: 0 },
            push(),
            Instruction::Branch { target: 4, effect: -1, jump_effect: -1 },
            pop(),
            ret(),
        ]
    );
    assert_eq!(code.locations.len(), 5);
    assert_eq!(code.locations[1], Location::new(1, 1));
    assert_eq!(code.locations[2], Location::new(2, 1));
    for ins in &code.instructions {
        if let Some(t) = ins.label_arg() {
            assert!((t as usize) < code.instructions.len());
        }
    }
}

#[test]
fn finalized_code_keeps_names_and_metadata() {
    let mut code = code_info(vec![block(vec![push(), ret()])], vec![0]);
    code.name_cache = names(&["print", "len"]);
    code.freevar_cache = names(&["z"]);
    let out = code.finalize_code(0);
    assert_eq!(out.names, vec!["print".to_string(), "len".to_string()]);
    assert_eq!(out.freevars, vec!["z".to_string()]);
    assert_eq!(out.obj_name, "f");
    assert_eq!(out.source_path, "mod.py");
    assert_eq!(out.max_stacksize, 1);
    assert!(out.cell2arg.is_none());
}

#[test]
fn instruction_classification() {
    let mut j = Instruction::Jump { target: 3, effect: 0 };
    assert!(j.unconditional_branch());
    j.set_label_arg(7);
    assert_eq!(j.label_arg(), Some(7));
    assert!(ret().unconditional_branch());
    assert!(!push().unconditional_branch());
    assert_eq!(push().label_arg(), None);
    let b = Instruction::Branch { target: 1, effect: -1, jump_effect: 2 };
    assert_eq!(b.stack_effect(false), -1);
    assert_eq!(b.stack_effect(true), 2);
    assert!(!b.unconditional_branch());
}
