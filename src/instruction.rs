//! Instructions as finalization sees them: what each does to the operand
//! stack, whether it can fall through, and the block it may branch to.
use vstd::prelude::*;

verus! {

/// Block identifiers and, once finalized, instruction offsets.
pub type BlockIdx = u32;

/// The smallest and largest operand-stack depth that the analysis tracks;
/// depths beyond them are held at the bound.
pub const DEPTH_MIN: i64 = -2147483648;
pub const DEPTH_MAX: i64 = 2147483647;

/// One instruction, by its control-flow shape. A `target` names a block
/// before finalization and an absolute instruction offset after it.
#[derive(Clone, Copy, Debug, PartialEq, Eq, Structural)]
pub enum Instruction {
    /// Runs and falls through to the next instruction.
    Simple { effect: i32 },
    /// Leaves the code unit (a return or a raise); nothing follows it.
    Exit { effect: i32 },
    /// Always continues at `target`.
    Jump { target: BlockIdx, effect: i32 },
    /// Continues at `target` or falls through, with a stack effect for each.
    Branch { target: BlockIdx, effect: i32, jump_effect: i32 },
}

impl Instruction {
    /// The branch operand, if the instruction has one.
    pub open spec fn target_spec(self) -> Option<BlockIdx> {
        match self {
            Instruction::Jump { target, .. } => Some(target),
            Instruction::Branch { target, .. } => Some(target),
            _ => None,
        }
    }

    /// No fall-through successor exists after the instruction.
    pub open spec fn unconditional_spec(self) -> bool {
        match self {
            Instruction::Exit { .. } | Instruction::Jump { .. } => true,
            _ => false,
        }
    }

    /// The change in stack depth when the branch is taken (`jump`) or not.
    pub open spec fn effect_spec(self, jump: bool) -> int {
        match self {
            Instruction::Simple { effect } => effect as int,
            Instruction::Exit { effect } => effect as int,
            Instruction::Jump { effect, .. } => effect as int,
            Instruction::Branch { effect, jump_effect, .. } => if jump {
                jump_effect as int
            } else {
                effect as int
            },
        }
    }

    /// The instruction with its branch operand, if any, replaced by `t`.
    pub open spec fn with_target(self, t: BlockIdx) -> Instruction {
        match self {
            Instruction::Jump { effect, .. } => Instruction::Jump { target: t, effect },
            Instruction::Branch { effect, jump_effect, .. } => Instruction::Branch {
                target: t,
                effect,
                jump_effect,
            },
            _ => self,
        }
    }

    pub fn label_arg(&self) -> (r: Option<BlockIdx>)
        ensures
            r == self.target_spec(),
    {
        match self {
            Instruction::Jump { target, .. } => Some(*target),
            Instruction::Branch { target, .. } => Some(*target),
            _ => None,
        }
    }

    pub fn set_label_arg(&mut self, t: BlockIdx)
        ensures
            *final(self) == old(self).with_target(t),
    {
        match self {
            Instruction::Jump { target, .. } => {
                *target = t;
            },
            Instruction::Branch { target, .. } => {
                *target = t;
            },
            _ => {},
        }
    }

    pub fn unconditional_branch(&self) -> (r: bool)
        ensures
            r == self.unconditional_spec(),
    {
        match self {
            Instruction::Exit { .. } | Instruction::Jump { .. } => true,
            _ => false,
        }
    }

    pub fn stack_effect(&self, jump: bool) -> (r: i32)
        ensures
            r as int == self.effect_spec(jump),
    {
        match self {
            Instruction::Simple { effect } => *effect,
            Instruction::Exit { effect } => *effect,
            Instruction::Jump { effect, .. } => *effect,
            Instruction::Branch { effect, jump_effect, .. } => if jump {
                *jump_effect
            } else {
                *effect
            },
        }
    }
}

} // verus!
