//! Byte-level delta patches: an edit script of Remove / Add / Copy
//! instructions built on a longest common subsequence, with a compact
//! binary wire format and a replay engine.

pub mod cursor;
pub mod delta;
pub mod delta_instruction_traits;
pub mod instruction_error;
pub mod instructions;
pub mod lcs;

pub use cursor::ByteCursor;
pub use delta::{apply, decode, diff, encode};
pub use delta_instruction_traits::ConvertBetweenBytes;
pub use instruction_error::InstructionError;
pub use instructions::remove_instruction::RemoveInstruction;
pub use instructions::{
    Instruction, ADD_INSTRUCTION_SIGN, COPY_INSTRUCTION_SIGN, MAX_INSTRUCTION_LENGTH,
    MIN_INSTRUCTION_LENGTH, REMOVE_INSTRUCTION_SIGN,
};
pub use lcs::Lcs;
