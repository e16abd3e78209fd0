//! The instruction alphabet and the bit-packed encoding of repeated
//! operators.
//!
//! An instruction stream is a sequence of bytes. A byte below 128 is one of
//! the eight raw operator characters; a byte with the high bit set is a
//! synthetic instruction produced by the optimizer, encoding "repeat one of
//! the four run operators `count` times". The next bit selects value versus
//! pointer arithmetic, the bit after that increment versus decrement, and
//! the low five bits hold `count - 1`, so one synthetic instruction covers a
//! repeat count in `[1, 32]`.

use vstd::prelude::*;

verus! {

/// Move the data cursor right.
pub const OP_RIGHT: u8 = 62;

/// Move the data cursor left.
pub const OP_LEFT: u8 = 60;

/// Increment the cell under the data cursor.
pub const OP_PLUS: u8 = 43;

/// Decrement the cell under the data cursor.
pub const OP_MINUS: u8 = 45;

/// Emit the cell under the data cursor.
pub const OP_OUT: u8 = 46;

/// Read one byte into the cell under the data cursor.
pub const OP_IN: u8 = 44;

/// Jump past the matching close when the cell is zero.
pub const OP_OPEN: u8 = 91;

/// Jump back past the matching open when the cell is nonzero.
pub const OP_CLOSE: u8 = 93;

/// Tag of a synthetic "repeat pointer-decrement" instruction.
pub const MASK_LEFT: u8 = 128;

/// Tag of a synthetic "repeat pointer-increment" instruction.
pub const MASK_RIGHT: u8 = 160;

/// Tag of a synthetic "repeat cell-decrement" instruction.
pub const MASK_MINUS: u8 = 192;

/// Tag of a synthetic "repeat cell-increment" instruction.
pub const MASK_PLUS: u8 = 224;

/// Largest repeat count one synthetic instruction can carry.
pub const MAX_RUN: usize = 32;

/// The eight raw operator bytes.
pub open spec fn is_op_byte(b: u8) -> bool {
    b == OP_RIGHT || b == OP_LEFT || b == OP_PLUS || b == OP_MINUS || b == OP_OUT || b == OP_IN
        || b == OP_OPEN || b == OP_CLOSE
}

/// A byte the execution engine accepts: a raw operator or a synthetic
/// repeat instruction (high bit set).
pub open spec fn valid_instr(b: u8) -> bool {
    is_op_byte(b) || b >= 128
}

/// Every byte of the stream is an executable instruction.
pub open spec fn valid_program(p: Seq<u8>) -> bool {
    forall|k: int| 0 <= k < p.len() ==> valid_instr(#[trigger] p[k])
}

/// The decoded meaning of one instruction byte.
pub enum Op {
    /// Move the data cursor right by the count.
    MoveRight(nat),
    /// Move the data cursor left by the count.
    MoveLeft(nat),
    /// Add the count to the cell under the cursor, wrapping.
    Increment(nat),
    /// Subtract the count from the cell under the cursor, wrapping.
    Decrement(nat),
    /// Emit the cell under the cursor.
    Output,
    /// Read one byte into the cell under the cursor.
    Input,
    /// Conditional forward jump.
    LoopOpen,
    /// Conditional backward jump.
    LoopClose,
}

/// What an instruction byte means, or `None` for a byte the engine refuses.
///
/// For a synthetic byte the tag bits are read arithmetically: the byte lies
/// in one of the four ranges `[128, 160)`, `[160, 192)`, `[192, 224)`,
/// `[224, 256)`, and its low five bits, `b % 32`, hold `count - 1`.
pub open spec fn decode_op(b: u8) -> Option<Op> {
    if b == OP_RIGHT {
        Some(Op::MoveRight(1))
    } else if b == OP_LEFT {
        Some(Op::MoveLeft(1))
    } else if b == OP_PLUS {
        Some(Op::Increment(1))
    } else if b == OP_MINUS {
        Some(Op::Decrement(1))
    } else if b == OP_OUT {
        Some(Op::Output)
    } else if b == OP_IN {
        Some(Op::Input)
    } else if b == OP_OPEN {
        Some(Op::LoopOpen)
    } else if b == OP_CLOSE {
        Some(Op::LoopClose)
    } else if b >= MASK_PLUS {
        Some(Op::Increment((b % 32) as nat + 1))
    } else if b >= MASK_MINUS {
        Some(Op::Decrement((b % 32) as nat + 1))
    } else if b >= MASK_RIGHT {
        Some(Op::MoveRight((b % 32) as nat + 1))
    } else if b >= MASK_LEFT {
        Some(Op::MoveLeft((b % 32) as nat + 1))
    } else {
        None
    }
}

/// Add `count` to a cell with eight-bit wraparound.
pub open spec fn wrap_add8(v: u8, count: nat) -> u8 {
    ((v + count) % 256) as u8
}

/// Subtract `count` from a cell with eight-bit wraparound.
pub open spec fn wrap_sub8(v: u8, count: nat) -> u8 {
    ((v + 256 - count % 256) % 256) as u8
}

} // verus!
