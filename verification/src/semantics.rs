//! The small-step semantics of the execution engine.
//!
//! A [`StateView`] is the mathematical state of one machine: the
//! instruction stream, both cursors, the tape, the bytes still to be read,
//! and the bytes written so far. [`step_once`] says what one fetch-decode-
//! execute step does to it, and [`run_to`] iterates that for a given number
//! of steps. The executable engine is specified against these functions
//! alone: its contracts say that whatever it returns is what some number of
//! semantic steps produces.

use vstd::prelude::*;

use crate::brackets::{is_match, match_close, match_open};
use crate::instr::{decode_op, wrap_add8, wrap_sub8, Op};
use crate::vm::VmError;

verus! {

/// The semantic state of one machine.
#[verifier::ext_equal]
pub struct StateView {
    /// The instruction stream.
    pub program: Seq<u8>,
    /// The program cursor: index of the next instruction.
    pub pp: nat,
    /// The data cursor: index of the current cell.
    pub mp: nat,
    /// The tape.
    pub data: Seq<u8>,
    /// Bytes not yet consumed by read instructions.
    pub input: Seq<u8>,
    /// Bytes written so far.
    pub output: Seq<u8>,
}

/// What one step yields: a successor state, normal termination, or a fatal
/// condition.
pub enum Outcome {
    /// The machine took a step.
    Next(StateView),
    /// The program cursor has left the instruction stream: the run is over.
    Halt,
    /// A fatal condition: the machine stops in its current state.
    Fail(VmError),
}

/// One fetch-decode-execute step from `s`.
///
/// Pointer motion that would leave the tape is fatal at the offending
/// instruction; cell arithmetic wraps at eight bits; a read from exhausted
/// input is fatal; a jump consults the bracket matching of the stream
/// itself. The `Internal` failures — an undecodable byte, a jump without a
/// partner, a cursor outside the tape — cannot arise in a machine built by
/// the loader, which delivers only valid, well-bracketed streams.
pub open spec fn step_once(s: StateView) -> Outcome {
    if s.pp >= s.program.len() {
        Outcome::Halt
    } else {
        match decode_op(s.program[s.pp as int]) {
            Option::None => Outcome::Fail(VmError::Internal),
            Option::Some(op) => match op {
                Op::MoveRight(c) => {
                    if s.mp + c < s.data.len() {
                        Outcome::Next(StateView { pp: s.pp + 1, mp: (s.mp + c) as nat, ..s })
                    } else {
                        Outcome::Fail(VmError::PointerOverflow)
                    }
                },
                Op::MoveLeft(c) => {
                    if s.mp >= c {
                        Outcome::Next(StateView { pp: s.pp + 1, mp: (s.mp - c) as nat, ..s })
                    } else {
                        Outcome::Fail(VmError::PointerUnderflow)
                    }
                },
                Op::Increment(c) => {
                    if s.mp < s.data.len() {
                        Outcome::Next(
                            StateView {
                                pp: s.pp + 1,
                                data: s.data.update(s.mp as int, wrap_add8(s.data[s.mp as int], c)),
                                ..s
                            },
                        )
                    } else {
                        Outcome::Fail(VmError::Internal)
                    }
                },
                Op::Decrement(c) => {
                    if s.mp < s.data.len() {
                        Outcome::Next(
                            StateView {
                                pp: s.pp + 1,
                                data: s.data.update(s.mp as int, wrap_sub8(s.data[s.mp as int], c)),
                                ..s
                            },
                        )
                    } else {
                        Outcome::Fail(VmError::Internal)
                    }
                },
                Op::Output => {
                    if s.mp < s.data.len() {
                        Outcome::Next(
                            StateView {
                                pp: s.pp + 1,
                                output: s.output.push(s.data[s.mp as int]),
                                ..s
                            },
                        )
                    } else {
                        Outcome::Fail(VmError::Internal)
                    }
                },
                Op::Input => {
                    if s.mp >= s.data.len() {
                        Outcome::Fail(VmError::Internal)
                    } else if s.input.len() == 0 {
                        Outcome::Fail(VmError::InputExhausted)
                    } else {
                        Outcome::Next(
                            StateView {
                                pp: s.pp + 1,
                                data: s.data.update(s.mp as int, s.input[0]),
                                input: s.input.skip(1),
                                ..s
                            },
                        )
                    }
                },
                Op::LoopOpen => {
                    if s.mp >= s.data.len() {
                        Outcome::Fail(VmError::Internal)
                    } else if s.data[s.mp as int] == 0 {
                        if exists|j: int| is_match(s.program, s.pp as int, j) {
                            Outcome::Next(
                                StateView {
                                    pp: (match_close(s.program, s.pp as int) + 1) as nat,
                                    ..s
                                },
                            )
                        } else {
                            Outcome::Fail(VmError::Internal)
                        }
                    } else {
                        Outcome::Next(StateView { pp: s.pp + 1, ..s })
                    }
                },
                Op::LoopClose => {
                    if s.mp >= s.data.len() {
                        Outcome::Fail(VmError::Internal)
                    } else if s.data[s.mp as int] != 0 {
                        if exists|i: int| is_match(s.program, i, s.pp as int) {
                            Outcome::Next(
                                StateView {
                                    pp: (match_open(s.program, s.pp as int) + 1) as nat,
                                    ..s
                                },
                            )
                        } else {
                            Outcome::Fail(VmError::Internal)
                        }
                    } else {
                        Outcome::Next(StateView { pp: s.pp + 1, ..s })
                    }
                },
            },
        }
    }
}

/// Where a machine stands after at most `n` steps.
pub enum RunResult {
    /// Still going after `n` steps.
    Running(StateView),
    /// Halted normally, in this final state.
    Halted(StateView),
    /// Stopped on a fatal condition, in this final state.
    Failed(VmError, StateView),
}

/// Iterate [`step_once`] for up to `n` steps from `s`. Once the machine
/// halts or fails, larger `n` return the same result.
pub open spec fn run_to(s: StateView, n: nat) -> RunResult
    decreases n,
{
    if n == 0 {
        RunResult::Running(s)
    } else {
        match step_once(s) {
            Outcome::Halt => RunResult::Halted(s),
            Outcome::Fail(e) => RunResult::Failed(e, s),
            Outcome::Next(s2) => run_to(s2, (n - 1) as nat),
        }
    }
}

/// Append one step to a partial run.
pub proof fn lemma_run_to_extend(s: StateView, n: nat, v: StateView)
    requires
        run_to(s, n) == RunResult::Running(v),
    ensures
        run_to(s, n + 1) == match step_once(v) {
            Outcome::Halt => RunResult::Halted(v),
            Outcome::Fail(e) => RunResult::Failed(e, v),
            Outcome::Next(v2) => RunResult::Running(v2),
        },
    decreases n,
{
    if n == 0 {
        assert(v == s);
        assert(run_to(s, 1) == match step_once(s) {
            Outcome::Halt => RunResult::Halted(s),
            Outcome::Fail(e) => RunResult::Failed(e, s),
            Outcome::Next(s2) => run_to(s2, 0),
        });
    } else {
        match step_once(s) {
            Outcome::Next(s2) => {
                assert(run_to(s, n) == run_to(s2, (n - 1) as nat));
                lemma_run_to_extend(s2, (n - 1) as nat, v);
                assert((n - 1) as nat + 1 == n);
                assert(run_to(s, n + 1) == run_to(s2, n));
            },
            Outcome::Halt => {
                assert(run_to(s, n) == RunResult::Halted(s));
            },
            Outcome::Fail(e) => {
                assert(run_to(s, n) == RunResult::Failed(e, s));
            },
        }
    }
}

} // verus!
