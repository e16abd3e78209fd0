//! The virtual machine: construction, loading, and the owned state.
//!
//! A [`VM`] owns one instruction stream, the two cursors, the tape, and the
//! precomputed jump table. Construction and loading run the lexer, the
//! optional optimizer, and the bracket validator; a machine that exists and
//! is well-formed therefore holds a valid, well-bracketed stream whose jump
//! table is complete, and the engine can rely on every jump lookup.

use vstd::prelude::*;

use rustc_hash::FxHashMap;

use vstd::pervasive::unreached;

use crate::brackets::{
    find_forward_match, has_backward_match, is_match, lemma_match_close_unique,
    lemma_match_open_unique, match_close, match_open, well_bracketed,
};
use crate::instr::{
    decode_op, is_op_byte, valid_instr, valid_program, wrap_add8, wrap_sub8, Op, MASK_LEFT,
    MASK_MINUS, MASK_PLUS, MASK_RIGHT, OP_CLOSE, OP_IN, OP_LEFT, OP_MINUS, OP_OPEN, OP_OUT,
    OP_PLUS, OP_RIGHT,
};
use crate::lexer::{lemma_lex_all_ops, lex, lex_spec};
use crate::optimizer::{lemma_optimize_valid, optimize, optimize_spec};
use crate::semantics::{lemma_run_to_extend, run_to, step_once, Outcome, RunResult, StateView};
use crate::trusted::{jump_get, jump_insert, new_jump_map};

verus! {

/// Number of cells on the tape.
pub const TAPE_LEN: usize = 1024;

/// The fatal conditions of construction and execution.
#[derive(Clone, Copy, Debug, PartialEq, Eq, Structural)]
pub enum VmError {
    /// A loop bracket without a partner: detected at load time, before any
    /// instruction runs.
    MismatchedBrackets,
    /// The data cursor would move below cell zero.
    PointerUnderflow,
    /// The data cursor would move past the last cell.
    PointerOverflow,
    /// A read instruction found no input.
    InputExhausted,
    /// An inconsistency that a well-formed machine never exhibits, such as
    /// a jump-table miss; it exists so that the semantics is total.
    Internal,
}

/// What the surrounding tool hands the engine: the source text and the two
/// feature toggles.
#[derive(Debug)]
pub struct VMOptions {
    /// The program source.
    pub program: String,
    /// Leave runs of repeated operators unpacked.
    pub disable_optimizer: bool,
    /// Treat `;` and `#` as ordinary filler instead of comment starts.
    pub disable_comments: bool,
}

impl VMOptions {
    /// Options with comment handling on and the optimizer off.
    pub fn default(program: String) -> (r: VMOptions)
        ensures
            r.program == program,
            !r.disable_comments,
            r.disable_optimizer,
    {
        VMOptions { program, disable_comments: false, disable_optimizer: true }
    }
}

/// How a budgeted run ended, when no fatal condition stopped it.
#[derive(Clone, Copy, Debug, PartialEq, Eq, Structural)]
pub enum RunStatus {
    /// The program cursor left the stream: the program is done.
    Halted,
    /// The step budget ran out with the program still going.
    StillRunning,
}

/// What one engine step did, when it did not fail.
#[derive(Clone, Copy, Debug, PartialEq, Eq, Structural)]
pub enum StepEvent {
    /// The program cursor stands past the stream: nothing left to run.
    Halted,
    /// One instruction ran.
    Stepped,
    /// One write instruction ran and emitted this byte, which the caller
    /// should surface before anything else executes.
    Wrote(u8),
    /// The instruction is a read and the input queue is empty: nothing was
    /// done. The caller may queue a byte and step again, or treat the
    /// situation as the fatal input exhaustion it is for a run.
    NeedsInput,
}

/// The tape at power-on: all cells zero.
pub open spec fn zero_tape() -> Seq<u8> {
    Seq::new(TAPE_LEN as nat, |i: int| 0u8)
}

/// The instruction stream that loading a source text builds: the lexed
/// bytes, packed by the optimizer when it is enabled.
pub open spec fn built_program(src: Seq<char>, comments_on: bool, optimize_on: bool) -> Seq<u8> {
    if optimize_on {
        optimize_spec(lex_spec(src, comments_on))
    } else {
        lex_spec(src, comments_on)
    }
}

/// The jump table holds both directions of every matched pair.
pub open spec fn jump_map_complete(p: Seq<u8>, m: Map<usize, usize>) -> bool {
    forall|i: int, j: int|
        #[trigger] is_match(p, i, j) ==> m.contains_key(i as usize) && m[i as usize] == j as usize
            && m.contains_key(j as usize) && m[j as usize] == i as usize
}

/// The virtual machine.
pub struct VM {
    /// The finalized instruction stream.
    program: Vec<u8>,
    /// The program cursor.
    pp: usize,
    /// The data cursor.
    mp: usize,
    /// The tape.
    data: Vec<u8>,
    /// Both directions of every matched bracket pair.
    jump_map: FxHashMap<usize, usize>,
    /// Whether `;` and `#` start line comments.
    ignore_comments: bool,
    /// Whether loading packs runs of repeated operators.
    optimize: bool,
    /// Bytes queued for read instructions, consumed front to back.
    input: Vec<u8>,
    /// Bytes emitted by write instructions.
    output: Vec<u8>,
}

impl View for VM {
    type V = StateView;

    closed spec fn view(&self) -> StateView {
        StateView {
            program: self.program@,
            pp: self.pp as nat,
            mp: self.mp as nat,
            data: self.data@,
            input: self.input@,
            output: self.output@,
        }
    }
}

impl VM {
    /// Whether `;` and `#` start line comments.
    pub closed spec fn comment_mode(&self) -> bool {
        self.ignore_comments
    }

    /// Whether loading packs runs of repeated operators.
    pub closed spec fn optimizer_on(&self) -> bool {
        self.optimize
    }

    /// A machine the engine can run: the tape has its fixed size, the data
    /// cursor is on it, and the stream is valid and well-bracketed with a
    /// complete jump table.
    pub closed spec fn wf(&self) -> bool {
        &&& self.data@.len() == TAPE_LEN
        &&& (self.mp as nat) < TAPE_LEN
        &&& valid_program(self.program@)
        &&& well_bracketed(self.program@)
        &&& jump_map_complete(self.program@, self.jump_map@)
    }

    /// Build a machine for the given source and toggles. Fails — and the
    /// machine never comes to exist — exactly when the source's brackets do
    /// not pair up.
    pub fn new(options: VMOptions) -> (r: Result<VM, VmError>)
        ensures
            match r {
                Ok(vm) => {
                    &&& vm.wf()
                    &&& well_bracketed(
                        built_program(
                            options.program@,
                            !options.disable_comments,
                            !options.disable_optimizer,
                        ),
                    )
                    &&& vm@ == (StateView {
                        program: built_program(
                            options.program@,
                            !options.disable_comments,
                            !options.disable_optimizer,
                        ),
                        pp: 0,
                        mp: 0,
                        data: zero_tape(),
                        input: Seq::<u8>::empty(),
                        output: Seq::<u8>::empty(),
                    })
                    &&& vm.comment_mode() == !options.disable_comments
                    &&& vm.optimizer_on() == !options.disable_optimizer
                },
                Err(e) => {
                    &&& e == VmError::MismatchedBrackets
                    &&& !well_bracketed(
                        built_program(
                            options.program@,
                            !options.disable_comments,
                            !options.disable_optimizer,
                        ),
                    )
                },
            },
    {
        let data = alloc_tape();
        let mut vm = VM {
            program: Vec::new(),
            pp: 0,
            mp: 0,
            data,
            jump_map: new_jump_map(),
            ignore_comments: !options.disable_comments,
            optimize: !options.disable_optimizer,
            input: Vec::new(),
            output: Vec::new(),
        };
        match vm.parse(options.program) {
            Ok(()) => Ok(vm),
            Err(e) => Err(e),
        }
    }

    /// Replace the instruction stream with one built from the given source,
    /// under the machine's current toggles. Cursors, tape, and queues stay
    /// as they are; callers that want a fresh run call [`VM::reset`].
    /// Fails exactly when the source's brackets do not pair up, and then
    /// leaves the machine holding the empty stream.
    pub fn load(&mut self, program: String) -> (r: Result<(), VmError>)
        requires
            old(self).wf(),
        ensures
            final(self).wf(),
            final(self).comment_mode() == old(self).comment_mode(),
            final(self).optimizer_on() == old(self).optimizer_on(),
            final(self)@.pp == old(self)@.pp,
            final(self)@.mp == old(self)@.mp,
            final(self)@.data == old(self)@.data,
            final(self)@.input == old(self)@.input,
            final(self)@.output == old(self)@.output,
            match r {
                Ok(()) => {
                    &&& final(self)@.program == built_program(
                        program@,
                        old(self).comment_mode(),
                        old(self).optimizer_on(),
                    )
                    &&& well_bracketed(final(self)@.program)
                },
                Err(e) => {
                    &&& e == VmError::MismatchedBrackets
                    &&& !well_bracketed(
                        built_program(program@, old(self).comment_mode(), old(self).optimizer_on()),
                    )
                    &&& final(self)@.program == Seq::<u8>::empty()
                },
            },
    {
        self.parse(program)
    }

    /// Pack runs from now on, and load the given source under that setting.
    pub fn enable_optimizer(&mut self, program: &str) -> (r: Result<(), VmError>)
        requires
            old(self).wf(),
        ensures
            final(self).wf(),
            final(self).comment_mode() == old(self).comment_mode(),
            final(self).optimizer_on(),
            final(self)@.pp == old(self)@.pp,
            final(self)@.mp == old(self)@.mp,
            final(self)@.data == old(self)@.data,
            final(self)@.input == old(self)@.input,
            final(self)@.output == old(self)@.output,
            match r {
                Ok(()) => {
                    &&& final(self)@.program == built_program(
                        program@,
                        old(self).comment_mode(),
                        true,
                    )
                    &&& well_bracketed(final(self)@.program)
                },
                Err(e) => {
                    &&& e == VmError::MismatchedBrackets
                    &&& !well_bracketed(built_program(program@, old(self).comment_mode(), true))
                    &&& final(self)@.program == Seq::<u8>::empty()
                },
            },
    {
        self.optimize = true;
        self.load(program.to_owned())
    }

    /// Leave runs unpacked from now on, and load the given source under
    /// that setting.
    pub fn disable_optimizer(&mut self, program: &str) -> (r: Result<(), VmError>)
        requires
            old(self).wf(),
        ensures
            final(self).wf(),
            final(self).comment_mode() == old(self).comment_mode(),
            !final(self).optimizer_on(),
            final(self)@.pp == old(self)@.pp,
            final(self)@.mp == old(self)@.mp,
            final(self)@.data == old(self)@.data,
            final(self)@.input == old(self)@.input,
            final(self)@.output == old(self)@.output,
            match r {
                Ok(()) => {
                    &&& final(self)@.program == built_program(
                        program@,
                        old(self).comment_mode(),
                        false,
                    )
                    &&& well_bracketed(final(self)@.program)
                },
                Err(e) => {
                    &&& e == VmError::MismatchedBrackets
                    &&& !well_bracketed(built_program(program@, old(self).comment_mode(), false))
                    &&& final(self)@.program == Seq::<u8>::empty()
                },
            },
    {
        self.optimize = false;
        self.load(program.to_owned())
    }

    /// Zero both cursors and every cell, and drop anything queued or
    /// emitted: no state leaks from one run into the next. The loaded
    /// stream stays.
    pub fn reset(&mut self)
        requires
            old(self).wf(),
        ensures
            final(self).wf(),
            final(self).comment_mode() == old(self).comment_mode(),
            final(self).optimizer_on() == old(self).optimizer_on(),
            final(self)@ == (StateView {
                program: old(self)@.program,
                pp: 0,
                mp: 0,
                data: zero_tape(),
                input: Seq::<u8>::empty(),
                output: Seq::<u8>::empty(),
            }),
    {
        self.pp = 0;
        self.mp = 0;
        self.data = alloc_tape();
        self.input = Vec::new();
        self.output = Vec::new();
    }

    /// The instruction stream, one character per byte, synthetic
    /// instructions included.
    pub fn get_program(&self) -> (r: String)
        ensures
            r@.len() == self@.program.len(),
            forall|k: int| 0 <= k < self@.program.len() ==> r@[k] == self@.program[k] as char,
    {
        bytes_to_string(&self.program)
    }

    /// The bytes written so far.
    pub fn output(&self) -> (r: &Vec<u8>)
        ensures
            r@ == self@.output,
    {
        &self.output
    }

    /// The bytes written so far, one character per byte.
    pub fn output_string(&self) -> (r: String)
        ensures
            r@.len() == self@.output.len(),
            forall|k: int| 0 <= k < self@.output.len() ==> r@[k] == self@.output[k] as char,
    {
        bytes_to_string(&self.output)
    }

    /// The program cursor.
    pub fn program_cursor(&self) -> (r: usize)
        ensures
            r == self@.pp,
    {
        self.pp
    }

    /// The data cursor.
    pub fn data_cursor(&self) -> (r: usize)
        ensures
            r == self@.mp,
    {
        self.mp
    }

    /// The tape.
    pub fn tape(&self) -> (r: &Vec<u8>)
        ensures
            r@ == self@.data,
    {
        &self.data
    }

    /// Queue one byte for read instructions.
    pub fn push_input(&mut self, byte: u8)
        requires
            old(self).wf(),
        ensures
            final(self).wf(),
            final(self).comment_mode() == old(self).comment_mode(),
            final(self).optimizer_on() == old(self).optimizer_on(),
            final(self)@ == (StateView { input: old(self)@.input.push(byte), ..old(self)@ }),
    {
        self.input.push(byte);
    }

    /// Execute the instruction under the program cursor, if any: one fetch,
    /// decode, execute. Exactly one semantic step ([`step_once`]) happens,
    /// except that a read with nothing queued reports [`StepEvent::NeedsInput`]
    /// and leaves the machine untouched, so an interactive caller can queue
    /// a byte and try again.
    pub fn step(&mut self) -> (r: Result<StepEvent, VmError>)
        requires
            old(self).wf(),
        ensures
            final(self).wf(),
            final(self).comment_mode() == old(self).comment_mode(),
            final(self).optimizer_on() == old(self).optimizer_on(),
            final(self)@.program == old(self)@.program,
            match r {
                Ok(StepEvent::Halted) => final(self)@ == old(self)@ && step_once(old(self)@)
                    is Halt,
                Ok(StepEvent::Stepped) => step_once(old(self)@) == Outcome::Next(final(self)@)
                    && final(self)@.output == old(self)@.output,
                Ok(StepEvent::Wrote(b)) => step_once(old(self)@) == Outcome::Next(final(self)@)
                    && final(self)@.output == old(self)@.output.push(b),
                Ok(StepEvent::NeedsInput) => final(self)@ == old(self)@ && step_once(old(self)@)
                    == Outcome::Fail(VmError::InputExhausted),
                Err(e) => final(self)@ == old(self)@ && step_once(old(self)@) == Outcome::Fail(e),
            },
    {
        let ghost s = self@;
        let ghost p = self@.program;
        if self.pp >= self.program.len() {
            return Ok(StepEvent::Halted);
        }
        let b = self.program[self.pp];
        proof {
            assert(valid_instr(p[self.pp as int]));
        }
        if b == OP_RIGHT {
            if self.mp + 1 < TAPE_LEN {
                self.mp = self.mp + 1;
                self.pp = self.pp + 1;
                Ok(StepEvent::Stepped)
            } else {
                Err(VmError::PointerOverflow)
            }
        } else if b == OP_LEFT {
            if self.mp >= 1 {
                self.mp = self.mp - 1;
                self.pp = self.pp + 1;
                Ok(StepEvent::Stepped)
            } else {
                Err(VmError::PointerUnderflow)
            }
        } else if b == OP_PLUS {
            let v = self.data[self.mp];
            self.data[self.mp] = v.wrapping_add(1);
            self.pp = self.pp + 1;
            proof {
                assert(v.wrapping_add(1) == wrap_add8(v, 1));
            }
            Ok(StepEvent::Stepped)
        } else if b == OP_MINUS {
            let v = self.data[self.mp];
            self.data[self.mp] = v.wrapping_sub(1);
            self.pp = self.pp + 1;
            proof {
                assert(v.wrapping_sub(1) == wrap_sub8(v, 1));
            }
            Ok(StepEvent::Stepped)
        } else if b == OP_OUT {
            let v = self.data[self.mp];
            self.output.push(v);
            self.pp = self.pp + 1;
            Ok(StepEvent::Wrote(v))
        } else if b == OP_IN {
            if self.input.len() == 0 {
                return Ok(StepEvent::NeedsInput);
            }
            let v = self.input.remove(0);
            self.data[self.mp] = v;
            self.pp = self.pp + 1;
            proof {
                assert(self@.input =~= s.input.skip(1));
                assert(step_once(s) == Outcome::Next(self@));
            }
            Ok(StepEvent::Stepped)
        } else if b == OP_OPEN {
            if self.data[self.mp] == 0 {
                match jump_get(&self.jump_map, self.pp) {
                    Some(j) => {
                        proof {
                            let pi = self.pp as int;
                            assert(exists|j0: int| is_match(p, pi, j0));
                            let j0 = choose|j0: int| is_match(p, pi, j0);
                            assert(self.jump_map@[self.pp] == j0 as usize);
                            assert(is_match(p, pi, match_close(p, pi)));
                            lemma_match_close_unique(p, pi, j0, match_close(p, pi));
                            assert(j as int == match_close(p, pi));
                            assert(j0 < p.len());
                        }
                        self.pp = j + 1;
                        proof {
                            assert(step_once(s) == Outcome::Next(self@));
                        }
                        Ok(StepEvent::Stepped)
                    },
                    None => {
                        proof {
                            let pi = self.pp as int;
                            assert(exists|j0: int| is_match(p, pi, j0));
                            let j0 = choose|j0: int| is_match(p, pi, j0);
                            assert(self.jump_map@.contains_key(self.pp));
                        }
                        unreached()
                    },
                }
            } else {
                self.pp = self.pp + 1;
                Ok(StepEvent::Stepped)
            }
        } else if b == OP_CLOSE {
            if self.data[self.mp] != 0 {
                match jump_get(&self.jump_map, self.pp) {
                    Some(i) => {
                        proof {
                            let pj = self.pp as int;
                            assert(exists|i0: int| is_match(p, i0, pj));
                            let i0 = choose|i0: int| is_match(p, i0, pj);
                            assert(self.jump_map@[self.pp] == i0 as usize);
                            assert(is_match(p, match_open(p, pj), pj));
                            lemma_match_open_unique(p, i0, match_open(p, pj), pj);
                            assert(i as int == match_open(p, pj));
                            assert(i0 < p.len());
                        }
                        self.pp = i + 1;
                        proof {
                            assert(step_once(s) == Outcome::Next(self@));
                        }
                        Ok(StepEvent::Stepped)
                    },
                    None => {
                        proof {
                            let pj = self.pp as int;
                            assert(exists|i0: int| is_match(p, i0, pj));
                            let i0 = choose|i0: int| is_match(p, i0, pj);
                            assert(self.jump_map@.contains_key(self.pp));
                        }
                        unreached()
                    },
                }
            } else {
                self.pp = self.pp + 1;
                Ok(StepEvent::Stepped)
            }
        } else if b >= MASK_PLUS {
            let c = b % 32 + 1;
            proof {
                assert(decode_op(b) == Some(Op::Increment(c as nat)));
            }
            let v = self.data[self.mp];
            self.data[self.mp] = v.wrapping_add(c);
            self.pp = self.pp + 1;
            proof {
                assert(v.wrapping_add(c) == wrap_add8(v, c as nat));
                assert(step_once(s) == Outcome::Next(self@));
            }
            Ok(StepEvent::Stepped)
        } else if b >= MASK_MINUS {
            let c = b % 32 + 1;
            proof {
                assert(decode_op(b) == Some(Op::Decrement(c as nat)));
            }
            let v = self.data[self.mp];
            self.data[self.mp] = v.wrapping_sub(c);
            self.pp = self.pp + 1;
            proof {
                assert(v.wrapping_sub(c) == wrap_sub8(v, c as nat));
                assert(step_once(s) == Outcome::Next(self@));
            }
            Ok(StepEvent::Stepped)
        } else if b >= MASK_RIGHT {
            let c = (b % 32) as usize + 1;
            proof {
                assert(decode_op(b) == Some(Op::MoveRight(c as nat)));
            }
            if self.mp + c < TAPE_LEN {
                self.mp = self.mp + c;
                self.pp = self.pp + 1;
                Ok(StepEvent::Stepped)
            } else {
                Err(VmError::PointerOverflow)
            }
        } else if b >= MASK_LEFT {
            let c = (b % 32) as usize + 1;
            proof {
                assert(decode_op(b) == Some(Op::MoveLeft(c as nat)));
            }
            if self.mp >= c {
                self.mp = self.mp - c;
                self.pp = self.pp + 1;
                Ok(StepEvent::Stepped)
            } else {
                Err(VmError::PointerUnderflow)
            }
        } else {
            proof {
                assert(is_op_byte(b) || b >= 128);
            }
            unreached()
        }
    }

    /// Run until the program cursor leaves the stream, a fatal condition
    /// stops the machine, or `max_steps` instructions have executed —
    /// whichever comes first. The final state is exactly what that many
    /// semantic steps from the starting state produce: halted on
    /// `Ok(RunStatus::Halted)`, still mid-program after the whole budget on
    /// `Ok(RunStatus::StillRunning)`, stopped at the failing instruction on
    /// `Err`. A budget of `u64::MAX` outlasts any feasible computation, so
    /// a stream that loops forever simply keeps the engine busy for as long
    /// as the caller cares to wait.
    pub fn run(&mut self, max_steps: u64) -> (r: Result<RunStatus, VmError>)
        requires
            old(self).wf(),
        ensures
            final(self).wf(),
            final(self).comment_mode() == old(self).comment_mode(),
            final(self).optimizer_on() == old(self).optimizer_on(),
            match r {
                Ok(RunStatus::Halted) => exists|n: nat|
                    n <= max_steps && run_to(old(self)@, n) == RunResult::Halted(final(self)@),
                Ok(RunStatus::StillRunning) => run_to(old(self)@, max_steps as nat)
                    == RunResult::Running(final(self)@),
                Err(e) => exists|n: nat|
                    n <= max_steps && run_to(old(self)@, n) == RunResult::Failed(
                        e,
                        final(self)@,
                    ),
            },
    {
        let ghost s0 = self@;
        let ghost cm = self.comment_mode();
        let ghost oo = self.optimizer_on();
        let mut left: u64 = max_steps;
        loop
            invariant
                self.wf(),
                s0 == old(self)@,
                cm == old(self).comment_mode(),
                oo == old(self).optimizer_on(),
                self.comment_mode() == cm,
                self.optimizer_on() == oo,
                left <= max_steps,
                run_to(s0, (max_steps - left) as nat) == RunResult::Running(self@),
            decreases left,
        {
            let ghost n = (max_steps - left) as nat;
            if left == 0 {
                return Ok(RunStatus::StillRunning);
            }
            let ghost prev = self@;
            let res = self.step();
            proof {
                lemma_run_to_extend(s0, n, prev);
            }
            match res {
                Ok(StepEvent::Halted) => {
                    proof {
                        assert(run_to(s0, n + 1) == RunResult::Halted(self@));
                    }
                    return Ok(RunStatus::Halted);
                },
                Ok(StepEvent::NeedsInput) => {
                    proof {
                        assert(run_to(s0, n + 1) == RunResult::Failed(
                            VmError::InputExhausted,
                            self@,
                        ));
                    }
                    return Err(VmError::InputExhausted);
                },
                Ok(StepEvent::Stepped) => {
                    left = left - 1;
                },
                Ok(StepEvent::Wrote(_)) => {
                    left = left - 1;
                },
                Err(e) => {
                    proof {
                        assert(run_to(s0, n + 1) == RunResult::Failed(e, self@));
                    }
                    return Err(e);
                },
            }
        }
    }

    /// Lex the source under the current toggles, pack it if the optimizer
    /// is on, and validate brackets, populating the jump table. On failure
    /// the machine keeps the empty stream.
    fn parse(&mut self, program: String) -> (r: Result<(), VmError>)
        ensures
            final(self).pp == old(self).pp,
            final(self).mp == old(self).mp,
            final(self).data@ == old(self).data@,
            final(self).input@ == old(self).input@,
            final(self).output@ == old(self).output@,
            final(self).ignore_comments == old(self).ignore_comments,
            final(self).optimize == old(self).optimize,
            valid_program(final(self).program@),
            well_bracketed(final(self).program@),
            jump_map_complete(final(self).program@, final(self).jump_map@),
            match r {
                Ok(()) => {
                    &&& final(self).program@ == built_program(
                        program@,
                        old(self).ignore_comments,
                        old(self).optimize,
                    )
                },
                Err(e) => {
                    &&& e == VmError::MismatchedBrackets
                    &&& !well_bracketed(
                        built_program(program@, old(self).ignore_comments, old(self).optimize),
                    )
                    &&& final(self).program@ == Seq::<u8>::empty()
                },
            },
    {
        let lexed = lex(program.as_str(), self.ignore_comments);
        proof {
            lemma_lex_all_ops(program@, self.ignore_comments, false);
        }
        let built: Vec<u8> = if self.optimize {
            proof {
                lemma_optimize_valid(lexed@);
            }
            optimize(&lexed)
        } else {
            lexed
        };
        self.program = built;
        let ok = check_brackets(&self.program, &mut self.jump_map);
        if ok {
            Ok(())
        } else {
            self.program = Vec::new();
            proof {
                assert(valid_program(Seq::<u8>::empty()));
                assert(well_bracketed(Seq::<u8>::empty()));
            }
            Err(VmError::MismatchedBrackets)
        }
    }
}

/// A zeroed tape of the fixed size.
fn alloc_tape() -> (r: Vec<u8>)
    ensures
        r@ == zero_tape(),
{
    let r = vec![0u8; TAPE_LEN];
    proof {
        assert(r@ =~= zero_tape());
    }
    r
}

/// The characters of an instruction or output stream, byte for byte.
fn bytes_to_string(bytes: &Vec<u8>) -> (r: String)
    ensures
        r@.len() == bytes@.len(),
        forall|k: int| 0 <= k < bytes@.len() ==> r@[k] == bytes@[k] as char,
{
    let n = bytes.len();
    let mut r = String::new();
    let mut i: usize = 0;
    while i < n
        invariant
            i <= n,
            n == bytes@.len(),
            r@.len() == i,
            forall|k: int| 0 <= k < i ==> r@[k] == bytes@[k] as char,
        decreases n - i,
    {
        let c = bytes[i] as char;
        r.push(c);
        i = i + 1;
    }
    r
}

/// Verify that every open bracket has a partner close and every close a
/// partner open, and record both directions of each pair in the jump
/// table. Leaves the table untouched beyond those entries; stale bindings
/// at positions that are not brackets of this stream are never consulted.
fn check_brackets(program: &Vec<u8>, jump_map: &mut FxHashMap<usize, usize>) -> (ok: bool)
    ensures
        ok <==> well_bracketed(program@),
        ok ==> jump_map_complete(program@, final(jump_map)@),
{
    let ghost p = program@;
    let n = program.len();
    let mut i: usize = 0;
    while i < n
        invariant
            i <= n,
            n == p.len(),
            p == program@,
            forall|q: int| 0 <= q < i && #[trigger] p[q] == OP_OPEN ==> exists|j2: int| is_match(p, q, j2),
            forall|q: int|
                0 <= q < i && #[trigger] p[q] == OP_CLOSE ==> exists|i2: int| is_match(p, i2, q),
            forall|i2: int, j2: int|
                #[trigger] is_match(p, i2, j2) && i2 < i ==> jump_map@.contains_key(i2 as usize)
                    && jump_map@[i2 as usize] == j2 as usize && jump_map@.contains_key(j2 as usize)
                    && jump_map@[j2 as usize] == i2 as usize,
        decreases n - i,
    {
        let b = program[i];
        if b == OP_OPEN {
            match find_forward_match(program, i) {
                Some(j) => {
                    let ghost m0 = jump_map@;
                    jump_insert(jump_map, i, j);
                    jump_insert(jump_map, j, i);
                    proof {
                        assert forall|i2: int, j2: int|
                            #[trigger] is_match(p, i2, j2) && i2 < i + 1 implies jump_map@
                            .contains_key(i2 as usize) && jump_map@[i2 as usize] == j2 as usize
                            && jump_map@.contains_key(j2 as usize) && jump_map@[j2 as usize]
                            == i2 as usize by {
                            if i2 == i {
                                lemma_match_close_unique(p, i as int, j as int, j2);
                            } else {
                                assert(is_match(p, i as int, j as int));
                                assert(p[i2] == OP_OPEN && p[j2] == OP_CLOSE);
                                assert(i2 != j as int);
                                assert(j2 != i as int);
                                if j2 == j as int {
                                    lemma_match_open_unique(p, i2, i as int, j as int);
                                }
                            }
                        }
                    }
                },
                None => {
                    proof {
                        assert(p[i as int] == OP_OPEN);
                        assert(!well_bracketed(p));
                    }
                    return false;
                },
            }
        } else if b == OP_CLOSE {
            let found = has_backward_match(program, i);
            if !found {
                proof {
                    assert(p[i as int] == OP_CLOSE);
                    assert(!well_bracketed(p));
                }
                return false;
            }
        }
        i = i + 1;
    }
    proof {
        assert forall|i2: int, j2: int| #[trigger] is_match(p, i2, j2) implies jump_map@
            .contains_key(i2 as usize) && jump_map@[i2 as usize] == j2 as usize && jump_map@
            .contains_key(j2 as usize) && jump_map@[j2 as usize] == i2 as usize by {
            assert(i2 < n);
        }
    }
    true
}

} // verus!
