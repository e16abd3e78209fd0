//! The peephole run-length optimizer.
//!
//! A maximal run of two or more equal run operators (`+`, `-`, `>`, `<`)
//! is replaced by synthetic repeat instructions: one full-count instruction
//! per 32 operators, then one carrying the remainder if any. Every other
//! byte passes through unchanged. A lone run operator is also passed
//! through raw — even at the very end of the stream, where the optimizer's
//! one-token lookahead cannot see a run — so a trailing single operator is
//! never packed.

use vstd::prelude::*;

use crate::instr::{
    is_op_byte, valid_instr, valid_program, MASK_LEFT, MASK_MINUS, MASK_PLUS, MASK_RIGHT, MAX_RUN,
    OP_LEFT, OP_MINUS, OP_PLUS, OP_RIGHT,
};

verus! {

/// The four operators the optimizer packs.
pub open spec fn is_run_op(b: u8) -> bool {
    b == OP_PLUS || b == OP_MINUS || b == OP_RIGHT || b == OP_LEFT
}

/// The tag byte of the synthetic instruction packing a run of `b`.
pub open spec fn run_mask(b: u8) -> u8 {
    if b == OP_PLUS {
        MASK_PLUS
    } else if b == OP_MINUS {
        MASK_MINUS
    } else if b == OP_RIGHT {
        MASK_RIGHT
    } else {
        MASK_LEFT
    }
}

/// How many copies of `b` stand at the front of `p`.
pub open spec fn run_len_at(p: Seq<u8>, b: u8) -> nat
    decreases p.len(),
{
    if p.len() > 0 && p[0] == b {
        1 + run_len_at(p.skip(1), b)
    } else {
        0
    }
}

/// The leading run is exactly the longest prefix of copies of `b`.
pub proof fn lemma_run_len_at(p: Seq<u8>, b: u8)
    ensures
        run_len_at(p, b) <= p.len(),
        forall|k: int| 0 <= k < run_len_at(p, b) ==> p[k] == b,
        run_len_at(p, b) < p.len() ==> p[run_len_at(p, b) as int] != b,
    decreases p.len(),
{
    if p.len() > 0 && p[0] == b {
        lemma_run_len_at(p.skip(1), b);
        let rl = run_len_at(p, b);
        assert forall|k: int| 0 <= k < rl implies p[k] == b by {
            if k > 0 {
                assert(p.skip(1)[k - 1] == p[k]);
            }
        }
        if rl < p.len() {
            assert(p.skip(1)[rl - 1] == p[rl as int]);
        }
    }
}

/// A prefix of copies of `b` that stops — at the stream's end or at a
/// different byte — is the leading run.
pub proof fn lemma_run_len_at_is(q: Seq<u8>, b: u8, l: int)
    requires
        0 <= l <= q.len(),
        forall|k: int| 0 <= k < l ==> q[k] == b,
        l < q.len() ==> q[l] != b,
    ensures
        run_len_at(q, b) == l,
    decreases q.len(),
{
    if l == 0 {
    } else {
        assert(q[0] == b);
        let rest = q.skip(1);
        assert forall|k: int| 0 <= k < l - 1 implies rest[k] == b by {
            assert(rest[k] == q[k + 1]);
        }
        if l - 1 < rest.len() {
            assert(rest[l - 1] == q[l]);
        }
        lemma_run_len_at_is(rest, b, l - 1);
    }
}

/// The synthetic instructions packing a run of `count` copies of `b`: full
/// 32-counts first, then the remainder.
pub open spec fn emit_run(b: u8, count: nat) -> Seq<u8>
    decreases count,
{
    if count > 32 {
        seq![(run_mask(b) + 31) as u8] + emit_run(b, (count - 32) as nat)
    } else if count > 0 {
        seq![(run_mask(b) + count - 1) as u8]
    } else {
        Seq::empty()
    }
}

/// Every packed instruction carries the synthetic tag.
pub proof fn lemma_emit_run_valid(b: u8, count: nat)
    ensures
        forall|k: int| 0 <= k < emit_run(b, count).len() ==> #[trigger] emit_run(b, count)[k] >= 128,
    decreases count,
{
    if count > 32 {
        lemma_emit_run_valid(b, (count - 32) as nat);
        let whole = emit_run(b, count);
        let tail = emit_run(b, (count - 32) as nat);
        assert forall|k: int| 0 <= k < whole.len() implies #[trigger] whole[k] >= 128 by {
            if k > 0 {
                assert(whole[k] == tail[k - 1]);
            }
        }
    }
}

/// The optimized form of an instruction stream: each maximal run of two or
/// more equal run operators becomes its packed instructions, everything
/// else stays raw. The lookahead rule is visible in the guard: a run starts
/// only where the *next* byte repeats the current one.
pub open spec fn optimize_spec(p: Seq<u8>) -> Seq<u8>
    decreases p.len(),
    via optimize_spec_decreases
{
    if p.len() == 0 {
        Seq::empty()
    } else {
        let b = p[0];
        if is_run_op(b) && p.len() >= 2 && p[1] == b {
            emit_run(b, run_len_at(p, b)) + optimize_spec(p.skip(run_len_at(p, b) as int))
        } else {
            seq![b] + optimize_spec(p.skip(1))
        }
    }
}

#[via_fn]
proof fn optimize_spec_decreases(p: Seq<u8>) {
    if p.len() > 0 {
        lemma_run_len_at(p, p[0]);
    }
}

/// What the optimizer emits, the engine can execute.
pub proof fn lemma_optimize_valid(p: Seq<u8>)
    requires
        forall|k: int| 0 <= k < p.len() ==> is_op_byte(#[trigger] p[k]),
    ensures
        valid_program(optimize_spec(p)),
    decreases p.len(),
{
    if p.len() > 0 {
        let b = p[0];
        if is_run_op(b) && p.len() >= 2 && p[1] == b {
            let rl = run_len_at(p, b);
            lemma_run_len_at(p, b);
            let rest = p.skip(rl as int);
            assert forall|k: int| 0 <= k < rest.len() implies is_op_byte(#[trigger] rest[k]) by {
                assert(rest[k] == p[k + rl]);
            }
            lemma_optimize_valid(rest);
            lemma_emit_run_valid(b, rl);
            let head = emit_run(b, rl);
            let tail = optimize_spec(rest);
            let whole = optimize_spec(p);
            assert(whole == head + tail);
            assert forall|k: int| 0 <= k < whole.len() implies valid_instr(#[trigger] whole[k]) by {
                if k < head.len() {
                    assert(whole[k] == head[k]);
                    assert(head[k] >= 128);
                } else {
                    assert(whole[k] == tail[k - head.len()]);
                    assert(valid_instr(tail[k - head.len()]));
                }
            }
        } else {
            let rest = p.skip(1);
            assert forall|k: int| 0 <= k < rest.len() implies is_op_byte(#[trigger] rest[k]) by {
                assert(rest[k] == p[k + 1]);
            }
            lemma_optimize_valid(rest);
            let tail = optimize_spec(rest);
            let whole = optimize_spec(p);
            assert(whole == seq![b] + tail);
            assert forall|k: int| 0 <= k < whole.len() implies valid_instr(#[trigger] whole[k]) by {
                if k > 0 {
                    assert(whole[k] == tail[k - 1]);
                    assert(valid_instr(tail[k - 1]));
                }
            }
        }
    }
}

/// Rewrite a filtered stream, packing each maximal run of two or more equal
/// run operators into counted instructions.
#[verifier::rlimit(60)]
pub fn optimize(program: &Vec<u8>) -> (out: Vec<u8>)
    ensures
        out@ == optimize_spec(program@),
{
    let ghost p = program@;
    let n = program.len();
    let mut out: Vec<u8> = Vec::new();
    let mut i: usize = 0;
    proof {
        assert(p.skip(0) =~= p);
        assert(Seq::<u8>::empty() + optimize_spec(p) =~= optimize_spec(p));
    }
    while i < n
        invariant
            i <= n,
            n == p.len(),
            p == program@,
            optimize_spec(p) == out@ + optimize_spec(p.skip(i as int)),
        decreases n - i,
    {
        let b = program[i];
        let run_op = b == OP_PLUS || b == OP_MINUS || b == OP_RIGHT || b == OP_LEFT;
        if run_op && i + 1 < n && program[i + 1] == b {
            // Measure the maximal run starting here.
            let mut j: usize = i + 1;
            while j < n && program[j] == b
                invariant
                    i < j <= n,
                    n == p.len(),
                    p == program@,
                    p[i as int] == b,
                    forall|k: int| i <= k < j ==> p[k] == b,
                decreases n - j,
            {
                j = j + 1;
            }
            let ghost tail = p.skip(i as int);
            proof {
                assert forall|k: int| 0 <= k < j - i implies tail[k] == b by {
                    assert(tail[k] == p[k + i]);
                }
                if j - i < tail.len() {
                    assert(tail[j - i] == p[j as int]);
                }
                lemma_run_len_at_is(tail, b, j - i);
                assert(tail[1] == p[i as int + 1]);
            }
            let mask = if b == OP_PLUS {
                MASK_PLUS
            } else if b == OP_MINUS {
                MASK_MINUS
            } else if b == OP_RIGHT {
                MASK_RIGHT
            } else {
                MASK_LEFT
            };
            let ghost run_total = (j - i) as nat;
            let ghost out_before = out@;
            let mut count: usize = j - i;
            while count > MAX_RUN
                invariant
                    out_before + emit_run(b, run_total) == out@ + emit_run(b, count as nat),
                    mask == run_mask(b),
                decreases count,
            {
                out.push(mask + 31);
                count = count - MAX_RUN;
                proof {
                    assert((out@.drop_last()) + seq![(run_mask(b) + 31) as u8] =~= out@);
                    assert((out@.drop_last() + seq![(run_mask(b) + 31) as u8]) + emit_run(
                        b,
                        count as nat,
                    ) =~= out@.drop_last() + (seq![(run_mask(b) + 31) as u8] + emit_run(
                        b,
                        count as nat,
                    )));
                }
            }
            if count != 0 {
                let packed = mask + (count - 1) as u8;
                out.push(packed);
                proof {
                    assert(emit_run(b, count as nat) =~= seq![packed]);
                    assert((out@.drop_last()) + seq![packed] =~= out@);
                }
            }
            proof {
                assert(out@ == out_before + emit_run(b, run_total));
                assert(optimize_spec(tail) == emit_run(b, run_total) + optimize_spec(
                    tail.skip(run_total as int),
                ));
                assert(tail.skip(run_total as int) =~= p.skip(j as int));
                assert(out_before + (emit_run(b, run_total) + optimize_spec(p.skip(j as int)))
                    =~= (out_before + emit_run(b, run_total)) + optimize_spec(p.skip(j as int)));
            }
            i = j;
        } else {
            let ghost tail = p.skip(i as int);
            proof {
                assert(tail[0] == p[i as int]);
                if i + 1 < n {
                    assert(tail[1] == p[i as int + 1]);
                }
                assert(tail.skip(1) =~= p.skip(i as int + 1));
                assert(optimize_spec(tail) == seq![b] + optimize_spec(p.skip(i as int + 1)));
            }
            out.push(b);
            proof {
                assert((out@.drop_last()) + seq![b] =~= out@);
                assert((out@.drop_last() + seq![b]) + optimize_spec(p.skip(i as int + 1)) =~= out@
                    .drop_last() + (seq![b] + optimize_spec(p.skip(i as int + 1))));
            }
            i = i + 1;
        }
    }
    proof {
        assert(p.skip(n as int) =~= Seq::<u8>::empty());
        assert(out@ + Seq::<u8>::empty() =~= out@);
    }
    out
}

} // verus!
