//! Optimizer transparency: packing runs is observationally invisible.
//!
//! The proof walks the two machines together, chunk by chunk. A *chunk* of
//! the raw stream is what the optimizer consumes in one decision: a maximal
//! run of two or more equal run operators, or a single byte. Boundaries
//! between chunks map to offsets in the packed stream ([`opt_pos`]); bracket
//! bytes are always chunks of their own, so matched pairs map to matched
//! pairs, and one packed repeat instruction does exactly what its run of raw
//! operators does to the tape. The public result is
//! [`lemma_optimizer_transparent`] at the end.

use vstd::prelude::*;

use vstd::arithmetic::div_mod::{
    lemma_add_mod_noop, lemma_mod_add_multiples_vanish, lemma_mod_multiples_vanish,
    lemma_small_mod,
};

use crate::brackets::{
    bracket_delta, is_match, lemma_match_close_unique, lemma_match_open_unique, lemma_net_additive,
    match_close, match_open, net, nonneg_prefixes,
};
use crate::instr::{
    decode_op, is_op_byte, wrap_add8, wrap_sub8, Op, OP_CLOSE, OP_IN, OP_LEFT, OP_MINUS, OP_OPEN,
    OP_OUT, OP_PLUS, OP_RIGHT,
};
use crate::optimizer::{
    emit_run, is_run_op, lemma_emit_run_valid, lemma_run_len_at, optimize_spec, run_len_at,
    run_mask,
};
use crate::lexer::{lemma_lex_all_ops, lex_spec};
use crate::semantics::{run_to, step_once, Outcome, RunResult, StateView};
use crate::vm::built_program;

verus! {

/// How many raw bytes the optimizer's next decision consumes.
spec fn chunk_src(p: Seq<u8>) -> nat {
    if p.len() == 0 {
        0
    } else if is_run_op(p[0]) && p.len() >= 2 && p[1] == p[0] {
        run_len_at(p, p[0])
    } else {
        1
    }
}

/// What that decision emits.
spec fn chunk_emit(p: Seq<u8>) -> Seq<u8> {
    if p.len() == 0 {
        Seq::empty()
    } else if is_run_op(p[0]) && p.len() >= 2 && p[1] == p[0] {
        emit_run(p[0], run_len_at(p, p[0]))
    } else {
        seq![p[0]]
    }
}

/// A packed run is never empty.
proof fn lemma_emit_run_len(b: u8, count: nat)
    ensures
        count >= 1 ==> emit_run(b, count).len() >= 1,
    decreases count,
{
    if count > 32 {
        lemma_emit_run_len(b, (count - 32) as nat);
    }
}

/// The first chunk: its size, its emitted form, and how the packed stream
/// decomposes around it.
proof fn lemma_chunk_basic(p: Seq<u8>)
    requires
        p.len() > 0,
    ensures
        1 <= chunk_src(p) <= p.len(),
        chunk_emit(p).len() >= 1,
        optimize_spec(p) == chunk_emit(p) + optimize_spec(p.skip(chunk_src(p) as int)),
        forall|k: int| 0 <= k < chunk_src(p) ==> #[trigger] p[k] == p[0],
{
    lemma_run_len_at(p, p[0]);
    if is_run_op(p[0]) && p.len() >= 2 && p[1] == p[0] {
        lemma_emit_run_len(p[0], run_len_at(p, p[0]));
    }
}

/// `sp` is a chunk boundary of `p`: zero, or a chunk start, or the length.
spec fn is_boundary(p: Seq<u8>, sp: int) -> bool
    decreases p.len(),
    via is_boundary_decreases
{
    if sp == 0 {
        true
    } else if p.len() == 0 {
        false
    } else if sp < chunk_src(p) {
        false
    } else {
        is_boundary(p.skip(chunk_src(p) as int), sp - chunk_src(p))
    }
}

#[via_fn]
proof fn is_boundary_decreases(p: Seq<u8>, sp: int) {
    if p.len() > 0 {
        lemma_chunk_basic(p);
    }
}

/// The offset in the packed stream that the boundary `sp` maps to.
spec fn opt_pos(p: Seq<u8>, sp: int) -> int
    decreases p.len(),
    via opt_pos_decreases
{
    if sp <= 0 || p.len() == 0 {
        0
    } else {
        chunk_emit(p).len() + opt_pos(p.skip(chunk_src(p) as int), sp - chunk_src(p))
    }
}

#[via_fn]
proof fn opt_pos_decreases(p: Seq<u8>, sp: int) {
    if p.len() > 0 {
        lemma_chunk_basic(p);
    }
}

/// A boundary lies within the stream, its image within the packed stream,
/// and the end maps to the end.
proof fn lemma_boundary_bounds(p: Seq<u8>, sp: int)
    requires
        is_boundary(p, sp),
    ensures
        0 <= sp <= p.len(),
        0 <= opt_pos(p, sp) <= optimize_spec(p).len(),
        sp == p.len() ==> opt_pos(p, sp) == optimize_spec(p).len(),
        sp < p.len() ==> opt_pos(p, sp) < optimize_spec(p).len(),
    decreases p.len(),
{
    if sp == 0 {
        if p.len() > 0 {
            lemma_chunk_basic(p);
            let rest = p.skip(chunk_src(p) as int);
            lemma_boundary_bounds(rest, 0);
        }
    } else {
        lemma_chunk_basic(p);
        let cs = chunk_src(p) as int;
        let rest = p.skip(cs);
        lemma_boundary_bounds(rest, sp - cs);
    }
}

/// Bracket counting inside the right part of a concatenation.
proof fn lemma_net_concat_right(x: Seq<u8>, y: Seq<u8>, a: int, b: int)
    requires
        0 <= a <= b <= y.len(),
    ensures
        net(x + y, x.len() + a, x.len() + b) == net(y, a, b),
    decreases b - a,
{
    if a < b {
        lemma_net_concat_right(x, y, a, b - 1);
        assert((x + y)[x.len() + b - 1] == y[b - 1]);
    }
}

/// Bracket counting inside the left part of a concatenation.
proof fn lemma_net_concat_left(x: Seq<u8>, y: Seq<u8>, a: int, b: int)
    requires
        0 <= a <= b <= x.len(),
    ensures
        net(x + y, a, b) == net(x, a, b),
    decreases b - a,
{
    if a < b {
        lemma_net_concat_left(x, y, a, b - 1);
        assert((x + y)[b - 1] == x[b - 1]);
    }
}

/// A span without brackets counts zero.
proof fn lemma_net_no_brackets(q: Seq<u8>, a: int, b: int)
    requires
        0 <= a <= b <= q.len(),
        forall|k: int| a <= k < b ==> #[trigger] q[k] != OP_OPEN && q[k] != OP_CLOSE,
    ensures
        net(q, a, b) == 0,
    decreases b - a,
{
    if a < b {
        lemma_net_no_brackets(q, a, b - 1);
    }
}

/// The first chunk counts the same brackets raw and packed.
proof fn lemma_chunk_net(p: Seq<u8>)
    requires
        p.len() > 0,
        forall|k: int| 0 <= k < p.len() ==> is_op_byte(#[trigger] p[k]),
    ensures
        net(chunk_emit(p), 0, chunk_emit(p).len() as int) == net(p, 0, chunk_src(p) as int),
        forall|m: int|
            0 <= m <= chunk_emit(p).len() ==> #[trigger] net(chunk_emit(p), 0, m) == 0 || (
            chunk_src(p) == 1 && m == 1),
{
    lemma_chunk_basic(p);
    let ce = chunk_emit(p);
    if is_run_op(p[0]) && p.len() >= 2 && p[1] == p[0] {
        lemma_emit_run_valid(p[0], run_len_at(p, p[0]));
        assert forall|m: int| 0 <= m <= ce.len() implies #[trigger] net(ce, 0, m) == 0 by {
            lemma_net_no_brackets(ce, 0, m);
        }
        lemma_net_no_brackets(p, 0, chunk_src(p) as int);
    } else {
        assert(net(ce, 0, 0) == 0);
        assert(net(p, 0, 0) == 0);
        assert(ce[0] == p[0]);
        assert(net(ce, 0, 1) == net(ce, 0, 0) + bracket_delta(ce[0]));
        assert(net(p, 0, 1) == net(p, 0, 0) + bracket_delta(p[0]));
    }
}

/// Bracket counts agree from the start up to any boundary and its image.
proof fn lemma_prefix_net(p: Seq<u8>, sp: int)
    requires
        is_boundary(p, sp),
        forall|k: int| 0 <= k < p.len() ==> is_op_byte(#[trigger] p[k]),
    ensures
        net(optimize_spec(p), 0, opt_pos(p, sp)) == net(p, 0, sp),
    decreases p.len(),
{
    if sp == 0 {
    } else {
        lemma_chunk_basic(p);
        let cs = chunk_src(p) as int;
        let ce = chunk_emit(p);
        let rest = p.skip(cs);
        assert forall|k: int| 0 <= k < rest.len() implies is_op_byte(#[trigger] rest[k]) by {
            assert(rest[k] == p[k + cs]);
        }
        lemma_prefix_net(rest, sp - cs);
        lemma_boundary_bounds(rest, sp - cs);
        let q = optimize_spec(p);
        let qr = optimize_spec(rest);
        assert(q == ce + qr);
        lemma_net_additive(q, 0, ce.len() as int, opt_pos(p, sp));
        lemma_net_concat_left(ce, qr, 0, ce.len() as int);
        lemma_net_concat_right(ce, qr, 0, opt_pos(rest, sp - cs));
        lemma_chunk_net(p);
        lemma_net_additive(p, 0, cs, sp);
        assert(p =~= p.take(cs) + rest);
        assert(p.take(cs).len() == cs);
        lemma_net_concat_right(p.take(cs), rest, 0, sp - cs);
        assert(net(p, cs, sp) == net(rest, 0, sp - cs));
    }
}

/// Every offset of the packed stream counts its brackets like some boundary
/// at or left of it; offsets strictly inside a chunk's image count like the
/// chunk's start, since packed runs hold no brackets.
proof fn lemma_mid_position(p: Seq<u8>, m: int) -> (b: int)
    requires
        0 <= m <= optimize_spec(p).len(),
        forall|k: int| 0 <= k < p.len() ==> is_op_byte(#[trigger] p[k]),
    ensures
        is_boundary(p, b),
        opt_pos(p, b) <= m,
        net(optimize_spec(p), 0, m) == net(p, 0, b),
        forall|b2: int| is_boundary(p, b2) && b2 > b ==> opt_pos(p, b2) > m,
    decreases p.len(),
{
    if p.len() == 0 {
        assert forall|b2: int| is_boundary(p, b2) && b2 > 0 implies opt_pos(p, b2) > m by {
            lemma_boundary_bounds(p, b2);
        }
        0
    } else {
        lemma_chunk_basic(p);
        let cs = chunk_src(p) as int;
        let ce = chunk_emit(p);
        let rest = p.skip(cs);
        assert forall|k: int| 0 <= k < rest.len() implies is_op_byte(#[trigger] rest[k]) by {
            assert(rest[k] == p[k + cs]);
        }
        let q = optimize_spec(p);
        let qr = optimize_spec(rest);
        assert(q == ce + qr);
        if m < ce.len() {
            lemma_chunk_net(p);
            lemma_net_concat_left(ce, qr, 0, m);
            if chunk_src(p) == 1 && m == 1 {
                assert(net(q, 0, m) == net(ce, 0, 1));
                assert(net(ce, 0, 1) == net(p, 0, 1));
                // the next boundary starts at 1, whose image is ce.len() > m
                assert(is_boundary(p, 1));
                assert(opt_pos(p, 1) == ce.len() + opt_pos(rest, 0));
                assert forall|b2: int| is_boundary(p, b2) && b2 > 1 implies opt_pos(p, b2)
                    > m by {
                    lemma_boundary_bounds(rest, b2 - cs);
                }
                1
            } else {
                assert(net(q, 0, m) == 0);
                assert forall|b2: int| is_boundary(p, b2) && b2 > 0 implies opt_pos(p, b2)
                    > m by {
                    lemma_boundary_bounds(rest, b2 - cs);
                    assert(opt_pos(p, b2) == ce.len() + opt_pos(rest, b2 - cs));
                }
                0
            }
        } else {
            let b1 = lemma_mid_position(rest, m - ce.len());
            lemma_boundary_bounds(rest, b1);
            let b = cs + b1;
            assert(is_boundary(p, b));
            assert(opt_pos(p, b) == ce.len() + opt_pos(rest, b1));
            lemma_net_additive(q, 0, ce.len() as int, m);
            lemma_net_concat_left(ce, qr, 0, ce.len() as int);
            lemma_net_concat_right(ce, qr, 0, m - ce.len());
            lemma_chunk_net(p);
            lemma_net_additive(p, 0, cs, b);
            assert(p =~= p.take(cs) + rest);
            assert(p.take(cs).len() == cs);
            lemma_net_concat_right(p.take(cs), rest, 0, b1);
            assert(net(p, cs, b) == net(rest, 0, b1));
            assert forall|b2: int| is_boundary(p, b2) && b2 > b implies opt_pos(p, b2) > m by {
                assert(is_boundary(rest, b2 - cs));
                assert(opt_pos(rest, b2 - cs) > m - ce.len());
                assert(opt_pos(p, b2) == ce.len() + opt_pos(rest, b2 - cs));
            }
            b
        }
    }
}

/// Boundary images preserve order, strictly.
proof fn lemma_opt_pos_mono(p: Seq<u8>, a: int, b: int)
    requires
        is_boundary(p, a),
        is_boundary(p, b),
        a <= b,
    ensures
        opt_pos(p, a) <= opt_pos(p, b),
        a < b ==> opt_pos(p, a) < opt_pos(p, b),
    decreases p.len(),
{
    if a == b {
    } else if a == 0 {
        lemma_chunk_basic(p);
        let cs = chunk_src(p) as int;
        let rest = p.skip(cs);
        lemma_boundary_bounds(rest, b - cs);
    } else {
        lemma_chunk_basic(p);
        let cs = chunk_src(p) as int;
        let rest = p.skip(cs);
        lemma_opt_pos_mono(rest, a - cs, b - cs);
    }
}

/// A bracket byte is a chunk of its own: its position and the next are
/// boundaries one image-step apart, and the packed stream carries the same
/// byte at its image.
proof fn lemma_bracket_boundary(p: Seq<u8>, q: int)
    requires
        0 <= q < p.len(),
        p[q] == OP_OPEN || p[q] == OP_CLOSE,
        forall|k: int| 0 <= k < p.len() ==> is_op_byte(#[trigger] p[k]),
    ensures
        is_boundary(p, q),
        is_boundary(p, q + 1),
        opt_pos(p, q + 1) == opt_pos(p, q) + 1,
        0 <= opt_pos(p, q) < optimize_spec(p).len(),
        optimize_spec(p)[opt_pos(p, q)] == p[q],
    decreases p.len(),
{
    lemma_chunk_basic(p);
    let cs = chunk_src(p) as int;
    let ce = chunk_emit(p);
    let rest = p.skip(cs);
    let q2 = optimize_spec(p);
    let qr = optimize_spec(rest);
    assert(q2 == ce + qr);
    if q == 0 {
        assert(!is_run_op(p[0]));
        assert(cs == 1);
        assert(ce == seq![p[0]]);
        assert(is_boundary(rest, 0));
        assert(opt_pos(p, 1) == 1 + opt_pos(rest, 0));
        assert(q2[0] == ce[0]);
    } else {
        assert(q >= cs) by {
            if q < cs {
                assert(p[q] == p[0]);
            }
        }
        assert forall|k: int| 0 <= k < rest.len() implies is_op_byte(#[trigger] rest[k]) by {
            assert(rest[k] == p[k + cs]);
        }
        assert(rest[q - cs] == p[q]);
        lemma_bracket_boundary(rest, q - cs);
        assert(opt_pos(p, q) == ce.len() + opt_pos(rest, q - cs));
        assert(opt_pos(p, q + 1) == ce.len() + opt_pos(rest, q - cs + 1));
        assert(q2[ce.len() + opt_pos(rest, q - cs)] == qr[opt_pos(rest, q - cs)]);
    }
}

/// A matched pair of the raw stream maps to a matched pair of the packed
/// stream.
proof fn lemma_match_transfer(p: Seq<u8>, i: int, j: int)
    requires
        is_match(p, i, j),
        forall|k: int| 0 <= k < p.len() ==> is_op_byte(#[trigger] p[k]),
    ensures
        is_match(optimize_spec(p), opt_pos(p, i), opt_pos(p, j)),
{
    let q = optimize_spec(p);
    lemma_bracket_boundary(p, i);
    lemma_bracket_boundary(p, j);
    let fi = opt_pos(p, i);
    let fj = opt_pos(p, j);
    lemma_opt_pos_mono(p, i + 1, j);
    lemma_boundary_bounds(p, j);
    // the span between the images balances
    lemma_prefix_net(p, i + 1);
    lemma_prefix_net(p, j);
    lemma_net_additive(q, 0, fi + 1, fj);
    lemma_net_additive(p, 0, i + 1, j);
    assert(net(q, fi + 1, fj) == 0);
    // and no prefix of it dips below zero
    assert forall|m: int| fi + 1 <= m <= fj implies #[trigger] net(q, fi + 1, m) >= 0 by {
        lemma_boundary_bounds(p, i + 1);
        let b = lemma_mid_position(p, m);
        // the witness boundary sits between the pair
        assert(b >= i + 1) by {
            if b < i + 1 {
                lemma_opt_pos_mono(p, b, i + 1);
                assert(opt_pos(p, i + 1) > m);
            }
        }
        assert(b <= j) by {
            if b > j {
                lemma_opt_pos_mono(p, j + 1, b);
                assert(opt_pos(p, b) >= fj + 1);
            }
        }
        lemma_net_additive(q, 0, fi + 1, m);
        lemma_net_additive(p, 0, i + 1, b);
        assert(net(p, i + 1, b) >= 0);
    }
    assert(nonneg_prefixes(q, fi + 1, fj));
}

/// The chunk standing at a boundary, seen from the whole stream: where it
/// ends, where its image ends, and that the packed stream carries its
/// emitted bytes at its image.
proof fn lemma_chunk_at(p: Seq<u8>, b: int)
    requires
        is_boundary(p, b),
        0 <= b < p.len(),
        forall|k: int| 0 <= k < p.len() ==> is_op_byte(#[trigger] p[k]),
    ensures
        is_boundary(p, b + chunk_src(p.skip(b)) as int),
        opt_pos(p, b + chunk_src(p.skip(b)) as int) == opt_pos(p, b) + chunk_emit(
            p.skip(b),
        ).len() as int,
        opt_pos(p, b) + chunk_emit(p.skip(b)).len() <= optimize_spec(p).len(),
        forall|k: int|
            0 <= k < chunk_emit(p.skip(b)).len() ==> optimize_spec(p)[opt_pos(p, b) + k]
                == #[trigger] chunk_emit(p.skip(b))[k],
    decreases p.len(),
{
    lemma_chunk_basic(p);
    let cs = chunk_src(p) as int;
    let ce = chunk_emit(p);
    let rest = p.skip(cs);
    let q = optimize_spec(p);
    let qr = optimize_spec(rest);
    assert(q == ce + qr);
    if b == 0 {
        assert(p.skip(0) =~= p);
        assert(is_boundary(p, cs)) by {
            assert(is_boundary(rest, 0));
        }
        assert(opt_pos(p, cs) == ce.len() + opt_pos(rest, 0));
        lemma_boundary_bounds(p, cs);
        assert forall|k: int| 0 <= k < ce.len() implies q[opt_pos(p, 0) + k] == #[trigger] ce[k] by {
            assert(q[k] == ce[k]);
        }
    } else {
        assert forall|k: int| 0 <= k < rest.len() implies is_op_byte(#[trigger] rest[k]) by {
            assert(rest[k] == p[k + cs]);
        }
        lemma_chunk_at(rest, b - cs);
        assert(rest.skip(b - cs) =~= p.skip(b));
        let cb = chunk_src(p.skip(b)) as int;
        let cbe = chunk_emit(p.skip(b));
        assert(is_boundary(p, b + cb)) by {
            assert(is_boundary(rest, b - cs + cb));
        }
        assert(opt_pos(p, b) == ce.len() + opt_pos(rest, b - cs));
        assert(opt_pos(p, b + cb) == ce.len() + opt_pos(rest, b - cs + cb));
        lemma_boundary_bounds(rest, b - cs);
        assert forall|k: int| 0 <= k < cbe.len() implies q[opt_pos(p, b) + k] == #[trigger] cbe[k] by {
            assert(q[ce.len() + (opt_pos(rest, b - cs) + k)] == qr[opt_pos(rest, b - cs) + k]);
        }
    }
}

/// Folding one summand into a sum under the modulus changes nothing.
proof fn lemma_mod_add_left(a: int, b: int)
    ensures
        (a % 256 + b) % 256 == (a + b) % 256,
{
    lemma_add_mod_noop(a, b, 256);
    lemma_add_mod_noop(a % 256, b, 256);
    lemma_small_mod((a % 256) as nat, 256);
}

/// Wrapping cell arithmetic composes by adding the counts.
proof fn lemma_wrap_compose(x: u8, a: nat, b: nat)
    ensures
        wrap_add8(wrap_add8(x, a), b) == wrap_add8(x, a + b),
        wrap_sub8(wrap_sub8(x, a), b) == wrap_sub8(x, a + b),
{
    lemma_mod_add_left(x + a, b as int);
    lemma_mod_add_left(x + 256 - a % 256, 256 - b % 256);
    let u = a % 256 + b % 256;
    lemma_add_mod_noop(a as int, b as int, 256);
    if u < 256 {
        lemma_small_mod(u as nat, 256);
        lemma_mod_add_multiples_vanish(x + 256 - u, 256);
    } else {
        lemma_mod_add_multiples_vanish(u - 256, 256);
        lemma_small_mod((u - 256) as nat, 256);
    }
}

/// The state after `c` repetitions of the run operator `b`, with the
/// program cursor set to `pp2`: the tape cell or the data cursor moves by
/// the whole count at once.
pub open spec fn apply_run(s: StateView, b: u8, c: nat, pp2: nat) -> StateView {
    if b == OP_PLUS {
        StateView {
            pp: pp2,
            data: s.data.update(s.mp as int, wrap_add8(s.data[s.mp as int], c)),
            ..s
        }
    } else if b == OP_MINUS {
        StateView {
            pp: pp2,
            data: s.data.update(s.mp as int, wrap_sub8(s.data[s.mp as int], c)),
            ..s
        }
    } else if b == OP_RIGHT {
        StateView { pp: pp2, mp: (s.mp + c) as nat, ..s }
    } else {
        StateView { pp: pp2, mp: (s.mp - c) as nat, ..s }
    }
}

/// A raw run executes to its combined effect: a halting machine standing
/// before `c` copies of the operator `b` passes through their combined
/// state, in `c` steps, staying inside the tape the whole way.
proof fn lemma_source_run(s: StateView, b: u8, c: nat, n: nat, v: StateView)
    requires
        is_run_op(b),
        c >= 1,
        s.pp + c <= s.program.len(),
        forall|k: int| s.pp <= k < s.pp + c ==> s.program[k] == b,
        run_to(s, n) == RunResult::Halted(v),
    ensures
        n >= c,
        b == OP_RIGHT ==> s.mp + c < s.data.len(),
        b == OP_LEFT ==> s.mp >= c,
        (b == OP_PLUS || b == OP_MINUS) ==> s.mp < s.data.len(),
        run_to(apply_run(s, b, c, (s.pp + c) as nat), (n - c) as nat) == RunResult::Halted(v),
    decreases c,
{
    assert(s.program[s.pp as int] == b);
    assert(n >= 1) by {
        if n == 0 {
            assert(run_to(s, 0) == RunResult::Running(s));
        }
    }
    let s1 = apply_run(s, b, 1, (s.pp + 1) as nat);
    assert(step_once(s) == Outcome::Next(s1)) by {
        match step_once(s) {
            Outcome::Halt => {
                assert(run_to(s, n) == RunResult::Halted(s));
                assert(s.pp >= s.program.len());
            },
            Outcome::Fail(e) => {
                assert(run_to(s, n) == RunResult::Failed(e, s));
            },
            Outcome::Next(s2) => {
                if b == OP_PLUS || b == OP_MINUS {
                    lemma_small_mod(1, 256);
                }
                assert(s2 =~= s1);
            },
        }
    }
    assert(run_to(s1, (n - 1) as nat) == RunResult::Halted(v));
    if c == 1 {
    } else {
        assert forall|k: int| s1.pp <= k < s1.pp + (c - 1) implies s1.program[k] == b by {
            assert(s.program[k] == b);
        }
        lemma_source_run(s1, b, (c - 1) as nat, (n - 1) as nat, v);
        let mid = apply_run(s1, b, (c - 1) as nat, (s.pp + c) as nat);
        let whole = apply_run(s, b, c, (s.pp + c) as nat);
        assert(mid =~= whole) by {
            if b == OP_PLUS || b == OP_MINUS {
                let d0 = s.data[s.mp as int];
                assert(s1.data[s.mp as int] == wrap_add8(d0, 1) || s1.data[s.mp as int]
                    == wrap_sub8(d0, 1));
                lemma_wrap_compose(s.data[s.mp as int], 1, (c - 1) as nat);
                assert(s.data.update(s.mp as int, s1.data[s.mp as int]).update(
                    s.mp as int,
                    whole.data[s.mp as int],
                ) =~= s.data.update(s.mp as int, whole.data[s.mp as int]));
            }
        }
    }
}

/// Decoding the packed instruction for `c` copies of `b` yields the
/// operation with count `c`.
proof fn lemma_decode_packed(b: u8, c: nat)
    requires
        is_run_op(b),
        1 <= c <= 32,
    ensures
        b == OP_PLUS ==> decode_op((run_mask(b) + c - 1) as u8) == Some(Op::Increment(c)),
        b == OP_MINUS ==> decode_op((run_mask(b) + c - 1) as u8) == Some(Op::Decrement(c)),
        b == OP_RIGHT ==> decode_op((run_mask(b) + c - 1) as u8) == Some(Op::MoveRight(c)),
        b == OP_LEFT ==> decode_op((run_mask(b) + c - 1) as u8) == Some(Op::MoveLeft(c)),
{
    let e = (run_mask(b) + c - 1) as u8;
    lemma_small_mod((c - 1) as nat, 32);
    if b == OP_PLUS {
        lemma_mod_multiples_vanish(7, c - 1, 32);
        assert(e % 32 == c - 1);
    } else if b == OP_MINUS {
        lemma_mod_multiples_vanish(6, c - 1, 32);
        assert(e % 32 == c - 1);
    } else if b == OP_RIGHT {
        lemma_mod_multiples_vanish(5, c - 1, 32);
        assert(e % 32 == c - 1);
    } else {
        lemma_mod_multiples_vanish(4, c - 1, 32);
        assert(e % 32 == c - 1);
    }
}

/// The packed instructions for a run of `c` copies of `b` execute to the
/// same combined effect as the raw run, one step per packed instruction.
proof fn lemma_packed_run(so: StateView, b: u8, c: nat, m: nat, w: StateView)
    requires
        is_run_op(b),
        c >= 1,
        so.pp + emit_run(b, c).len() <= so.program.len(),
        forall|k: int|
            0 <= k < emit_run(b, c).len() ==> so.program[so.pp + k] == #[trigger] emit_run(b, c)[k],
        b == OP_RIGHT ==> so.mp + c < so.data.len(),
        b == OP_LEFT ==> so.mp >= c,
        (b == OP_PLUS || b == OP_MINUS) ==> so.mp < so.data.len(),
        run_to(apply_run(so, b, c, (so.pp + emit_run(b, c).len()) as nat), m) == RunResult::Halted(
            w,
        ),
    ensures
        run_to(so, m + emit_run(b, c).len()) == RunResult::Halted(w),
    decreases c,
{
    let co = emit_run(b, c);
    lemma_emit_run_len(b, c);
    let first = if c > 32 {
        32nat
    } else {
        c
    };
    assert(co[0] == (run_mask(b) + first - 1) as u8);
    assert(so.program[so.pp as int] == co[0]);
    lemma_decode_packed(b, first);
    assert(!is_op_byte(co[0])) by {
        lemma_emit_run_valid(b, c);
    }
    let s1 = apply_run(so, b, first, (so.pp + 1) as nat);
    assert(step_once(so) == Outcome::Next(s1)) by {
        assert(so.pp < so.program.len());
    }
    if c <= 32 {
        assert(co.len() == 1);
        assert(s1 =~= apply_run(so, b, c, (so.pp + co.len()) as nat));
        assert(run_to(so, m + 1) == run_to(s1, m));
    } else {
        let rest = emit_run(b, (c - 32) as nat);
        assert(co == seq![(run_mask(b) + 31) as u8] + rest);
        assert forall|k: int|
            0 <= k < rest.len() implies s1.program[s1.pp + k] == #[trigger] rest[k] by {
            assert(co[k + 1] == rest[k]);
            assert(so.program[so.pp + (k + 1)] == co[k + 1]);
        }
        let mid = apply_run(s1, b, (c - 32) as nat, (s1.pp + rest.len()) as nat);
        let whole = apply_run(so, b, c, (so.pp + co.len()) as nat);
        assert(mid =~= whole) by {
            if b == OP_PLUS || b == OP_MINUS {
                let d0 = so.data[so.mp as int];
                assert(s1.data[so.mp as int] == wrap_add8(d0, 32) || s1.data[so.mp as int]
                    == wrap_sub8(d0, 32));
                lemma_wrap_compose(so.data[so.mp as int], 32, (c - 32) as nat);
                assert(so.data.update(so.mp as int, s1.data[so.mp as int]).update(
                    so.mp as int,
                    whole.data[so.mp as int],
                ) =~= so.data.update(so.mp as int, whole.data[so.mp as int]));
            }
        }
        lemma_packed_run(s1, b, (c - 32) as nat, m, w);
        assert(run_to(so, m + co.len()) == run_to(s1, m + rest.len()));
    }
}

/// The raw machine and the packed machine walk in step: same program up to
/// packing, the raw cursor on a chunk boundary with the packed cursor on
/// its image, and every observable part of the state equal.
spec fn corresponds(p: Seq<u8>, su: StateView, so: StateView) -> bool {
    &&& su.program == p
    &&& so.program == optimize_spec(p)
    &&& is_boundary(p, su.pp as int)
    &&& so.pp == opt_pos(p, su.pp as int)
    &&& so.mp == su.mp
    &&& so.data == su.data
    &&& so.input == su.input
    &&& so.output == su.output
}

/// Where the packed machine comes to rest when the raw machine halts in `v`.
pub open spec fn packed_halt(p: Seq<u8>, v: StateView) -> StateView {
    StateView {
        program: optimize_spec(p),
        pp: optimize_spec(p).len(),
        mp: v.mp,
        data: v.data,
        input: v.input,
        output: v.output,
    }
}

/// The simulation: whenever the raw machine halts, the packed machine
/// halts with the same tape, cursor, unread input, and output.
proof fn lemma_sim(p: Seq<u8>, su: StateView, so: StateView, n: nat, v: StateView) -> (m: nat)
    requires
        forall|k: int| 0 <= k < p.len() ==> is_op_byte(#[trigger] p[k]),
        corresponds(p, su, so),
        run_to(su, n) == RunResult::Halted(v),
    ensures
        run_to(so, m) == RunResult::Halted(packed_halt(p, v)),
    decreases n,
{
    lemma_boundary_bounds(p, su.pp as int);
    assert(n >= 1) by {
        if n == 0 {
            assert(run_to(su, 0) == RunResult::Running(su));
        }
    }
    if su.pp == p.len() {
        assert(step_once(su) == Outcome::Halt);
        assert(run_to(su, n) == RunResult::Halted(su));
        assert(so.pp == optimize_spec(p).len());
        assert(step_once(so) == Outcome::Halt);
        assert(run_to(so, 1) == RunResult::Halted(so));
        assert(so =~= packed_halt(p, v));
        1
    } else {
        let pi = su.pp as int;
        let rest0 = p.skip(pi);
        let b0 = p[pi];
        assert(rest0[0] == b0);
        lemma_chunk_at(p, pi);
        let q = optimize_spec(p);
        if is_run_op(b0) && rest0.len() >= 2 && rest0[1] == b0 {
            // a run chunk: the raw machine takes the whole run, the packed
            // machine its packed instructions
            let run_len = run_len_at(rest0, b0);
            lemma_run_len_at(rest0, b0);
            assert(run_len >= 2) by {
                if run_len < 2 {
                    assert(rest0[run_len as int] != b0);
                }
            }
            assert(chunk_src(rest0) == run_len);
            let ce = chunk_emit(rest0);
            assert(ce == emit_run(b0, run_len));
            assert forall|k: int| pi <= k < pi + run_len implies p[k] == b0 by {
                assert(rest0[k - pi] == b0);
            }
            lemma_source_run(su, b0, run_len, n, v);
            let su2 = apply_run(su, b0, run_len, (pi + run_len) as nat);
            let so2 = apply_run(so, b0, run_len, (so.pp + ce.len()) as nat);
            assert(corresponds(p, su2, so2));
            let m1 = lemma_sim(p, su2, so2, (n - run_len) as nat, v);
            assert forall|k: int|
                0 <= k < emit_run(b0, run_len).len() implies so.program[so.pp + k] == #[trigger]
            emit_run(b0, run_len)[k] by {
                assert(q[opt_pos(p, pi) + k] == ce[k]);
            }
            lemma_packed_run(so, b0, run_len, m1, packed_halt(p, v));
            m1 + ce.len()
        } else {
            // a single-byte chunk: one step each, to the next boundary
            assert(chunk_src(rest0) == 1);
            let ce = chunk_emit(rest0);
            assert(ce =~= seq![b0]);
            assert(q[opt_pos(p, pi) + 0] == ce[0]);
            assert(so.program[so.pp as int] == b0);
            assert(is_boundary(p, pi + 1));
            assert(opt_pos(p, pi + 1) == so.pp + 1);
            let su2 = match step_once(su) {
                Outcome::Next(x) => x,
                _ => su,
            };
            assert(step_once(su) == Outcome::Next(su2)) by {
                match step_once(su) {
                    Outcome::Next(_) => {},
                    Outcome::Halt => {
                        assert(su.pp >= su.program.len());
                    },
                    Outcome::Fail(e) => {
                        assert(run_to(su, n) == RunResult::Failed(e, su));
                    },
                }
            }
            assert(run_to(su2, (n - 1) as nat) == RunResult::Halted(v));
            let so2 = if b0 == OP_PLUS || b0 == OP_MINUS || b0 == OP_OUT || b0 == OP_IN || b0
                == OP_RIGHT || b0 == OP_LEFT {
                let so2 = StateView {
                    program: so.program,
                    pp: (so.pp + 1) as nat,
                    mp: su2.mp,
                    data: su2.data,
                    input: su2.input,
                    output: su2.output,
                };
                assert(step_once(so) == Outcome::Next(so2)) by {
                    assert(su2.pp == su.pp + 1);
                    match step_once(so) {
                        Outcome::Next(x) => {
                            assert(x =~= so2);
                        },
                        Outcome::Halt => {},
                        Outcome::Fail(_) => {},
                    }
                }
                so2
            } else if b0 == OP_OPEN {
                if su.data[su.mp as int] == 0 {
                    let j = match_close(p, pi);
                    assert(is_match(p, pi, j));
                    lemma_match_transfer(p, pi, j);
                    lemma_bracket_boundary(p, j);
                    assert(is_match(q, so.pp as int, opt_pos(p, j)));
                    let jq = match_close(q, so.pp as int);
                    assert(is_match(q, so.pp as int, jq));
                    lemma_match_close_unique(q, so.pp as int, jq, opt_pos(p, j));
                    let so2 = StateView { pp: (opt_pos(p, j) + 1) as nat, ..so };
                    assert(step_once(so) == Outcome::Next(so2)) by {
                        match step_once(so) {
                            Outcome::Next(x) => {
                                assert(x =~= so2);
                            },
                            Outcome::Halt => {},
                            Outcome::Fail(_) => {},
                        }
                    }
                    assert(su2.pp == j + 1);
                    assert(opt_pos(p, j + 1) == opt_pos(p, j) + 1);
                    assert(is_boundary(p, j + 1));
                    so2
                } else {
                    let so2 = StateView { pp: (so.pp + 1) as nat, ..so };
                    assert(step_once(so) == Outcome::Next(so2)) by {
                        match step_once(so) {
                            Outcome::Next(x) => {
                                assert(x =~= so2);
                            },
                            Outcome::Halt => {},
                            Outcome::Fail(_) => {},
                        }
                    }
                    assert(su2.pp == su.pp + 1);
                    so2
                }
            } else {
                assert(b0 == OP_CLOSE);
                if su.data[su.mp as int] != 0 {
                    let i = match_open(p, pi);
                    assert(is_match(p, i, pi));
                    lemma_match_transfer(p, i, pi);
                    lemma_bracket_boundary(p, i);
                    assert(is_match(q, opt_pos(p, i), so.pp as int));
                    let iq = match_open(q, so.pp as int);
                    assert(is_match(q, iq, so.pp as int));
                    lemma_match_open_unique(q, iq, opt_pos(p, i), so.pp as int);
                    let so2 = StateView { pp: (opt_pos(p, i) + 1) as nat, ..so };
                    assert(step_once(so) == Outcome::Next(so2)) by {
                        match step_once(so) {
                            Outcome::Next(x) => {
                                assert(x =~= so2);
                            },
                            Outcome::Halt => {},
                            Outcome::Fail(_) => {},
                        }
                    }
                    assert(su2.pp == i + 1);
                    assert(opt_pos(p, i + 1) == opt_pos(p, i) + 1);
                    assert(is_boundary(p, i + 1));
                    so2
                } else {
                    let so2 = StateView { pp: (so.pp + 1) as nat, ..so };
                    assert(step_once(so) == Outcome::Next(so2)) by {
                        match step_once(so) {
                            Outcome::Next(x) => {
                                assert(x =~= so2);
                            },
                            Outcome::Halt => {},
                            Outcome::Fail(_) => {},
                        }
                    }
                    assert(su2.pp == su.pp + 1);
                    so2
                }
            };
            assert(corresponds(p, su2, so2));
            let m1 = lemma_sim(p, su2, so2, (n - 1) as nat, v);
            assert(run_to(so, m1 + 1) == run_to(so2, m1));
            m1 + 1
        }
    }
}

/// Optimizer transparency: take any instruction stream of raw operators
/// whose run halts — so its brackets pair up and its pointer motion stays
/// on the tape — from any starting tape, cursor, and input. The packed
/// form of the stream, run from the same start, also halts, with the same
/// tape, the same data cursor, the same unread input, and a byte-identical
/// output stream: packing is observationally invisible.
pub proof fn lemma_optimizer_transparent(p: Seq<u8>, s: StateView, n: nat, v: StateView) -> (m: nat)
    requires
        forall|k: int| 0 <= k < p.len() ==> is_op_byte(#[trigger] p[k]),
        s.program == p,
        s.pp == 0,
        run_to(s, n) == RunResult::Halted(v),
    ensures
        run_to(StateView { program: optimize_spec(p), ..s }, m) == RunResult::Halted(
            packed_halt(p, v),
        ),
        packed_halt(p, v).output == v.output,
        packed_halt(p, v).data == v.data,
        packed_halt(p, v).mp == v.mp,
        packed_halt(p, v).input == v.input,
{
    let so = StateView { program: optimize_spec(p), ..s };
    assert(corresponds(p, s, so));
    lemma_sim(p, s, so, n, v)
}


/// The same transparency in the loader's terms: what a source text loads
/// to with the optimizer off and what it loads to with the optimizer on
/// produce byte-identical output whenever the former halts.
pub proof fn lemma_built_program_transparent(
    src: Seq<char>,
    comments_on: bool,
    s: StateView,
    n: nat,
    v: StateView,
) -> (m: nat)
    requires
        s.program == built_program(src, comments_on, false),
        s.pp == 0,
        run_to(s, n) == RunResult::Halted(v),
    ensures
        run_to(
            StateView { program: built_program(src, comments_on, true), ..s },
            m,
        ) == RunResult::Halted(packed_halt(lex_spec(src, comments_on), v)),
        packed_halt(lex_spec(src, comments_on), v).output == v.output,
{
    lemma_lex_all_ops(src, comments_on, false);
    lemma_optimizer_transparent(lex_spec(src, comments_on), s, n, v)
}

} // verus!
