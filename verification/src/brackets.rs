//! Bracket matching.
//!
//! A loop-open at position `i` matches the loop-close at the least position
//! `j > i` whose brackets in between balance out. [`is_match`] states this
//! through prefix counts: the opens and closes strictly between `i` and `j`
//! cancel, and no prefix of that span closes more than it opens. Each side
//! of a match determines the other ([`lemma_match_close_unique`],
//! [`lemma_match_open_unique`]), so a well-bracketed stream has exactly one
//! partner for every bracket.

use vstd::prelude::*;

use crate::instr::{OP_CLOSE, OP_OPEN};

verus! {

/// How one byte moves the nesting level.
pub open spec fn bracket_delta(b: u8) -> int {
    if b == OP_OPEN {
        1int
    } else if b == OP_CLOSE {
        -1int
    } else {
        0int
    }
}

/// Opens minus closes over the half-open index range `[a, b)`.
pub open spec fn net(p: Seq<u8>, a: int, b: int) -> int
    decreases b - a,
{
    if a >= b {
        0int
    } else {
        net(p, a, b - 1) + bracket_delta(p[b - 1])
    }
}

/// Splitting a range splits its count.
pub proof fn lemma_net_additive(p: Seq<u8>, a: int, b: int, c: int)
    requires
        a <= b <= c,
    ensures
        net(p, a, c) == net(p, a, b) + net(p, b, c),
    decreases c - b,
{
    if b < c {
        lemma_net_additive(p, a, b, c - 1);
    }
}

/// A count over a range is bounded by the range's width.
pub proof fn lemma_net_bounds(p: Seq<u8>, a: int, b: int)
    requires
        a <= b,
    ensures
        -(b - a) <= net(p, a, b) <= b - a,
    decreases b - a,
{
    if a < b {
        lemma_net_bounds(p, a, b - 1);
    }
}

/// No prefix of the range `[a, b)` closes more than it opens.
pub open spec fn nonneg_prefixes(p: Seq<u8>, a: int, b: int) -> bool {
    forall|m: int| a <= m <= b ==> #[trigger] net(p, a, m) >= 0
}

/// The close at `j` is the partner of the open at `i`: the span strictly
/// between them balances, and no prefix of it dips below level zero — which
/// makes `j` the least close that brings the level back to zero.
pub open spec fn is_match(p: Seq<u8>, i: int, j: int) -> bool {
    &&& 0 <= i < j < p.len()
    &&& p[i] == OP_OPEN
    &&& p[j] == OP_CLOSE
    &&& net(p, i + 1, j) == 0
    &&& nonneg_prefixes(p, i + 1, j)
}

/// An open has at most one partner.
pub proof fn lemma_match_close_unique(p: Seq<u8>, i: int, j1: int, j2: int)
    requires
        is_match(p, i, j1),
        is_match(p, i, j2),
    ensures
        j1 == j2,
{
    if j1 < j2 {
        assert(net(p, i + 1, j1 + 1) == net(p, i + 1, j1) + bracket_delta(p[j1]));
        assert(net(p, i + 1, j1 + 1) == -1);
    } else if j2 < j1 {
        assert(net(p, i + 1, j2 + 1) == net(p, i + 1, j2) + bracket_delta(p[j2]));
        assert(net(p, i + 1, j2 + 1) == -1);
    }
}

/// A close has at most one partner.
pub proof fn lemma_match_open_unique(p: Seq<u8>, i1: int, i2: int, j: int)
    requires
        is_match(p, i1, j),
        is_match(p, i2, j),
    ensures
        i1 == i2,
{
    if i1 < i2 {
        lemma_net_additive(p, i1 + 1, i2, j);
        lemma_net_additive(p, i2, i2 + 1, j);
        assert(net(p, i2, i2 + 1) == net(p, i2, i2) + bracket_delta(p[i2]));
        assert(net(p, i1 + 1, i2) == -1);
    } else if i2 < i1 {
        lemma_net_additive(p, i2 + 1, i1, j);
        lemma_net_additive(p, i1, i1 + 1, j);
        assert(net(p, i1, i1 + 1) == net(p, i1, i1) + bracket_delta(p[i1]));
        assert(net(p, i2 + 1, i1) == -1);
    }
}

/// Every open and every close in the stream has a partner.
pub open spec fn well_bracketed(p: Seq<u8>) -> bool {
    &&& forall|i: int|
        0 <= i < p.len() && #[trigger] p[i] == OP_OPEN ==> exists|j: int| is_match(p, i, j)
    &&& forall|j: int|
        0 <= j < p.len() && #[trigger] p[j] == OP_CLOSE ==> exists|i: int| is_match(p, i, j)
}

/// The partner position of the open at `i`.
pub open spec fn match_close(p: Seq<u8>, i: int) -> int {
    choose|j: int| is_match(p, i, j)
}

/// The partner position of the close at `j`.
pub open spec fn match_open(p: Seq<u8>, j: int) -> int {
    choose|i: int| is_match(p, i, j)
}

/// Scan forward from the open at `i` for its partner, tracking the nesting
/// level, as the validator does.
pub fn find_forward_match(program: &Vec<u8>, i: usize) -> (r: Option<usize>)
    requires
        i < program@.len(),
        program@[i as int] == OP_OPEN,
    ensures
        match r {
            Some(j) => is_match(program@, i as int, j as int),
            None => forall|j: int| !is_match(program@, i as int, j),
        },
{
    let ghost p = program@;
    let n = program.len();
    let mut count: usize = 0;
    let mut j: usize = i + 1;
    while j < n
        invariant
            p == program@,
            i < p.len(),
            n == p.len(),
            p[i as int] == OP_OPEN,
            i < j <= p.len(),
            count == net(p, i as int + 1, j as int),
            nonneg_prefixes(p, i as int + 1, j as int),
            forall|m: int|
                i < m < j ==> !(#[trigger] p[m] == OP_CLOSE && net(p, i as int + 1, m) == 0),
        decreases p.len() - j,
    {
        let b = program[j];
        proof {
            assert(net(p, i as int + 1, j as int + 1) == net(p, i as int + 1, j as int)
                + bracket_delta(p[j as int]));
            lemma_net_bounds(p, i as int + 1, j as int);
        }
        if b == OP_CLOSE {
            if count == 0 {
                return Some(j);
            }
            count = count - 1;
        } else if b == OP_OPEN {
            count = count + 1;
        }
        j = j + 1;
    }
    proof {
        assert forall|j2: int| !is_match(p, i as int, j2) by {
            if is_match(p, i as int, j2) {
                assert(i < j2 < p.len());
                assert(p[j2] == OP_CLOSE && net(p, i as int + 1, j2) == 0);
            }
        }
    }
    None
}

/// Scan backward from the close at `j` for an unmatched open, tracking the
/// nesting level, as the validator does.
pub fn has_backward_match(program: &Vec<u8>, j: usize) -> (r: bool)
    requires
        j < program@.len(),
        program@[j as int] == OP_CLOSE,
    ensures
        r <==> exists|i: int| is_match(program@, i, j as int),
{
    let ghost p = program@;
    let mut count: usize = 0;
    let mut k: usize = j;
    while k > 0
        invariant
            p == program@,
            j < p.len(),
            p[j as int] == OP_CLOSE,
            k <= j,
            count == -net(p, k as int, j as int),
            forall|m: int| k <= m <= j ==> #[trigger] net(p, m, j as int) <= 0,
            forall|m: int|
                k <= m < j ==> !(#[trigger] p[m] == OP_OPEN && net(p, m + 1, j as int) == 0),
        decreases k,
    {
        k = k - 1;
        let b = program[k];
        proof {
            lemma_net_additive(p, k as int, k as int + 1, j as int);
            assert(net(p, k as int, k as int + 1) == net(p, k as int, k as int) + bracket_delta(
                p[k as int],
            ));
            lemma_net_bounds(p, k as int + 1, j as int);
        }
        if b == OP_OPEN {
            if count == 0 {
                proof {
                    assert(net(p, k as int + 1, j as int) == 0);
                    let a = k as int + 1;
                    assert forall|m: int| a <= m <= j implies #[trigger] net(p, a, m) >= 0 by {
                        lemma_net_additive(p, a, m, j as int);
                    }
                    assert(nonneg_prefixes(p, a, j as int));
                    assert(is_match(p, k as int, j as int));
                }
                return true;
            }
            count = count - 1;
        } else if b == OP_CLOSE {
            count = count + 1;
        }
    }
    proof {
        assert forall|i: int| !is_match(p, i, j as int) by {
            if is_match(p, i, j as int) {
                assert(0 <= i < j);
                assert(p[i] == OP_OPEN && net(p, i + 1, j as int) == 0);
            }
        }
    }
    false
}

} // verus!
