//! Laws of the engine, stated and proved over the same spec functions its
//! contracts use.

use vstd::prelude::*;

use vstd::arithmetic::div_mod::{
    lemma_add_mod_noop, lemma_mod_add_multiples_vanish, lemma_small_mod,
};

use crate::instr::wrap_add8;
use crate::lexer::{is_comment_char, is_op_char, lex_rec, lex_spec, op_byte};
use crate::semantics::{run_to, RunResult, StateView};
use crate::vm::built_program;

verus! {

/// The cell under the cursor after `n` single increment instructions.
pub open spec fn iterate_increment(v: u8, n: nat) -> u8
    decreases n,
{
    if n == 0 {
        v
    } else {
        wrap_add8(iterate_increment(v, (n - 1) as nat), 1)
    }
}

/// Repeated increments add up modulo 256.
proof fn lemma_iterate_increment_mod(v: u8, n: nat)
    ensures
        iterate_increment(v, n) == ((v + n) % 256) as u8,
    decreases n,
{
    if n > 0 {
        lemma_iterate_increment_mod(v, (n - 1) as nat);
        lemma_add_mod_noop(v + (n - 1), 1, 256);
        lemma_small_mod(1, 256);
    }
}

/// Wraparound closure: from any cell value, 256 single increments — the
/// cell arithmetic every increment instruction applies — come back to it.
pub proof fn lemma_increment_wraparound(v: u8)
    ensures
        iterate_increment(v, 256) == v,
{
    lemma_iterate_increment_mod(v, 256);
    lemma_mod_add_multiples_vanish(v as int, 256);
    lemma_small_mod(v as nat, 256);
}

/// The empty program halts at once, leaving every part of the machine —
/// cursors, tape, queues, output — exactly as it started.
pub proof fn lemma_empty_program_halts(s: StateView, n: nat)
    requires
        s.program.len() == 0,
        n >= 1,
    ensures
        run_to(s, n) == RunResult::Halted(s),
{
}

/// The operator characters of a source text, in order, as bytes.
pub open spec fn filter_ops(src: Seq<char>) -> Seq<u8>
    decreases src.len(),
{
    if src.len() == 0 {
        Seq::empty()
    } else if is_op_char(src[0]) {
        seq![op_byte(src[0])] + filter_ops(src.skip(1))
    } else {
        filter_ops(src.skip(1))
    }
}

/// With comment mode off the lexer is a pure filter: every character that
/// is not an operator — `;` and `#` included — is mere filler, and only the
/// operators, in order, reach the instruction stream.
pub proof fn lemma_lexer_is_filter(src: Seq<char>)
    ensures
        lex_spec(src, false) == filter_ops(src),
    decreases src.len(),
{
    if src.len() > 0 {
        lemma_lexer_is_filter(src.skip(1));
    }
}

/// A source text with everything from each comment character to its end of
/// line cut out, the line break itself kept.
pub open spec fn erase_comments_rec(src: Seq<char>, in_comment: bool) -> Seq<char>
    decreases src.len(),
{
    if src.len() == 0 {
        Seq::empty()
    } else {
        let c = src[0];
        let rest = src.skip(1);
        if in_comment {
            if c == '\n' {
                seq!['\n'] + erase_comments_rec(rest, false)
            } else {
                erase_comments_rec(rest, true)
            }
        } else if is_comment_char(c) {
            erase_comments_rec(rest, true)
        } else {
            seq![c] + erase_comments_rec(rest, false)
        }
    }
}

/// A source text with its line comments cut out.
pub open spec fn erase_comments(src: Seq<char>) -> Seq<char> {
    erase_comments_rec(src, false)
}

/// Lexing with comment mode on equals lexing the comment-stripped source
/// with comment mode off.
proof fn lemma_lex_erase_rec(src: Seq<char>, in_comment: bool)
    ensures
        lex_rec(src, true, in_comment) == lex_spec(erase_comments_rec(src, in_comment), false),
    decreases src.len(),
{
    if src.len() == 0 {
    } else {
        let c = src[0];
        let rest = src.skip(1);
        if in_comment {
            if c == '\n' {
                lemma_lex_erase_rec(rest, false);
                let erased = erase_comments_rec(src, in_comment);
                assert(erased[0] == '\n');
                assert(erased.skip(1) =~= erase_comments_rec(rest, false));
                assert(!is_op_char('\n'));
            } else {
                lemma_lex_erase_rec(rest, true);
            }
        } else if is_op_char(c) {
            lemma_lex_erase_rec(rest, false);
            let erased = erase_comments_rec(src, in_comment);
            assert(erased[0] == c);
            assert(erased.skip(1) =~= erase_comments_rec(rest, false));
            assert(lex_rec(erased, false, false) == seq![op_byte(c)] + lex_spec(
                erase_comments_rec(rest, false),
                false,
            ));
        } else if is_comment_char(c) {
            lemma_lex_erase_rec(rest, true);
        } else {
            lemma_lex_erase_rec(rest, false);
            let erased = erase_comments_rec(src, in_comment);
            assert(erased[0] == c);
            assert(erased.skip(1) =~= erase_comments_rec(rest, false));
        }
    }
}

/// Comment transparency: a program loads to the same instruction stream
/// under comment mode as the same text with every comment span cut out
/// loads to with comment handling off — so it executes exactly as if the
/// commented-out characters were absent.
pub proof fn lemma_comment_erasure(src: Seq<char>, optimize_on: bool)
    ensures
        lex_spec(src, true) == lex_spec(erase_comments(src), false),
        built_program(src, true, optimize_on) == built_program(
            erase_comments(src),
            false,
            optimize_on,
        ),
{
    lemma_lex_erase_rec(src, false);
}

} // verus!
