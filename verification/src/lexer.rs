//! The lexical filter: source text in, raw operator bytes out.
//!
//! Every character that is not one of the eight operators is dropped. When
//! comment mode is on, a `;` or `#` discards the rest of its line: scanning
//! resumes after the next newline. When comment mode is off those two
//! characters are ordinary filler and are dropped like any other.

use vstd::prelude::*;
use vstd::string::StrSliceExecFns;

use crate::instr::{
    is_op_byte, OP_CLOSE, OP_IN, OP_LEFT, OP_MINUS, OP_OPEN, OP_OUT, OP_PLUS, OP_RIGHT,
};

verus! {

/// The characters whose bytes form the instruction alphabet.
pub open spec fn is_op_char(c: char) -> bool {
    c == '>' || c == '<' || c == '+' || c == '-' || c == '.' || c == ',' || c == '[' || c == ']'
}

/// A character that starts a line comment when comment mode is on.
pub open spec fn is_comment_char(c: char) -> bool {
    c == ';' || c == '#'
}

/// The instruction byte of an operator character.
pub open spec fn op_byte(c: char) -> u8 {
    if c == '>' {
        OP_RIGHT
    } else if c == '<' {
        OP_LEFT
    } else if c == '+' {
        OP_PLUS
    } else if c == '-' {
        OP_MINUS
    } else if c == '.' {
        OP_OUT
    } else if c == ',' {
        OP_IN
    } else if c == '[' {
        OP_OPEN
    } else {
        OP_CLOSE
    }
}

/// One left-to-right pass over the source, carrying whether the scan is
/// currently inside a line comment.
pub open spec fn lex_rec(src: Seq<char>, comments_on: bool, in_comment: bool) -> Seq<u8>
    decreases src.len(),
{
    if src.len() == 0 {
        Seq::empty()
    } else {
        let c = src[0];
        let rest = src.skip(1);
        if in_comment {
            lex_rec(rest, comments_on, c != '\n')
        } else if is_op_char(c) {
            seq![op_byte(c)] + lex_rec(rest, comments_on, false)
        } else if comments_on && is_comment_char(c) {
            lex_rec(rest, comments_on, true)
        } else {
            lex_rec(rest, comments_on, false)
        }
    }
}

/// The instruction bytes of a source text: its operator characters in
/// order, minus anything a line comment discards.
pub open spec fn lex_spec(src: Seq<char>, comments_on: bool) -> Seq<u8> {
    lex_rec(src, comments_on, false)
}

/// Whatever the lexer keeps is an operator byte.
pub proof fn lemma_lex_all_ops(src: Seq<char>, comments_on: bool, in_comment: bool)
    ensures
        forall|k: int|
            0 <= k < lex_rec(src, comments_on, in_comment).len() ==> is_op_byte(
                #[trigger] lex_rec(src, comments_on, in_comment)[k],
            ),
    decreases src.len(),
{
    if src.len() == 0 {
    } else {
        let c = src[0];
        let rest = src.skip(1);
        if in_comment {
            lemma_lex_all_ops(rest, comments_on, c != '\n');
            let whole = lex_rec(src, comments_on, in_comment);
            let tail = lex_rec(rest, comments_on, c != '\n');
            assert(whole == tail);
            assert forall|k: int| 0 <= k < whole.len() implies is_op_byte(#[trigger] whole[k]) by {
                assert(is_op_byte(tail[k]));
            }
        } else if is_op_char(c) {
            lemma_lex_all_ops(rest, comments_on, false);
            let whole = lex_rec(src, comments_on, in_comment);
            let tail = lex_rec(rest, comments_on, false);
            assert(whole == seq![op_byte(c)] + tail);
            assert forall|k: int| 0 <= k < whole.len() implies is_op_byte(#[trigger] whole[k]) by {
                if k == 0 {
                    assert(whole[0] == op_byte(c));
                    assert(is_op_byte(op_byte(c)));
                } else {
                    assert(whole[k] == tail[k - 1]);
                    assert(is_op_byte(tail[k - 1]));
                }
            }
        } else {
            lemma_lex_all_ops(rest, comments_on, comments_on && is_comment_char(c));
            let whole = lex_rec(src, comments_on, in_comment);
            let tail = lex_rec(rest, comments_on, comments_on && is_comment_char(c));
            assert(whole == tail);
            assert forall|k: int| 0 <= k < whole.len() implies is_op_byte(#[trigger] whole[k]) by {
                assert(is_op_byte(tail[k]));
            }
        }
    }
}

/// Strip a source text down to its instruction bytes.
pub fn lex(src: &str, comments_on: bool) -> (out: Vec<u8>)
    ensures
        out@ == lex_spec(src@, comments_on),
{
    let len = src.unicode_len();
    let mut out: Vec<u8> = Vec::new();
    let mut in_comment = false;
    let mut i: usize = 0;
    proof {
        assert(src@.skip(0) =~= src@);
        assert(Seq::<u8>::empty() + lex_rec(src@, comments_on, false) =~= lex_rec(
            src@,
            comments_on,
            false,
        ));
    }
    while i < len
        invariant
            i <= len,
            len == src@.len(),
            lex_spec(src@, comments_on) == out@ + lex_rec(src@.skip(i as int), comments_on, in_comment),
        decreases len - i,
    {
        let c = src.get_char(i);
        proof {
            assert(src@.skip(i as int)[0] == src@[i as int]);
            assert(src@.skip(i as int).skip(1) =~= src@.skip(i as int + 1));
        }
        if in_comment {
            if c == '\n' {
                in_comment = false;
            }
        } else if c == '>' {
            out.push(OP_RIGHT);
        } else if c == '<' {
            out.push(OP_LEFT);
        } else if c == '+' {
            out.push(OP_PLUS);
        } else if c == '-' {
            out.push(OP_MINUS);
        } else if c == '.' {
            out.push(OP_OUT);
        } else if c == ',' {
            out.push(OP_IN);
        } else if c == '[' {
            out.push(OP_OPEN);
        } else if c == ']' {
            out.push(OP_CLOSE);
        } else if comments_on && (c == ';' || c == '#') {
            in_comment = true;
        }
        i = i + 1;
    }
    proof {
        assert(src@.skip(len as int) =~= Seq::<char>::empty());
        assert(out@ + Seq::<u8>::empty() =~= out@);
    }
    out
}

} // verus!
