//! What a query says, told by its bytes and words.
//!
//! [`crate::lexer`] cuts a source into tokens and [`crate::parser`] lays out a tree for them. The
//! laws here say what has to stand where: which bytes a token covers, which words make a stage,
//! and what hangs off the node of a stage.

use crate::lexer::{LexerError, Token, TokenKind, MAX_TOKENS};
use crate::parser::{
    comma_count, lay_pipeline, more_columns, more_stages, peek_at, pipeline, root_index, stage,
    stage_nodes, take_node, AstNode, Layout, NodeKind, ParserError, Progress, Stages, AST_CAP, NIL,
};
use crate::stages::{is_node, is_root, nth};
use vstd::prelude::*;

verus! {

// ---------------------------------------------------------------------------
// Bytes and tokens
// ---------------------------------------------------------------------------
/// `b` is white space: a space, a tab, a line feed, a carriage return, a vertical tab or a form
/// feed.
pub open spec fn is_white(b: u8) -> bool {
    b == 0x20 || 0x09 <= b <= 0x0D
}

/// `b` is one of the signs `| = > < , ; * + -`.
pub open spec fn is_mark(b: u8) -> bool {
    ||| b == 0x7C || b == 0x3D || b == 0x3E || b == 0x3C
    ||| b == 0x2C || b == 0x3B || b == 0x2A || b == 0x2B || b == 0x2D
}

/// `b` is a digit.
pub open spec fn is_figure(b: u8) -> bool {
    0x30 <= b <= 0x39
}

/// From `i` on stand the three bytes of a zero-width space.
pub open spec fn is_gap(src: Seq<u8>, i: int) -> bool {
    &&& 0 <= i <= src.len() - 3
    &&& src[i] == 0xE2
    &&& src[i + 1] == 0x80
    &&& src[i + 2] == 0x8B
}

/// Byte `k` is white space or belongs to a zero-width space.
pub open spec fn is_blank(src: Seq<u8>, k: int) -> bool {
    is_white(src[k]) || is_gap(src, k) || is_gap(src, k - 1) || is_gap(src, k - 2)
}

proof fn lemma_blanks(src: Seq<u8>, i: int)
    requires
        0 <= i <= src.len(),
    ensures
        ({
            let e = crate::lexer::blanks_end(src, i);
            &&& i <= e <= src.len()
            &&& forall|k: int| i <= k < e ==> #[trigger] is_blank(src, k)
            &&& e < src.len() ==> !is_white(src[e]) && !is_gap(src, e)
        }),
    decreases src.len() - i,
{
    if i < src.len() {
        if crate::utf8::is_space(src[i]) {
            lemma_blanks(src, i + 1);
        } else if crate::lexer::zero_width_space_at(src, i) {
            lemma_blanks(src, i + 3);
            let e = crate::lexer::blanks_end(src, i);
            assert forall|k: int| i <= k < e implies #[trigger] is_blank(src, k) by {
                if k < i + 3 {
                    assert(is_gap(src, i));
                }
            }
        }
    }
}

proof fn lemma_figures(src: Seq<u8>, i: int)
    requires
        0 <= i <= src.len(),
    ensures
        ({
            let e = crate::lexer::digits_end(src, i);
            &&& i <= e <= src.len()
            &&& forall|k: int| i <= k < e ==> is_figure(#[trigger] src[k])
            &&& e < src.len() ==> !is_figure(src[e])
        }),
    decreases src.len() - i,
{
    if i < src.len() && is_figure(src[i]) {
        lemma_figures(src, i + 1);
    }
}

proof fn lemma_signs_are_no_delimiters(src: Seq<u8>, i: int)
    requires
        0 <= i <= src.len(),
    ensures
        crate::utf8::cluster_end(src, i) matches Some(e) ==> i <= e <= src.len() && forall|k: int|
            i <= k < e ==> !is_white(#[trigger] src[k]) && !is_mark(src[k]),
    decreases src.len() - i,
{
    crate::utf8::lemma_cluster_end_range(src, i);
    if let Some(e) = crate::utf8::cluster_end(src, i) {
        if e > i {
            lemma_signs_are_no_delimiters(src, i + 3);
            assert forall|k: int| i <= k < e implies !is_white(#[trigger] src[k]) && !is_mark(
                src[k],
            ) by {
                if k < i + 3 {
                    assert(k == i || k == i + 1 || k == i + 2);
                }
            }
        }
    }
}

proof fn lemma_word(src: Seq<u8>, i: int)
    requires
        0 <= i <= src.len(),
    ensures
        crate::utf8::word_end(src, i) matches Some(e) ==> {
            &&& i <= e <= src.len()
            &&& forall|k: int| i <= k < e ==> !is_white(#[trigger] src[k]) && !is_mark(src[k])
            &&& e < src.len() ==> is_white(src[e]) || is_mark(src[e])
        },
    decreases src.len() - i,
{
    if i < src.len() && !is_white(src[i]) && !is_mark(src[i]) {
        if let Some(next) = crate::utf8::char_end(src, i) {
            lemma_signs_are_no_delimiters(src, next);
            if let Some(m) = crate::utf8::cluster_end(src, next) {
                lemma_word(src, m);
                if let Some(e) = crate::utf8::word_end(src, i) {
                    assert forall|k: int| i <= k < e implies !is_white(#[trigger] src[k])
                        && !is_mark(src[k]) by {
                        if i < k < next {
                            assert(crate::utf8::is_cont(src[k]));
                        }
                    }
                }
            }
        }
    }
}

/// The signs that belong to the letter before them are, byte for byte, the Tamil vowel signs and
/// the virama.
pub proof fn law_attached_signs_are_vowel_signs(b0: u8, b1: u8, b2: u8)
    requires
        0x80 <= b2 <= 0xBF,
    ensures
        crate::utf8::is_attached_sign(b0, b1, b2) <==> b0 == 0xE0 && ((b1 == 0xAE && 0xBE <= b2) || (
        b1 == 0xAF && (b2 <= 0x8D || b2 == 0x97))),
{
    let code = crate::utf8::tamil_code(b0, b1, b2);
    if b0 == 0xE0 && b1 == 0xAE {
        assert((((b0 as u32) & 0x0F) << 12) | (((b1 as u32) & 0x3F) << 6) | ((b2 as u32) & 0x3F)
            == 0xB80 + (b2 - 0x80)) by (bit_vector)
            requires
                b0 == 0xE0,
                b1 == 0xAE,
                0x80 <= b2 <= 0xBF,
        ;
        assert(code == 0xB80 + (b2 - 0x80));
    } else if b0 == 0xE0 && b1 == 0xAF {
        assert((((b0 as u32) & 0x0F) << 12) | (((b1 as u32) & 0x3F) << 6) | ((b2 as u32) & 0x3F)
            == 0xBC0 + (b2 - 0x80)) by (bit_vector)
            requires
                b0 == 0xE0,
                b1 == 0xAF,
                0x80 <= b2 <= 0xBF,
        ;
        assert(code == 0xBC0 + (b2 - 0x80));
    }
}

/// `k` is the kind of the sign `b`.
pub open spec fn is_kind_of_mark(k: TokenKind, b: u8) -> bool {
    match k {
        TokenKind::Pipe => b == 0x7C,
        TokenKind::Eq => b == 0x3D,
        TokenKind::Gt => b == 0x3E,
        TokenKind::Lt => b == 0x3C,
        TokenKind::Comma => b == 0x2C,
        TokenKind::Semi => b == 0x3B,
        TokenKind::Star => b == 0x2A,
        TokenKind::Plus => b == 0x2B,
        TokenKind::Minus => b == 0x2D,
        _ => false,
    }
}

/// A scan passes over blanks alone and then takes a token: a sign by itself, digits as far as
/// they go, or a word up to the next white space or sign. At the end of the source stands the end
/// of input, and nowhere else.
pub proof fn law_a_token_goes_as_far_as_it_can(src: Seq<u8>, pos: int)
    requires
        0 <= pos <= src.len() <= u32::MAX,
    ensures
        crate::lexer::scan_token(src, pos).result matches Ok(t) ==> {
            let a = t.start as int;
            let e = t.end as int;
            &&& pos <= a <= e <= src.len()
            &&& crate::lexer::scan_token(src, pos).pos == e
            &&& forall|k: int| pos <= k < a ==> #[trigger] is_blank(src, k)
            &&& a == src.len() ==> t.kind == TokenKind::Eof && e == a
            &&& a < src.len() ==> !is_white(src[a]) && !is_gap(src, a)
            &&& a < src.len() && is_figure(src[a]) ==> {
                &&& t.kind == TokenKind::Number
                &&& a < e
                &&& forall|k: int| a <= k < e ==> is_figure(#[trigger] src[k])
                &&& e < src.len() ==> !is_figure(src[e])
            }
            &&& a < src.len() && is_mark(src[a]) ==> is_kind_of_mark(t.kind, src[a]) && e == a + 1
            &&& a < src.len() && !is_figure(src[a]) && !is_mark(src[a]) ==> {
                &&& a < e
                &&& forall|k: int| a <= k < e ==> !is_white(#[trigger] src[k]) && !is_mark(src[k])
                &&& e < src.len() ==> is_white(src[e]) || is_mark(src[e])
                &&& vstd::utf8::valid_utf8(src.subrange(a, e))
            }
        },
{
    lemma_blanks(src, pos);
    let p = crate::lexer::blanks_end(src, pos);
    if p < src.len() {
        lemma_figures(src, p);
        lemma_word(src, p);
    }
}


/// The number that digits write: each digit counts ten times as much as the one behind it.
pub open spec fn written(digits: Seq<u8>) -> int
    decreases digits.len(),
{
    if digits.len() == 0 {
        0
    } else {
        (digits[0] - 0x30) * vstd::arithmetic::power::pow(10, (digits.len() - 1) as nat) + written(
            digits.drop_first(),
        )
    }
}

proof fn lemma_written(digits: Seq<u8>)
    ensures
        crate::lexer::decimal_value(digits) == written(digits),
    decreases digits.len(),
{
    if digits.len() == 1 {
        vstd::arithmetic::power::lemma_pow0(10);
        let p = vstd::arithmetic::power::pow(10, 0);
        let d = digits[0] - 0x30;
        assert(d * p == d) by (nonlinear_arith)
            requires
                p == 1,
        ;
        assert(digits.drop_first() =~= Seq::empty());
        assert(digits.drop_last() =~= Seq::empty());
        assert(crate::lexer::decimal_value(digits.drop_last()) == 0);
        assert(written(digits.drop_first()) == 0);
        assert(crate::lexer::decimal_value(digits) == d);
        assert(written(digits) == d * p);
    } else if digits.len() > 1 {
        let rest = digits.drop_first();
        let front = digits.drop_last();
        let both = rest.drop_last();
        lemma_written(rest);
        lemma_written(front);
        lemma_written(both);
        assert(front.drop_first() =~= both);
        assert(rest.last() == digits.last());
        let n = (digits.len() - 2) as nat;
        vstd::arithmetic::power::lemma_pow1(10);
        vstd::arithmetic::power::lemma_pow_adds(10, n, 1);
        let p = vstd::arithmetic::power::pow(10, n);
        let d = digits[0] - 0x30;
        assert(vstd::arithmetic::power::pow(10, (n + 1) as nat) == p * 10);
        assert(front[0] == digits[0]);
        assert(written(front) == d * p + written(both));
        assert(crate::lexer::decimal_value(rest) == crate::lexer::decimal_value(both) * 10 + (
        digits.last() - 0x30));
        assert((d * p) * 10 == d * (p * 10)) by (nonlinear_arith);
        assert(written(digits) == d * (p * 10) + written(rest));
        assert(crate::lexer::decimal_value(digits) == crate::lexer::decimal_value(front) * 10 + (
        digits.last() - 0x30));
    }
}

/// A number token carries the number that its digits write, and the least number there is in its
/// place where that does not fit.
pub proof fn law_a_number_is_what_its_digits_write(src: Seq<u8>, pos: int)
    requires
        0 <= pos <= src.len() <= u32::MAX,
    ensures
        crate::lexer::scan_token(src, pos).result matches Ok(t) ==> {
            let n = written(src.subrange(t.start as int, t.end as int));
            t.kind == TokenKind::Number ==> t.number == if n <= i64::MAX {
                n
            } else {
                i64::MIN as int
            }
        },
{
    lemma_blanks(src, pos);
    let p = crate::lexer::blanks_end(src, pos);
    if p < src.len() && is_figure(src[p]) {
        lemma_figures(src, p);
        let e = crate::lexer::digits_end(src, p);
        lemma_written(src.subrange(p, e));
        lemma_written_at_least(src.subrange(p, e));
    }
}

proof fn lemma_written_at_least(digits: Seq<u8>)
    requires
        forall|k: int| 0 <= k < digits.len() ==> is_figure(#[trigger] digits[k]),
    ensures
        crate::lexer::decimal_value(digits) >= 0,
    decreases digits.len(),
{
    if digits.len() > 0 {
        let front = digits.drop_last();
        assert forall|k: int| 0 <= k < front.len() implies is_figure(#[trigger] front[k]) by {
            assert(front[k] == digits[k]);
        }
        lemma_written_at_least(front);
        assert(is_figure(digits[digits.len() - 1]));
    }
}

/// The bytes of `word`.
pub open spec fn spelled(word: &str) -> Seq<u8> {
    vstd::utf8::encode_utf8(word@)
}

/// A word is a keyword if and only if it is spelled like it, and a name if it is none.
pub proof fn law_keywords_are_spelled_out(w: Seq<u8>)
    ensures
        ({
            let k = crate::lexer::keyword_kind(w);
            &&& k == TokenKind::Irundu <==> w == spelled("இருந்து")
            &&& k == TokenKind::Vadi <==> w == spelled("வடி")
            &&& k == TokenKind::Kani <==> w == spelled("கணி")
            &&& k == TokenKind::Adukku <==> w == spelled("அடுக்கு")
            &&& k == TokenKind::Edu <==> w == spelled("எடு")
            &&& k == TokenKind::Thoguppu <==> w == spelled("தொகுப்பு")
            &&& k == TokenKind::Surukku <==> w == spelled("சுருக்கு")
            &&& k == TokenKind::Inai <==> w == spelled("இணை")
            &&& k == TokenKind::Enge <==> w == spelled("எங்கே")
            &&& k == TokenKind::Thedu <==> w == spelled("தேடு")
            &&& k == TokenKind::Ident <==> w != spelled("இருந்து") && w != spelled("வடி") && w
                != spelled("கணி") && w != spelled("அடுக்கு") && w != spelled("எடு") && w != spelled(
                "தொகுப்பு",
            ) && w != spelled("சுருக்கு") && w != spelled("இணை") && w != spelled("எங்கே") && w
                != spelled("தேடு")
        }),
{
    reveal_strlit("இருந்து");
    reveal_strlit("வடி");
    reveal_strlit("கணி");
    reveal_strlit("அடுக்கு");
    reveal_strlit("எடு");
    reveal_strlit("தொகுப்பு");
    reveal_strlit("சுருக்கு");
    reveal_strlit("இணை");
    reveal_strlit("எங்கே");
    reveal_strlit("தேடு");
    vstd::utf8::encode_utf8_decode_utf8("இருந்து"@);
    vstd::utf8::encode_utf8_decode_utf8("வடி"@);
    vstd::utf8::encode_utf8_decode_utf8("கணி"@);
    vstd::utf8::encode_utf8_decode_utf8("அடுக்கு"@);
    vstd::utf8::encode_utf8_decode_utf8("எடு"@);
    vstd::utf8::encode_utf8_decode_utf8("தொகுப்பு"@);
    vstd::utf8::encode_utf8_decode_utf8("சுருக்கு"@);
    vstd::utf8::encode_utf8_decode_utf8("இணை"@);
    vstd::utf8::encode_utf8_decode_utf8("எங்கே"@);
    vstd::utf8::encode_utf8_decode_utf8("தேடு"@);
    assert("வடி"@[0] != "கணி"@[0]);
    assert("எடு"@[1] != "எங்கே"@[1]);
    assert("இணை"@[1] != "இருந்து"@[1]);
    assert("தேடு"@[1] != "தொகுப்பு"@[1]);
    assert("வடி"@[0] != "எடு"@[0]);
}

/// A token that is neither a number nor a sign nor the end of input is of the kind of its word.
pub proof fn law_a_word_is_of_its_kind(src: Seq<u8>, pos: int)
    requires
        0 <= pos <= src.len() <= u32::MAX,
    ensures
        crate::lexer::scan_token(src, pos).result matches Ok(t) ==> {
            let a = t.start as int;
            a < src.len() && !is_figure(src[a]) && !is_mark(src[a]) ==> t.kind
                == crate::lexer::keyword_kind(src.subrange(a, t.end as int))
        },
{
    lemma_blanks(src, pos);
    let p = crate::lexer::blanks_end(src, pos);
    if p < src.len() {
        lemma_figures(src, p);
        lemma_word(src, p);
    }
}

/// Token `i + 1` is what stands behind token `i`, which is not the end of input.
pub open spec fn follows(src: Seq<u8>, toks: Seq<Token>, i: int) -> bool {
    &&& toks[i].kind != TokenKind::Eof
    &&& crate::lexer::scan_token(src, toks[i].end as int).result == Ok::<Token, LexerError>(
        toks[i + 1],
    )
}

/// Each of the tokens is what stands behind the one before it, and the first is what stands at
/// `pos`.
pub open spec fn are_tokens(src: Seq<u8>, pos: int, toks: Seq<Token>) -> bool {
    &&& toks.len() > 0 ==> crate::lexer::scan_token(src, pos).result == Ok::<Token, LexerError>(
        toks[0],
    )
    &&& forall|i: int| 0 <= i < toks.len() - 1 ==> #[trigger] follows(src, toks, i)
}

/// Where the last of the tokens ends.
pub open spec fn tokens_end(pos: int, toks: Seq<Token>) -> int {
    if toks.len() == 0 {
        pos
    } else {
        toks.last().end as int
    }
}

proof fn lemma_run(src: Seq<u8>, pos: int, room: nat)
    requires
        0 <= pos <= src.len() <= u32::MAX,
    ensures
        ({
            let run = crate::lexer::lex_run(src, pos, room);
            let stop = tokens_end(pos, run.tokens);
            &&& run.tokens.len() <= room
            &&& are_tokens(src, pos, run.tokens)
            &&& run.error is None <==> run.tokens.len() > 0 && run.tokens.last().kind
                == TokenKind::Eof
            &&& run.error matches Some(e) ==> if run.tokens.len() == room {
                e == LexerError::TokenBufferFull
            } else {
                crate::lexer::scan_token(src, stop).result == Err::<Token, LexerError>(e)
            }
        }),
    decreases room,
{
    if room > 0 {
        let step = crate::lexer::scan_token(src, pos);
        let run = crate::lexer::lex_run(src, pos, room);
        law_a_token_goes_as_far_as_it_can(src, pos);
        if let Ok(t) = step.result {
            if t.kind != TokenKind::Eof {
                let rest = crate::lexer::lex_run(src, t.end as int, (room - 1) as nat);
                lemma_run(src, t.end as int, (room - 1) as nat);
                lemma_tokens_grow(src, pos, t, rest.tokens);
            }
        }
    }
}

proof fn lemma_tokens_grow(src: Seq<u8>, pos: int, t: Token, rest: Seq<Token>)
    requires
        crate::lexer::scan_token(src, pos).result == Ok::<Token, LexerError>(t),
        t.kind != TokenKind::Eof,
        are_tokens(src, t.end as int, rest),
    ensures
        are_tokens(src, pos, seq![t] + rest),
        tokens_end(pos, seq![t] + rest) == tokens_end(t.end as int, rest),
        rest.len() > 0 ==> (seq![t] + rest).last() == rest.last(),
        rest.len() == 0 ==> (seq![t] + rest).last() == t,
{
    let all = seq![t] + rest;
    assert forall|i: int| 0 <= i < all.len() - 1 implies #[trigger] follows(src, all, i) by {
        assert(all[i + 1] == rest[i]);
        if i > 0 {
            assert(all[i] == rest[i - 1]);
            assert(follows(src, rest, i - 1));
        }
    }
}

/// The tokens of a source follow each other: each is what stands behind the one before it, and
/// the last is the end of input. The scan stops short of it only where the next token cannot be
/// taken, and with its fault, or where the window has no room for another one.
pub proof fn law_tokens_follow_each_other(src: Seq<u8>)
    requires
        src.len() <= u32::MAX,
    ensures
        ({
            let run = crate::lexer::lex_source(src);
            &&& run.tokens.len() < MAX_TOKENS
            &&& are_tokens(src, 0, run.tokens)
            &&& run.error is None <==> run.tokens.len() > 0 && run.tokens.last().kind
                == TokenKind::Eof
            &&& run.error matches Some(e) ==> if run.tokens.len() == MAX_TOKENS - 1 {
                e == LexerError::TokenBufferFull
            } else {
                crate::lexer::scan_token(src, tokens_end(0, run.tokens)).result == Err::<
                    Token,
                    LexerError,
                >(e)
            }
        }),
{
    lemma_run(src, 0, (MAX_TOKENS - 1) as nat);
}

/// From `i` on the source is UTF-8.
pub open spec fn is_sound(src: Seq<u8>, i: int) -> bool {
    0 <= i <= src.len() && vstd::utf8::valid_utf8(src.skip(i))
}

proof fn lemma_sound_step(src: Seq<u8>, i: int)
    requires
        is_sound(src, i),
        i < src.len(),
    ensures
        ({
            let n = crate::utf8::lead_len(src[i]) as int;
            &&& 1 <= n <= 4
            &&& i + n <= src.len()
            &&& is_sound(src, i + n)
            &&& forall|k: int| i < k < i + n ==> crate::utf8::is_cont(#[trigger] src[k])
            &&& crate::utf8::char_end(src, i) == Some(i + n)
            &&& vstd::utf8::valid_utf8(src.subrange(i, i + n))
        }),
{
    let s = src.skip(i);
    let n = crate::utf8::lead_len(src[i]) as int;
    assert(s[0] == src[i]);
    assert(vstd::utf8::valid_first_scalar(s));
    assert(n == vstd::utf8::length_of_first_scalar(s));
    if n >= 2 {
        assert(s[1] == src[i + 1]);
    }
    if n >= 3 {
        assert(s[2] == src[i + 2]);
    }
    if n >= 4 {
        assert(s[3] == src[i + 3]);
    }
    assert(vstd::utf8::pop_first_scalar(s) =~= src.skip(i + n));
    let c = src.subrange(i, i + n);
    assert forall|k: int| 0 <= k < n implies c[k] == s[k] by {}
    assert(vstd::utf8::valid_first_scalar(c));
    assert(vstd::utf8::pop_first_scalar(c) =~= Seq::<u8>::empty());
    assert(vstd::utf8::valid_utf8(vstd::utf8::pop_first_scalar(c)));
}

proof fn lemma_sound_blanks(src: Seq<u8>, i: int)
    requires
        is_sound(src, i),
    ensures
        is_sound(src, crate::lexer::blanks_end(src, i)),
    decreases src.len() - i,
{
    if i < src.len() {
        lemma_sound_step(src, i);
        if crate::utf8::is_space(src[i]) {
            lemma_sound_blanks(src, i + 1);
        } else if crate::lexer::zero_width_space_at(src, i) {
            lemma_sound_blanks(src, i + 3);
        }
    }
}

proof fn lemma_sound_figures(src: Seq<u8>, i: int)
    requires
        is_sound(src, i),
    ensures
        is_sound(src, crate::lexer::digits_end(src, i)),
    decreases src.len() - i,
{
    if i < src.len() && is_figure(src[i]) {
        lemma_sound_step(src, i);
        lemma_sound_figures(src, i + 1);
    }
}

proof fn lemma_sound_signs(src: Seq<u8>, i: int)
    requires
        is_sound(src, i),
    ensures
        crate::utf8::cluster_end(src, i) matches Some(e) && i <= e && is_sound(src, e)
            && vstd::utf8::valid_utf8(src.subrange(i, e)),
    decreases src.len() - i,
{
    if i < src.len() {
        lemma_sound_step(src, i);
        if crate::utf8::lead_len(src[i]) == 3 && crate::utf8::is_attached_sign(
            src[i],
            src[i + 1],
            src[i + 2],
        ) {
            lemma_sound_signs(src, i + 3);
            let e = crate::utf8::cluster_end(src, i + 3)->0;
            vstd::utf8::valid_utf8_concat(src.subrange(i, i + 3), src.subrange(i + 3, e));
            assert(src.subrange(i, i + 3) + src.subrange(i + 3, e) =~= src.subrange(i, e));
        }
    }
    assert(src.subrange(i, i) =~= Seq::<u8>::empty());
}

proof fn lemma_sound_word(src: Seq<u8>, i: int)
    requires
        is_sound(src, i),
    ensures
        crate::utf8::word_end(src, i) matches Some(e) && i <= e && is_sound(src, e)
            && vstd::utf8::valid_utf8(src.subrange(i, e)),
    decreases src.len() - i,
{
    if i < src.len() && !is_white(src[i]) && !is_mark(src[i]) {
        lemma_sound_step(src, i);
        let next = crate::utf8::char_end(src, i)->0;
        lemma_sound_signs(src, next);
        let m = crate::utf8::cluster_end(src, next)->0;
        lemma_sound_word(src, m);
        let e = crate::utf8::word_end(src, m)->0;
        vstd::utf8::valid_utf8_concat(src.subrange(i, next), src.subrange(next, m));
        assert(src.subrange(i, next) + src.subrange(next, m) =~= src.subrange(i, m));
        vstd::utf8::valid_utf8_concat(src.subrange(i, m), src.subrange(m, e));
        assert(src.subrange(i, m) + src.subrange(m, e) =~= src.subrange(i, e));
    }
    assert(src.subrange(i, i) =~= Seq::<u8>::empty());
}

/// What is UTF-8 from a position on has a token there, and is UTF-8 behind it.
proof fn lemma_sound_token(src: Seq<u8>, pos: int)
    requires
        is_sound(src, pos),
        src.len() <= u32::MAX,
    ensures
        crate::lexer::scan_token(src, pos).result matches Ok(t) && is_sound(src, t.end as int),
{
    lemma_sound_blanks(src, pos);
    lemma_blanks(src, pos);
    let p = crate::lexer::blanks_end(src, pos);
    if p < src.len() {
        lemma_sound_figures(src, p);
        lemma_figures(src, p);
        lemma_sound_step(src, p);
        lemma_sound_word(src, p);
    }
}

/// What cannot be taken as a token is a word that is not UTF-8 from its first byte on, and the
/// fault says where it starts.
pub proof fn law_a_malformed_word_is_placed(src: Seq<u8>, pos: int)
    requires
        0 <= pos <= src.len() <= u32::MAX,
    ensures
        crate::lexer::scan_token(src, pos).result matches Err(e) ==> ({
            let p = e->MalformedUtf8_0 as int;
            &&& e is MalformedUtf8
            &&& pos <= p < src.len()
            &&& forall|k: int| pos <= k < p ==> #[trigger] is_blank(src, k)
            &&& !is_white(src[p]) && !is_gap(src, p) && !is_figure(src[p]) && !is_mark(src[p])
            &&& !is_sound(src, p)
        }),
{
    lemma_blanks(src, pos);
    let p = crate::lexer::blanks_end(src, pos);
    if p < src.len() && is_sound(src, p) {
        lemma_sound_word(src, p);
    }
}

proof fn lemma_sound_run(src: Seq<u8>, pos: int, room: nat)
    requires
        is_sound(src, pos),
        src.len() <= u32::MAX,
    ensures
        crate::lexer::lex_run(src, pos, room).error matches Some(e) ==> e
            == LexerError::TokenBufferFull,
    decreases room,
{
    if room > 0 {
        lemma_sound_token(src, pos);
        law_a_token_goes_as_far_as_it_can(src, pos);
        let t = crate::lexer::scan_token(src, pos).result->Ok_0;
        lemma_sound_run(src, t.end as int, (room - 1) as nat);
    }
}

/// A source that is UTF-8 is never found malformed.
pub proof fn law_a_sound_source_is_scanned(src: Seq<u8>)
    requires
        src.len() <= u32::MAX,
        vstd::utf8::valid_utf8(src),
    ensures
        crate::lexer::lex_source(src).error matches Some(e) ==> e == LexerError::TokenBufferFull,
{
    assert(src.skip(0) =~= src);
    lemma_sound_run(src, 0, (MAX_TOKENS - 1) as nat);
}

// ---------------------------------------------------------------------------
// Stages and their words
// ---------------------------------------------------------------------------
/// Token `i` is of kind `k`.
pub open spec fn stands(toks: Seq<Token>, i: int, k: TokenKind) -> bool {
    0 <= i < toks.len() && toks[i].kind == k
}

/// The input ends at `i`.
pub open spec fn ends(toks: Seq<Token>, i: int) -> bool {
    0 <= i < toks.len() ==> toks[i].kind == TokenKind::Eof
}

/// Token `i` is a number that fits.
pub open spec fn is_number(toks: Seq<Token>, i: int) -> bool {
    stands(toks, i, TokenKind::Number) && toks[i].number != i64::MIN
}

/// Token `i` is a name or a number that fits.
pub open spec fn is_value(toks: Seq<Token>, i: int) -> bool {
    stands(toks, i, TokenKind::Ident) || is_number(toks, i)
}

/// Token `i` is one of `*`, `+` and `-`.
pub open spec fn is_sign(toks: Seq<Token>, i: int) -> bool {
    stands(toks, i, TokenKind::Star) || stands(toks, i, TokenKind::Plus) || stands(
        toks,
        i,
        TokenKind::Minus,
    )
}

/// From token `at` on stand `c + 1` names with a comma between each two, and no comma behind them.
pub open spec fn are_columns(toks: Seq<Token>, at: int, c: int) -> bool {
    &&& 0 <= c
    &&& forall|i: int| 0 <= i <= c ==> stands(toks, #[trigger] (at + 2 * i), TokenKind::Ident)
    &&& forall|i: int| 0 <= i < c ==> stands(toks, #[trigger] (at + 2 * i) + 1, TokenKind::Comma)
    &&& !stands(toks, at + 2 * c + 1, TokenKind::Comma)
}

/// The `n` tokens from `at` on are a stage that takes `k` nodes.
pub open spec fn is_phrase(toks: Seq<Token>, at: int, n: int, k: int) -> bool {
    ||| {
        &&& stands(toks, at, TokenKind::Irundu) || stands(toks, at, TokenKind::Adukku) || stands(
            toks,
            at,
            TokenKind::Thoguppu,
        ) || stands(toks, at, TokenKind::Surukku)
        &&& stands(toks, at + 1, TokenKind::Ident)
        &&& n == 2
        &&& k == 2
    }
    ||| {
        &&& stands(toks, at, TokenKind::Vadi)
        &&& stands(toks, at + 1, TokenKind::Ident)
        &&& stands(toks, at + 2, TokenKind::Gt) || stands(toks, at + 2, TokenKind::Lt) || stands(
            toks,
            at + 2,
            TokenKind::Eq,
        )
        &&& is_number(toks, at + 3)
        &&& n == 4
        &&& k == 4
    }
    ||| {
        &&& stands(toks, at, TokenKind::Kani)
        &&& stands(toks, at + 1, TokenKind::Ident)
        &&& stands(toks, at + 2, TokenKind::Eq)
        &&& is_value(toks, at + 3)
        &&& if is_sign(toks, at + 4) {
            is_value(toks, at + 5) && n == 6 && k == 5
        } else {
            n == 4 && k == 3
        }
    }
    ||| {
        &&& stands(toks, at, TokenKind::Edu)
        &&& is_number(toks, at + 1)
        &&& n == 2
        &&& k == 1
    }
    ||| {
        &&& stands(toks, at, TokenKind::Inai)
        &&& stands(toks, at + 1, TokenKind::Ident)
        &&& if stands(toks, at + 2, TokenKind::Enge) {
            &&& stands(toks, at + 3, TokenKind::Ident)
            &&& !ends(toks, at + 4)
            &&& stands(toks, at + 5, TokenKind::Ident)
            &&& n == 6
            &&& k == 5
        } else {
            n == 2 && k == 2
        }
    }
    ||| {
        &&& stands(toks, at, TokenKind::Thedu)
        &&& are_columns(toks, at + 1, k - 2)
        &&& n == 2 * k - 2
    }
}

proof fn lemma_columns_read(toks: Seq<Token>, at: int, room: int)
    requires
        0 <= at,
        stands(toks, at, TokenKind::Ident),
    ensures
        more_columns(toks, at + 1, room) matches Ok(p) ==> ({
            let c = comma_count(toks, at + 1) as int;
            &&& are_columns(toks, at, c)
            &&& p.at == at + 1 + 2 * c
            &&& p.room == room - c
            &&& c == 0 || p.room >= 0
        }),
    decreases toks.len() - at,
{
    if peek_at(toks, at + 1).kind == TokenKind::Comma {
        if let Ok(p) = more_columns(toks, at + 1, room) {
            lemma_columns_read(toks, at + 2, room - 1);
            let c = comma_count(toks, at + 3) as int;
            assert(are_columns(toks, at + 2, c));
            assert forall|i: int| 0 <= i <= c + 1 implies stands(
                toks,
                #[trigger] (at + 2 * i),
                TokenKind::Ident,
            ) by {
                if i > 0 {
                    assert(at + 2 * i == (at + 2) + 2 * (i - 1));
                }
            }
            assert forall|i: int| 0 <= i < c + 1 implies stands(
                toks,
                #[trigger] (at + 2 * i) + 1,
                TokenKind::Comma,
            ) by {
                if i > 0 {
                    assert(at + 2 * i == (at + 2) + 2 * (i - 1));
                }
            }
        }
    } else {
        assert(are_columns(toks, at, 0));
    }
}

proof fn lemma_columns_are_read(toks: Seq<Token>, at: int, c: int, room: int)
    requires
        0 <= at,
        are_columns(toks, at, c),
        c <= room,
    ensures
        more_columns(toks, at + 1, room) == Ok::<_, crate::parser::Halt>(
            Progress { at: at + 1 + 2 * c, room: room - c },
        ),
    decreases c,
{
    assert(stands(toks, at + 2 * 0, TokenKind::Ident));
    if c > 0 {
        assert(stands(toks, (at + 2 * 0) + 1, TokenKind::Comma));
        assert(stands(toks, at + 2 * 1, TokenKind::Ident));
        assert forall|i: int| 0 <= i <= c - 1 implies stands(
            toks,
            #[trigger] ((at + 2) + 2 * i),
            TokenKind::Ident,
        ) by {
            assert((at + 2) + 2 * i == at + 2 * (i + 1));
        }
        assert forall|i: int| 0 <= i < c - 1 implies stands(
            toks,
            #[trigger] ((at + 2) + 2 * i) + 1,
            TokenKind::Comma,
        ) by {
            assert((at + 2) + 2 * i == at + 2 * (i + 1));
        }
        assert(are_columns(toks, at + 2, c - 1));
        lemma_columns_are_read(toks, at + 2, c - 1, room - 1);
    }
}

/// A stage is read if and only if its words make one and its nodes fit: then the parse goes on
/// behind its last word.
pub proof fn law_a_stage_is_read_by_its_words(toks: Seq<Token>, at: int, room: int)
    requires
        0 <= at,
        0 <= room,
    ensures
        stage(toks, at, room) matches Ok(p) ==> p.room >= 0 && is_phrase(
            toks,
            at,
            p.at - at,
            room - p.room,
        ),
        forall|n: int, k: int| #[trigger]
            is_phrase(toks, at, n, k) && k <= room ==> stage(toks, at, room) == Ok::<
                _,
                crate::parser::Halt,
            >(Progress { at: at + n, room: room - k }),
{
    reveal(stage);
    if stands(toks, at + 1, TokenKind::Ident) {
        lemma_columns_read(toks, at + 1, room - 1);
    }
    assert forall|n: int, k: int| #[trigger]
        is_phrase(toks, at, n, k) && k <= room implies stage(toks, at, room) == Ok::<
        _,
        crate::parser::Halt,
    >(Progress { at: at + n, room: room - k }) by {
        if stands(toks, at, TokenKind::Thedu) {
            assert(are_columns(toks, at + 1, k - 2));
            assert(stands(toks, (at + 1) + 2 * 0, TokenKind::Ident));
            lemma_columns_are_read(toks, at + 1, k - 2, room - 1);
        }
    }
}

/// Token `i` is a number that does not fit.
pub open spec fn is_excess(toks: Seq<Token>, i: int) -> bool {
    stands(toks, i, TokenKind::Number) && toks[i].number == i64::MIN
}

/// In the stage at `at` a number that does not fit stands where a number may stand, and the words
/// before it are right.
pub open spec fn has_excess(toks: Seq<Token>, at: int) -> bool {
    ||| stands(toks, at, TokenKind::Edu) && is_excess(toks, at + 1)
    ||| {
        &&& stands(toks, at, TokenKind::Vadi)
        &&& stands(toks, at + 1, TokenKind::Ident)
        &&& stands(toks, at + 2, TokenKind::Gt) || stands(toks, at + 2, TokenKind::Lt) || stands(
            toks,
            at + 2,
            TokenKind::Eq,
        )
        &&& is_excess(toks, at + 3)
    }
    ||| {
        &&& stands(toks, at, TokenKind::Kani)
        &&& stands(toks, at + 1, TokenKind::Ident)
        &&& stands(toks, at + 2, TokenKind::Eq)
        &&& is_excess(toks, at + 3) || (is_value(toks, at + 3) && is_sign(toks, at + 4)
            && is_excess(toks, at + 5))
    }
}

proof fn lemma_columns_refused(toks: Seq<Token>, at: int, room: int)
    requires
        0 <= at,
        toks.len() - at <= room,
    ensures
        more_columns(toks, at, room) matches Err(h) ==> h.error
            == ParserError::UnexpectedToken,
        more_columns(toks, at, room) matches Ok(p) ==> 2 * (room - p.room) == p.at - at && (p.at
            == at || p.at <= toks.len()),
    decreases toks.len() - at,
{
    if peek_at(toks, at).kind == TokenKind::Comma {
        if take_node(
            crate::parser::word(toks, Ok(Progress { at: at + 1, room }), TokenKind::Ident),
        ) is Ok {
            lemma_columns_refused(toks, at + 2, room - 1);
        }
    }
}

proof fn lemma_columns_overflow(toks: Seq<Token>, at: int, c: int, room: int)
    requires
        0 <= at,
        0 <= room < c,
        are_columns(toks, at, c),
    ensures
        more_columns(toks, at + 1, room) matches Err(h) && h.error == ParserError::ArenaOverflow,
    decreases c,
{
    assert(stands(toks, (at + 2 * 0) + 1, TokenKind::Comma));
    assert(stands(toks, at + 2 * 1, TokenKind::Ident));
    if room > 0 {
        assert forall|i: int| 0 <= i <= c - 1 implies stands(
            toks,
            #[trigger] ((at + 2) + 2 * i),
            TokenKind::Ident,
        ) by {
            assert((at + 2) + 2 * i == at + 2 * (i + 1));
        }
        assert forall|i: int| 0 <= i < c - 1 implies stands(
            toks,
            #[trigger] ((at + 2) + 2 * i) + 1,
            TokenKind::Comma,
        ) by {
            assert((at + 2) + 2 * i == at + 2 * (i + 1));
        }
        assert(are_columns(toks, at + 2, c - 1));
        lemma_columns_overflow(toks, at + 2, c - 1, room - 1);
    }
}

/// Where there are nodes enough, a stage is refused for a number that does not fit if and only if
/// one stands in its place, for missing input if and only if there is none, and else for a word
/// that may not stand there. A stage whose words are right is refused only for want of nodes.
pub proof fn law_why_a_stage_is_refused(toks: Seq<Token>, at: int, room: int)
    requires
        0 <= at,
        0 <= room,
    ensures
        toks.len() + 5 <= room ==> (stage(toks, at, room) matches Err(h) ==> h.error == if ends(
            toks,
            at,
        ) {
            ParserError::EmptyInput
        } else if has_excess(toks, at) {
            ParserError::NumberLiteralOverflow
        } else {
            ParserError::UnexpectedToken
        }),
        forall|n: int, k: int| #[trigger]
            is_phrase(toks, at, n, k) && room < k ==> (stage(toks, at, room) matches Err(h)
                && h.error == ParserError::ArenaOverflow),
{
    reveal(stage);
    if toks.len() + 5 <= room {
        lemma_columns_refused(toks, at + 2, room - 1);
    }
    assert forall|n: int, k: int| #[trigger]
        is_phrase(toks, at, n, k) && room < k implies (stage(toks, at, room) matches Err(h)
        && h.error == ParserError::ArenaOverflow) by {
        if stands(toks, at, TokenKind::Thedu) {
            assert(are_columns(toks, at + 1, k - 2));
            assert(stands(toks, (at + 1) + 2 * 0, TokenKind::Ident));
            if 1 <= room {
                if room - 1 < k - 2 {
                    lemma_columns_overflow(toks, at + 1, k - 2, room - 1);
                } else {
                    lemma_columns_are_read(toks, at + 1, k - 2, room - 1);
                }
            }
        }
    }
}

/// The sum of `v`.
pub open spec fn sum(v: Seq<int>) -> int
    decreases v.len(),
{
    if v.len() == 0 {
        0
    } else {
        v[0] + sum(v.drop_first())
    }
}

/// From token `at` on stand stages, each behind a pipe: stage `i` starts at `starts[i]`, has
/// `words[i]` tokens and takes `nodes[i]` nodes.
pub open spec fn are_piped(
    toks: Seq<Token>,
    at: int,
    starts: Seq<int>,
    words: Seq<int>,
    nodes: Seq<int>,
) -> bool {
    &&& starts.len() == words.len()
    &&& starts.len() == nodes.len()
    &&& forall|i: int|
        0 <= i < starts.len() ==> is_phrase(toks, #[trigger] starts[i], words[i], nodes[i])
    &&& forall|i: int|
        0 <= i < starts.len() ==> stands(toks, #[trigger] starts[i] - 1, TokenKind::Pipe)
    &&& starts.len() > 0 ==> starts[0] == at + 1
    &&& forall|i: int, j: int|
        #![trigger starts[i], starts[j]]
        0 <= i && j == i + 1 && j < starts.len() ==> starts[j] == starts[i] + words[i] + 1
}

/// The token behind the last of the stages that stand from `at` on.
pub open spec fn behind(at: int, starts: Seq<int>, words: Seq<int>) -> int {
    if starts.len() == 0 {
        at
    } else {
        starts.last() + words.last()
    }
}

/// From token `at` on stand stages, each behind a pipe. Behind them stands `;` or the end of
/// input, and `end` is the first token that is not read.
pub open spec fn are_stages(
    toks: Seq<Token>,
    at: int,
    starts: Seq<int>,
    words: Seq<int>,
    nodes: Seq<int>,
    end: int,
) -> bool {
    let last = behind(at, starts, words);
    &&& are_piped(toks, at, starts, words, nodes)
    &&& if ends(toks, last) {
        end == last
    } else {
        stands(toks, last, TokenKind::Semi) && end == last + 1
    }
}

/// The tokens from `at` on are a query: a source relation, and stages behind it.
pub open spec fn is_query(
    toks: Seq<Token>,
    at: int,
    starts: Seq<int>,
    words: Seq<int>,
    nodes: Seq<int>,
    end: int,
) -> bool {
    &&& starts.len() > 0 && words.len() > 0 && nodes.len() > 0
    &&& starts[0] == at
    &&& stands(toks, at, TokenKind::Irundu)
    &&& is_phrase(toks, at, words[0], nodes[0])
    &&& are_stages(
        toks,
        at + words[0],
        starts.drop_first(),
        words.drop_first(),
        nodes.drop_first(),
        end,
    )
}

proof fn lemma_stages_read(toks: Seq<Token>, at: int, room: int) -> (r: (Seq<int>, Seq<int>))
    requires
        0 <= at,
        0 <= room,
    ensures
        more_stages(toks, at, room) matches Ok(s) ==> are_stages(
            toks,
            at,
            s.starts,
            r.0,
            r.1,
            s.end,
        ) && sum(r.1) <= room,
    decreases toks.len() - at,
{
    if more_stages(toks, at, room) is Ok && peek_at(toks, at).kind == TokenKind::Pipe {
        law_a_stage_is_read_by_its_words(toks, at + 1, room);
        crate::parser::lemma_stage_moves(toks, at + 1, room);
        let p = stage(toks, at + 1, room)->Ok_0;
        let rest = more_stages(toks, p.at, p.room)->Ok_0;
        let (w, k) = lemma_stages_read(toks, p.at, p.room);
        let starts = seq![at + 1] + rest.starts;
        let words = seq![p.at - (at + 1)] + w;
        let nodes = seq![room - p.room] + k;
        assert(words.drop_first() =~= w);
        assert(nodes.drop_first() =~= k);
        assert(are_stages(toks, p.at, rest.starts, w, k, rest.end));
        assert forall|i: int| 0 <= i < starts.len() implies is_phrase(
            toks,
            #[trigger] starts[i],
            words[i],
            nodes[i],
        ) by {
            if i > 0 {
                assert(starts[i] == rest.starts[i - 1]);
            }
        }
        assert forall|i: int| 0 <= i < starts.len() implies stands(
            toks,
            #[trigger] starts[i] - 1,
            TokenKind::Pipe,
        ) by {
            if i > 0 {
                assert(starts[i] == rest.starts[i - 1]);
            }
        }
        assert forall|i: int, j: int|
            #![trigger starts[i], starts[j]]
            0 <= i && j == i + 1 && j < starts.len() implies starts[j] == starts[i] + words[i]
            + 1 by {
            assert(starts[j] == rest.starts[j - 1]);
            if i > 0 {
                assert(starts[i] == rest.starts[i - 1]);
            }
        }
        if rest.starts.len() > 0 {
            assert(starts.last() == rest.starts.last());
            assert(words.last() == w.last());
        }
        assert(behind(at, starts, words) == behind(p.at, rest.starts, w));
        (words, nodes)
    } else {
        (Seq::empty(), Seq::empty())
    }
}

proof fn lemma_piped_tail(
    toks: Seq<Token>,
    at: int,
    starts: Seq<int>,
    words: Seq<int>,
    nodes: Seq<int>,
)
    requires
        starts.len() > 0,
        are_piped(toks, at, starts, words, nodes),
    ensures
        stands(toks, at, TokenKind::Pipe),
        starts[0] == at + 1,
        is_phrase(toks, at + 1, words[0], nodes[0]),
        are_piped(
            toks,
            at + 1 + words[0],
            starts.drop_first(),
            words.drop_first(),
            nodes.drop_first(),
        ),
        behind(at, starts, words) == behind(
            at + 1 + words[0],
            starts.drop_first(),
            words.drop_first(),
        ),
{
    assert(starts[0] == at + 1);
    assert(stands(toks, starts[0] - 1, TokenKind::Pipe));
    assert(is_phrase(toks, starts[0], words[0], nodes[0]));
    let s1 = starts.drop_first();
    let w1 = words.drop_first();
    let k1 = nodes.drop_first();
    assert forall|i: int| 0 <= i < s1.len() implies is_phrase(
        toks,
        #[trigger] s1[i],
        w1[i],
        k1[i],
    ) by {
        assert(s1[i] == starts[i + 1]);
    }
    assert forall|i: int| 0 <= i < s1.len() implies stands(
        toks,
        #[trigger] s1[i] - 1,
        TokenKind::Pipe,
    ) by {
        assert(s1[i] == starts[i + 1]);
    }
    assert forall|i: int, j: int|
        #![trigger s1[i], s1[j]]
        0 <= i && j == i + 1 && j < s1.len() implies s1[j] == s1[i] + w1[i] + 1 by {
        assert(s1[i] == starts[i + 1]);
        assert(s1[j] == starts[j + 1]);
    }
    if s1.len() > 0 {
        assert(s1[0] == starts[1]);
        assert(s1.last() == starts.last());
        assert(w1.last() == words.last());
    } else {
        assert(starts.last() == starts[0]);
        assert(words.last() == words[0]);
    }
}

proof fn lemma_piped_are_read(
    toks: Seq<Token>,
    at: int,
    starts: Seq<int>,
    words: Seq<int>,
    nodes: Seq<int>,
    room: int,
)
    requires
        0 <= at,
        0 <= room,
        are_piped(toks, at, starts, words, nodes),
        sum(nodes) <= room,
    ensures
        ({
            let last = behind(at, starts, words);
            &&& at <= last
            &&& match more_stages(toks, last, room - sum(nodes)) {
                Ok(s) => more_stages(toks, at, room) == Ok::<_, crate::parser::Halt>(
                    Stages { starts: starts + s.starts, end: s.end },
                ),
                Err(h) => more_stages(toks, at, room) == Err::<Stages, _>(h),
            }
        }),
    decreases starts.len(),
{
    if starts.len() > 0 {
        let s1 = starts.drop_first();
        let w1 = words.drop_first();
        let k1 = nodes.drop_first();
        let next = at + 1 + words[0];
        let last = behind(at, starts, words);
        lemma_piped_tail(toks, at, starts, words, nodes);
        lemma_sum_at_least(k1, toks, s1, w1);
        law_a_stage_is_read_by_its_words(toks, at + 1, room);
        crate::parser::lemma_stage_moves(toks, at + 1, room);
        lemma_piped_are_read(toks, next, s1, w1, k1, room - nodes[0]);
        if let Ok(s) = more_stages(toks, last, room - sum(nodes)) {
            assert(seq![at + 1] + (s1 + s.starts) =~= starts + s.starts);
        }
    } else if let Ok(s) = more_stages(toks, at, room) {
        assert(starts + s.starts =~= s.starts);
    }
}

/// Stages take no fewer nodes than none.
proof fn lemma_sum_at_least(nodes: Seq<int>, toks: Seq<Token>, starts: Seq<int>, words: Seq<int>)
    requires
        starts.len() == nodes.len(),
        starts.len() == words.len(),
        forall|i: int|
            0 <= i < starts.len() ==> is_phrase(toks, #[trigger] starts[i], words[i], nodes[i]),
    ensures
        sum(nodes) >= 0,
    decreases nodes.len(),
{
    if nodes.len() > 0 {
        assert(is_phrase(toks, starts[0], words[0], nodes[0]));
        let s1 = starts.drop_first();
        let w1 = words.drop_first();
        let k1 = nodes.drop_first();
        assert forall|i: int| 0 <= i < s1.len() implies is_phrase(
            toks,
            #[trigger] s1[i],
            w1[i],
            k1[i],
        ) by {
            assert(s1[i] == starts[i + 1]);
        }
        lemma_sum_at_least(k1, toks, s1, w1);
    }
}

/// What is read as a pipeline is a query, and the nodes of its stages and one for its root fit.
pub proof fn law_what_is_read_is_a_query(toks: Seq<Token>, at: int, room: int) -> (r: (
    Seq<int>,
    Seq<int>,
))
    requires
        0 <= at,
        0 <= room,
    ensures
        pipeline(toks, at, room) matches Ok(s) ==> is_query(
            toks,
            at,
            s.starts,
            r.0,
            r.1,
            s.end,
        ) && sum(r.1) + 1 <= room,
{
    if let Ok(s) = pipeline(toks, at, room) {
        law_a_stage_is_read_by_its_words(toks, at, room);
        crate::parser::lemma_stage_moves(toks, at, room);
        let p = stage(toks, at, room)->Ok_0;
        let rest = more_stages(toks, p.at, p.room - 1)->Ok_0;
        let (w, k) = lemma_stages_read(toks, p.at, p.room - 1);
        let words = seq![p.at - at] + w;
        let nodes = seq![room - p.room] + k;
        assert(s.starts.drop_first() =~= rest.starts);
        assert(words.drop_first() =~= w);
        assert(nodes.drop_first() =~= k);
        (words, nodes)
    } else {
        (Seq::empty(), Seq::empty())
    }
}

/// Every query whose nodes fit is read, stage by stage and up to its end.
pub proof fn law_a_query_is_read(
    toks: Seq<Token>,
    at: int,
    starts: Seq<int>,
    words: Seq<int>,
    nodes: Seq<int>,
    end: int,
    room: int,
)
    requires
        0 <= at,
        is_query(toks, at, starts, words, nodes, end),
        sum(nodes) + 1 <= room,
    ensures
        pipeline(toks, at, room) matches Ok(s) && s.starts == starts && s.end == end,
{
    let s1 = starts.drop_first();
    let w1 = words.drop_first();
    let k1 = nodes.drop_first();
    lemma_sum_at_least(k1, toks, s1, w1);
    law_a_stage_is_read_by_its_words(toks, at, room);
    crate::parser::lemma_stage_moves(toks, at, room);
    lemma_piped_are_read(toks, at + words[0], s1, w1, k1, room - nodes[0] - 1);
    assert(s1 + Seq::empty() =~= s1);
    assert(seq![at] + s1 =~= starts);
}

/// A query that goes wrong behind stages that are right is refused for what stands there: a pipe
/// with nothing behind it or a word that no stage may be followed by is not expected, and a stage
/// that is refused has the query refused for the same reason.
pub proof fn law_a_query_is_refused_where_it_goes_wrong(
    toks: Seq<Token>,
    at: int,
    starts: Seq<int>,
    words: Seq<int>,
    nodes: Seq<int>,
    room: int,
)
    requires
        0 <= at,
        starts.len() > 0 && words.len() > 0 && nodes.len() > 0,
        starts[0] == at,
        stands(toks, at, TokenKind::Irundu),
        is_phrase(toks, at, words[0], nodes[0]),
        are_piped(
            toks,
            at + words[0],
            starts.drop_first(),
            words.drop_first(),
            nodes.drop_first(),
        ),
        sum(nodes) + 1 <= room,
    ensures
        ({
            let last = starts.last() + words.last();
            &&& !ends(toks, last) && !stands(toks, last, TokenKind::Pipe) && !stands(
                toks,
                last,
                TokenKind::Semi,
            ) ==> (pipeline(toks, at, room) matches Err(h) && h.error
                == ParserError::UnexpectedToken)
            &&& stands(toks, last, TokenKind::Pipe) && ends(toks, last + 1) ==> (pipeline(
                toks,
                at,
                room,
            ) matches Err(h) && h.error == ParserError::UnexpectedToken)
            &&& stands(toks, last, TokenKind::Pipe) && !ends(toks, last + 1) ==> (stage(
                toks,
                last + 1,
                room - sum(nodes) - 1,
            ) matches Err(h) ==> pipeline(toks, at, room) == Err::<Stages, _>(h))
        }),
{
    let s1 = starts.drop_first();
    let w1 = words.drop_first();
    let k1 = nodes.drop_first();
    let last = starts.last() + words.last();
    lemma_sum_at_least(k1, toks, s1, w1);
    law_a_stage_is_read_by_its_words(toks, at, room);
    lemma_piped_are_read(toks, at + words[0], s1, w1, k1, room - nodes[0] - 1);
    if s1.len() > 0 {
        assert(s1.last() == starts.last());
        assert(w1.last() == words.last());
    }
    assert(last == behind(at + words[0], s1, w1));
}

// ---------------------------------------------------------------------------
// Stages and their nodes
// ---------------------------------------------------------------------------
/// Node `id` is the node of the name that token `t` is.
pub open spec fn names(nodes: Seq<AstNode>, id: u32, t: Token) -> bool {
    &&& is_node(nodes, id)
    &&& nodes[id as int].kind == NodeKind::Ident
    &&& nodes[id as int].start == t.start
    &&& nodes[id as int].end == t.end
}

/// Node `id` is the node of the number that token `t` is.
pub open spec fn counts(nodes: Seq<AstNode>, id: u32, t: Token) -> bool {
    &&& is_node(nodes, id)
    &&& nodes[id as int].kind == NodeKind::Literal
    &&& nodes[id as int].value == t.number
}

/// Node `id` is the node of the name or the number that token `t` is.
pub open spec fn values(nodes: Seq<AstNode>, id: u32, t: Token) -> bool {
    if t.kind == TokenKind::Ident {
        names(nodes, id, t)
    } else {
        counts(nodes, id, t)
    }
}

/// Node `id` is that of the operator that token `t` is.
pub open spec fn operates(nodes: Seq<AstNode>, id: u32, t: Token) -> bool {
    &&& is_node(nodes, id)
    &&& nodes[id as int].kind == NodeKind::BinOp
    &&& nodes[id as int].op == t.kind
}

/// What the words of the stage at `at` say hangs off the node `st`: names by where they stand in
/// the source, numbers by their values, and the operands of an operator on the sides on which
/// they were written.
pub open spec fn tells(toks: Seq<Token>, at: int, nodes: Seq<AstNode>, st: AstNode) -> bool {
    let k = toks[at].kind;
    &&& k == TokenKind::Irundu ==> st.kind == NodeKind::From && names(nodes, st.left, toks[at + 1])
    &&& k == TokenKind::Adukku ==> st.kind == NodeKind::Sort && names(nodes, st.left, toks[at + 1])
    &&& k == TokenKind::Thoguppu ==> st.kind == NodeKind::Group && names(
        nodes,
        st.left,
        toks[at + 1],
    )
    &&& k == TokenKind::Surukku ==> st.kind == NodeKind::Aggregate && names(
        nodes,
        st.left,
        toks[at + 1],
    )
    &&& k == TokenKind::Vadi ==> {
        &&& st.kind == NodeKind::Filter
        &&& operates(nodes, st.left, toks[at + 2])
        &&& names(nodes, nodes[st.left as int].left, toks[at + 1])
        &&& counts(nodes, nodes[st.left as int].right, toks[at + 3])
    }
    &&& k == TokenKind::Kani ==> {
        &&& st.kind == NodeKind::Derive
        &&& names(nodes, st.left, toks[at + 1])
        &&& if is_sign(toks, at + 4) {
            &&& operates(nodes, st.right, toks[at + 4])
            &&& values(nodes, nodes[st.right as int].left, toks[at + 3])
            &&& values(nodes, nodes[st.right as int].right, toks[at + 5])
        } else {
            values(nodes, st.right, toks[at + 3])
        }
    }
    &&& k == TokenKind::Edu ==> st.kind == NodeKind::Take && st.value == toks[at + 1].number
    &&& k == TokenKind::Inai ==> {
        &&& st.kind == NodeKind::Join
        &&& names(nodes, st.left, toks[at + 1])
        &&& if stands(toks, at + 2, TokenKind::Enge) {
            &&& operates(nodes, st.right, toks[at + 4])
            &&& names(nodes, nodes[st.right as int].left, toks[at + 3])
            &&& names(nodes, nodes[st.right as int].right, toks[at + 5])
        } else {
            st.right == NIL
        }
    }
    &&& k == TokenKind::Thedu ==> {
        &&& st.kind == NodeKind::Project
        &&& forall|c: int| #[trigger] are_columns(toks, at + 1, c) ==> lists(toks, at, nodes, st, c)
    }
}

/// The list off the node `st` has the names of the columns, in the order in which they were
/// written, and no more.
pub open spec fn lists(
    toks: Seq<Token>,
    at: int,
    nodes: Seq<AstNode>,
    st: AstNode,
    c: int,
) -> bool {
    &&& forall|i: nat|
        #![trigger nth(nodes, st.left, i)]
        i <= c ==> {
            let id = nth(nodes, st.left, i);
            &&& is_node(nodes, id)
            &&& nodes[id as int].kind == if i == 0 {
                NodeKind::ColumnList
            } else {
                NodeKind::Ident
            }
            &&& nodes[id as int].start == toks[at + 1 + 2 * i].start
            &&& nodes[id as int].end == toks[at + 1 + 2 * i].end
        }
    &&& nth(nodes, st.left, (c + 1) as nat) == NIL
}

/// The nodes of the stage at `at` stand in `nodes` from `base` on; only the link of the last one
/// may have been set.
pub open spec fn holds_stage(toks: Seq<Token>, at: int, nodes: Seq<AstNode>, base: int) -> bool {
    let own = stage_nodes(toks, at, base);
    &&& 0 <= base
    &&& own.len() > 0
    &&& base + own.len() <= nodes.len()
    &&& forall|i: int| 0 <= i < own.len() - 1 ==> nodes[base + i] == #[trigger] own[i]
    &&& nodes[base + own.len() - 1] == (AstNode {
        next: nodes[base + own.len() - 1].next,
        ..own.last()
    })
}

proof fn lemma_held(
    toks: Seq<Token>,
    old_nodes: Seq<AstNode>,
    starts: Seq<int>,
    i: int,
) -> (base: int)
    requires
        0 <= i < starts.len(),
    ensures
        ({
            let nodes = lay_pipeline(toks, old_nodes, starts).nodes;
            &&& holds_stage(toks, starts[i], nodes, base)
            &&& crate::parser::stage_index(toks, old_nodes, starts, i) == base + stage_nodes(
                toks,
                starts[i],
                base,
            ).len() - 1
            &&& crate::parser::stage_index(toks, old_nodes, starts, i) <= lay_pipeline(
                toks,
                old_nodes,
                starts,
            ).last
        }),
    decreases starts.len(),
{
    let l = lay_pipeline(toks, old_nodes, starts);
    assert(starts.take(starts.len() as int) =~= starts);
    if starts.len() == 1 {
        let base = old_nodes.len() as int;
        crate::parser::lemma_stage_nodes(toks, starts[0], base);
        let own = stage_nodes(toks, starts[0], base);
        assert forall|j: int| 0 <= j < own.len() - 1 implies l.nodes[base + j]
            == #[trigger] own[j] by {}
        assert(l.nodes[base + own.len() - 1] == own.last());
        base
    } else {
        let s1 = starts.drop_last();
        let l1 = lay_pipeline(toks, old_nodes, s1);
        crate::parser::lemma_layout_last(toks, old_nodes, s1);
        crate::parser::lemma_stage_nodes(toks, starts.last(), l1.nodes.len() as int);
        if i == starts.len() - 1 {
            let base = l1.nodes.len() as int;
            let own = stage_nodes(toks, starts[i], base);
            assert forall|j: int| 0 <= j < own.len() - 1 implies l.nodes[base + j]
                == #[trigger] own[j] by {}
            assert(l.nodes[base + own.len() - 1] == own.last());
            base
        } else {
            let base = lemma_held(toks, old_nodes, s1, i);
            let own = stage_nodes(toks, starts[i], base);
            assert(s1.take(i + 1) =~= starts.take(i + 1));
            assert forall|j: int| 0 <= j < own.len() - 1 implies l.nodes[base + j]
                == #[trigger] own[j] by {
                assert(l1.nodes[base + j] == own[j]);
            }
            base
        }
    }
}

proof fn lemma_list_links(
    toks: Seq<Token>,
    at: int,
    nodes: Seq<AstNode>,
    base: int,
    c: int,
    i: nat,
)
    requires
        0 <= at,
        stands(toks, at, TokenKind::Thedu),
        holds_stage(toks, at, nodes, base),
        nodes.len() <= AST_CAP,
        c == comma_count(toks, at + 2),
    ensures
        i <= c ==> nth(nodes, base as u32, i) == base + i,
        i == c + 1 ==> nth(nodes, base as u32, i) == NIL,
        base + c + 1 < nodes.len(),
    decreases i,
{
    reveal(stage_nodes);
    let own = stage_nodes(toks, at, base);
    assert(own.len() == c + 2);
    if 0 < i <= c + 1 {
        let j = (i - 1) as nat;
        lemma_list_links(toks, at, nodes, base, c, j);
        lemma_nth_next(nodes, base as u32, j);
        assert(nodes[base + j] == own[j as int]);
    }
}

/// One link further on.
proof fn lemma_nth_next(nodes: Seq<AstNode>, id: u32, k: nat)
    requires
        is_node(nodes, nth(nodes, id, k)),
    ensures
        nth(nodes, id, k + 1) == nodes[nth(nodes, id, k) as int].next,
    decreases k,
{
    reveal_with_fuel(nth, 2);
    if k > 0 {
        lemma_nth_next(nodes, nodes[id as int].next, (k - 1) as nat);
        assert(nth(nodes, id, k + 1) == nth(nodes, nodes[id as int].next, k));
    }
}

proof fn lemma_tells(
    toks: Seq<Token>,
    at: int,
    nodes: Seq<AstNode>,
    base: int,
    n: int,
    k: int,
)
    requires
        0 <= at,
        is_phrase(toks, at, n, k),
        holds_stage(toks, at, nodes, base),
        nodes.len() <= AST_CAP,
    ensures
        tells(toks, at, nodes, nodes[base + stage_nodes(toks, at, base).len() - 1]),
{
    let own = stage_nodes(toks, at, base);
    let st = nodes[base + own.len() - 1];
    reveal(stage_nodes);
    assert forall|i: int| 0 <= i < own.len() - 1 implies nodes[base + i] == #[trigger] own[i] by {}
    if own.len() > 1 {
        assert(nodes[base + 0] == own[0]);
    }
    if own.len() > 2 {
        assert(nodes[base + 1] == own[1]);
    }
    if own.len() > 3 {
        assert(nodes[base + 2] == own[2]);
    }
    if own.len() > 4 {
        assert(nodes[base + 3] == own[3]);
    }
    if stands(toks, at, TokenKind::Thedu) {
        assert forall|c: int| #[trigger] are_columns(toks, at + 1, c) implies lists(
            toks,
            at,
            nodes,
            st,
            c,
        ) by {
            lemma_columns_are_read(toks, at + 1, c, c);
            lemma_columns_read_count(toks, at + 1, c);
            assert(own.len() == c + 2);
            assert(st.left == base);
            assert forall|i: nat|
                #![trigger nth(nodes, st.left, i)]
                i <= c implies {
                let id = nth(nodes, st.left, i);
                &&& is_node(nodes, id)
                &&& nodes[id as int].kind == if i == 0 {
                    NodeKind::ColumnList
                } else {
                    NodeKind::Ident
                }
                &&& nodes[id as int].start == toks[at + 1 + 2 * i].start
                &&& nodes[id as int].end == toks[at + 1 + 2 * i].end
            } by {
                lemma_list_links(toks, at, nodes, base, c, i);
                assert(nodes[base + i] == own[i as int]);
                assert(stands(toks, (at + 1) + 2 * i, TokenKind::Ident));
            }
            lemma_list_links(toks, at, nodes, base, c, (c + 1) as nat);
        }
    }
}

proof fn lemma_columns_read_count(toks: Seq<Token>, at: int, c: int)
    requires
        0 <= at,
        are_columns(toks, at, c),
    ensures
        comma_count(toks, at + 1) == c,
    decreases c,
{
    if c > 0 {
        assert(stands(toks, (at + 2 * 0) + 1, TokenKind::Comma));
        assert forall|i: int| 0 <= i <= c - 1 implies stands(
            toks,
            #[trigger] ((at + 2) + 2 * i),
            TokenKind::Ident,
        ) by {
            assert((at + 2) + 2 * i == at + 2 * (i + 1));
        }
        assert forall|i: int| 0 <= i < c - 1 implies stands(
            toks,
            #[trigger] ((at + 2) + 2 * i) + 1,
            TokenKind::Comma,
        ) by {
            assert((at + 2) + 2 * i == at + 2 * (i + 1));
        }
        assert(are_columns(toks, at + 2, c - 1));
        lemma_columns_read_count(toks, at + 2, c - 1);
    } else {
        assert(!stands(toks, at + 2 * c + 1, TokenKind::Comma));
    }
}

proof fn lemma_nth_stage(toks: Seq<Token>, old_nodes: Seq<AstNode>, starts: Seq<int>, i: nat)
    requires
        starts.len() >= 1,
        lay_pipeline(toks, old_nodes, starts).nodes.len() <= AST_CAP,
        i <= starts.len(),
    ensures
        ({
            let nodes = lay_pipeline(toks, old_nodes, starts).nodes;
            let root = root_index(toks, old_nodes, starts[0]);
            &&& is_root(nodes, root as u32, nodes[root].left)
            &&& i < starts.len() ==> nth(nodes, nodes[root].left, i)
                == crate::parser::stage_index(toks, old_nodes, starts, i as int)
            &&& i == starts.len() ==> nth(nodes, nodes[root].left, i) == NIL
        }),
    decreases i,
{
    let nodes = lay_pipeline(toks, old_nodes, starts).nodes;
    crate::parser::lemma_layout_places(toks, old_nodes, starts);
    crate::parser::law_stages_are_linked_in_order(toks, old_nodes, starts, 0);
    let root = root_index(toks, old_nodes, starts[0]);
    if i > 0 {
        let j = (i - 1) as nat;
        lemma_nth_stage(toks, old_nodes, starts, j);
        crate::parser::law_stages_are_linked_in_order(toks, old_nodes, starts, j as int);
        let base = lemma_held(toks, old_nodes, starts, j as int);
        lemma_nth_next(nodes, nodes[root].left, j);
    }
}

/// The tree of a query has one stage for every stage that was written, in that order and no
/// more, and off each hangs what its words say.
pub proof fn law_a_tree_tells_what_the_query_says(
    toks: Seq<Token>,
    at: int,
    old_nodes: Seq<AstNode>,
    starts: Seq<int>,
    words: Seq<int>,
    taken: Seq<int>,
    end: int,
)
    requires
        0 <= at,
        is_query(toks, at, starts, words, taken, end),
        lay_pipeline(toks, old_nodes, starts).nodes.len() <= AST_CAP,
    ensures
        ({
            let nodes = lay_pipeline(toks, old_nodes, starts).nodes;
            let root = root_index(toks, old_nodes, at);
            let first = nodes[root].left;
            &&& is_root(nodes, root as u32, first)
            &&& forall|i: nat|
                #![trigger nth(nodes, first, i)]
                i < starts.len() ==> is_node(nodes, nth(nodes, first, i)) && tells(
                    toks,
                    starts[i as int],
                    nodes,
                    nodes[nth(nodes, first, i) as int],
                )
            &&& nth(nodes, first, starts.len()) == NIL
        }),
{
    let nodes = lay_pipeline(toks, old_nodes, starts).nodes;
    let root = root_index(toks, old_nodes, at);
    let first = nodes[root].left;
    lemma_nth_stage(toks, old_nodes, starts, starts.len());
    assert forall|i: nat|
        #![trigger nth(nodes, first, i)]
        i < starts.len() implies is_node(nodes, nth(nodes, first, i)) && tells(
        toks,
        starts[i as int],
        nodes,
        nodes[nth(nodes, first, i) as int],
    ) by {
        lemma_nth_stage(toks, old_nodes, starts, i);
        let base = lemma_held(toks, old_nodes, starts, i as int);
        lemma_starts(toks, at, starts, words, taken, end, i as int);
        lemma_tells(toks, starts[i as int], nodes, base, words[i as int], taken[i as int]);
    }
}

proof fn lemma_starts(
    toks: Seq<Token>,
    at: int,
    starts: Seq<int>,
    words: Seq<int>,
    taken: Seq<int>,
    end: int,
    i: int,
)
    requires
        0 <= at,
        is_query(toks, at, starts, words, taken, end),
        0 <= i < starts.len(),
    ensures
        0 <= starts[i],
        is_phrase(toks, starts[i], words[i], taken[i]),
{
    if i > 0 {
        let s1 = starts.drop_first();
        assert(s1[i - 1] == starts[i]);
        assert(stands(toks, s1[i - 1] - 1, TokenKind::Pipe));
        assert(is_phrase(toks, s1[i - 1], words.drop_first()[i - 1], taken.drop_first()[i - 1]));
    }
}

/// A tree is laid out behind the nodes that were there, and these stay as they were.
pub proof fn law_a_tree_keeps_the_nodes_before_it(
    toks: Seq<Token>,
    old_nodes: Seq<AstNode>,
    starts: Seq<int>,
)
    ensures
        ({
            let nodes = lay_pipeline(toks, old_nodes, starts).nodes;
            &&& old_nodes.len() < nodes.len()
            &&& forall|i: int| 0 <= i < old_nodes.len() ==> #[trigger] nodes[i] == old_nodes[i]
        }),
    decreases starts.len(),
{
    crate::parser::lemma_layout_last(toks, old_nodes, starts);
    if starts.len() > 1 {
        law_a_tree_keeps_the_nodes_before_it(toks, old_nodes, starts.drop_last());
        crate::parser::lemma_layout_last(toks, old_nodes, starts.drop_last());
    }
}

proof fn lemma_stage_len(toks: Seq<Token>, at: int, n: int, k: int, base: int)
    requires
        0 <= at,
        is_phrase(toks, at, n, k),
    ensures
        stage_nodes(toks, at, base).len() == k,
{
    reveal(stage_nodes);
    if stands(toks, at, TokenKind::Thedu) {
        lemma_columns_read_count(toks, at + 1, k - 2);
    }
}

proof fn lemma_sum_last(v: Seq<int>)
    requires
        v.len() > 0,
    ensures
        sum(v) == sum(v.drop_last()) + v.last(),
    decreases v.len(),
{
    if v.len() > 1 {
        lemma_sum_last(v.drop_first());
        assert(v.drop_first().drop_last() =~= v.drop_last().drop_first());
        assert(v.drop_first().last() == v.last());
    } else {
        assert(v.drop_first() =~= Seq::empty());
        assert(v.drop_last() =~= Seq::empty());
    }
}

proof fn lemma_layout_len(
    toks: Seq<Token>,
    old_nodes: Seq<AstNode>,
    starts: Seq<int>,
    words: Seq<int>,
    taken: Seq<int>,
)
    requires
        starts.len() > 0,
        starts.len() == words.len(),
        starts.len() == taken.len(),
        forall|i: int|
            0 <= i < starts.len() ==> 0 <= starts[i] && is_phrase(
                toks,
                #[trigger] starts[i],
                words[i],
                taken[i],
            ),
    ensures
        lay_pipeline(toks, old_nodes, starts).nodes.len() == old_nodes.len() + sum(taken) + 1,
    decreases starts.len(),
{
    lemma_sum_last(taken);
    let last = starts.len() - 1;
    assert(is_phrase(toks, starts[last], words[last], taken[last]));
    if starts.len() == 1 {
        lemma_stage_len(toks, starts[0], words[0], taken[0], old_nodes.len() as int);
        assert(taken.drop_last() =~= Seq::empty());
        assert(sum(taken.drop_last()) == 0);
    } else {
        let s1 = starts.drop_last();
        let w1 = words.drop_last();
        let k1 = taken.drop_last();
        assert forall|i: int| 0 <= i < s1.len() implies 0 <= s1[i] && is_phrase(
            toks,
            #[trigger] s1[i],
            w1[i],
            k1[i],
        ) by {
            assert(s1[i] == starts[i]);
        }
        lemma_layout_len(toks, old_nodes, s1, w1, k1);
        let base = lay_pipeline(toks, old_nodes, s1).nodes.len() as int;
        lemma_stage_len(toks, starts[last], words[last], taken[last], base);
        crate::parser::lemma_layout_last(toks, old_nodes, s1);
    }
}

/// The tree of a query has a node for its root and those of its stages.
pub proof fn lemma_tree_len(
    toks: Seq<Token>,
    at: int,
    old_nodes: Seq<AstNode>,
    starts: Seq<int>,
    words: Seq<int>,
    taken: Seq<int>,
    end: int,
)
    requires
        0 <= at,
        is_query(toks, at, starts, words, taken, end),
    ensures
        lay_pipeline(toks, old_nodes, starts).nodes.len() == old_nodes.len() + sum(taken) + 1,
{
    assert forall|i: int| 0 <= i < starts.len() implies 0 <= starts[i] && is_phrase(
        toks,
        #[trigger] starts[i],
        words[i],
        taken[i],
    ) by {
        lemma_starts(toks, at, starts, words, taken, end, i);
    }
    lemma_layout_len(toks, old_nodes, starts, words, taken);
}

proof fn lemma_sum_counts(v: Seq<int>)
    requires
        forall|i: int| 0 <= i < v.len() ==> #[trigger] v[i] >= 1,
    ensures
        sum(v) >= v.len(),
    decreases v.len(),
{
    if v.len() > 0 {
        let rest = v.drop_first();
        assert forall|i: int| 0 <= i < rest.len() implies #[trigger] rest[i] >= 1 by {
            assert(rest[i] == v[i + 1]);
        }
        lemma_sum_counts(rest);
        assert(v[0] >= 1);
    }
}

/// Every stage of a query takes a node.
pub proof fn lemma_stages_take_nodes(
    toks: Seq<Token>,
    at: int,
    starts: Seq<int>,
    words: Seq<int>,
    taken: Seq<int>,
    end: int,
)
    requires
        0 <= at,
        is_query(toks, at, starts, words, taken, end),
    ensures
        sum(taken) >= starts.len(),
{
    assert forall|i: int| 0 <= i < taken.len() implies #[trigger] taken[i] >= 1 by {
        lemma_starts(toks, at, starts, words, taken, end, i);
    }
    lemma_sum_counts(taken);
}

proof fn lemma_left_by_stages(toks: Seq<Token>, l: Layout, at: int, room: int, i: int)
    requires
        0 <= i < l.nodes.len(),
        i < l.last < l.nodes.len(),
    ensures
        ({
            let nodes = crate::parser::left_by_stages(toks, l, at, room);
            i < nodes.len() && nodes[i] == l.nodes[i]
        }),
    decreases toks.len() - at,
{
    if peek_at(toks, at).kind == TokenKind::Pipe && peek_at(toks, at + 1).kind != TokenKind::Eof {
        if let Ok(p) = stage(toks, at + 1, room) {
            crate::parser::lemma_stage_moves(toks, at + 1, room);
            crate::parser::lemma_stage_nodes(toks, at + 1, l.nodes.len() as int);
            let next = crate::parser::lay_stage(toks, l, at + 1);
            lemma_left_by_stages(toks, next, p.at, p.room, i);
        }
    }
}

/// Whatever stops a parse, the nodes that were there before it stay as they were.
pub proof fn law_a_failed_parse_keeps_the_nodes_before_it(
    toks: Seq<Token>,
    old_nodes: Seq<AstNode>,
    at: int,
    room: int,
    i: int,
)
    requires
        0 <= i < old_nodes.len(),
    ensures
        ({
            let nodes = crate::parser::left_by_pipeline(toks, old_nodes, at, room);
            i < nodes.len() && nodes[i] == old_nodes[i]
        }),
{
    if peek_at(toks, at).kind == TokenKind::Irundu {
        if let Ok(p) = stage(toks, at, room) {
            if p.room > 0 {
                crate::parser::lemma_stage_nodes(toks, at, old_nodes.len() as int);
                let l = crate::parser::lay_source(toks, old_nodes, at);
                assert(l.nodes[i] == old_nodes[i]);
                lemma_left_by_stages(toks, l, p.at, p.room - 1, i);
            }
        }
    }
}

} // verus!
