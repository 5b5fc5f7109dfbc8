//! Lexer of the pipeline language.
//!
//! Scans bytes from left to right. A word is taken as long as it goes and only then held
//! against the keywords, so `வடிவமைப்பு` is an identifier and never the keyword `வடி` with
//! something behind it. Truncated UTF-8 and cut syllables are reported with their position.

use vstd::prelude::*;
use crate::storage::bytes_eq;
use crate::utf8::{is_digit, is_op, is_ws, scan_ident_end_checked, str_from_parent};

verus! {

/// Tokens in the fixed window of one scan.
pub const MAX_TOKENS: usize = 8192;

/// Why a scan fails.
#[derive(Copy, Clone, Debug, PartialEq, Eq, Structural)]
pub enum LexerError {
    /// The bytes at this position are no UTF-8, or break off inside a character or syllable.
    MalformedUtf8(u32),
    /// The token window is full.
    TokenBufferFull,
}

/// What a token is.
#[derive(Copy, Clone, Debug, PartialEq, Eq, Structural)]
pub enum TokenKind {
    /// இருந்து: source relation
    Irundu,
    /// வடி: filter
    Vadi,
    /// கணி: derive
    Kani,
    /// அடுக்கு: sort
    Adukku,
    /// எடு: take
    Edu,
    /// தொகுப்பு: group
    Thoguppu,
    /// சுருக்கு: aggregate
    Surukku,
    /// இணை: join
    Inai,
    /// எங்கே: condition of a join
    Enge,
    /// தேடு: project
    Thedu,
    /// Name of a relation or column
    Ident,
    /// Integer literal
    Number,
    /// `|`
    Pipe,
    /// `=`
    Eq,
    /// `>`
    Gt,
    /// `<`
    Lt,
    /// `,`
    Comma,
    /// `;`
    Semi,
    /// End of input
    Eof,
    /// A scan failed
    Error,
    /// `*`
    Star,
    /// `+`
    Plus,
    /// `-`
    Minus,
}

impl TokenKind {
    /// The number of the kind.
    pub open spec fn code(self) -> u8 {
        match self {
            TokenKind::Irundu => 0,
            TokenKind::Vadi => 1,
            TokenKind::Kani => 2,
            TokenKind::Adukku => 3,
            TokenKind::Edu => 4,
            TokenKind::Thoguppu => 5,
            TokenKind::Surukku => 6,
            TokenKind::Inai => 7,
            TokenKind::Enge => 8,
            TokenKind::Thedu => 9,
            TokenKind::Ident => 10,
            TokenKind::Number => 11,
            TokenKind::Pipe => 12,
            TokenKind::Eq => 13,
            TokenKind::Gt => 14,
            TokenKind::Lt => 15,
            TokenKind::Comma => 16,
            TokenKind::Semi => 17,
            TokenKind::Eof => 18,
            TokenKind::Error => 19,
            TokenKind::Star => 20,
            TokenKind::Plus => 21,
            TokenKind::Minus => 22,
        }
    }

    /// The number of the kind.
    pub fn as_u8(self) -> (r: u8)
        ensures
            r == self.code(),
    {
        match self {
            TokenKind::Irundu => 0,
            TokenKind::Vadi => 1,
            TokenKind::Kani => 2,
            TokenKind::Adukku => 3,
            TokenKind::Edu => 4,
            TokenKind::Thoguppu => 5,
            TokenKind::Surukku => 6,
            TokenKind::Inai => 7,
            TokenKind::Enge => 8,
            TokenKind::Thedu => 9,
            TokenKind::Ident => 10,
            TokenKind::Number => 11,
            TokenKind::Pipe => 12,
            TokenKind::Eq => 13,
            TokenKind::Gt => 14,
            TokenKind::Lt => 15,
            TokenKind::Comma => 16,
            TokenKind::Semi => 17,
            TokenKind::Eof => 18,
            TokenKind::Error => 19,
            TokenKind::Star => 20,
            TokenKind::Plus => 21,
            TokenKind::Minus => 22,
        }
    }
}

/// A lexeme: its kind, its bytes in the source, and the value of a number.
#[derive(Copy, Clone, Debug, PartialEq, Eq, Structural)]
pub struct Token {
    pub kind: TokenKind,
    pub start: u32,
    pub end: u32,
    pub number: i64,
}

impl Token {
    /// The end of input, at position zero.
    pub fn eof() -> (r: Self)
        ensures
            r == (Token { kind: TokenKind::Eof, start: 0, end: 0, number: 0 }),
    {
        Token { kind: TokenKind::Eof, start: 0, end: 0, number: 0 }
    }

    /// A failed scan of `start..end`.
    pub fn error(start: u32, end: u32) -> (r: Self)
        ensures
            r == (Token { kind: TokenKind::Error, start, end, number: 0 }),
    {
        Token { kind: TokenKind::Error, start, end, number: 0 }
    }

    /// The text of the token in its source.
    pub fn text<'a>(&self, src: &'a [u8]) -> (r: Option<&'a str>)
        ensures
            r is Some <==> self.start <= self.end <= src@.len() && vstd::utf8::valid_utf8(
                src@.subrange(self.start as int, self.end as int),
            ),
            r matches Some(s) ==> vstd::utf8::encode_utf8(s@) == src@.subrange(
                self.start as int,
                self.end as int,
            ),
    {
        str_from_parent(src, self.start as usize, self.end as usize)
    }
}

/// The kind of a word: the keyword it is, byte for byte, or an identifier.
pub open spec fn keyword_kind(word: Seq<u8>) -> TokenKind {
    if word == vstd::utf8::encode_utf8("வடி"@) {
        TokenKind::Vadi
    } else if word == vstd::utf8::encode_utf8("கணி"@) {
        TokenKind::Kani
    } else if word == vstd::utf8::encode_utf8("எடு"@) {
        TokenKind::Edu
    } else if word == vstd::utf8::encode_utf8("இணை"@) {
        TokenKind::Inai
    } else if word == vstd::utf8::encode_utf8("தேடு"@) {
        TokenKind::Thedu
    } else if word == vstd::utf8::encode_utf8("எங்கே"@) {
        TokenKind::Enge
    } else if word == vstd::utf8::encode_utf8("இருந்து"@) {
        TokenKind::Irundu
    } else if word == vstd::utf8::encode_utf8("அடுக்கு"@) {
        TokenKind::Adukku
    } else if word == vstd::utf8::encode_utf8("சுருக்கு"@) {
        TokenKind::Surukku
    } else if word == vstd::utf8::encode_utf8("தொகுப்பு"@) {
        TokenKind::Thoguppu
    } else {
        TokenKind::Ident
    }
}

/// The kind of an operator byte.
pub open spec fn operator_kind(b: u8) -> TokenKind {
    if b == 0x7C {
        TokenKind::Pipe
    } else if b == 0x3D {
        TokenKind::Eq
    } else if b == 0x3E {
        TokenKind::Gt
    } else if b == 0x3C {
        TokenKind::Lt
    } else if b == 0x2C {
        TokenKind::Comma
    } else if b == 0x3B {
        TokenKind::Semi
    } else if b == 0x2A {
        TokenKind::Star
    } else if b == 0x2B {
        TokenKind::Plus
    } else if b == 0x2D {
        TokenKind::Minus
    } else {
        TokenKind::Error
    }
}

/// Whether a zero-width space stands at `i`, with a whole character's room for it.
pub open spec fn zero_width_space_at(src: Seq<u8>, i: int) -> bool {
    i + 2 < src.len() && src[i] == 0xE2 && src[i + 1] == 0x80 && src[i + 2] == 0x8B
}

/// Where the blanks that start at `i` end.
pub open spec fn blanks_end(src: Seq<u8>, i: int) -> int
    decreases src.len() - i,
{
    if i >= src.len() {
        i
    } else if crate::utf8::is_space(src[i]) {
        blanks_end(src, i + 1)
    } else if zero_width_space_at(src, i) {
        blanks_end(src, i + 3)
    } else {
        i
    }
}

/// Where the digits that start at `i` end.
pub open spec fn digits_end(src: Seq<u8>, i: int) -> int
    decreases src.len() - i,
{
    if i < src.len() && crate::utf8::is_dec_digit(src[i]) {
        digits_end(src, i + 1)
    } else {
        i
    }
}

/// The number that decimal digits write.
pub open spec fn decimal_value(digits: Seq<u8>) -> int
    decreases digits.len(),
{
    if digits.len() == 0 {
        0
    } else {
        decimal_value(digits.drop_last()) * 10 + (digits.last() - 0x30)
    }
}

/// The value a number token carries: `i64::MIN` marks a literal that does not fit, which no
/// run of digits writes.
pub open spec fn literal_value(digits: Seq<u8>) -> i64 {
    if decimal_value(digits) <= i64::MAX {
        decimal_value(digits) as i64
    } else {
        i64::MIN
    }
}

/// What one step of a scan gives, and where it leaves off.
pub struct Scan {
    pub result: Result<Token, LexerError>,
    pub pos: int,
}

/// The token whose span is `start..end`.
pub open spec fn token_at(kind: TokenKind, start: int, end: int, number: i64) -> Token {
    Token { kind, start: start as u32, end: end as u32, number }
}

/// The first token behind the blanks at `pos`.
pub open spec fn scan_token(src: Seq<u8>, pos: int) -> Scan {
    let p = blanks_end(src, pos);
    if p >= src.len() {
        Scan { result: Ok(token_at(TokenKind::Eof, p, p, 0)), pos: p }
    } else if crate::utf8::is_dec_digit(src[p]) {
        let e = digits_end(src, p);
        Scan {
            result: Ok(token_at(TokenKind::Number, p, e, literal_value(src.subrange(p, e)))),
            pos: e,
        }
    } else if crate::utf8::is_operator(src[p]) {
        Scan { result: Ok(token_at(operator_kind(src[p]), p, p + 1, 0)), pos: p + 1 }
    } else {
        match crate::utf8::word_end(src, p) {
            Some(e) => if vstd::utf8::valid_utf8(src.subrange(p, e)) {
                Scan { result: Ok(token_at(keyword_kind(src.subrange(p, e)), p, e, 0)), pos: e }
            } else {
                Scan { result: Err(LexerError::MalformedUtf8(p as u32)), pos: e }
            },
            None => Scan { result: Err(LexerError::MalformedUtf8(p as u32)), pos: p },
        }
    }
}

/// What a scan of many tokens gives.
pub struct LexRun {
    /// The tokens up to the end of input, or up to where the scan failed.
    pub tokens: Seq<Token>,
    /// Why it failed.
    pub error: Option<LexerError>,
    /// Where it left off.
    pub pos: int,
}

/// The tokens from `pos` on, at most `room` of them.
pub open spec fn lex_run(src: Seq<u8>, pos: int, room: nat) -> LexRun
    decreases room,
{
    if room == 0 {
        LexRun { tokens: Seq::empty(), error: Some(LexerError::TokenBufferFull), pos }
    } else {
        let step = scan_token(src, pos);
        match step.result {
            Err(e) => LexRun { tokens: Seq::empty(), error: Some(e), pos: step.pos },
            Ok(t) => if t.kind == TokenKind::Eof {
                LexRun { tokens: seq![t], error: None, pos: step.pos }
            } else {
                let rest = lex_run(src, step.pos, (room - 1) as nat);
                LexRun { tokens: seq![t] + rest.tokens, error: rest.error, pos: rest.pos }
            },
        }
    }
}

/// The tokens of a whole source, as far as the token window holds them.
pub open spec fn lex_source(src: Seq<u8>) -> LexRun {
    lex_run(src, 0, (MAX_TOKENS - 1) as nat)
}

pub proof fn lemma_blanks_end(src: Seq<u8>, i: int)
    ensures
        i <= blanks_end(src, i),
        i <= src.len() ==> blanks_end(src, i) <= src.len(),
        blanks_end(src, i) < src.len() ==> !crate::utf8::is_space(src[blanks_end(src, i)]),
    decreases src.len() - i,
{
    if i < src.len() {
        if crate::utf8::is_space(src[i]) {
            lemma_blanks_end(src, i + 1);
        } else if zero_width_space_at(src, i) {
            lemma_blanks_end(src, i + 3);
        }
    }
}

pub proof fn lemma_digits_end(src: Seq<u8>, i: int)
    ensures
        i <= digits_end(src, i),
        i <= src.len() ==> digits_end(src, i) <= src.len(),
        i < src.len() && crate::utf8::is_dec_digit(src[i]) ==> i < digits_end(src, i),
        forall|k: int|
            i <= k < digits_end(src, i) ==> crate::utf8::is_dec_digit(#[trigger] src[k]),
    decreases src.len() - i,
{
    if i < src.len() && crate::utf8::is_dec_digit(src[i]) {
        lemma_digits_end(src, i + 1);
    }
}

proof fn lemma_decimal_step(src: Seq<u8>, a: int, i: int)
    requires
        0 <= a <= i < src.len(),
    ensures
        decimal_value(src.subrange(a, i + 1)) == decimal_value(src.subrange(a, i)) * 10 + (src[i]
            - 0x30),
{
    assert(src.subrange(a, i + 1).drop_last() =~= src.subrange(a, i));
}

/// More digits never make a smaller number.
proof fn lemma_decimal_grows(src: Seq<u8>, a: int, i: int, j: int)
    requires
        0 <= a <= i <= j <= src.len(),
        forall|k: int| a <= k < j ==> crate::utf8::is_dec_digit(#[trigger] src[k]),
    ensures
        0 <= decimal_value(src.subrange(a, i)) <= decimal_value(src.subrange(a, j)),
    decreases j,
{
    if i < j {
        lemma_decimal_grows(src, a, i, j - 1);
        lemma_decimal_step(src, a, j - 1);
        assert(crate::utf8::is_dec_digit(src[j - 1]));
    } else if a < i {
        lemma_decimal_grows(src, a, i - 1, i - 1);
        lemma_decimal_step(src, a, i - 1);
        assert(crate::utf8::is_dec_digit(src[i - 1]));
    } else {
        assert(src.subrange(a, a) =~= Seq::<u8>::empty());
    }
}

/// A scan moves on: a token that is not the end of input takes at least one byte, and every
/// span lies in the source.
pub proof fn law_tokens_lie_in_source(src: Seq<u8>, pos: int)
    requires
        0 <= pos <= src.len() <= u32::MAX,
    ensures
        scan_token(src, pos).result matches Ok(t) ==> {
            &&& pos <= t.start <= t.end <= src.len()
            &&& scan_token(src, pos).pos == t.end
            &&& t.kind != TokenKind::Eof ==> t.start < t.end
            &&& t.kind == TokenKind::Eof ==> t.start == src.len()
        },
{
    lemma_blanks_end(src, pos);
    let p = blanks_end(src, pos);
    if p < src.len() {
        lemma_digits_end(src, p);
        crate::utf8::law_word_ends_at_delimiter(src, p);
        if !crate::utf8::is_dec_digit(src[p]) && !crate::utf8::is_operator(src[p]) {
            if let Some(e) = crate::utf8::word_end(src, p) {
                lemma_word_moves(src, p);
            }
        }
    }
}

proof fn lemma_word_moves(src: Seq<u8>, p: int)
    requires
        0 <= p < src.len(),
        !crate::utf8::is_operator(src[p]),
        !crate::utf8::is_space(src[p]),
    ensures
        crate::utf8::word_end(src, p) matches Some(e) ==> p < e,
{
    if let Some(next) = crate::utf8::char_end(src, p) {
        crate::utf8::lemma_cluster_end_range(src, next);
        if let Some(m) = crate::utf8::cluster_end(src, next) {
            crate::utf8::law_word_ends_at_delimiter(src, m);
        }
    }
}

/// Maximal munch: a word token reaches to the next delimiter or to the end of the source, and
/// it is a keyword if and only if all of its bytes are those of the keyword.
pub proof fn law_maximal_munch(src: Seq<u8>, pos: int)
    requires
        0 <= pos <= src.len() <= u32::MAX,
        blanks_end(src, pos) < src.len(),
        !crate::utf8::is_dec_digit(src[blanks_end(src, pos)]),
        !crate::utf8::is_operator(src[blanks_end(src, pos)]),
    ensures
        scan_token(src, pos).result matches Ok(t) ==> {
            &&& t.start == blanks_end(src, pos)
            &&& t.end == src.len() || crate::utf8::is_space(src[t.end as int])
                || crate::utf8::is_operator(src[t.end as int])
            &&& t.kind == keyword_kind(src.subrange(t.start as int, t.end as int))
        },
{
    lemma_blanks_end(src, pos);
    crate::utf8::law_word_ends_at_delimiter(src, blanks_end(src, pos));
}

/// The kind of a word.
fn match_keyword_maximal(slice: &[u8]) -> (r: TokenKind)
    ensures
        r == keyword_kind(slice@),
{
    if bytes_eq(slice, "வடி".as_bytes()) {
        TokenKind::Vadi
    } else if bytes_eq(slice, "கணி".as_bytes()) {
        TokenKind::Kani
    } else if bytes_eq(slice, "எடு".as_bytes()) {
        TokenKind::Edu
    } else if bytes_eq(slice, "இணை".as_bytes()) {
        TokenKind::Inai
    } else if bytes_eq(slice, "தேடு".as_bytes()) {
        TokenKind::Thedu
    } else if bytes_eq(slice, "எங்கே".as_bytes()) {
        TokenKind::Enge
    } else if bytes_eq(slice, "இருந்து".as_bytes()) {
        TokenKind::Irundu
    } else if bytes_eq(slice, "அடுக்கு".as_bytes()) {
        TokenKind::Adukku
    } else if bytes_eq(slice, "சுருக்கு".as_bytes()) {
        TokenKind::Surukku
    } else if bytes_eq(slice, "தொகுப்பு".as_bytes()) {
        TokenKind::Thoguppu
    } else {
        TokenKind::Ident
    }
}

/// The kind of an operator byte.
fn match_operator(b: u8) -> (r: TokenKind)
    ensures
        r == operator_kind(b),
{
    if b == 0x7C {
        TokenKind::Pipe
    } else if b == 0x3D {
        TokenKind::Eq
    } else if b == 0x3E {
        TokenKind::Gt
    } else if b == 0x3C {
        TokenKind::Lt
    } else if b == 0x2C {
        TokenKind::Comma
    } else if b == 0x3B {
        TokenKind::Semi
    } else if b == 0x2A {
        TokenKind::Star
    } else if b == 0x2B {
        TokenKind::Plus
    } else if b == 0x2D {
        TokenKind::Minus
    } else {
        TokenKind::Error
    }
}

/// `3` if a zero-width space stands at `i`, else `0`.
fn zwsp_len(bytes: &[u8], i: usize) -> (r: usize)
    requires
        i < bytes@.len(),
    ensures
        r == if zero_width_space_at(bytes@, i as int) {
            3int
        } else {
            0int
        },
{
    if bytes.len() - i > 2 && bytes[i] == 0xE2 && bytes[i + 1] == 0x80 && bytes[i + 2] == 0x8B {
        3
    } else {
        0
    }
}

/// A lexer over borrowed bytes.
pub struct Lexer<'a> {
    pub src: &'a [u8],
    /// Where the next scan starts.
    pub pos: usize,
    /// The first failure; it stays.
    pub fault: Option<LexerError>,
}

impl<'a> Lexer<'a> {
    /// A lexer at the start of `src`.
    pub fn new(src: &'a [u8]) -> (r: Self)
        ensures
            r.src@ == src@,
            r.pos == 0,
            r.fault is None,
    {
        Lexer { src, pos: 0, fault: None }
    }

    /// The bytes it scans.
    pub fn source(&self) -> (r: &'a [u8])
        ensures
            r@ == self.src@,
    {
        self.src
    }

    /// Where the next scan starts.
    pub fn position(&self) -> (r: usize)
        ensures
            r == self.pos,
    {
        self.pos
    }

    /// The failure that stopped it.
    pub fn last_error(&self) -> (r: Option<LexerError>)
        ensures
            r == self.fault,
    {
        self.fault
    }

    /// Moves past blanks.
    fn skip_ws(&mut self)
        ensures
            final(self).src == old(self).src,
            final(self).fault == old(self).fault,
            final(self).pos == blanks_end(old(self).src@, old(self).pos as int),
    {
        let bytes = self.src;
        let mut i: usize = self.pos;
        while i < bytes.len()
            invariant
                bytes == self.src,
                *self == *old(self),
                blanks_end(bytes@, i as int) == blanks_end(bytes@, old(self).pos as int),
            decreases bytes@.len() - i,
        {
            if is_ws(bytes[i]) {
                i += 1;
            } else {
                let zw: usize = zwsp_len(bytes, i);
                if zw == 0 {
                    self.pos = i;
                    return ;
                }
                i += zw;
            }
        }
        self.pos = i;
    }

    /// Scans the number that starts here.
    fn scan_number(&mut self) -> (t: Token)
        requires
            old(self).pos < old(self).src@.len(),
        ensures
            final(self).src == old(self).src,
            final(self).fault == old(self).fault,
            final(self).pos == digits_end(old(self).src@, old(self).pos as int),
            t == token_at(
                TokenKind::Number,
                old(self).pos as int,
                final(self).pos as int,
                literal_value(
                    old(self).src@.subrange(old(self).pos as int, final(self).pos as int),
                ),
            ),
    {
        let bytes = self.src;
        let begin: usize = self.pos;
        let mut i: usize = begin;
        let mut val: i64 = 0;
        let mut overflow = false;
        let ghost e = digits_end(bytes@, begin as int);
        proof {
            lemma_digits_end(bytes@, begin as int);
            assert(bytes@.subrange(begin as int, begin as int) =~= Seq::<u8>::empty());
        }
        while i < bytes.len() && is_digit(bytes[i])
            invariant
                begin <= i <= bytes@.len(),
                i <= e <= bytes@.len(),
                e == digits_end(bytes@, i as int),
                forall|k: int|
                    begin <= k < e ==> crate::utf8::is_dec_digit(#[trigger] bytes@[k]),
                !overflow ==> 0 <= val && val == decimal_value(
                    bytes@.subrange(begin as int, i as int),
                ),
                overflow ==> val == i64::MIN && decimal_value(
                    bytes@.subrange(begin as int, i as int),
                ) > i64::MAX,
            decreases bytes@.len() - i,
        {
            let digit: i64 = (bytes[i] - 0x30) as i64;
            proof {
                lemma_decimal_step(bytes@, begin as int, i as int);
                lemma_digits_end(bytes@, i as int + 1);
            }
            if !overflow {
                match val.checked_mul(10) {
                    Some(m) => match m.checked_add(digit) {
                        Some(v) => {
                            val = v;
                        },
                        None => {
                            overflow = true;
                            val = i64::MIN;
                        },
                    },
                    None => {
                        overflow = true;
                        val = i64::MIN;
                    },
                }
            }
            i += 1;
        }
        self.pos = i;
        Token {
            kind: TokenKind::Number,
            start: #[verifier::truncate]
            (begin as u32),
            end: #[verifier::truncate]
            (i as u32),
            number: val,
        }
    }

    /// Scans the operator that stands here.
    fn scan_operator(&mut self) -> (t: Token)
        requires
            old(self).pos < old(self).src@.len(),
        ensures
            final(self).src == old(self).src,
            final(self).fault == old(self).fault,
            final(self).pos == old(self).pos + 1,
            t == token_at(
                operator_kind(old(self).src@[old(self).pos as int]),
                old(self).pos as int,
                old(self).pos + 1,
                0,
            ),
    {
        let begin: usize = self.pos;
        let kind = match_operator(self.src[begin]);
        self.pos = begin + 1;
        Token {
            kind,
            start: #[verifier::truncate]
            (begin as u32),
            end: #[verifier::truncate]
            (self.pos as u32),
            number: 0,
        }
    }

    /// Scans the word that starts here.
    fn scan_ident_or_keyword(&mut self) -> (r: Result<Token, LexerError>)
        requires
            old(self).pos < old(self).src@.len(),
        ensures
            final(self).src == old(self).src,
            final(self).fault == old(self).fault,
            ({
                let src = old(self).src@;
                let p = old(self).pos as int;
                match crate::utf8::word_end(src, p) {
                    Some(e) => final(self).pos == e && r == if vstd::utf8::valid_utf8(
                        src.subrange(p, e),
                    ) {
                        Ok::<Token, LexerError>(token_at(keyword_kind(src.subrange(p, e)), p, e, 0))
                    } else {
                        Err::<Token, LexerError>(LexerError::MalformedUtf8(p as u32))
                    },
                    None => final(self).pos == p && r == Err::<Token, LexerError>(
                        LexerError::MalformedUtf8(p as u32),
                    ),
                }
            }),
    {
        let begin: usize = self.pos;
        let cursor: u32 = #[verifier::truncate]
        (begin as u32);
        let end: usize = match scan_ident_end_checked(self.src, begin) {
            Ok(e) => e,
            Err(_) => {
                return Err(LexerError::MalformedUtf8(cursor));
            },
        };
        self.pos = end;
        let slice = vstd::slice::slice_subrange(self.src, begin, end);
        match core::str::from_utf8(slice) {
            Ok(_) => {},
            Err(_) => {
                return Err(LexerError::MalformedUtf8(cursor));
            },
        }
        Ok(
            Token {
                kind: match_keyword_maximal(slice),
                start: cursor,
                end: #[verifier::truncate]
                (end as u32),
                number: 0,
            },
        )
    }

    /// The next token. After a failure every further call gives the same failure.
    pub fn next_token(&mut self) -> (r: Result<Token, LexerError>)
        ensures
            final(self).src == old(self).src,
            match old(self).fault {
                Some(e) => r == Err::<Token, LexerError>(e) && *final(self) == *old(self),
                None => {
                    let step = scan_token(old(self).src@, old(self).pos as int);
                    &&& r == step.result
                    &&& final(self).pos == step.pos
                    &&& final(self).fault == match step.result {
                        Ok(_) => None::<LexerError>,
                        Err(e) => Some(e),
                    }
                },
            },
    {
        if let Some(err) = self.fault {
            return Err(err);
        }
        self.skip_ws();
        if self.pos >= self.src.len() {
            let at: u32 = #[verifier::truncate]
            (self.pos as u32);
            return Ok(Token { kind: TokenKind::Eof, start: at, end: at, number: 0 });
        }
        let b: u8 = self.src[self.pos];
        if is_digit(b) {
            return Ok(self.scan_number());
        }
        if is_op(b) {
            return Ok(self.scan_operator());
        }
        match self.scan_ident_or_keyword() {
            Ok(t) => Ok(t),
            Err(e) => {
                self.fault = Some(e);
                Err(e)
            },
        }
    }

    /// Writes the tokens up to the end of input to `out` and returns how many there are. On a
    /// failure, the tokens before it have been written.
    pub fn tokenize_into(&mut self, out: &mut [Token; MAX_TOKENS]) -> (r: Result<usize, LexerError>)
        ensures
            final(self).src == old(self).src,
            match old(self).fault {
                Some(e) => r == Err::<usize, LexerError>(e) && *final(self) == *old(self)
                    && final(out)@ == old(out)@,
                None => {
                    let run = lex_run(
                        old(self).src@,
                        old(self).pos as int,
                        (MAX_TOKENS - 1) as nat,
                    );
                    &&& run.tokens.len() < MAX_TOKENS
                    &&& final(out)@ == run.tokens + old(out)@.skip(run.tokens.len() as int)
                    &&& final(self).pos == run.pos
                    &&& match run.error {
                        None => r is Ok && r->Ok_0 == run.tokens.len() && final(self).fault is None,
                        Some(e) => r == Err::<usize, LexerError>(e) && final(self).fault == if e
                            == LexerError::TokenBufferFull {
                            None
                        } else {
                            Some(e)
                        },
                    }
                },
            },
    {
        let mut n: usize = 0;
        let ghost src = self.src@;
        let ghost start = self.pos as int;
        let ghost full = lex_run(src, start, (MAX_TOKENS - 1) as nat);
        let ghost mut done = Seq::<Token>::empty();
        while n + 1 < MAX_TOKENS
            invariant
                n < MAX_TOKENS,
                self.src == old(self).src,
                src == self.src@,
                start == old(self).pos,
                full == lex_run(src, start, (MAX_TOKENS - 1) as nat),
                done.len() == n,
                old(self).fault is Some ==> *self == *old(self) && n == 0,
                old(self).fault is None ==> self.fault is None && ({
                    let rest = lex_run(src, self.pos as int, (MAX_TOKENS - 1 - n) as nat);
                    &&& full.tokens == done + rest.tokens
                    &&& full.error == rest.error
                    &&& full.pos == rest.pos
                }),
                out@ == done + old(out)@.skip(n as int),
            decreases MAX_TOKENS - n,
        {
            let ghost before = self.pos as int;
            let tok = match self.next_token() {
                Ok(t) => t,
                Err(e) => {
                    proof {
                        assert(done + Seq::<Token>::empty() =~= done);
                        if old(self).fault is None {
                            lemma_scan_never_full(src, before);
                        } else {
                            assert(out@ =~= old(out)@);
                        }
                    }
                    return Err(e);
                },
            };
            out[n] = tok;
            proof {
                let grown = done.push(tok);
                let rest = lex_run(src, self.pos as int, (MAX_TOKENS - 2 - n) as nat);
                assert(out@ =~= grown + old(out)@.skip(n as int + 1));
                assert(done + (seq![tok] + rest.tokens) =~= grown + rest.tokens);
                assert(done + seq![tok] =~= grown);
                done = grown;
            }
            n += 1;
            if tok.kind == TokenKind::Eof {
                return Ok(n);
            }
        }
        proof {
            assert(done + Seq::<Token>::empty() =~= done);
        }
        Err(LexerError::TokenBufferFull)
    }

    /// The next token of an endless stream: where the scan fails, an error token for the byte
    /// there, and so on to the end of the source.
    pub fn next(&mut self) -> (r: Option<Token>)
        ensures
            final(self).src == old(self).src,
            ({
                let step = match old(self).fault {
                    Some(e) => Scan { result: Err(e), pos: old(self).pos as int },
                    None => scan_token(old(self).src@, old(self).pos as int),
                };
                match step.result {
                    Ok(t) => r == Some(t) && final(self).pos == step.pos && final(self).fault
                        is None,
                    Err(e) => {
                        &&& final(self).fault == Some(e)
                        &&& final(self).pos == if step.pos < old(self).src@.len() {
                            step.pos + 1
                        } else {
                            old(self).src@.len() as int
                        }
                        &&& r == Some(token_at(TokenKind::Error, step.pos, final(self).pos as int, 0))
                    },
                }
            }),
    {
        match self.next_token() {
            Ok(tok) => Some(tok),
            Err(err) => {
                let start: u32 = #[verifier::truncate]
                (self.pos as u32);
                self.fault = Some(err);
                self.pos = if self.pos < self.src.len() {
                    self.pos + 1
                } else {
                    self.src.len()
                };
                Some(
                    Token::error(
                        start,
                        #[verifier::truncate]
                        (self.pos as u32),
                    ),
                )
            },
        }
    }
}

/// A single scan step never reports a full window.
proof fn lemma_scan_never_full(src: Seq<u8>, pos: int)
    ensures
        scan_token(src, pos).result != Err::<Token, LexerError>(LexerError::TokenBufferFull),
{
}

} // verus!
