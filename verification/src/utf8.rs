//! UTF-8 scanning that keeps Tamil syllables whole.
//!
//! A Tamil syllable is a consonant followed by dependent signs (`தே` is `த` and `ே`). The
//! scanners here never end a span between a letter and a sign that belongs to it.

use vstd::prelude::*;

verus! {

/// The error of [`core::str::from_utf8`], carried and never looked into.
#[verifier::external_type_specification]
#[verifier::external_body]
pub struct ExUtf8Error(core::str::Utf8Error);

/// [`core::str::from_utf8`] accepts exactly the valid UTF-8 byte sequences, and the text it
/// returns is made of the very bytes it was given.
pub assume_specification[ core::str::from_utf8 ](v: &[u8]) -> (r: Result<&str, core::str::Utf8Error>)
    ensures
        r is Ok <==> vstd::utf8::valid_utf8(v@),
        r is Ok ==> vstd::utf8::encode_utf8((r->Ok_0)@) == v@,
;

/// Result of a checked UTF-8 or syllable advance.
#[derive(Copy, Clone, Debug, PartialEq, Eq, Structural)]
pub enum Utf8ScanStatus {
    Valid,
    /// A truncated multi-byte sequence, or a syllable cut at the end of the buffer.
    Malformed,
}

/// Length of the UTF-8 sequence that a lead byte announces; `0` for a byte that leads none.
pub open spec fn lead_len(b: u8) -> nat {
    if b < 0x80 {
        1
    } else if b < 0xC0 {
        0
    } else if b < 0xE0 {
        2
    } else if b < 0xF0 {
        3
    } else if b < 0xF8 {
        4
    } else {
        0
    }
}

/// Whether `b` continues a multi-byte sequence.
pub open spec fn is_cont(b: u8) -> bool {
    0x80 <= b <= 0xBF
}

/// Whether `b` is ASCII white space (vertical tab and form feed among it).
pub open spec fn is_space(b: u8) -> bool {
    b == 0x20 || b == 0x09 || b == 0x0A || b == 0x0D || b == 0x0B || b == 0x0C
}

/// Whether `b` is an ASCII digit.
pub open spec fn is_dec_digit(b: u8) -> bool {
    0x30 <= b <= 0x39
}

/// Whether `b` is one of the operators and delimiters `| = > < , ; * + -`.
pub open spec fn is_operator(b: u8) -> bool {
    b == 0x7C || b == 0x3D || b == 0x3E || b == 0x3C || b == 0x2C || b == 0x3B || b == 0x2A || b
        == 0x2B || b == 0x2D
}

/// Where the sequence that starts at `i` ends, if a whole one starts there.
pub open spec fn char_end(bytes: Seq<u8>, i: int) -> Option<int> {
    if 0 <= i < bytes.len() && lead_len(bytes[i]) > 0 && i + lead_len(bytes[i]) <= bytes.len() && (
    forall|k: int| i < k < i + lead_len(bytes[i]) ==> is_cont(#[trigger] bytes[k])) {
        Some(i + lead_len(bytes[i]))
    } else {
        None
    }
}

/// Whether three bytes encode a Tamil sign that attaches to the letter before it.
pub open spec fn is_attached_sign(b0: u8, b1: u8, b2: u8) -> bool {
    tamil_lead(b0, b1) && combining(tamil_code(b0, b1, b2))
}

/// Whether `b0, b1` open a three-byte sequence of the Tamil block.
pub open spec fn tamil_lead(b0: u8, b1: u8) -> bool {
    b0 == 0xE0 && (b1 == 0xAE || b1 == 0xAF)
}

/// The code point that three bytes carry: four bits of the first, six of each other.
pub open spec fn tamil_code(b0: u8, b1: u8, b2: u8) -> u32 {
    (((b0 as u32) & 0x0F) << 12) | (((b1 as u32) & 0x3F) << 6) | ((b2 as u32) & 0x3F)
}

/// Whether `cp` is a Tamil dependent vowel sign or the virama.
pub open spec fn combining(cp: u32) -> bool {
    0x0BBE <= cp <= 0x0BCC || cp == 0x0BCD || cp == 0x0BD7
}

/// Where the run of attached signs that starts at `end` stops; `None` where the bytes break
/// off inside a sequence or hold a byte that leads none.
pub open spec fn cluster_end(bytes: Seq<u8>, end: int) -> Option<int>
    decreases bytes.len() - end,
{
    if end >= bytes.len() {
        Some(end)
    } else {
        let need = lead_len(bytes[end]);
        if need == 0 || bytes.len() - end < need {
            None
        } else if need == 3 && is_attached_sign(bytes[end], bytes[end + 1], bytes[end + 2]) {
            if is_cont(bytes[end + 1]) && is_cont(bytes[end + 2]) {
                cluster_end(bytes, end + 3)
            } else {
                None
            }
        } else {
            Some(end)
        }
    }
}

/// Where the word that starts at `start` ends: at the first white space or operator that
/// follows whole characters with their signs, or at the end of the bytes. `None` where a
/// character or a syllable on the way is broken.
pub open spec fn word_end(bytes: Seq<u8>, start: int) -> Option<int>
    decreases bytes.len() - start,
{
    if start >= bytes.len() || is_space(bytes[start]) || is_operator(bytes[start]) {
        Some(start)
    } else {
        match char_end(bytes, start) {
            Some(next) => match cluster_end(bytes, next) {
                Some(e) => {
                    proof {
                        lemma_cluster_end_range(bytes, next);
                    }
                    word_end(bytes, e)
                },
                None => None,
            },
            None => None,
        }
    }
}

pub proof fn lemma_cluster_end_range(bytes: Seq<u8>, end: int)
    ensures
        cluster_end(bytes, end) matches Some(e) ==> end <= e && (end <= bytes.len() ==> e
            <= bytes.len()),
    decreases bytes.len() - end,
{
    if end < bytes.len() {
        let need = lead_len(bytes[end]);
        if need == 3 && bytes.len() - end >= 3 {
            lemma_cluster_end_range(bytes, end + 3);
        }
    }
}

/// A word ends inside the bytes, at a delimiter or at their end, and never before a sign
/// that belongs to the letter it ends with.
pub proof fn law_word_ends_at_delimiter(bytes: Seq<u8>, start: int)
    requires
        0 <= start <= bytes.len(),
    ensures
        word_end(bytes, start) matches Some(e) ==> {
            &&& start <= e <= bytes.len()
            &&& e < bytes.len() ==> is_space(bytes[e]) || is_operator(bytes[e])
            &&& e + 2 < bytes.len() ==> !is_attached_sign(bytes[e], bytes[e + 1], bytes[e + 2])
        },
    decreases bytes.len() - start,
{
    if start < bytes.len() && !is_space(bytes[start]) && !is_operator(bytes[start]) {
        if let Some(next) = char_end(bytes, start) {
            lemma_cluster_end_range(bytes, next);
            if let Some(e) = cluster_end(bytes, next) {
                law_word_ends_at_delimiter(bytes, e);
            }
        }
    }
}

/// Length of the UTF-8 sequence that `b` leads, `0` if it leads none.
pub fn utf8_len(b: u8) -> (n: usize)
    ensures
        n == lead_len(b),
{
    if b < 0x80 {
        1
    } else if b < 0xC0 {
        0
    } else if b < 0xE0 {
        2
    } else if b < 0xF0 {
        3
    } else if b < 0xF8 {
        4
    } else {
        0
    }
}

/// Whether `b` is ASCII white space.
pub fn is_ws(b: u8) -> (r: bool)
    ensures
        r == is_space(b),
{
    b == 0x20 || b == 0x09 || b == 0x0A || b == 0x0D || b == 0x0B || b == 0x0C
}

/// Whether `b` is an ASCII digit.
pub fn is_digit(b: u8) -> (r: bool)
    ensures
        r == is_dec_digit(b),
{
    0x30 <= b && b <= 0x39
}

/// Whether `b` is an operator or delimiter of the language.
pub fn is_op(b: u8) -> (r: bool)
    ensures
        r == is_operator(b),
{
    b == 0x7C || b == 0x3D || b == 0x3E || b == 0x3C || b == 0x2C || b == 0x3B || b == 0x2A || b
        == 0x2B || b == 0x2D
}

/// Whether `b` continues a multi-byte sequence.
pub fn is_continuation(b: u8) -> (r: bool)
    ensures
        r == is_cont(b),
{
    0x80 <= b && b <= 0xBF
}

/// The end of the UTF-8 sequence that starts at `i`.
pub fn checked_char_end(bytes: &[u8], i: usize) -> (r: Result<usize, Utf8ScanStatus>)
    ensures
        match char_end(bytes@, i as int) {
            Some(e) => r is Ok && r->Ok_0 == e && e <= bytes@.len(),
            None => r == Err::<usize, Utf8ScanStatus>(Utf8ScanStatus::Malformed),
        },
{
    if i >= bytes.len() {
        return Err(Utf8ScanStatus::Malformed);
    }
    let len: usize = utf8_len(bytes[i]);
    if len == 0 {
        return Err(Utf8ScanStatus::Malformed);
    }
    if bytes.len() - i < len {
        return Err(Utf8ScanStatus::Malformed);
    }
    let end: usize = i + len;
    let mut k: usize = i + 1;
    while k < end
        invariant
            i < k <= end <= bytes@.len(),
            end == i + lead_len(bytes@[i as int]),
            forall|m: int| i < m < k ==> is_cont(#[trigger] bytes@[m]),
        decreases end - k,
    {
        if !is_continuation(bytes[k]) {
            assert(!is_cont(bytes@[k as int]));
            return Err(Utf8ScanStatus::Malformed);
        }
        k += 1;
    }
    Ok(end)
}

/// The next character boundary after `i`: the end of the sequence at `i`, or one byte on
/// (but not past the end) where no whole sequence starts.
pub fn next_char_boundary(bytes: &[u8], i: usize) -> (r: usize)
    ensures
        match char_end(bytes@, i as int) {
            Some(e) => r == e,
            None => r == if i == usize::MAX {
                0
            } else if i + 1 <= bytes@.len() {
                i + 1
            } else {
                bytes@.len() as int
            },
        },
{
    match checked_char_end(bytes, i) {
        Ok(end) => end,
        Err(_) => {
            let n: usize = i.wrapping_add(1);
            if n < bytes.len() {
                n
            } else {
                bytes.len()
            }
        },
    }
}

/// Whether `b0, b1` open a sequence of the Tamil block.
pub fn is_tamil_lead(b0: u8, b1: u8) -> (r: bool)
    ensures
        r == tamil_lead(b0, b1),
{
    b0 == 0xE0 && (b1 == 0xAE || b1 == 0xAF)
}

/// The code point of a three-byte sequence.
pub fn decode_tamil_cp(b0: u8, b1: u8, b2: u8) -> (r: u32)
    ensures
        r == tamil_code(b0, b1, b2),
{
    (((b0 as u32) & 0x0F) << 12) | (((b1 as u32) & 0x3F) << 6) | ((b2 as u32) & 0x3F)
}

/// Whether `cp` is a Tamil dependent vowel sign or the virama.
pub fn is_tamil_combining(cp: u32) -> (r: bool)
    ensures
        r == combining(cp),
{
    (cp >= 0x0BBE && cp <= 0x0BCC) || cp == 0x0BCD || cp == 0x0BD7
}

/// Whether `cp` is a Tamil consonant.
pub fn is_tamil_consonant(cp: u32) -> (r: bool)
    ensures
        r == (0x0B95 <= cp <= 0x0BB9),
{
    cp >= 0x0B95 && cp <= 0x0BB9
}

/// The end of the run of attached signs that starts at `end`.
pub fn extend_grapheme_cluster_checked(bytes: &[u8], end: usize) -> (r: Result<
    usize,
    Utf8ScanStatus,
>)
    ensures
        match cluster_end(bytes@, end as int) {
            Some(e) => r is Ok && r->Ok_0 == e && end <= e && (end
                <= bytes@.len() ==> e <= bytes@.len()),
            None => r == Err::<usize, Utf8ScanStatus>(Utf8ScanStatus::Malformed),
        },
{
    let mut e: usize = end;
    proof {
        lemma_cluster_end_range(bytes@, end as int);
    }
    while e < bytes.len()
        invariant
            end <= e,
            end <= bytes@.len() ==> e <= bytes@.len(),
            cluster_end(bytes@, e as int) == cluster_end(bytes@, end as int),
        decreases bytes@.len() - e,
    {
        let remaining: usize = bytes.len() - e;
        let b0: u8 = bytes[e];
        let need: usize = utf8_len(b0);
        if need == 0 {
            return Err(Utf8ScanStatus::Malformed);
        }
        if remaining < need {
            return Err(Utf8ScanStatus::Malformed);
        }
        if need != 3 {
            return Ok(e);
        }
        let b1: u8 = bytes[e + 1];
        let b2: u8 = bytes[e + 2];
        if !(is_tamil_lead(b0, b1) && is_tamil_combining(decode_tamil_cp(b0, b1, b2))) {
            return Ok(e);
        }
        if !is_continuation(b1) || !is_continuation(b2) {
            return Err(Utf8ScanStatus::Malformed);
        }
        e += 3;
    }
    Ok(e)
}

/// The end of the run of attached signs that starts at `end`, or `end` itself where the
/// bytes there are broken.
pub fn extend_grapheme_cluster(bytes: &[u8], end: usize) -> (r: usize)
    ensures
        r == match cluster_end(bytes@, end as int) {
            Some(e) => e,
            None => end as int,
        },
{
    match extend_grapheme_cluster_checked(bytes, end) {
        Ok(e) => e,
        Err(_) => end,
    }
}

/// The end of the word that starts at `start`.
pub fn scan_ident_end_checked(bytes: &[u8], start: usize) -> (r: Result<usize, Utf8ScanStatus>)
    ensures
        match word_end(bytes@, start as int) {
            Some(e) => r is Ok && r->Ok_0 == e && start <= e && (start
                <= bytes@.len() ==> e <= bytes@.len()),
            None => r == Err::<usize, Utf8ScanStatus>(Utf8ScanStatus::Malformed),
        },
{
    let mut i: usize = start;
    while i < bytes.len()
        invariant
            start <= i,
            start <= bytes@.len() ==> i <= bytes@.len(),
            word_end(bytes@, i as int) == word_end(bytes@, start as int),
        decreases bytes@.len() - i,
    {
        let b: u8 = bytes[i];
        if is_ws(b) || is_op(b) {
            return Ok(i);
        }
        let next: usize = match checked_char_end(bytes, i) {
            Ok(n) => n,
            Err(s) => {
                return Err(s);
            },
        };
        i = match extend_grapheme_cluster_checked(bytes, next) {
            Ok(e) => e,
            Err(s) => {
                return Err(s);
            },
        };
    }
    Ok(i)
}

/// The end of the word that starts at `start`, or `start` itself where the word is broken.
pub fn scan_ident_end(bytes: &[u8], start: usize) -> (r: usize)
    ensures
        r == match word_end(bytes@, start as int) {
            Some(e) => e,
            None => start as int,
        },
{
    match scan_ident_end_checked(bytes, start) {
        Ok(e) => e,
        Err(_) => start,
    }
}

/// The text of `bytes[start..end]`, if the range lies in `bytes` and holds valid UTF-8.
pub fn str_from_parent<'a>(bytes: &'a [u8], start: usize, end: usize) -> (r: Option<&'a str>)
    ensures
        r is Some <==> start <= end <= bytes@.len() && vstd::utf8::valid_utf8(
            bytes@.subrange(start as int, end as int),
        ),
        r matches Some(s) ==> vstd::utf8::encode_utf8(s@) == bytes@.subrange(start as int, end as int),
{
    if start > end || end > bytes.len() {
        return None;
    }
    match core::str::from_utf8(vstd::slice::slice_subrange(bytes, start, end)) {
        Ok(s) => Some(s),
        Err(_) => None,
    }
}

/// Text takes at most four bytes a character.
pub proof fn lemma_encoded_len(s: Seq<char>)
    ensures
        vstd::utf8::encode_utf8(s).len() <= 4 * s.len(),
    decreases s.len(),
{
    if s.len() > 0 {
        lemma_encoded_len(s.drop_first());
    }
}

} // verus!
