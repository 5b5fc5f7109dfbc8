//! What a comma-separated text holds, told by its characters.
//!
//! [`crate::text`] and [`crate::ingest`] cut a text into lines, fields and numbers. The laws here
//! say what has to come of it: that nothing is lost between separators, that what was written is
//! read, and which line is to blame where a text is refused.

use crate::ingest::{Column, ColumnType, IngestFault, Values};
use crate::text::{
    chomped, find, i64_text, integer, is_digits, is_white_space, lines, pieces, trimmed,
    trimmed_end, trimmed_start,
};
use vstd::prelude::*;

verus! {

// ---------------------------------------------------------------------------
// White space, pieces and lines
// ---------------------------------------------------------------------------
/// `s` is white space alone.
pub open spec fn is_void(s: Seq<char>) -> bool {
    forall|i: int| 0 <= i < s.len() ==> is_white_space(#[trigger] s[i])
}

proof fn lemma_trimmed_start(s: Seq<char>) -> (a: Seq<char>)
    ensures
        s == a + trimmed_start(s),
        is_void(a),
        trimmed_start(s).len() > 0 ==> !is_white_space(trimmed_start(s)[0]),
    decreases s.len(),
{
    if s.len() > 0 && is_white_space(s[0]) {
        let b = lemma_trimmed_start(s.drop_first());
        assert(s =~= seq![s[0]] + s.drop_first());
        assert(seq![s[0]] + (b + trimmed_start(s)) =~= seq![s[0]] + b + trimmed_start(s));
        seq![s[0]] + b
    } else {
        assert(s =~= Seq::<char>::empty() + s);
        Seq::empty()
    }
}

proof fn lemma_trimmed_end(s: Seq<char>) -> (b: Seq<char>)
    ensures
        s == trimmed_end(s) + b,
        is_void(b),
        trimmed_end(s).len() > 0 ==> !is_white_space(trimmed_end(s).last()),
    decreases s.len(),
{
    if s.len() > 0 && is_white_space(s.last()) {
        let b = lemma_trimmed_end(s.drop_last());
        assert(s =~= s.drop_last().push(s.last()));
        assert((trimmed_end(s) + b).push(s.last()) =~= trimmed_end(s) + b.push(s.last()));
        b.push(s.last())
    } else {
        assert(s =~= s + Seq::<char>::empty());
        Seq::empty()
    }
}

/// To trim a text is to take white space away at both ends, all of it and nothing else.
pub proof fn law_trimming_takes_white_space_away(s: Seq<char>)
    ensures
        exists|a: Seq<char>, b: Seq<char>|
            is_void(a) && is_void(b) && s == #[trigger] (a + trimmed(s) + b),
        trimmed(s).len() > 0 ==> !is_white_space(trimmed(s)[0]) && !is_white_space(
            trimmed(s).last(),
        ),
{
    let a = lemma_trimmed_start(s);
    let b = lemma_trimmed_end(trimmed_start(s));
    assert(s =~= a + trimmed(s) + b);
    if trimmed(s).len() > 0 {
        assert(trimmed_start(s)[0] == trimmed(s)[0]);
    }
}

/// The texts in `parts`, with `sep` between each two.
pub open spec fn joined(parts: Seq<Seq<char>>, sep: char) -> Seq<char>
    decreases parts.len(),
{
    if parts.len() == 0 {
        Seq::empty()
    } else if parts.len() == 1 {
        parts[0]
    } else {
        parts[0] + seq![sep] + joined(parts.drop_first(), sep)
    }
}

proof fn lemma_pieces(s: Seq<char>, sep: char, from: int)
    requires
        0 <= from <= s.len(),
    ensures
        pieces(s, sep, from).len() > 0,
        joined(pieces(s, sep, from), sep) == s.skip(from),
        forall|i: int|
            0 <= i < pieces(s, sep, from).len() ==> !(#[trigger] pieces(s, sep, from)[i]).contains(
                sep,
            ),
    decreases s.len() - from,
{
    crate::text::lemma_find(s, sep, from);
    let k = find(s, sep, from);
    let p = pieces(s, sep, from);
    if k < s.len() {
        lemma_pieces(s, sep, k + 1);
        let rest = pieces(s, sep, k + 1);
        assert(p.drop_first() =~= rest);
        assert(s.skip(from) =~= s.subrange(from, k) + seq![sep] + s.skip(k + 1));
        assert forall|i: int| 0 <= i < p.len() implies !(#[trigger] p[i]).contains(sep) by {
            if i > 0 {
                assert(p[i] == rest[i - 1]);
            }
        }
    } else {
        assert(p =~= seq![s.skip(from)]);
    }
}

/// The pieces of a text between separators, put together again with separators between them, are
/// the text, and none of them has a separator in it.
pub proof fn law_pieces_make_up_the_text(s: Seq<char>, sep: char)
    ensures
        joined(pieces(s, sep, 0), sep) == s,
        pieces(s, sep, 0).len() > 0,
        forall|i: int|
            0 <= i < pieces(s, sep, 0).len() ==> !(#[trigger] pieces(s, sep, 0)[i]).contains(sep),
{
    lemma_pieces(s, sep, 0);
    assert(s.skip(0) =~= s);
}

/// `c` first stands at `k`, or nowhere and `k` is the end.
proof fn lemma_found(s: Seq<char>, c: char, from: int, k: int)
    requires
        0 <= from <= k <= s.len(),
        forall|i: int| from <= i < k ==> #[trigger] s[i] != c,
        k < s.len() ==> s[k] == c,
    ensures
        find(s, c, from) == k,
    decreases k - from,
{
    if from < k {
        lemma_found(s, c, from + 1, k);
    }
}

/// The texts in `parts`, each with `end` behind it.
pub open spec fn ended(parts: Seq<Seq<char>>, end: Seq<char>) -> Seq<char>
    decreases parts.len(),
{
    if parts.len() == 0 {
        Seq::empty()
    } else {
        parts[0] + end + ended(parts.drop_first(), end)
    }
}

/// `s` may be a line: no line feed is in it.
pub open spec fn is_line(s: Seq<char>) -> bool {
    !s.contains('\n')
}

proof fn lemma_lines_read(
    s: Seq<char>,
    at: int,
    parts: Seq<Seq<char>>,
    end: Seq<char>,
    tail: Seq<char>,
)
    requires
        0 <= at <= s.len(),
        s.skip(at) == ended(parts, end) + tail,
        end == seq!['\n'] || end == seq!['\r', '\n'],
        is_line(tail),
        forall|i: int| 0 <= i < parts.len() ==> is_line(#[trigger] parts[i]),
        end.len() == 1 ==> forall|i: int|
            0 <= i < parts.len() && (#[trigger] parts[i]).len() > 0 ==> parts[i].last() != '\r',
    ensures
        lines(s, at) == if tail.len() > 0 {
            parts.push(tail)
        } else {
            parts
        },
    decreases parts.len(),
{
    let rem = s.skip(at);
    if parts.len() == 0 {
        assert(rem =~= tail);
        assert forall|i: int| at <= i < s.len() implies #[trigger] s[i] != '\n' by {
            assert(tail[i - at] == s[i]);
        }
        lemma_found(s, '\n', at, s.len() as int);
        if tail.len() > 0 {
            assert(lines(s, at) =~= parts.push(tail));
        } else {
            assert(lines(s, at) =~= parts);
        }
    } else {
        let p = parts[0];
        let rest = parts.drop_first();
        let n = p.len() + end.len();
        let k = at + n - 1;
        assert(rem =~= p + end + (ended(rest, end) + tail));
        assert(rem.len() >= n);
        assert forall|i: int| at <= i < k implies #[trigger] s[i] != '\n' by {
            assert(rem[i - at] == s[i]);
            if i - at < p.len() {
                assert(p[i - at] == s[i]);
            }
        }
        assert(s[k] == '\n') by {
            assert(rem[k - at] == s[k]);
        }
        lemma_found(s, '\n', at, k);
        assert(s.skip(k + 1) =~= ended(rest, end) + tail) by {
            assert forall|j: int| 0 <= j < s.skip(k + 1).len() implies s.skip(k + 1)[j] == (ended(
                rest,
                end,
            ) + tail)[j] by {
                assert(rem[n + j] == s[k + 1 + j]);
            }
        }
        assert forall|i: int| 0 <= i < rest.len() implies is_line(#[trigger] rest[i]) by {
            assert(rest[i] == parts[i + 1]);
        }
        if end.len() == 1 {
            assert forall|i: int| 0 <= i < rest.len() && (#[trigger] rest[i]).len() > 0 implies
                rest[i].last() != '\r' by {
                assert(rest[i] == parts[i + 1]);
            }
        }
        lemma_lines_read(s, k + 1, rest, end, tail);
        let cut = s.subrange(at, k);
        if end.len() == 1 {
            assert(cut =~= p) by {
                assert forall|j: int| 0 <= j < p.len() implies cut[j] == p[j] by {
                    assert(rem[j] == s[at + j]);
                }
            }
            assert(chomped(cut) == p);
        } else {
            assert(cut =~= p.push('\r')) by {
                assert forall|j: int| 0 <= j < cut.len() implies cut[j] == p.push('\r')[j] by {
                    assert(rem[j] == s[at + j]);
                }
            }
            assert(cut.drop_last() =~= p);
        }
        let all = if tail.len() > 0 {
            rest.push(tail)
        } else {
            rest
        };
        assert(lines(s, at) == seq![p] + all);
        if tail.len() > 0 {
            assert(seq![p] + all =~= parts.push(tail));
        } else {
            assert(seq![p] + all =~= parts);
        }
    }
}

/// Lines that were written each with a line feed behind it are read back, and so is a last one
/// without. The same holds of a carriage return and a line feed.
pub proof fn law_lines_read_back(parts: Seq<Seq<char>>, end: Seq<char>, tail: Seq<char>)
    requires
        end == seq!['\n'] || end == seq!['\r', '\n'],
        is_line(tail),
        forall|i: int| 0 <= i < parts.len() ==> is_line(#[trigger] parts[i]),
        end.len() == 1 ==> forall|i: int|
            0 <= i < parts.len() && (#[trigger] parts[i]).len() > 0 ==> parts[i].last() != '\r',
    ensures
        lines(ended(parts, end) + tail, 0) == if tail.len() > 0 {
            parts.push(tail)
        } else {
            parts
        },
{
    let s = ended(parts, end) + tail;
    assert(s.skip(0) =~= s);
    lemma_lines_read(s, 0, parts, end, tail);
}

// ---------------------------------------------------------------------------
// Numbers
// ---------------------------------------------------------------------------
/// A number is read back from its digits, with a minus for what is below zero and with or without
/// a plus for what is not; a text without a digit, or with anything else in it, is no number.
pub proof fn law_numbers_read_back(n: nat, s: Seq<char>)
    ensures
        integer(crate::text::decimal(n)) == Some(n as int),
        integer(seq!['-'] + crate::text::decimal(n)) == Some(-(n as int)),
        integer(seq!['+'] + crate::text::decimal(n)) == Some(n as int),
        integer(s) is Some <==> is_digits(s) || (s.len() > 0 && (s[0] == '-' || s[0] == '+')
            && is_digits(s.drop_first())),
        i64_text(s) matches Some(v) ==> integer(s) == Some(v as int),
        i64_text(s) is None <==> (integer(s) matches Some(v) ==> v < i64::MIN || v > i64::MAX),
{
    crate::text::law_decimal_reads_back(n);
    let d = crate::text::decimal(n);
    assert((seq!['-'] + d).drop_first() =~= d);
    assert((seq!['+'] + d).drop_first() =~= d);
    assert(d[0] >= '0');
    if is_digits(s) {
        assert('0' <= s[0] <= '9');
    }
}

// ---------------------------------------------------------------------------
// Fields and rows
// ---------------------------------------------------------------------------
/// `s` may stand in a line as it is: no comma is in it and it does not start with a quote.
pub open spec fn is_plain(s: Seq<char>) -> bool {
    &&& !s.contains(',')
    &&& s.len() > 0 ==> s[0] != '"'
}

proof fn lemma_plain_fields(line: Seq<char>, at: int, f: Seq<Seq<char>>)
    requires
        0 <= at <= line.len(),
        f.len() > 0,
        line.skip(at) == joined(f, ','),
        forall|i: int| 0 <= i < f.len() ==> is_plain(#[trigger] f[i]),
    ensures
        crate::ingest::fields(line, at) == Some(f),
    decreases f.len(),
{
    let rem = line.skip(at);
    let p = f[0];
    let k = at + p.len();
    assert(is_plain(f[0]));
    if f.len() > 1 {
        let rest = f.drop_first();
        assert(rem =~= p + (seq![','] + joined(rest, ',')));
        assert(line[k] == rem[k - at]);
        assert(line.skip(k + 1) =~= joined(rest, ',')) by {
            assert forall|j: int| 0 <= j < line.skip(k + 1).len() implies line.skip(k + 1)[j]
                == joined(rest, ',')[j] by {
                assert(rem[p.len() + 1 + j] == line[k + 1 + j]);
            }
        }
        assert forall|i: int| 0 <= i < rest.len() implies is_plain(#[trigger] rest[i]) by {
            assert(rest[i] == f[i + 1]);
        }
        lemma_plain_fields(line, k + 1, rest);
        assert(seq![p] + rest =~= f);
    } else {
        assert(rem =~= p);
        assert(seq![p] =~= f);
    }
    assert forall|i: int| at <= i < k implies #[trigger] line[i] != ',' by {
        assert(rem[i - at] == line[i]);
        assert(p[i - at] == line[i]);
    }
    lemma_found(line, ',', at, k);
    assert(line.subrange(at, k) =~= p) by {
        assert forall|j: int| 0 <= j < p.len() implies line.subrange(at, k)[j] == p[j] by {
            assert(rem[j] == line[at + j]);
        }
    }
    if at < line.len() {
        assert(line[at] == rem[0]);
        if p.len() > 0 {
            assert(rem[0] == p[0]);
        }
    }
}

/// Fields that may stand as they are and were written with commas between them are read back.
pub proof fn law_plain_fields_read_back(f: Seq<Seq<char>>)
    requires
        f.len() > 0,
        forall|i: int| 0 <= i < f.len() ==> is_plain(#[trigger] f[i]),
    ensures
        crate::ingest::fields(joined(f, ','), 0) == Some(f),
{
    let line = joined(f, ',');
    assert(line.skip(0) =~= line);
    lemma_plain_fields(line, 0, f);
}

/// The fields `f` of `line` make a row: one for every column, with a number in every column of
/// numbers.
pub open spec fn is_record(line: Seq<char>, columns: Seq<Column>, f: Seq<Seq<char>>) -> bool {
    &&& crate::ingest::fields(line, 0) == Some(f)
    &&& f.len() == columns.len()
    &&& forall|c: int|
        0 <= c < columns.len() && (#[trigger] columns[c]).ty == ColumnType::Int64 ==> i64_text(
            trimmed(f[c]),
        ) is Some
}

/// `e` says what is wrong with line `at`, counted from one: that a quote in it does not end, that
/// it has too many or too few fields, or what stands in the first column of numbers that holds
/// none.
pub open spec fn is_blame(
    line: Seq<char>,
    at: int,
    columns: Seq<Column>,
    e: IngestFault,
) -> bool {
    match crate::ingest::fields(line, 0) {
        None => e == (IngestFault::UnterminatedQuote { line: at + 1 }),
        Some(f) => if f.len() != columns.len() {
            e == (IngestFault::ColumnCountMismatch {
                line: at + 1,
                expected: columns.len() as int,
                found: f.len() as int,
            })
        } else {
            exists|c: int|
                {
                    &&& 0 <= c < columns.len()
                    &&& (#[trigger] columns[c]).ty == ColumnType::Int64
                    &&& i64_text(trimmed(f[c])) is None
                    &&& forall|d: int|
                        0 <= d < c && (#[trigger] columns[d]).ty == ColumnType::Int64 ==> i64_text(
                            trimmed(f[d]),
                        ) is Some
                    &&& e == (IngestFault::NumericParse {
                        line: at + 1,
                        column: columns[c].name,
                        value: f[c],
                    })
                }
        },
    }
}

proof fn lemma_bad_number(f: Seq<Seq<char>>, columns: Seq<Column>, from: int)
    requires
        0 <= from <= columns.len(),
    ensures
        ({
            let c = crate::ingest::bad_number(f, columns, from);
            &&& from <= c <= columns.len()
            &&& forall|d: int|
                from <= d < c && (#[trigger] columns[d]).ty == ColumnType::Int64 ==> i64_text(
                    trimmed(f[d]),
                ) is Some
            &&& c < columns.len() ==> columns[c].ty == ColumnType::Int64 && i64_text(
                trimmed(f[c]),
            ) is None
        }),
    decreases columns.len() - from,
{
    if from < columns.len() && (columns[from].ty == ColumnType::Utf8 || i64_text(
        trimmed(f[from]),
    ) is Some) {
        lemma_bad_number(f, columns, from + 1);
    }
}

/// A line is read as a row if and only if its fields make one, and else refused with what is
/// wrong with it.
pub proof fn law_a_line_is_a_row_or_to_blame(line: Seq<char>, at: int, columns: Seq<Column>)
    ensures
        crate::ingest::row_on(line, at + 1, columns) matches Ok(f) ==> is_record(line, columns, f),
        forall|f: Seq<Seq<char>>| #[trigger]
            is_record(line, columns, f) ==> crate::ingest::row_on(line, at + 1, columns) == Ok::<
                _,
                IngestFault,
            >(f),
        crate::ingest::row_on(line, at + 1, columns) matches Err(e) ==> is_blame(
            line,
            at,
            columns,
            e,
        ),
{
    if let Some(f) = crate::ingest::fields(line, 0) {
        lemma_bad_number(f, columns, 0);
        let c = crate::ingest::bad_number(f, columns, 0);
        if c < columns.len() {
            assert(columns[c].ty == ColumnType::Int64);
        }
    }
}

/// `idx` are the lines from `at` on that are not empty, in order, and `rows` are the rows that
/// their fields make.
pub open spec fn are_records(
    ls: Seq<Seq<char>>,
    at: int,
    columns: Seq<Column>,
    rows: Seq<Seq<Seq<char>>>,
    idx: Seq<int>,
) -> bool {
    &&& idx.len() == rows.len()
    &&& forall|i: int|
        0 <= i < idx.len() ==> at <= #[trigger] idx[i] < ls.len() && ls[idx[i]].len() > 0
            && is_record(ls[idx[i]], columns, rows[i])
    &&& forall|i: int, j: int| 0 <= i < j < idx.len() ==> #[trigger] idx[i] < #[trigger] idx[j]
    &&& forall|r: int|
        at <= r < ls.len() && (#[trigger] ls[r]).len() > 0 ==> idx.contains(r)
}

proof fn lemma_records(ls: Seq<Seq<char>>, at: int, columns: Seq<Column>) -> (idx: Seq<int>)
    requires
        0 <= at <= ls.len(),
    ensures
        crate::ingest::rows_on(ls, at, columns) matches Ok(rows) ==> are_records(
            ls,
            at,
            columns,
            rows,
            idx,
        ),
    decreases ls.len() - at,
{
    if crate::ingest::rows_on(ls, at, columns) is Ok && at < ls.len() {
        let rows = crate::ingest::rows_on(ls, at, columns)->Ok_0;
        let rest = lemma_records(ls, at + 1, columns);
        let later = crate::ingest::rows_on(ls, at + 1, columns)->Ok_0;
        if ls[at].len() == 0 {
            rest
        } else {
            law_a_line_is_a_row_or_to_blame(ls[at], at, columns);
            let idx = seq![at] + rest;
            assert forall|i: int| 0 <= i < idx.len() implies at <= #[trigger] idx[i] < ls.len()
                && ls[idx[i]].len() > 0 && is_record(ls[idx[i]], columns, rows[i]) by {
                if i > 0 {
                    assert(idx[i] == rest[i - 1]);
                    assert(rows[i] == later[i - 1]);
                }
            }
            assert forall|i: int, j: int| 0 <= i < j < idx.len() implies #[trigger] idx[i]
                < #[trigger] idx[j] by {
                assert(idx[j] == rest[j - 1]);
                if i > 0 {
                    assert(idx[i] == rest[i - 1]);
                }
            }
            assert forall|r: int| at <= r < ls.len() && (#[trigger] ls[r]).len() > 0 implies
                idx.contains(r) by {
                if r > at {
                    let i = choose|i: int| 0 <= i < rest.len() && rest[i] == r;
                    assert(idx[i + 1] == r);
                } else {
                    assert(idx[0] == r);
                }
            }
            idx
        }
    } else {
        Seq::empty()
    }
}

proof fn lemma_blamed(ls: Seq<Seq<char>>, at: int, columns: Seq<Column>) -> (i: int)
    requires
        0 <= at <= ls.len(),
    ensures
        crate::ingest::rows_on(ls, at, columns) matches Err(e) ==> is_first_blamed(
            ls,
            at,
            columns,
            i,
            e,
        ),
    decreases ls.len() - at,
{
    if crate::ingest::rows_on(ls, at, columns) is Err {
        law_a_line_is_a_row_or_to_blame(ls[at], at, columns);
        if ls[at].len() > 0 && crate::ingest::row_on(ls[at], at + 1, columns) is Err {
            at
        } else {
            let i = lemma_blamed(ls, at + 1, columns);
            assert forall|r: int| at <= r < i && (#[trigger] ls[r]).len() > 0 implies exists|
                f: Seq<Seq<char>>,
            | is_record(ls[r], columns, f) by {
                if r == at {
                    assert(is_record(
                        ls[r],
                        columns,
                        crate::ingest::row_on(ls[at], at + 1, columns)->Ok_0,
                    ));
                }
            }
            i
        }
    } else {
        at
    }
}

/// Line `i` is the first from `at` on that is not empty and makes no row, and `e` says what is
/// wrong with it.
pub open spec fn is_first_blamed(
    ls: Seq<Seq<char>>,
    at: int,
    columns: Seq<Column>,
    i: int,
    e: IngestFault,
) -> bool {
    &&& at <= i < ls.len()
    &&& ls[i].len() > 0
    &&& is_blame(ls[i], i, columns, e)
    &&& forall|r: int|
        at <= r < i && (#[trigger] ls[r]).len() > 0 ==> exists|f: Seq<Seq<char>>|
            is_record(ls[r], columns, f)
}

/// The lines of a text that are not empty are its rows, in order. If one of them makes none, the
/// text is refused for the first such line.
pub proof fn law_lines_are_rows(ls: Seq<Seq<char>>, at: int, columns: Seq<Column>)
    requires
        0 <= at <= ls.len(),
    ensures
        crate::ingest::rows_on(ls, at, columns) matches Ok(rows) ==> exists|idx: Seq<int>|
            are_records(ls, at, columns, rows, idx),
        crate::ingest::rows_on(ls, at, columns) matches Err(e) ==> exists|i: int|
            is_first_blamed(ls, at, columns, i, e),
{
    let idx = lemma_records(ls, at, columns);
    let i = lemma_blamed(ls, at, columns);
    if let Ok(rows) = crate::ingest::rows_on(ls, at, columns) {
        assert(are_records(ls, at, columns, rows, idx));
    }
}

/// A text has to be UTF-8. Where it has a header, the fields of the first line have to be the
/// names of the columns, and the rows are those of the lines behind it; else they are those of
/// all lines.
pub proof fn law_a_header_names_the_columns(
    raw: Seq<u8>,
    columns: Seq<Column>,
    has_header: bool,
)
    ensures
        ({
            let ls = lines(vstd::utf8::decode_utf8(raw), 0);
            let r = crate::ingest::table_rows(raw, columns, has_header);
            &&& !vstd::utf8::valid_utf8(raw) ==> r == Err::<Seq<Seq<Seq<char>>>, _>(
                IngestFault::InvalidUtf8 { line: 0, column: "<file>"@ },
            )
            &&& vstd::utf8::valid_utf8(raw) && !has_header ==> r == crate::ingest::rows_on(
                ls,
                0,
                columns,
            )
            &&& vstd::utf8::valid_utf8(raw) && has_header && ls.len() > 0 ==> match
                crate::ingest::fields(ls[0], 0) {
                None => r == Err::<Seq<Seq<Seq<char>>>, _>(
                    IngestFault::UnterminatedQuote { line: 1 },
                ),
                Some(f) => {
                    let same = f.len() == columns.len() && forall|c: int|
                        0 <= c < f.len() ==> #[trigger] f[c] == columns[c].name;
                    &&& same ==> r == crate::ingest::rows_on(ls, 1, columns)
                    &&& !same ==> (r matches Err(IngestFault::HeaderMismatch { expected, found })
                        && found == f && expected.len() == columns.len() && forall|c: int|
                        0 <= c < columns.len() ==> #[trigger] expected[c] == columns[c].name)
                },
            }
            &&& vstd::utf8::valid_utf8(raw) && ls.len() == 0 ==> (r matches Ok(rows) && rows.len()
                == 0)
        }),
{
    let ls = lines(vstd::utf8::decode_utf8(raw), 0);
    if ls.len() > 0 {
        if let Some(f) = crate::ingest::fields(ls[0], 0) {
            let n = crate::ingest::names(columns);
            assert forall|c: int| 0 <= c < columns.len() implies #[trigger] n[c]
                == columns[c].name by {}
            if f.len() == columns.len() && forall|c: int|
                0 <= c < f.len() ==> #[trigger] f[c] == columns[c].name {
                assert(f =~= n);
            } else if f == n {
                assert forall|c: int| 0 <= c < f.len() implies #[trigger] f[c]
                    == columns[c].name by {
                    assert(n[c] == columns[c].name);
                }
            }
        }
    }
}

/// A column of numbers holds, row by row, the number that the trimmed field writes, and a column
/// of texts the bytes of the field.
pub proof fn law_a_column_holds_its_fields(rows: Seq<Seq<Seq<char>>>, c: int, r: int)
    requires
        0 <= r < rows.len(),
    ensures
        crate::ingest::column_values(rows, c, ColumnType::Int64) matches Values::Int64(v)
            && v.len() == rows.len() && (i64_text(trimmed(rows[r][c])) matches Some(x) ==> v[r]
            == x),
        crate::ingest::column_values(rows, c, ColumnType::Utf8) matches Values::Utf8(t)
            && t.len() == rows.len() && vstd::utf8::decode_utf8(t[r]) == rows[r][c],
{
    vstd::utf8::encode_utf8_decode_utf8(rows[r][c]);
}

// ---------------------------------------------------------------------------
// Schemas
// ---------------------------------------------------------------------------
/// `piece` describes `col`: a name, a colon and the word for a type, with white space round each.
pub open spec fn describes(piece: Seq<char>, col: Column) -> bool {
    exists|a: Seq<char>, w: Seq<char>|
        {
            &&& trimmed(piece) == #[trigger] (a + seq![':'] + w)
            &&& !a.contains(':')
            &&& trimmed(a) == col.name
            &&& col.name.len() > 0
            &&& col.ty == ColumnType::Int64 ==> trimmed(w) == "i64"@ || trimmed(w) == "int64"@
                || trimmed(w) == "int"@
            &&& col.ty == ColumnType::Utf8 ==> trimmed(w) == "utf8"@ || trimmed(w) == "text"@
                || trimmed(w) == "string"@
        }
}

proof fn lemma_described(piece: Seq<char>, index: int, whole: Seq<char>)
    ensures
        crate::ingest::column_described(piece, index, whole) matches Ok(col) ==> describes(
            piece,
            col,
        ),
{
    if let Ok(col) = crate::ingest::column_described(piece, index, whole) {
        let field = trimmed(piece);
        crate::text::lemma_find(field, ':', 0);
        let k = find(field, ':', 0);
        let a = field.take(k);
        let w = field.skip(k + 1);
        assert(field =~= a + seq![':'] + w);
        if a.contains(':') {
            let i = choose|i: int| 0 <= i < a.len() && a[i] == ':';
            assert(field[i] == ':');
        }
    }
}

proof fn lemma_all_described(ps: Seq<Seq<char>>, from: int, whole: Seq<char>)
    requires
        0 <= from <= ps.len(),
    ensures
        crate::ingest::columns_described(ps, from, whole) matches Ok(cols) ==> cols.len()
            == ps.len() - from && forall|i: int|
            0 <= i < cols.len() ==> describes(ps[from + i], #[trigger] cols[i]),
    decreases ps.len() - from,
{
    if from < ps.len() {
        lemma_described(ps[from], from, whole);
        lemma_all_described(ps, from + 1, whole);
        if let Ok(cols) = crate::ingest::columns_described(ps, from, whole) {
            let rest = crate::ingest::columns_described(ps, from + 1, whole)->Ok_0;
            assert forall|i: int| 0 <= i < cols.len() implies describes(
                ps[from + i],
                #[trigger] cols[i],
            ) by {
                if i > 0 {
                    assert(cols[i] == rest[i - 1]);
                    assert(ps[from + i] == ps[(from + 1) + (i - 1)]);
                }
            }
        }
    }
}

/// A schema that is accepted has a column for every piece between its commas, in that order, and
/// each is the one that its piece describes.
pub proof fn law_a_schema_has_the_columns_it_describes(spec: Seq<char>)
    ensures
        crate::ingest::schema_described(spec) matches Ok(cols) ==> {
            let ps = pieces(spec, ',', 0);
            &&& cols.len() == ps.len()
            &&& forall|i: int| 0 <= i < cols.len() ==> describes(ps[i], #[trigger] cols[i])
        },
{
    let ps = pieces(spec, ',', 0);
    lemma_all_described(ps, 0, spec);
    if let Ok(cols) = crate::ingest::schema_described(spec) {
        assert forall|i: int| 0 <= i < cols.len() implies describes(ps[i], #[trigger] cols[i]) by {
            assert(ps[0 + i] == ps[i]);
        }
    }
}

proof fn lemma_describing(piece: Seq<char>, index: int, whole: Seq<char>, col: Column)
    requires
        describes(piece, col),
    ensures
        crate::ingest::column_described(piece, index, whole) == Ok::<_, IngestFault>(col),
{
    let field = trimmed(piece);
    let (a, w) = choose|a: Seq<char>, w: Seq<char>|
        {
            &&& field == #[trigger] (a + seq![':'] + w)
            &&& !a.contains(':')
            &&& trimmed(a) == col.name
            &&& col.name.len() > 0
            &&& col.ty == ColumnType::Int64 ==> trimmed(w) == "i64"@ || trimmed(w) == "int64"@
                || trimmed(w) == "int"@
            &&& col.ty == ColumnType::Utf8 ==> trimmed(w) == "utf8"@ || trimmed(w) == "text"@
                || trimmed(w) == "string"@
        };
    let k = a.len() as int;
    assert forall|i: int| 0 <= i < k implies #[trigger] field[i] != ':' by {
        assert(a[i] == field[i]);
    }
    lemma_found(field, ':', 0, k);
    assert(field.take(k) =~= a);
    assert(field.skip(k + 1) =~= w);
    reveal_strlit("i64");
    reveal_strlit("int64");
    reveal_strlit("int");
    reveal_strlit("utf8");
    reveal_strlit("text");
    reveal_strlit("string");
    assert("i64"@[0] == 'i' && "int64"@[0] == 'i' && "int"@[0] == 'i');
    assert("utf8"@[0] == 'u' && "text"@[0] == 't' && "string"@[0] == 's');
}

proof fn lemma_describing_all(
    ps: Seq<Seq<char>>,
    from: int,
    whole: Seq<char>,
    cols: Seq<Column>,
)
    requires
        0 <= from <= ps.len(),
        cols.len() == ps.len(),
        forall|i: int| 0 <= i < cols.len() ==> describes(ps[i], #[trigger] cols[i]),
    ensures
        crate::ingest::columns_described(ps, from, whole) == Ok::<_, IngestFault>(cols.skip(from)),
    decreases ps.len() - from,
{
    if from < ps.len() {
        assert(describes(ps[from], cols[from]));
        lemma_describing(ps[from], from, whole, cols[from]);
        lemma_describing_all(ps, from + 1, whole, cols);
        assert(seq![cols[from]] + cols.skip(from + 1) =~= cols.skip(from));
    } else {
        assert(cols.skip(from) =~= Seq::empty());
    }
}

proof fn lemma_none_recurs(cols: Seq<Column>, from: int)
    requires
        0 <= from <= cols.len(),
        forall|i: int, j: int|
            0 <= i < j < cols.len() ==> (#[trigger] cols[i]).name != (#[trigger] cols[j]).name,
    ensures
        crate::ingest::first_recurring(cols, from) == cols.len(),
    decreases cols.len() - from,
{
    if from < cols.len() {
        assert(!crate::ingest::name_recurs(cols, from)) by {
            if crate::ingest::name_recurs(cols, from) {
                let j = choose|j: int|
                    from < j < cols.len() && cols[from].name == (#[trigger] cols[j]).name;
                assert(cols[from].name != cols[j].name);
            }
        }
        lemma_none_recurs(cols, from + 1);
    }
}

/// A text whose pieces each describe a column, no two of one name, is a schema of these columns.
pub proof fn law_what_describes_columns_is_a_schema(spec: Seq<char>, cols: Seq<Column>)
    requires
        cols.len() == pieces(spec, ',', 0).len(),
        forall|i: int|
            0 <= i < cols.len() ==> describes(pieces(spec, ',', 0)[i], #[trigger] cols[i]),
        forall|i: int, j: int|
            0 <= i < j < cols.len() ==> (#[trigger] cols[i]).name != (#[trigger] cols[j]).name,
    ensures
        crate::ingest::schema_described(spec) == Ok::<_, IngestFault>(cols),
{
    let ps = pieces(spec, ',', 0);
    lemma_describing_all(ps, 0, spec, cols);
    assert(cols.skip(0) =~= cols);
    lemma_none_recurs(cols, 0);
}

} // verus!
