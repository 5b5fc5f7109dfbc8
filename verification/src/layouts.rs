//! What stands where in the files of columns, told byte by byte.

use crate::columnar::{ColumnarChunk, Int64ColumnMeta, StorageError, Utf8ColumnMeta};
use crate::zonemap::ZonePage;
use vstd::arithmetic::power::pow;
use vstd::prelude::*;

verus! {

// ---------------------------------------------------------------------------
// Numbers
// ---------------------------------------------------------------------------
/// Byte `i` of `x`, the lowest first.
pub open spec fn byte_of(x: nat, i: int) -> int {
    (x as int / pow(256, i as nat)) % 256
}

/// From `at` on, `s` holds the `n` lowest bytes of `x`, the lowest first.
pub open spec fn holds_bytes(s: Seq<u8>, at: int, n: int, x: nat) -> bool {
    &&& 0 <= at
    &&& at + n <= s.len()
    &&& forall|i: int| 0 <= i < n ==> #[trigger] s[at + i] == byte_of(x, i)
}

/// The 64 bits of `v` as a number that is not below zero.
pub open spec fn bits_of(v: i64) -> nat {
    if v < 0 {
        (0x1_0000_0000_0000_0000 + v) as nat
    } else {
        v as nat
    }
}

proof fn lemma_byte(x: nat, n: nat, i: int)
    requires
        0 <= i < n,
    ensures
        crate::bytes::le(x, n).len() == n,
        crate::bytes::le(x, n)[i] == byte_of(x, i),
    decreases n,
{
    crate::bytes::lemma_le_len(x, n);
    let rest = crate::bytes::le(x / 256, (n - 1) as nat);
    if i == 0 {
        vstd::arithmetic::power::lemma_pow0(256);
    } else {
        lemma_byte(x / 256, (n - 1) as nat, i - 1);
        assert(crate::bytes::le(x, n)[i] == rest[i - 1]);
        vstd::arithmetic::power::lemma_pow1(256);
        vstd::arithmetic::power::lemma_pow_adds(256, 1, (i - 1) as nat);
        vstd::arithmetic::power::lemma_pow_positive(256, (i - 1) as nat);
        vstd::arithmetic::div_mod::lemma_div_denominator(
            x as int,
            256,
            pow(256, (i - 1) as nat),
        );
    }
}

/// Numbers are laid out with their lowest byte first, and a number below zero as the one with the
/// same 64 bits that is not.
pub proof fn law_numbers_stand_lowest_byte_first(x: nat, n: nat, v: i64)
    ensures
        crate::bytes::le(x, n).len() == n,
        holds_bytes(crate::bytes::le(x, n), 0, n as int, x),
        crate::bytes::i64_bytes(v).len() == 8,
        holds_bytes(crate::bytes::i64_bytes(v), 0, 8, bits_of(v)),
{
    crate::bytes::lemma_le_len(x, n);
    let s = crate::bytes::le(x, n);
    assert forall|i: int| 0 <= i < n implies #[trigger] s[0 + i] == byte_of(x, i) by {
        lemma_byte(x, n, i);
    }
    let t = crate::bytes::i64_bytes(v);
    crate::bytes::lemma_le_len(bits_of(v), 8);
    assert forall|i: int| 0 <= i < 8 implies #[trigger] t[0 + i] == byte_of(bits_of(v), i) by {
        lemma_byte(bits_of(v), 8, i);
    }
}

proof fn lemma_number_in(s: Seq<u8>, at: int, x: nat, n: nat)
    requires
        0 <= at,
        at + n <= s.len(),
        s.subrange(at, at + n) == crate::bytes::le(x, n),
    ensures
        holds_bytes(s, at, n as int, x),
{
    let part = s.subrange(at, at + n);
    assert forall|i: int| 0 <= i < n implies #[trigger] s[at + i] == byte_of(x, i) by {
        lemma_byte(x, n, i);
        assert(part[i] == s[at + i]);
    }
}

// ---------------------------------------------------------------------------
// Files
// ---------------------------------------------------------------------------
/// A file of `len` bytes that is filled up to whole pages: behind them stand zeros, as few as
/// will do.
pub open spec fn is_filled_up(file: Seq<u8>, len: int, page_size: nat) -> bool {
    &&& len <= file.len()
    &&& file.len() % page_size == 0
    &&& file.len() < len + page_size
    &&& forall|k: int| len <= k < file.len() ==> #[trigger] file[k] == 0
}

proof fn lemma_filled_up(run: Seq<u8>, page_size: nat)
    requires
        page_size > 0,
    ensures
        is_filled_up(
            run + crate::bytes::zeros(crate::bytes::page_gap(run.len(), page_size)),
            run.len() as int,
            page_size,
        ),
{
    let n = run.len() as int;
    let p = page_size as int;
    let gap = crate::bytes::page_gap(run.len(), page_size) as int;
    let r = n % p;
    let q = n / p;
    assert(n == p * q + r && 0 <= r < p) by (nonlinear_arith)
        requires
            p > 0,
            r == n % p,
            q == n / p,
    ;
    if r == 0 {
        assert(n + gap == n);
    } else {
        assert(n + gap == p * (q + 1)) by (nonlinear_arith)
            requires
                n == p * q + r,
                gap == p - r,
        ;
        assert((p * (q + 1)) % p == 0) by (nonlinear_arith)
            requires
                p > 0,
        ;
    }
}

/// The file of an integer column holds its values one behind the other, eight bytes each, and is
/// filled up to whole pages.
pub proof fn law_an_integer_file_holds_its_values(values: Seq<i64>, page_size: nat)
    requires
        page_size > 0,
    ensures
        ({
            let file = crate::columnar::i64_file(values, page_size);
            &&& is_filled_up(file, 8 * values.len() as int, page_size)
            &&& forall|i: int|
                0 <= i < values.len() ==> holds_bytes(file, 8 * i, 8, bits_of(#[trigger] values[i]))
        }),
{
    let run = crate::columnar::i64_run(values);
    let file = crate::columnar::i64_file(values, page_size);
    crate::columnar::lemma_i64_run_len(values);
    lemma_filled_up(run, page_size);
    let records = values.map_values(|v: i64| crate::bytes::i64_bytes(v));
    assert forall|k: int| 0 <= k < records.len() implies #[trigger] records[k].len() == 8 by {
        crate::bytes::law_i64_reads_back(values[k]);
    }
    assert forall|i: int| 0 <= i < values.len() implies holds_bytes(
        file,
        8 * i,
        8,
        bits_of(#[trigger] values[i]),
    ) by {
        crate::bytes::lemma_even_records(records, 8, i);
        assert(file.subrange(8 * i, 8 * i + 8) =~= run.subrange(8 * i, 8 * i + 8));
        assert(records[i] == crate::bytes::le(bits_of(values[i]), 8));
        lemma_number_in(file, 8 * i, bits_of(values[i]), 8);
    }
}

/// Entry `i` in `file` says where text `i` starts in the blob and how long it is, and there it
/// stands.
pub open spec fn places_text(file: Seq<u8>, texts: Seq<Seq<u8>>, i: int) -> bool {
    let start = crate::columnar::text_start(texts, i);
    let end = start + texts[i].len();
    &&& holds_bytes(file, 8 * i, 4, start)
    &&& holds_bytes(file, 8 * i + 4, 4, texts[i].len())
    &&& end <= texts.flatten().len()
    &&& texts.flatten().subrange(start as int, end as int) == texts[i]
}

/// The file of the offsets of a text column holds, for each text in order, where it starts in the
/// blob and how long it is, four bytes each, and is filled up to whole pages. Texts stand in the
/// blob one behind the other.
pub proof fn law_an_offsets_file_holds_its_texts(texts: Seq<Seq<u8>>, page_size: nat)
    requires
        page_size > 0,
        texts.flatten().len() <= u32::MAX,
    ensures
        ({
            let file = crate::columnar::offsets_file(texts, page_size);
            &&& is_filled_up(file, 8 * texts.len() as int, page_size)
            &&& forall|i: int|
                0 <= i < texts.len() ==> #[trigger] places_text(file, texts, i)
            &&& crate::columnar::text_start(texts, 0) == 0
            &&& forall|i: int|
                0 <= i < texts.len() ==> crate::columnar::text_start(texts, i + 1)
                    == crate::columnar::text_start(texts, i) + (#[trigger] texts[i]).len()
        }),
{
    let run = crate::columnar::offset_run(texts);
    let file = crate::columnar::offsets_file(texts, page_size);
    let all = crate::columnar::entries(texts);
    let records = all.map_values(|e: crate::columnar::Utf8OffsetEntry| e.bytes());
    assert forall|k: int| 0 <= k < records.len() implies #[trigger] records[k].len() == 8 by {
        crate::bytes::lemma_le_len(all[k].offset as nat, 4);
        crate::bytes::lemma_le_len(all[k].length as nat, 4);
    }
    crate::bytes::lemma_even_len(records, 8);
    lemma_filled_up(run, page_size);
    assert(records.len() == texts.len());
    assert(is_filled_up(file, 8 * texts.len() as int, page_size));
    assert(texts.take(0) =~= Seq::<Seq<u8>>::empty());
    assert(texts.take(0).flatten() =~= Seq::<u8>::empty());
    assert(crate::columnar::text_start(texts, 0) == 0);
    assert forall|i: int| 0 <= i < texts.len() implies #[trigger] places_text(file, texts, i) by {
        crate::columnar::lemma_text_step(texts, i);
        crate::columnar::lemma_texts_grow(texts, i + 1);
        crate::columnar::lemma_text_at(texts, i);
        crate::bytes::lemma_even_records(records, 8, i);
        let e = all[i];
        let record = e.bytes();
        crate::bytes::lemma_le_len(e.offset as nat, 4);
        crate::bytes::lemma_le_len(e.length as nat, 4);
        assert(file.subrange(8 * i, 8 * i + 8) =~= record);
        assert(file.subrange(8 * i, 8 * i + 4) =~= crate::bytes::le(e.offset as nat, 4)) by {
            assert(file.subrange(8 * i, 8 * i + 4) =~= record.subrange(0, 4));
        }
        assert(file.subrange(8 * i + 4, 8 * i + 8) =~= crate::bytes::le(e.length as nat, 4)) by {
            assert(file.subrange(8 * i + 4, 8 * i + 8) =~= record.subrange(4, 8));
        }
        lemma_number_in(file, 8 * i, e.offset as nat, 4);
        lemma_number_in(file, 8 * i + 4, e.length as nat, 4);
    }
    assert forall|i: int| 0 <= i < texts.len() implies crate::columnar::text_start(texts, i + 1)
        == crate::columnar::text_start(texts, i) + (#[trigger] texts[i]).len() by {
        crate::columnar::lemma_text_step(texts, i);
    }
}

/// The companion of an integer column holds the number of rows in eight bytes; that of a text
/// column holds it too, and behind it the length of the blob in eight bytes.
pub proof fn law_a_companion_holds_its_counts(m: Int64ColumnMeta, t: Utf8ColumnMeta)
    ensures
        m.bytes().len() == 8,
        holds_bytes(m.bytes(), 0, 8, m.row_count as nat),
        t.bytes().len() == 16,
        holds_bytes(t.bytes(), 0, 8, t.row_count as nat),
        holds_bytes(t.bytes(), 8, 8, t.blob_len as nat),
{
    crate::bytes::lemma_le_len(m.row_count as nat, 8);
    crate::bytes::lemma_le_len(t.row_count as nat, 8);
    crate::bytes::lemma_le_len(t.blob_len as nat, 8);
    assert(m.bytes().subrange(0, 8) =~= m.bytes());
    assert(t.bytes().subrange(0, 8) =~= crate::bytes::le(t.row_count as nat, 8));
    assert(t.bytes().subrange(8, 16) =~= crate::bytes::le(t.blob_len as nat, 8));
    lemma_number_in(m.bytes(), 0, m.row_count as nat, 8);
    lemma_number_in(t.bytes(), 0, t.row_count as nat, 8);
    lemma_number_in(t.bytes(), 8, t.blob_len as nat, 8);
}

/// The file of a zone map holds a record of twenty-four bytes for every page: its number, its
/// rows, its least value and its greatest.
pub proof fn law_a_zone_file_holds_its_records(z: Seq<ZonePage>)
    ensures
        ({
            let file = crate::zonemap::zone_file(z);
            &&& file.len() == 24 * z.len()
            &&& forall|i: int|
                0 <= i < z.len() ==> {
                    &&& holds_bytes(file, 24 * i, 4, (#[trigger] z[i]).page_index as nat)
                    &&& holds_bytes(file, 24 * i + 4, 4, z[i].row_count as nat)
                    &&& holds_bytes(file, 24 * i + 8, 8, bits_of(z[i].min))
                    &&& holds_bytes(file, 24 * i + 16, 8, bits_of(z[i].max))
                }
        }),
{
    let file = crate::zonemap::zone_file(z);
    let records = z.map_values(|p: ZonePage| p.bytes());
    assert forall|k: int| 0 <= k < records.len() implies #[trigger] records[k].len() == 24 by {
        lemma_zone_record(z[k]);
    }
    crate::bytes::lemma_even_len(records, 24);
    assert forall|i: int| 0 <= i < z.len() implies {
        &&& holds_bytes(file, 24 * i, 4, (#[trigger] z[i]).page_index as nat)
        &&& holds_bytes(file, 24 * i + 4, 4, z[i].row_count as nat)
        &&& holds_bytes(file, 24 * i + 8, 8, bits_of(z[i].min))
        &&& holds_bytes(file, 24 * i + 16, 8, bits_of(z[i].max))
    } by {
        let p = z[i];
        let s = p.bytes();
        lemma_zone_record(p);
        crate::bytes::lemma_even_records(records, 24, i);
        assert(records[i] == s);
        let a = 24 * i;
        assert(file.subrange(a, a + 24) == s);
        assert forall|u: int, v: int| 0 <= u <= v <= 24 implies file.subrange(a + u, a + v)
            == #[trigger] s.subrange(u, v) by {
            assert(file.subrange(a + u, a + v) =~= file.subrange(a, a + 24).subrange(u, v));
        }
        assert(s.subrange(0, 4) == crate::bytes::le(p.page_index as nat, 4));
        assert(s.subrange(4, 8) == crate::bytes::le(p.row_count as nat, 4));
        assert(s.subrange(8, 16) == crate::bytes::le(bits_of(p.min), 8));
        assert(s.subrange(16, 24) == crate::bytes::le(bits_of(p.max), 8));
        assert(file.subrange(a + 0, a + 4) == s.subrange(0, 4));
        lemma_number_in(file, a, p.page_index as nat, 4);
        lemma_number_in(file, a + 4, p.row_count as nat, 4);
        lemma_number_in(file, a + 8, bits_of(p.min), 8);
        lemma_number_in(file, a + 16, bits_of(p.max), 8);
    }
}

proof fn lemma_zone_record(p: ZonePage)
    ensures
        p.bytes().len() == 24,
        p.bytes().subrange(0, 4) == crate::bytes::le(p.page_index as nat, 4),
        p.bytes().subrange(4, 8) == crate::bytes::le(p.row_count as nat, 4),
        p.bytes().subrange(8, 16) == crate::bytes::le(bits_of(p.min), 8),
        p.bytes().subrange(16, 24) == crate::bytes::le(bits_of(p.max), 8),
{
    let s = p.bytes();
    crate::bytes::lemma_le_len(p.page_index as nat, 4);
    crate::bytes::lemma_le_len(p.row_count as nat, 4);
    crate::bytes::lemma_le_len(bits_of(p.min), 8);
    crate::bytes::lemma_le_len(bits_of(p.max), 8);
    assert(s.subrange(0, 4) =~= crate::bytes::le(p.page_index as nat, 4));
    assert(s.subrange(4, 8) =~= crate::bytes::le(p.row_count as nat, 4));
    assert(s.subrange(8, 16) =~= crate::bytes::le(bits_of(p.min), 8));
    assert(s.subrange(16, 24) =~= crate::bytes::le(bits_of(p.max), 8));
}

/// A column is refused if and only if its bytes are no whole number of values or its companion
/// says more rows than there are; else it has the rows that its companion says, or all there are,
/// and each of them is the number whose bytes stand in its place.
pub proof fn law_an_integer_column_is_opened_or_refused(
    bin: Seq<u8>,
    meta: Option<Int64ColumnMeta>,
    v: i64,
)
    ensures
        ({
            let r = crate::columnar::opened(bin, meta);
            let all = bin.len() / 8;
            &&& r == Err::<Seq<i64>, _>(StorageError::RaggedColumn) <==> bin.len() % 8 != 0
            &&& r == Err::<Seq<i64>, _>(StorageError::RowCountBeyondColumn) <==> bin.len() % 8 == 0
                && meta is Some && meta->0.row_count > all
            &&& r matches Ok(rows) ==> {
                &&& rows.len() == if meta is Some {
                    meta->0.row_count as nat
                } else {
                    all
                }
                &&& forall|i: int|
                    0 <= i < rows.len() && bin.subrange(8 * i, 8 * i + 8)
                        == crate::bytes::i64_bytes(v) ==> #[trigger] rows[i] == v
            }
        }),
{
    crate::bytes::law_i64_reads_back(v);
}

// ---------------------------------------------------------------------------
// Pages
// ---------------------------------------------------------------------------
proof fn lemma_page(rows: Seq<i64>, from: int, page_rows: int, i: int, j: int)
    requires
        0 <= from,
        page_rows > 0,
        0 <= i < crate::columnar::pages(rows, from, page_rows).len(),
        0 <= j < crate::columnar::pages(rows, from, page_rows)[i].len(),
    ensures
        from + i * page_rows + j < rows.len(),
        crate::columnar::pages(rows, from, page_rows)[i][j] == rows[from + i * page_rows + j],
    decreases i,
{
    if i == 0 {
        assert(i * page_rows == 0) by (nonlinear_arith)
            requires
                i == 0,
        ;
    } else {
        let rest = crate::columnar::pages(rows, from + page_rows, page_rows);
        assert(crate::columnar::pages(rows, from, page_rows)[i] == rest[i - 1]);
        lemma_page(rows, from + page_rows, page_rows, i - 1, j);
        assert(i * page_rows == (i - 1) * page_rows + page_rows) by (nonlinear_arith);
    }
}

/// Row `j` of page `i` is the row of the column that comes that many pages and rows behind the
/// first.
pub proof fn law_a_page_holds_its_rows(rows: Seq<i64>, page_rows: int, i: int, j: int)
    requires
        page_rows > 0,
        0 <= i < crate::columnar::pages(rows, 0, page_rows).len(),
        0 <= j < crate::columnar::pages(rows, 0, page_rows)[i].len(),
    ensures
        i * page_rows + j < rows.len(),
        crate::columnar::pages(rows, 0, page_rows)[i][j] == rows[i * page_rows + j],
{
    lemma_page(rows, 0, page_rows, i, j);
}

/// A page has as many rows as it has room for, eight bytes each, and at least one.
pub proof fn law_a_page_has_the_rows_it_has_room_for(page_size: nat)
    ensures
        crate::columnar::rows_per_page(page_size) >= 1,
        8 * crate::columnar::rows_per_page(page_size) > page_size - 8,
        page_size >= 8 ==> 8 * crate::columnar::rows_per_page(page_size) <= page_size,
        page_size < 8 ==> crate::columnar::rows_per_page(page_size) == 1,
{
}

/// A zone map has a record for every page, with its number, its rows, and the least and the
/// greatest of them.
pub proof fn law_a_zone_map_tells_its_pages(rows: Seq<i64>, page_rows: int, i: int)
    requires
        page_rows > 0,
        rows.len() <= u32::MAX,
        0 <= i < crate::columnar::pages(rows, 0, page_rows).len(),
    ensures
        ({
            let page = crate::columnar::pages(rows, 0, page_rows)[i];
            let z = crate::zonemap::zones(rows, page_rows);
            &&& z.len() == crate::columnar::pages(rows, 0, page_rows).len()
            &&& i < rows.len()
            &&& z[i].page_index == i
            &&& z[i].row_count == page.len()
            &&& page.contains(z[i].min)
            &&& page.contains(z[i].max)
            &&& forall|j: int| 0 <= j < page.len() ==> z[i].min <= #[trigger] page[j] <= z[i].max
        }),
{
    let all = crate::columnar::pages(rows, 0, page_rows);
    crate::columnar::law_pages_are_whole_but_the_last(rows, page_rows);
    let full = rows.len() as int / page_rows;
    assert(all[i].len() == if i < full { page_rows } else { rows.len() as int % page_rows });
    assert(rows.len() as int % page_rows >= 0) by (nonlinear_arith)
        requires
            page_rows > 0,
    ;
    lemma_page(rows, 0, page_rows, i, all[i].len() - 1);
    assert(i * page_rows >= i) by (nonlinear_arith)
        requires
            page_rows > 0,
            i >= 0,
    ;
    crate::zonemap::law_zone_bounds_every_row(all[i]);
}

/// A window of a column holds the rows from where it starts on, as many as make a page or as
/// there are, and says whether they make a whole one.
pub proof fn law_a_window_holds_the_rows_from_its_start(
    chunk: ColumnarChunk<'_>,
    rows: Seq<i64>,
    page: int,
    page_rows: int,
)
    requires
        0 < page_rows <= u16::MAX,
        0 <= page * page_rows < rows.len(),
        page <= u32::MAX,
        chunk.is_page(rows, page * page_rows, page_rows),
    ensures
        ({
            let from = page * page_rows;
            let left = rows.len() - from;
            &&& chunk.rows@.len() == if left < page_rows {
                left
            } else {
                page_rows
            }
            &&& chunk.row_count == chunk.rows@.len()
            &&& forall|j: int|
                0 <= j < chunk.rows@.len() ==> #[trigger] chunk.rows@[j] == rows[from + j]
            &&& chunk.page_index == page
            &&& chunk.is_residue == 1 <==> left < page_rows
            &&& chunk.is_residue == 0 <==> left >= page_rows
        }),
{
    assert(page >= 0) by (nonlinear_arith)
        requires
            0 < page_rows,
            0 <= page * page_rows,
    ;
    vstd::arithmetic::div_mod::lemma_div_by_multiple(page, page_rows);
}

/// A companion that is too short is refused, by its own name where it was asked for and as the end
/// of its file where it stands beside the column; without one all values are rows.
pub proof fn law_a_short_companion_is_refused(bin: Seq<u8>, meta: Seq<u8>)
    ensures
        meta.len() < 8 ==> crate::columnar::opened_with(bin, meta) == Err::<Seq<i64>, _>(
            StorageError::Int64MetaTooShort,
        ),
        meta.len() < 8 ==> crate::columnar::opened_beside(bin, Some(meta)) == Err::<Seq<i64>, _>(
            StorageError::UnexpectedEof,
        ),
        meta.len() >= 8 ==> crate::columnar::opened_with(bin, meta)
            == crate::columnar::opened_beside(bin, Some(meta)),
        crate::columnar::opened_beside(bin, None) == crate::columnar::opened(bin, None),
        forall|m: Int64ColumnMeta|
            meta == #[trigger] m.bytes() ==> crate::columnar::opened_with(bin, meta)
                == crate::columnar::opened(bin, Some(m)),
{
    assert forall|m: Int64ColumnMeta| meta == #[trigger] m.bytes() implies
        crate::columnar::opened_with(bin, meta) == crate::columnar::opened(bin, Some(m)) by {
        crate::columnar::law_int64_meta_reads_back(m);
    }
}

/// A text column is refused if and only if its offsets are no whole number of entries, or its
/// companion is too short, says more rows than there are entries, or another length than that of
/// the blob. A row of it is what its entry points to, if that lies in the blob.
pub proof fn law_a_text_column_is_opened_or_refused(
    offsets: Seq<u8>,
    blob: Seq<u8>,
    m: Utf8ColumnMeta,
    short: Seq<u8>,
)
    requires
        short.len() < 16,
        offsets.len() <= u64::MAX,
        blob.len() <= u64::MAX,
    ensures
        ({
            let whole = offsets.len() % 8 == 0;
            let plain = crate::columnar::opened_text(offsets, blob, None);
            let r = crate::columnar::opened_text(offsets, blob, Some(m.bytes()));
            let cut = crate::columnar::opened_text(offsets, blob, Some(short));
            &&& !whole ==> plain == Err::<Utf8ColumnMeta, _>(StorageError::RaggedOffsets) && r
                == plain && cut == plain
            &&& whole ==> (plain matches Ok(p) && p.row_count == offsets.len() / 8 && p.blob_len
                == blob.len())
            &&& whole ==> cut == Err::<Utf8ColumnMeta, _>(StorageError::Utf8MetaTooShort)
            &&& whole && m.row_count > offsets.len() / 8 ==> r == Err::<Utf8ColumnMeta, _>(
                StorageError::RowCountBeyondOffsets,
            )
            &&& whole && m.row_count <= offsets.len() / 8 && m.blob_len != blob.len() ==> r
                == Err::<Utf8ColumnMeta, _>(StorageError::BlobLenMismatch)
            &&& whole && m.row_count <= offsets.len() / 8 && m.blob_len == blob.len() ==> r
                == Ok::<_, StorageError>(m)
        }),
{
    crate::columnar::law_utf8_meta_reads_back(m);
}

} // verus!
