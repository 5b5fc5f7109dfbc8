//! Columns in files: how their bytes are laid out, and how they are read back page by page.
//!
//! An integer column is the run of its values in eight bytes each; a text column is a run of
//! offset-and-length pairs into a blob. Both are padded with zero bytes to whole pages, and a
//! small companion says how many rows there are.

use crate::bytes::{pad_to_page, push_le, read_le, to_signed, to_unsigned};
use vstd::prelude::*;

verus! {

/// Why the bytes of a column file are refused, or a column cannot be laid out.
#[derive(Copy, Clone, Debug, PartialEq, Eq, Structural)]
pub enum StorageError {
    /// An integer column whose length is no multiple of eight.
    RaggedColumn,
    /// A companion that announces more rows than the integer column has.
    RowCountBeyondColumn,
    /// The companion of an integer column is too short.
    Int64MetaTooShort,
    /// The companion beside an integer column ends before its row count does.
    UnexpectedEof,
    /// Offsets whose length is no multiple of eight.
    RaggedOffsets,
    /// A companion that announces more rows than there are offsets.
    RowCountBeyondOffsets,
    /// The companion of a text column is too short.
    Utf8MetaTooShort,
    /// A companion that announces a blob of another length.
    BlobLenMismatch,
    /// A text that is longer than an offset can say.
    RowTooLong,
    /// Texts that are longer together than an offset can say.
    BlobTooLong,
    /// Columns of one table with different numbers of rows.
    RowCountsDiverge,
    /// Columns of one table with pages of different sizes.
    PageRowsDiverge,
}

impl StorageError {
    /// The error in words.
    pub open spec fn words(self) -> Seq<char> {
        match self {
            StorageError::RaggedColumn => "i64 column file length not multiple of 8"@,
            StorageError::RowCountBeyondColumn => "i64 .meta row_count exceeds file capacity"@,
            StorageError::Int64MetaTooShort => "int64 .meta too short"@,
            StorageError::UnexpectedEof => "failed to fill whole buffer"@,
            StorageError::RaggedOffsets => "utf8 .offsets length not multiple of 8"@,
            StorageError::RowCountBeyondOffsets => "utf8 .meta row_count exceeds .offsets capacity"@,
            StorageError::Utf8MetaTooShort => "utf8 .meta too short"@,
            StorageError::BlobLenMismatch => "utf8 .meta blob_len mismatch"@,
            StorageError::RowTooLong => "utf8 row longer than u32::MAX"@,
            StorageError::BlobTooLong => "utf8 blob length overflow"@,
            StorageError::RowCountsDiverge => "columnar .bin row counts diverge"@,
            StorageError::PageRowsDiverge => "columnar page_rows diverge"@,
        }
    }

    /// The error in words.
    pub fn message(self) -> (r: &'static str)
        ensures
            r@ == self.words(),
    {
        match self {
            StorageError::RaggedColumn => "i64 column file length not multiple of 8",
            StorageError::RowCountBeyondColumn => "i64 .meta row_count exceeds file capacity",
            StorageError::Int64MetaTooShort => "int64 .meta too short",
            StorageError::UnexpectedEof => "failed to fill whole buffer",
            StorageError::RaggedOffsets => "utf8 .offsets length not multiple of 8",
            StorageError::RowCountBeyondOffsets => "utf8 .meta row_count exceeds .offsets capacity",
            StorageError::Utf8MetaTooShort => "utf8 .meta too short",
            StorageError::BlobLenMismatch => "utf8 .meta blob_len mismatch",
            StorageError::RowTooLong => "utf8 row longer than u32::MAX",
            StorageError::BlobTooLong => "utf8 blob length overflow",
            StorageError::RowCountsDiverge => "columnar .bin row counts diverge",
            StorageError::PageRowsDiverge => "columnar page_rows diverge",
        }
    }
}

/// The companion of an integer column.
#[derive(Copy, Clone, Debug, PartialEq, Eq, Structural)]
pub struct Int64ColumnMeta {
    pub row_count: u64,
}

/// The companion of a text column.
#[derive(Copy, Clone, Debug, PartialEq, Eq, Structural)]
pub struct Utf8ColumnMeta {
    pub row_count: u64,
    pub blob_len: u64,
}

/// Where a text stands in the blob.
#[derive(Copy, Clone, Debug, PartialEq, Eq, Structural)]
pub struct Utf8OffsetEntry {
    pub offset: u32,
    pub length: u32,
}

impl Int64ColumnMeta {
    /// The bytes of the companion file.
    pub open spec fn bytes(self) -> Seq<u8> {
        crate::bytes::le(self.row_count as nat, 8)
    }

    /// What the bytes of a companion file say, unless they are too few.
    pub open spec fn of(bytes: Seq<u8>) -> Option<Int64ColumnMeta> {
        if bytes.len() < 8 {
            None
        } else {
            Some(
                Int64ColumnMeta { row_count: crate::bytes::of_le(bytes.take(8)) as u64 },
            )
        }
    }

    /// The bytes of the companion file.
    pub fn encode(&self) -> (r: Vec<u8>)
        ensures
            r@ == self.bytes(),
    {
        let mut out: Vec<u8> = Vec::new();
        push_le(&mut out, self.row_count, 8);
        assert(out@ =~= self.bytes());
        out
    }

    /// Reads a companion file.
    pub fn decode(bytes: &[u8]) -> (r: Result<Self, StorageError>)
        ensures
            match Self::of(bytes@) {
                Some(m) => r == Ok::<Self, StorageError>(m),
                None => r == Err::<Self, StorageError>(StorageError::Int64MetaTooShort),
            },
    {
        if bytes.len() < 8 {
            return Err(StorageError::Int64MetaTooShort);
        }
        assert(bytes@.subrange(0, 8) =~= bytes@.take(8));
        Ok(Int64ColumnMeta { row_count: read_le(bytes, 0, 8) })
    }
}

impl Utf8ColumnMeta {
    /// The bytes of the companion file.
    pub open spec fn bytes(self) -> Seq<u8> {
        crate::bytes::le(self.row_count as nat, 8) + crate::bytes::le(self.blob_len as nat, 8)
    }

    /// What the bytes of a companion file say, unless they are too few.
    pub open spec fn of(bytes: Seq<u8>) -> Option<Utf8ColumnMeta> {
        if bytes.len() < 16 {
            None
        } else {
            Some(
                Utf8ColumnMeta {
                    row_count: crate::bytes::of_le(bytes.take(8)) as u64,
                    blob_len: crate::bytes::of_le(bytes.subrange(8, 16)) as u64,
                },
            )
        }
    }

    /// The bytes of the companion file.
    pub fn encode(&self) -> (r: Vec<u8>)
        ensures
            r@ == self.bytes(),
    {
        let mut out: Vec<u8> = Vec::new();
        push_le(&mut out, self.row_count, 8);
        push_le(&mut out, self.blob_len, 8);
        assert(out@ =~= self.bytes());
        out
    }

    /// Reads a companion file.
    pub fn decode(bytes: &[u8]) -> (r: Result<Self, StorageError>)
        ensures
            match Self::of(bytes@) {
                Some(m) => r == Ok::<Self, StorageError>(m),
                None => r == Err::<Self, StorageError>(StorageError::Utf8MetaTooShort),
            },
    {
        if bytes.len() < 16 {
            return Err(StorageError::Utf8MetaTooShort);
        }
        assert(bytes@.subrange(0, 8) =~= bytes@.take(8));
        Ok(
            Utf8ColumnMeta {
                row_count: read_le(bytes, 0, 8),
                blob_len: read_le(bytes, 8, 8),
            },
        )
    }
}

/// The companion of an integer column is read back from its bytes.
pub proof fn law_int64_meta_reads_back(m: Int64ColumnMeta)
    ensures
        Int64ColumnMeta::of(m.bytes()) == Some(m),
{
    crate::bytes::lemma_span();
    crate::bytes::law_number_reads_back(m.row_count as nat, 8);
    assert(m.bytes().take(8) =~= m.bytes());
}

/// The companion of a text column is read back from its bytes.
pub proof fn law_utf8_meta_reads_back(m: Utf8ColumnMeta)
    ensures
        Utf8ColumnMeta::of(m.bytes()) == Some(m),
{
    crate::bytes::lemma_span();
    crate::bytes::law_number_reads_back(m.row_count as nat, 8);
    crate::bytes::law_number_reads_back(m.blob_len as nat, 8);
    assert(m.bytes().take(8) =~= crate::bytes::le(m.row_count as nat, 8));
    assert(m.bytes().subrange(8, 16) =~= crate::bytes::le(m.blob_len as nat, 8));
}

/// The values of an integer column as its file holds them, before padding.
pub open spec fn i64_run(values: Seq<i64>) -> Seq<u8> {
    values.map_values(|v: i64| crate::bytes::i64_bytes(v)).flatten()
}

/// The whole file of an integer column.
pub open spec fn i64_file(values: Seq<i64>, page_size: nat) -> Seq<u8> {
    i64_run(values) + crate::bytes::zeros(
        crate::bytes::page_gap(i64_run(values).len(), page_size),
    )
}

/// The first `n` values in the file of an integer column.
pub open spec fn i64_rows(bin: Seq<u8>, n: nat) -> Seq<i64> {
    Seq::new(n, |i: int| crate::bytes::i64_of(bin.subrange(8 * i, 8 * i + 8)))
}

/// What opening an integer column comes to: its rows, or why it is refused.
pub open spec fn opened(bin: Seq<u8>, meta: Option<Int64ColumnMeta>) -> Result<
    Seq<i64>,
    StorageError,
> {
    if bin.len() % 8 != 0 {
        Err(StorageError::RaggedColumn)
    } else {
        match meta {
            Some(m) => if m.row_count > bin.len() / 8 {
                Err(StorageError::RowCountBeyondColumn)
            } else {
                Ok(i64_rows(bin, m.row_count as nat))
            },
            None => Ok(i64_rows(bin, bin.len() / 8)),
        }
    }
}

/// As [`opened`], with the bytes of a companion file that was asked for.
pub open spec fn opened_with(bin: Seq<u8>, meta: Seq<u8>) -> Result<Seq<i64>, StorageError> {
    match Int64ColumnMeta::of(meta) {
        None => Err(StorageError::Int64MetaTooShort),
        Some(m) => opened(bin, Some(m)),
    }
}

/// As [`opened`], with the bytes of the companion file beside the column where there is one. A
/// companion that is too short is met as the end of its file.
pub open spec fn opened_beside(bin: Seq<u8>, meta: Option<Seq<u8>>) -> Result<
    Seq<i64>,
    StorageError,
> {
    match meta {
        None => opened(bin, None),
        Some(bytes) => match Int64ColumnMeta::of(bytes) {
            None => Err(StorageError::UnexpectedEof),
            Some(m) => opened(bin, Some(m)),
        },
    }
}

/// How many rows make a page.
pub open spec fn rows_per_page(page_size: nat) -> nat {
    if page_size / 8 == 0 {
        1
    } else {
        page_size / 8
    }
}

/// The page that starts at row `from`: `page_rows` rows, or what is left.
pub open spec fn page_at(rows: Seq<i64>, from: int, page_rows: int) -> Seq<i64> {
    rows.subrange(
        from,
        if from + page_rows <= rows.len() {
            from + page_rows
        } else {
            rows.len() as int
        },
    )
}

/// All pages from row `from` on.
pub open spec fn pages(rows: Seq<i64>, from: int, page_rows: int) -> Seq<Seq<i64>>
    decreases (if from < rows.len() { rows.len() - from } else { 0 }),
{
    if 0 <= from < rows.len() && page_rows > 0 {
        seq![page_at(rows, from, page_rows)] + pages(rows, from + page_rows, page_rows)
    } else {
        Seq::empty()
    }
}

/// The pages from a row on hold every row from there on, once and in order.
pub proof fn law_pages_hold_every_row_once(rows: Seq<i64>, from: int, page_rows: int)
    requires
        0 <= from <= rows.len(),
        page_rows > 0,
    ensures
        pages(rows, from, page_rows).flatten() == rows.skip(from),
    decreases rows.len() - from,
{
    let all = pages(rows, from, page_rows);
    if from < rows.len() {
        let next = from + page_rows;
        assert(all.drop_first() =~= pages(rows, next, page_rows));
        if next <= rows.len() {
            law_pages_hold_every_row_once(rows, next, page_rows);
        } else {
            assert(pages(rows, next, page_rows).flatten() =~= Seq::empty());
        }
        assert(all.flatten() =~= rows.skip(from));
    } else {
        assert(all.flatten() =~= rows.skip(from));
    }
}

/// The pages from a row on are its page and those from the end of that page on.
pub proof fn lemma_page_step(rows: Seq<i64>, from: int, page_rows: int)
    requires
        0 <= from < rows.len(),
        page_rows > 0,
    ensures
        ({
            let page = page_at(rows, from, page_rows);
            pages(rows, from, page_rows) == seq![page] + pages(rows, from + page.len(), page_rows)
        }),
{
    let next = from + page_at(rows, from, page_rows).len();
    if from + page_rows > rows.len() {
        assert(pages(rows, next, page_rows) =~= Seq::empty());
        assert(pages(rows, from + page_rows, page_rows) =~= Seq::empty());
    }
}

/// A column has a page for every `page_rows` rows and one for a remainder; page `i` starts at row
/// `i * page_rows`, and only the page of the remainder is short.
pub proof fn law_pages_are_whole_but_the_last(rows: Seq<i64>, page_rows: int)
    requires
        page_rows > 0,
    ensures
        ({
            let all = pages(rows, 0, page_rows);
            let full = rows.len() as int / page_rows;
            let rest = rows.len() as int % page_rows;
            &&& all.len() == full + if rest == 0 { 0int } else { 1int }
            &&& forall|i: int|
                0 <= i < all.len() ==> #[trigger] all[i] == page_at(rows, i * page_rows, page_rows)
            &&& forall|i: int|
                0 <= i < all.len() ==> (#[trigger] all[i]).len() == if i < full {
                    page_rows
                } else {
                    rest
                }
        }),
{
    lemma_page_starts(rows, 0, page_rows);
    let all = pages(rows, 0, page_rows);
    let n = rows.len() as int;
    let full = n / page_rows;
    let rest = n % page_rows;
    assert(n == page_rows * full + rest && 0 <= rest < page_rows) by (nonlinear_arith)
        requires
            page_rows > 0,
            n >= 0,
            full == n / page_rows,
            rest == n % page_rows,
    ;
    assert(all.len() == full + if rest == 0 { 0int } else { 1int }) by {
        let k = all.len() as int;
        assert(0 * page_rows == 0) by (nonlinear_arith);
        if rest == 0 {
            assert(k == full) by (nonlinear_arith)
                requires
                    page_rows > 0,
                    n == page_rows * full,
                    n <= k * page_rows,
                    k * page_rows < n + page_rows,
            ;
        } else {
            assert(k == full + 1) by (nonlinear_arith)
                requires
                    page_rows > 0,
                    n == page_rows * full + rest,
                    0 < rest < page_rows,
                    n <= k * page_rows,
                    k * page_rows < n + page_rows,
            ;
        }
    }
    assert forall|i: int| 0 <= i < all.len() implies (#[trigger] all[i]).len() == if i < full {
        page_rows
    } else {
        rest
    } by {
        assert(all[i] == page_at(rows, 0 + i * page_rows, page_rows));
        if i < full {
            assert(i * page_rows + page_rows <= n && i * page_rows >= 0) by (nonlinear_arith)
                requires
                    0 <= i < full,
                    page_rows > 0,
                    n == page_rows * full + rest,
                    rest >= 0,
            ;
        } else {
            assert(i == full);
            assert(i * page_rows == page_rows * full) by (nonlinear_arith)
                requires
                    i == full,
            ;
        }
    }
}

proof fn lemma_page_starts(rows: Seq<i64>, from: int, page_rows: int)
    requires
        page_rows > 0,
        0 <= from,
    ensures
        ({
            let all = pages(rows, from, page_rows);
            &&& forall|i: int|
                0 <= i < all.len() ==> #[trigger] all[i] == page_at(
                    rows,
                    from + i * page_rows,
                    page_rows,
                )
            &&& rows.len() <= from + all.len() * page_rows
            &&& all.len() > 0 ==> from + all.len() * page_rows < rows.len() + page_rows
        }),
    decreases (if from < rows.len() { rows.len() - from } else { 0 }),
{
    let all = pages(rows, from, page_rows);
    assert(0 * page_rows == 0) by (nonlinear_arith);
    if from < rows.len() {
        let rest = pages(rows, from + page_rows, page_rows);
        lemma_page_starts(rows, from + page_rows, page_rows);
        let k = rest.len() as int;
        assert((k + 1) * page_rows == k * page_rows + page_rows) by (nonlinear_arith);
        if k == 0 {
            assert(k * page_rows == 0) by (nonlinear_arith)
                requires
                    k == 0,
            ;
        }
        assert forall|i: int| 0 <= i < all.len() implies #[trigger] all[i] == page_at(
            rows,
            from + i * page_rows,
            page_rows,
        ) by {
            if i > 0 {
                assert(all[i] == rest[i - 1]);
                assert(i * page_rows == (i - 1) * page_rows + page_rows) by (nonlinear_arith);
            }
        }
    }
}

proof fn lemma_i64_record(values: Seq<i64>, i: int)
    requires
        0 <= i < values.len(),
    ensures
        i64_run(values).len() == 8 * values.len(),
        i64_run(values).subrange(8 * i, 8 * i + 8) == crate::bytes::i64_bytes(values[i]),
{
    let records = values.map_values(|v: i64| crate::bytes::i64_bytes(v));
    assert forall|k: int| 0 <= k < records.len() implies #[trigger] records[k].len() == 8 by {
        crate::bytes::law_i64_reads_back(values[k]);
    }
    crate::bytes::lemma_even_records(records, 8, i);
}

pub proof fn lemma_i64_run_len(values: Seq<i64>)
    ensures
        i64_run(values).len() == 8 * values.len(),
{
    if values.len() > 0 {
        lemma_i64_record(values, 0);
    }
}

/// An integer column that was written is read back, whatever page size it was written for, and
/// its file fills whole pages.
pub proof fn law_i64_column_reads_back(values: Seq<i64>, page_size: nat)
    requires
        page_size > 0,
        page_size % 8 == 0,
        values.len() <= u64::MAX,
    ensures
        ({
            let meta = Int64ColumnMeta { row_count: values.len() as u64 };
            let file = i64_file(values, page_size);
            &&& opened_with(file, meta.bytes()) == Ok::<Seq<i64>, StorageError>(values)
            &&& opened_beside(file, Some(meta.bytes())) == Ok::<Seq<i64>, StorageError>(values)
            &&& opened(file, None) is Ok
            &&& opened(file, None)->Ok_0.take(values.len() as int) == values
            &&& file.len() % page_size == 0
        }),
{
    let meta = Int64ColumnMeta { row_count: values.len() as u64 };
    let run = i64_run(values);
    let file = i64_file(values, page_size);
    law_int64_meta_reads_back(meta);
    lemma_i64_run_len(values);
    let gap = crate::bytes::page_gap(run.len(), page_size);
    lemma_padded(run.len(), page_size);
    let k = page_size / 8;
    let q = file.len() / page_size;
    assert(page_size * q == 8 * (k * q)) by (nonlinear_arith)
        requires
            page_size == 8 * k,
    ;
    assert(file.len() % 8 == 0);
    assert forall|i: int| 0 <= i < values.len() implies crate::bytes::i64_of(
        file.subrange(8 * i, 8 * i + 8),
    ) == #[trigger] values[i] by {
        lemma_i64_record(values, i);
        assert(file.subrange(8 * i, 8 * i + 8) =~= run.subrange(8 * i, 8 * i + 8));
        crate::bytes::law_i64_reads_back(values[i]);
    }
    assert(i64_rows(file, values.len()) =~= values);
    assert(i64_rows(file, file.len() / 8).take(values.len() as int) =~= values);
}

proof fn lemma_padded(len: nat, page_size: nat)
    requires
        page_size > 0,
    ensures
        ({
            let whole = len + crate::bytes::page_gap(len, page_size);
            &&& whole % page_size == 0
            &&& whole == page_size * (whole / page_size)
        }),
{
    let whole = len + crate::bytes::page_gap(len, page_size);
    if len % page_size != 0 {
        let q = len as int / page_size as int;
        vstd::arithmetic::div_mod::lemma_fundamental_div_mod(len as int, page_size as int);
        assert(page_size * (q + 1) == page_size * q + page_size) by (nonlinear_arith);
        assert(page_size * (q + 1) == (q + 1) * page_size) by (nonlinear_arith);
        vstd::arithmetic::div_mod::lemma_mod_multiples_basic(q + 1, page_size as int);
    }
    vstd::arithmetic::div_mod::lemma_fundamental_div_mod(whole as int, page_size as int);
}

/// The files of an integer column.
pub struct Int64ColumnBytes {
    pub bin: Vec<u8>,
    pub meta: Vec<u8>,
}

/// Lays out an integer column: its values, padded to whole pages, and its companion.
pub fn write_i64_column_bin(values: &[i64], page_size: usize) -> (r: Int64ColumnBytes)
    requires
        page_size > 0,
    ensures
        r.bin@ == i64_file(values@, page_size as nat),
        r.meta@ == (Int64ColumnMeta { row_count: values@.len() as u64 }).bytes(),
{
    let mut bin: Vec<u8> = Vec::new();
    let mut i: usize = 0;
    assert(bin@ =~= i64_run(values@.take(0)));
    while i < values.len()
        invariant
            i <= values@.len(),
            bin@ == i64_run(values@.take(i as int)),
        decreases values@.len() - i,
    {
        let ghost before = values@.take(i as int).map_values(|v: i64| crate::bytes::i64_bytes(v));
        push_le(&mut bin, to_unsigned(values[i]), 8);
        i += 1;
        proof {
            let now = values@.take(i as int).map_values(|v: i64| crate::bytes::i64_bytes(v));
            let one = crate::bytes::i64_bytes(values@[i - 1]);
            assert(now =~= before.push(one));
            before.lemma_flatten_push(one);
        }
    }
    assert(values@.take(i as int) =~= values@);
    pad_to_page(&mut bin, page_size);
    let meta = Int64ColumnMeta { row_count: values.len() as u64 };
    Int64ColumnBytes { bin, meta: meta.encode() }
}

/// A window of rows of an integer column.
#[derive(Copy, Clone)]
pub struct ColumnarChunk<'a> {
    pub rows: &'a [i64],
    pub row_count: u16,
    pub page_index: u32,
    /// One for a last page that is not full.
    pub is_residue: u8,
}

impl<'a> ColumnarChunk<'a> {
    /// A window of no rows.
    pub fn empty() -> (r: Self)
        ensures
            r.rows@.len() == 0,
            r.row_count == 0,
            r.page_index == 0,
            r.is_residue == 0,
    {
        ColumnarChunk { rows: &[], row_count: 0, page_index: 0, is_residue: 0 }
    }

    /// Whether this is the page that starts at row `from`.
    pub open spec fn is_page(self, rows: Seq<i64>, from: int, page_rows: int) -> bool {
        let page = page_at(rows, from, page_rows);
        &&& self.rows@ == page
        &&& self.row_count == page.len() as u16
        &&& self.page_index == (from / page_rows) as u32
        &&& self.is_residue == if page.len() < page_rows {
            1u8
        } else {
            0u8
        }
    }
}

/// An integer column that is read page by page.
pub struct ColumnarFileStream {
    pub rows: Vec<i64>,
    pub row_width: usize,
    pub page_rows: usize,
    pub total_rows: usize,
    pub cursor_row: usize,
}

impl ColumnarFileStream {
    /// The rows are all there, and the cursor stands at one of them or behind the last.
    pub open spec fn wf(&self) -> bool {
        &&& self.rows@.len() == self.total_rows
        &&& self.row_width == 8
        &&& self.page_rows > 0
        &&& self.cursor_row <= self.total_rows
    }

    /// The stream stands before the first of `rows`.
    pub open spec fn starts(&self, rows: Seq<i64>, page_size: nat) -> bool {
        &&& self.wf()
        &&& self.rows@ == rows
        &&& self.page_rows == rows_per_page(page_size)
        &&& self.cursor_row == 0
    }

    /// The same stream, with the cursor at `row`.
    pub open spec fn moved(&self, to: &Self, row: int) -> bool {
        &&& to.rows@ == self.rows@
        &&& to.row_width == self.row_width
        &&& to.page_rows == self.page_rows
        &&& to.total_rows == self.total_rows
        &&& to.cursor_row == row
    }

    /// Opens the bytes of an integer column, with the bytes of the companion beside it where
    /// there is one.
    pub fn open_i64(bin: &[u8], meta: Option<&[u8]>, page_size: usize) -> (r: Result<
        Self,
        StorageError,
    >)
        ensures
            match opened_beside(
                bin@,
                match meta {
                    Some(m) => Some(m@),
                    None => None,
                },
            ) {
                Ok(rows) => r is Ok && r->Ok_0.starts(rows, page_size as nat),
                Err(e) => r == Err::<Self, StorageError>(e),
            },
    {
        match meta {
            Some(bytes) => match Int64ColumnMeta::decode(bytes) {
                Ok(m) => Self::open_i64_inner(bin, Some(m), page_size),
                Err(_) => Err(StorageError::UnexpectedEof),
            },
            None => Self::open_i64_inner(bin, None, page_size),
        }
    }

    /// Opens the bytes of an integer column with the bytes of its companion.
    pub fn open_i64_with_meta(bin: &[u8], meta: &[u8], page_size: usize) -> (r: Result<
        Self,
        StorageError,
    >)
        ensures
            match opened_with(bin@, meta@) {
                Ok(rows) => r is Ok && r->Ok_0.starts(rows, page_size as nat),
                Err(e) => r == Err::<Self, StorageError>(e),
            },
    {
        match Int64ColumnMeta::decode(meta) {
            Ok(m) => Self::open_i64_inner(bin, Some(m), page_size),
            Err(e) => Err(e),
        }
    }

    /// As [`Self::open_i64`]: the rows of a stream are always its own.
    pub fn open_int64_copied(bin: &[u8], meta: Option<&[u8]>, page_size: usize) -> (r: Result<
        Self,
        StorageError,
    >)
        ensures
            match opened_beside(
                bin@,
                match meta {
                    Some(m) => Some(m@),
                    None => None,
                },
            ) {
                Ok(rows) => r is Ok && r->Ok_0.starts(rows, page_size as nat),
                Err(e) => r == Err::<Self, StorageError>(e),
            },
    {
        Self::open_i64(bin, meta, page_size)
    }

    /// Opens the bytes of an integer column and keeps what its companion said.
    pub fn open_int64_column(bin: &[u8], meta: &[u8], page_size: usize) -> (r: Result<
        Int64ColumnFile,
        StorageError,
    >)
        ensures
            match opened_with(bin@, meta@) {
                Ok(rows) => {
                    &&& r is Ok
                    &&& r->Ok_0.stream.starts(rows, page_size as nat)
                    &&& Int64ColumnMeta::of(meta@) == Some(r->Ok_0.meta)
                },
                Err(e) => r == Err::<Int64ColumnFile, StorageError>(e),
            },
    {
        let m = match Int64ColumnMeta::decode(meta) {
            Ok(m) => m,
            Err(e) => {
                return Err(e);
            },
        };
        match Self::open_i64_inner(bin, Some(m), page_size) {
            Ok(stream) => Ok(Int64ColumnFile { stream, meta: m }),
            Err(e) => Err(e),
        }
    }

    fn open_i64_inner(bin: &[u8], meta: Option<Int64ColumnMeta>, page_size: usize) -> (r: Result<
        Self,
        StorageError,
    >)
        ensures
            match opened(bin@, meta) {
                Ok(rows) => r is Ok && r->Ok_0.starts(rows, page_size as nat),
                Err(e) => r == Err::<Self, StorageError>(e),
            },
    {
        let len: usize = bin.len();
        if len % 8 != 0 {
            return Err(StorageError::RaggedColumn);
        }
        let file_rows: usize = len / 8;
        let total_rows: usize = match meta {
            Some(m) => {
                if m.row_count > file_rows as u64 {
                    return Err(StorageError::RowCountBeyondColumn);
                }
                m.row_count as usize
            },
            None => file_rows,
        };
        let mut rows: Vec<i64> = Vec::new();
        let mut i: usize = 0;
        while i < total_rows
            invariant
                i <= total_rows,
                8 * total_rows <= bin.len(),
                rows@ == i64_rows(bin@, i as nat),
            decreases total_rows - i,
        {
            rows.push(to_signed(read_le(bin, 8 * i, 8)));
            i += 1;
            assert(rows@ =~= i64_rows(bin@, i as nat));
        }
        let page_rows: usize = if page_size / 8 == 0 {
            1
        } else {
            page_size / 8
        };
        Ok(ColumnarFileStream { rows, row_width: 8, page_rows, total_rows, cursor_row: 0 })
    }

    /// Whether the rows are the stream's own, so that later changes to a file do not reach them:
    /// they always are.
    pub fn is_copied(&self) -> (r: bool)
        ensures
            r,
    {
        true
    }

    /// How many rows the column has.
    pub fn total_rows(&self) -> (r: u64)
        ensures
            r == self.total_rows,
    {
        self.total_rows as u64
    }

    /// How many rows were read.
    pub fn cursor_row(&self) -> (r: u64)
        ensures
            r == self.cursor_row,
    {
        self.cursor_row as u64
    }

    /// How many rows make a page.
    pub fn page_rows(&self) -> (r: usize)
        ensures
            r == self.page_rows,
    {
        self.page_rows
    }

    /// How many whole pages were read.
    pub fn pages_emitted(&self) -> (r: u32)
        requires
            self.wf(),
        ensures
            r == (self.cursor_row as int / self.page_rows as int) as u32,
    {
        #[verifier::truncate]
        ((self.cursor_row / self.page_rows) as u32)
    }

    /// Goes back to the first page.
    pub fn rewind(&mut self)
        ensures
            old(self).moved(final(self), 0),
    {
        self.cursor_row = 0;
    }

    /// The next page, or `None` behind the last.
    pub fn next_page_chunk(&mut self) -> (r: Option<ColumnarChunk<'_>>)
        requires
            old(self).wf(),
        ensures
            final(self).wf(),
            match r {
                None => {
                    &&& old(self).cursor_row == old(self).total_rows
                    &&& old(self).moved(final(self), old(self).cursor_row as int)
                },
                Some(c) => {
                    let from = old(self).cursor_row as int;
                    &&& from < old(self).total_rows
                    &&& c.is_page(old(self).rows@, from, old(self).page_rows as int)
                    &&& old(self).moved(final(self), from + c.rows@.len())
                },
            },
    {
        if self.cursor_row >= self.total_rows {
            return None;
        }
        let from: usize = self.cursor_row;
        let remaining: usize = self.total_rows - from;
        let n: usize = if remaining < self.page_rows {
            remaining
        } else {
            self.page_rows
        };
        let page_index: u32 =
            #[verifier::truncate]
            ((from / self.page_rows) as u32);
        let is_residue: u8 = if n < self.page_rows {
            1
        } else {
            0
        };
        let row_count: u16 =
            #[verifier::truncate]
            (n as u16);
        self.cursor_row = from + n;
        let rows = vstd::slice::slice_subrange(self.rows.as_slice(), from, from + n);
        Some(ColumnarChunk { rows, row_count, page_index, is_residue })
    }
}

/// An integer column together with its companion.
pub struct Int64ColumnFile {
    pub stream: ColumnarFileStream,
    pub meta: Int64ColumnMeta,
}

/// Three integer columns of one table, read in step.
pub struct ColumnarTableStream {
    pub user_ids: ColumnarFileStream,
    pub ages: ColumnarFileStream,
    pub prices: ColumnarFileStream,
}

/// A window of rows of all three columns.
#[derive(Copy, Clone)]
pub struct ColumnarTablePage<'a> {
    pub user_ids: &'a [i64],
    pub ages: &'a [i64],
    pub prices: &'a [i64],
    pub row_count: u16,
    pub page_index: u32,
    /// One for a last page that is not full.
    pub is_residue: u8,
}

impl ColumnarTableStream {
    /// The columns have as many rows as each other, in pages of one size.
    pub open spec fn wf(&self) -> bool {
        &&& self.user_ids.wf()
        &&& self.ages.wf()
        &&& self.prices.wf()
        &&& self.user_ids.total_rows == self.ages.total_rows
        &&& self.ages.total_rows == self.prices.total_rows
        &&& self.user_ids.page_rows == self.ages.page_rows
        &&& self.ages.page_rows == self.prices.page_rows
    }

    /// Puts three columns side by side.
    pub fn open(
        user_ids: ColumnarFileStream,
        ages: ColumnarFileStream,
        prices: ColumnarFileStream,
    ) -> (r: Result<Self, StorageError>)
        requires
            user_ids.wf(),
            ages.wf(),
            prices.wf(),
        ensures
            r == if user_ids.total_rows != ages.total_rows || ages.total_rows
                != prices.total_rows {
                Err::<Self, StorageError>(StorageError::RowCountsDiverge)
            } else if user_ids.page_rows != ages.page_rows || ages.page_rows != prices.page_rows {
                Err::<Self, StorageError>(StorageError::PageRowsDiverge)
            } else {
                Ok::<Self, StorageError>(ColumnarTableStream { user_ids, ages, prices })
            },
            r is Ok ==> r->Ok_0.wf(),
    {
        if user_ids.total_rows != ages.total_rows || ages.total_rows != prices.total_rows {
            return Err(StorageError::RowCountsDiverge);
        }
        if user_ids.page_rows != ages.page_rows || ages.page_rows != prices.page_rows {
            return Err(StorageError::PageRowsDiverge);
        }
        Ok(ColumnarTableStream { user_ids, ages, prices })
    }

    /// How many rows the table has.
    pub fn total_rows(&self) -> (r: u64)
        ensures
            r == self.ages.total_rows,
    {
        self.ages.total_rows as u64
    }

    /// Goes back to the first page.
    pub fn rewind(&mut self)
        ensures
            old(self).user_ids.moved(&final(self).user_ids, 0),
            old(self).ages.moved(&final(self).ages, 0),
            old(self).prices.moved(&final(self).prices, 0),
    {
        self.user_ids.rewind();
        self.ages.rewind();
        self.prices.rewind();
    }

    /// The page that follows what was read of the ages, or `None` behind the last. All three
    /// columns are then read up to its end.
    pub fn next_page(&mut self) -> (r: Option<ColumnarTablePage<'_>>)
        requires
            old(self).wf(),
        ensures
            final(self).wf(),
            ({
                let from = old(self).ages.cursor_row as int;
                let size = old(self).ages.page_rows as int;
                match r {
                    None => {
                        &&& from == old(self).ages.total_rows
                        &&& old(self).ages.moved(&final(self).ages, from)
                        &&& old(self).user_ids.moved(
                            &final(self).user_ids,
                            old(self).user_ids.cursor_row as int,
                        )
                        &&& old(self).prices.moved(
                            &final(self).prices,
                            old(self).prices.cursor_row as int,
                        )
                    },
                    Some(p) => {
                        &&& from < old(self).ages.total_rows
                        &&& p.user_ids@ == page_at(old(self).user_ids.rows@, from, size)
                        &&& p.ages@ == page_at(old(self).ages.rows@, from, size)
                        &&& p.prices@ == page_at(old(self).prices.rows@, from, size)
                        &&& p.row_count == p.ages@.len() as u16
                        &&& p.page_index == (from / size) as u32
                        &&& p.is_residue == if p.ages@.len() < size {
                            1u8
                        } else {
                            0u8
                        }
                        &&& old(self).user_ids.moved(&final(self).user_ids, from + p.ages@.len())
                        &&& old(self).ages.moved(&final(self).ages, from + p.ages@.len())
                        &&& old(self).prices.moved(&final(self).prices, from + p.ages@.len())
                    },
                }
            }),
    {
        if self.ages.cursor_row >= self.ages.total_rows {
            return None;
        }
        let from: usize = self.ages.cursor_row;
        let page_rows: usize = self.ages.page_rows;
        let remaining: usize = self.ages.total_rows - from;
        let n: usize = if remaining < page_rows {
            remaining
        } else {
            page_rows
        };
        let page_index: u32 =
            #[verifier::truncate]
            ((from / page_rows) as u32);
        let is_residue: u8 = if n < page_rows {
            1
        } else {
            0
        };
        let row_count: u16 =
            #[verifier::truncate]
            (n as u16);
        self.ages.cursor_row = from + n;
        self.user_ids.cursor_row = from + n;
        self.prices.cursor_row = from + n;
        Some(
            ColumnarTablePage {
                user_ids: vstd::slice::slice_subrange(self.user_ids.rows.as_slice(), from, from + n),
                ages: vstd::slice::slice_subrange(self.ages.rows.as_slice(), from, from + n),
                prices: vstd::slice::slice_subrange(self.prices.rows.as_slice(), from, from + n),
                row_count,
                page_index,
                is_residue,
            },
        )
    }
}

/// Where text `i` starts in the blob: behind all texts before it.
pub open spec fn text_start(texts: Seq<Seq<u8>>, i: int) -> nat {
    texts.take(i).flatten().len()
}

impl Utf8OffsetEntry {
    /// The eight bytes of an entry.
    pub open spec fn bytes(self) -> Seq<u8> {
        crate::bytes::le(self.offset as nat, 4) + crate::bytes::le(self.length as nat, 4)
    }

    /// The entry that eight bytes hold.
    pub open spec fn of(s: Seq<u8>) -> Utf8OffsetEntry {
        Utf8OffsetEntry {
            offset: crate::bytes::of_le(s.take(4)) as u32,
            length: crate::bytes::of_le(s.skip(4)) as u32,
        }
    }
}

/// The entries of a text column.
pub open spec fn entries(texts: Seq<Seq<u8>>) -> Seq<Utf8OffsetEntry> {
    Seq::new(
        texts.len(),
        |i: int|
            Utf8OffsetEntry {
                offset: text_start(texts, i) as u32,
                length: texts[i].len() as u32,
            },
    )
}

/// The entries of a text column as their file holds them, before padding.
pub open spec fn offset_run(texts: Seq<Seq<u8>>) -> Seq<u8> {
    entries(texts).map_values(|e: Utf8OffsetEntry| e.bytes()).flatten()
}

/// The whole file of the offsets of a text column.
pub open spec fn offsets_file(texts: Seq<Seq<u8>>, page_size: nat) -> Seq<u8> {
    offset_run(texts) + crate::bytes::zeros(
        crate::bytes::page_gap(offset_run(texts).len(), page_size),
    )
}

/// The bytes of row `i` of a text column with `rows` rows: `None` for a row that is not there, or
/// whose entry does not lie in the blob.
pub open spec fn text_row(offsets: Seq<u8>, blob: Seq<u8>, rows: int, i: int) -> Option<Seq<u8>> {
    if 0 <= i < rows && 8 * i + 8 <= offsets.len() {
        let e = Utf8OffsetEntry::of(offsets.subrange(8 * i, 8 * i + 8));
        if e.offset + e.length <= blob.len() {
            Some(blob.subrange(e.offset as int, e.offset + e.length))
        } else {
            None
        }
    } else {
        None
    }
}

/// What opening a text column comes to: what its companion says, or would say, and why it is
/// refused.
pub open spec fn opened_text(offsets: Seq<u8>, blob: Seq<u8>, meta: Option<Seq<u8>>) -> Result<
    Utf8ColumnMeta,
    StorageError,
> {
    if offsets.len() % 8 != 0 {
        Err(StorageError::RaggedOffsets)
    } else {
        match meta {
            None => Ok(
                Utf8ColumnMeta {
                    row_count: (offsets.len() / 8) as u64,
                    blob_len: blob.len() as u64,
                },
            ),
            Some(bytes) => match Utf8ColumnMeta::of(bytes) {
                None => Err(StorageError::Utf8MetaTooShort),
                Some(m) => if m.row_count > offsets.len() / 8 {
                    Err(StorageError::RowCountBeyondOffsets)
                } else if m.blob_len != blob.len() {
                    Err(StorageError::BlobLenMismatch)
                } else {
                    Ok(m)
                },
            },
        }
    }
}

/// A text column over the bytes of its files.
pub struct Utf8ColumnFile<'a> {
    pub offsets: &'a [u8],
    pub blob: &'a [u8],
    pub meta: Utf8ColumnMeta,
    pub total_rows: usize,
}

impl<'a> Utf8ColumnFile<'a> {
    /// There is an entry for every row.
    pub open spec fn wf(&self) -> bool {
        8 * self.total_rows <= self.offsets@.len()
    }

    /// Opens the bytes of a text column, with the bytes of its companion where there is one.
    pub fn open(offsets: &'a [u8], blob: &'a [u8], meta: Option<&[u8]>) -> (r: Result<
        Self,
        StorageError,
    >)
        ensures
            match opened_text(
                offsets@,
                blob@,
                match meta {
                    Some(m) => Some(m@),
                    None => None,
                },
            ) {
                Ok(m) => {
                    &&& r is Ok
                    &&& r->Ok_0.wf()
                    &&& r->Ok_0.offsets@ == offsets@
                    &&& r->Ok_0.blob@ == blob@
                    &&& r->Ok_0.meta == m
                    &&& r->Ok_0.total_rows == m.row_count
                },
                Err(e) => r == Err::<Self, StorageError>(e),
            },
    {
        if offsets.len() % 8 != 0 {
            return Err(StorageError::RaggedOffsets);
        }
        let capacity_rows: usize = offsets.len() / 8;
        let blob_len: u64 = blob.len() as u64;
        match meta {
            Some(bytes) => {
                let m = match Utf8ColumnMeta::decode(bytes) {
                    Ok(m) => m,
                    Err(e) => {
                        return Err(e);
                    },
                };
                if m.row_count > capacity_rows as u64 {
                    return Err(StorageError::RowCountBeyondOffsets);
                }
                if m.blob_len != blob_len {
                    return Err(StorageError::BlobLenMismatch);
                }
                Ok(Utf8ColumnFile { offsets, blob, meta: m, total_rows: m.row_count as usize })
            },
            None => Ok(
                Utf8ColumnFile {
                    offsets,
                    blob,
                    meta: Utf8ColumnMeta { row_count: capacity_rows as u64, blob_len },
                    total_rows: capacity_rows,
                },
            ),
        }
    }

    /// How many rows the column has.
    pub fn total_rows(&self) -> (r: usize)
        ensures
            r == self.total_rows,
    {
        self.total_rows
    }

    /// The text of row `i`: `None` for a row that is not there, whose entry does not lie in the
    /// blob, or whose bytes are no UTF-8.
    pub fn get_row(&self, i: usize) -> (r: Option<&'a str>)
        requires
            self.wf(),
        ensures
            match text_row(self.offsets@, self.blob@, self.total_rows as int, i as int) {
                Some(b) => if vstd::utf8::valid_utf8(b) {
                    r is Some && vstd::utf8::encode_utf8((r->0)@) == b
                } else {
                    r is None
                },
                None => r is None,
            },
    {
        if i >= self.total_rows {
            return None;
        }
        let ghost record = self.offsets@.subrange(8 * i, 8 * i + 8);
        proof {
            crate::bytes::lemma_span();
            assert(self.offsets@.subrange(8 * i, 8 * i + 4) =~= record.take(4));
            assert(self.offsets@.subrange(8 * i + 4, 8 * i + 8) =~= record.skip(4));
            assert(self.offsets.len() <= usize::MAX);
        }
        let off: u64 = read_le(self.offsets, 8 * i, 4);
        let len: u64 = read_le(self.offsets, 8 * i + 4, 4);
        if off + len > self.blob.len() as u64 {
            return None;
        }
        let start: usize = off as usize;
        let end: usize = (off + len) as usize;
        crate::utf8::str_from_parent(self.blob, start, end)
    }
}

/// The files of a text column.
pub struct Utf8ColumnBytes {
    pub offsets: Vec<u8>,
    pub blob: Vec<u8>,
    pub meta: Vec<u8>,
}

/// The bytes of each of a run of texts.
pub open spec fn views(rows: Seq<&[u8]>) -> Seq<Seq<u8>> {
    rows.map_values(|r: &[u8]| r@)
}

/// Whether `e` is the error of the first text that does not fit: it is either too long by itself,
/// or the texts up to it are.
pub open spec fn too_long(texts: Seq<Seq<u8>>, e: StorageError) -> bool {
    exists|i: int|
        {
            &&& 0 <= i < texts.len()
            &&& #[trigger] text_start(texts, i) <= u32::MAX
            &&& text_start(texts, i) + texts[i].len() > u32::MAX
            &&& e == if texts[i].len() > u32::MAX {
                StorageError::RowTooLong
            } else {
                StorageError::BlobTooLong
            }
        }
}

pub proof fn lemma_text_step(texts: Seq<Seq<u8>>, i: int)
    requires
        0 <= i < texts.len(),
    ensures
        text_start(texts, i + 1) == text_start(texts, i) + texts[i].len(),
        texts.take(i + 1).flatten() == texts.take(i).flatten() + texts[i],
{
    assert(texts.take(i + 1) =~= texts.take(i).push(texts[i]));
    texts.take(i).lemma_flatten_push(texts[i]);
}

pub proof fn lemma_texts_grow(texts: Seq<Seq<u8>>, i: int)
    requires
        0 <= i <= texts.len(),
    ensures
        text_start(texts, i) <= texts.flatten().len(),
    decreases texts.len() - i,
{
    if i < texts.len() {
        lemma_text_step(texts, i);
        lemma_texts_grow(texts, i + 1);
    } else {
        assert(texts.take(i) =~= texts);
    }
}

/// Lays out a text column: its entries, padded to whole pages, its blob and its companion.
pub fn write_utf8_column_files(rows: &[&[u8]], page_size: usize) -> (r: Result<
    Utf8ColumnBytes,
    StorageError,
>)
    requires
        page_size > 0,
    ensures
        ({
            let texts = views(rows@);
            if texts.flatten().len() <= u32::MAX {
                &&& r is Ok
                &&& r->Ok_0.offsets@ == offsets_file(texts, page_size as nat)
                &&& r->Ok_0.blob@ == texts.flatten()
                &&& r->Ok_0.meta@ == (Utf8ColumnMeta {
                    row_count: texts.len() as u64,
                    blob_len: texts.flatten().len() as u64,
                }).bytes()
            } else {
                r is Err && too_long(texts, r->Err_0)
            }
        }),
{
    let ghost texts = views(rows@);
    let mut offsets: Vec<u8> = Vec::new();
    let mut blob: Vec<u8> = Vec::new();
    let mut blob_len: u32 = 0;
    let mut i: usize = 0;
    assert(blob@ =~= texts.take(0).flatten());
    assert(offsets@ =~= entries(texts).take(0).map_values(
        |e: Utf8OffsetEntry| e.bytes(),
    ).flatten());
    while i < rows.len()
        invariant
            i <= rows@.len(),
            texts == views(rows@),
            blob@ == texts.take(i as int).flatten(),
            blob_len == blob@.len(),
            offsets@ == entries(texts).take(i as int).map_values(
                |e: Utf8OffsetEntry| e.bytes(),
            ).flatten(),
        decreases rows@.len() - i,
    {
        let s: &[u8] = rows[i];
        proof {
            lemma_text_step(texts, i as int);
            lemma_texts_grow(texts, i + 1);
            assert(text_start(texts, i as int) <= u32::MAX);
        }
        if s.len() as u64 > u32::MAX as u64 {
            return Err(StorageError::RowTooLong);
        }
        let length: u32 = s.len() as u32;
        let ghost before = entries(texts).take(i as int).map_values(
            |e: Utf8OffsetEntry| e.bytes(),
        );
        push_le(&mut offsets, blob_len as u64, 4);
        push_le(&mut offsets, length as u64, 4);
        proof {
            let one = entries(texts)[i as int].bytes();
            let now = entries(texts).take(i + 1).map_values(|e: Utf8OffsetEntry| e.bytes());
            assert(now =~= before.push(one));
            before.lemma_flatten_push(one);
            assert(offsets@ =~= now.flatten());
        }
        push_all(&mut blob, s);
        match blob_len.checked_add(length) {
            Some(v) => {
                blob_len = v;
            },
            None => {
                return Err(StorageError::BlobTooLong);
            },
        }
        i += 1;
    }
    proof {
        assert(texts.take(i as int) =~= texts);
        assert(entries(texts).take(i as int) =~= entries(texts));
    }
    pad_to_page(&mut offsets, page_size);
    let meta = Utf8ColumnMeta { row_count: rows.len() as u64, blob_len: blob_len as u64 };
    Ok(Utf8ColumnBytes { offsets, blob, meta: meta.encode() })
}

/// Appends bytes.
fn push_all(out: &mut Vec<u8>, more: &[u8])
    ensures
        final(out)@ == old(out)@ + more@,
{
    let mut i: usize = 0;
    while i < more.len()
        invariant
            i <= more@.len(),
            out@ == old(out)@ + more@.take(i as int),
        decreases more@.len() - i,
    {
        out.push(more[i]);
        i += 1;
        assert(out@ =~= old(out)@ + more@.take(i as int));
    }
    assert(more@.take(i as int) =~= more@);
}

/// A text column that was written is read back, row by row.
pub proof fn law_text_column_reads_back(texts: Seq<Seq<u8>>, page_size: nat)
    requires
        page_size > 0,
        page_size % 8 == 0,
        texts.len() <= u64::MAX,
        texts.flatten().len() <= u32::MAX,
    ensures
        ({
            let meta = Utf8ColumnMeta {
                row_count: texts.len() as u64,
                blob_len: texts.flatten().len() as u64,
            };
            let offsets = offsets_file(texts, page_size);
            &&& opened_text(offsets, texts.flatten(), Some(meta.bytes())) == Ok::<
                Utf8ColumnMeta,
                StorageError,
            >(meta)
            &&& forall|i: int|
                0 <= i < texts.len() ==> text_row(
                    offsets,
                    texts.flatten(),
                    texts.len() as int,
                    i,
                ) == Some(#[trigger] texts[i])
        }),
{
    let meta = Utf8ColumnMeta {
        row_count: texts.len() as u64,
        blob_len: texts.flatten().len() as u64,
    };
    let blob = texts.flatten();
    let run = offset_run(texts);
    let offsets = offsets_file(texts, page_size);
    let records = entries(texts).map_values(|e: Utf8OffsetEntry| e.bytes());
    law_utf8_meta_reads_back(meta);
    assert forall|k: int| 0 <= k < records.len() implies #[trigger] records[k].len() == 8 by {
        crate::bytes::lemma_le_len(entries(texts)[k].offset as nat, 4);
        crate::bytes::lemma_le_len(entries(texts)[k].length as nat, 4);
    }
    crate::bytes::lemma_even_len(records, 8);
    lemma_padded(run.len(), page_size);
    let k = page_size / 8;
    let q = offsets.len() / page_size;
    assert(page_size * q == 8 * (k * q)) by (nonlinear_arith)
        requires
            page_size == 8 * k,
    ;
    assert(offsets.len() % 8 == 0);
    assert forall|i: int| 0 <= i < texts.len() implies text_row(
        offsets,
        blob,
        texts.len() as int,
        i,
    ) == Some(#[trigger] texts[i]) by {
        let e = entries(texts)[i];
        lemma_text_step(texts, i);
        lemma_texts_grow(texts, i + 1);
        lemma_text_at(texts, i);
        crate::bytes::lemma_even_records(records, 8, i);
        let record = offsets.subrange(8 * i, 8 * i + 8);
        assert(record =~= e.bytes());
        crate::bytes::lemma_span();
        crate::bytes::law_number_reads_back(e.offset as nat, 4);
        crate::bytes::law_number_reads_back(e.length as nat, 4);
        assert(record.take(4) =~= crate::bytes::le(e.offset as nat, 4));
        assert(record.skip(4) =~= crate::bytes::le(e.length as nat, 4));
    }
}

pub proof fn lemma_text_at(texts: Seq<Seq<u8>>, i: int)
    requires
        0 <= i < texts.len(),
    ensures
        text_start(texts, i) + texts[i].len() <= texts.flatten().len(),
        texts.flatten().subrange(
            text_start(texts, i) as int,
            text_start(texts, i + 1) as int,
        ) == texts[i],
{
    lemma_text_step(texts, i);
    lemma_texts_grow(texts, i + 1);
    lemma_flatten_prefix(texts, i + 1);
    let all = texts.flatten();
    assert(all.subrange(text_start(texts, i) as int, text_start(texts, i + 1) as int)
        =~= texts[i]) by {
        let head = texts.take(i + 1).flatten();
        assert forall|k: int| 0 <= k < texts[i].len() implies all[text_start(texts, i) + k]
            == texts[i][k] by {
            assert(all.take(head.len() as int)[text_start(texts, i) + k] == head[text_start(
                texts,
                i,
            ) + k]);
        }
    }
}

proof fn lemma_flatten_prefix(texts: Seq<Seq<u8>>, i: int)
    requires
        0 <= i <= texts.len(),
    ensures
        text_start(texts, i) <= texts.flatten().len(),
        texts.flatten().take(text_start(texts, i) as int) == texts.take(i).flatten(),
    decreases texts.len() - i,
{
    let all = texts.flatten();
    if i < texts.len() {
        lemma_flatten_prefix(texts, i + 1);
        lemma_text_step(texts, i);
        assert(all.take(text_start(texts, i) as int) =~= texts.take(i + 1).flatten().take(
            text_start(texts, i) as int,
        ));
        assert(texts.take(i + 1).flatten().take(text_start(texts, i) as int) =~= texts.take(
            i,
        ).flatten());
    } else {
        assert(texts.take(i) =~= texts);
        assert(all.take(all.len() as int) =~= all);
    }
}

/// The users of the demonstration table: sixteen, in turn.
pub open spec fn demo_users(rows: nat) -> Seq<i64> {
    Seq::new(rows, |i: int| (i % 16) as i64)
}

/// The ages of the demonstration table: from eighteen to fifty-seven, in turn.
pub open spec fn demo_ages(rows: nat) -> Seq<i64> {
    Seq::new(rows, |i: int| (18 + i % 40) as i64)
}

/// The prices of the demonstration table: a hundred, and three more in every row.
pub open spec fn demo_prices(rows: nat) -> Seq<i64> {
    Seq::new(rows, |i: int| (100 + 3 * i) as i64)
}

/// The files of the demonstration table.
pub struct ColumnarDemoBytes {
    pub user_ids: Int64ColumnBytes,
    pub ages: Int64ColumnBytes,
    pub prices: Int64ColumnBytes,
}

/// Lays out the demonstration table.
pub fn write_stage4_columnar_demo(total_rows: usize, page_size: usize) -> (r: ColumnarDemoBytes)
    requires
        page_size > 0,
        100 + 3 * total_rows <= i64::MAX,
    ensures
        r.user_ids.bin@ == i64_file(demo_users(total_rows as nat), page_size as nat),
        r.ages.bin@ == i64_file(demo_ages(total_rows as nat), page_size as nat),
        r.prices.bin@ == i64_file(demo_prices(total_rows as nat), page_size as nat),
        ({
            let meta = (Int64ColumnMeta { row_count: total_rows as u64 }).bytes();
            &&& r.user_ids.meta@ == meta
            &&& r.ages.meta@ == meta
            &&& r.prices.meta@ == meta
        }),
{
    let mut users: Vec<i64> = Vec::new();
    let mut ages: Vec<i64> = Vec::new();
    let mut prices: Vec<i64> = Vec::new();
    let mut i: usize = 0;
    while i < total_rows
        invariant
            i <= total_rows,
            100 + 3 * total_rows <= i64::MAX,
            users@ == demo_users(i as nat),
            ages@ == demo_ages(i as nat),
            prices@ == demo_prices(i as nat),
        decreases total_rows - i,
    {
        users.push((i % 16) as i64);
        ages.push((18 + i % 40) as i64);
        prices.push(100 + 3 * (i as i64));
        i += 1;
        assert(users@ =~= demo_users(i as nat));
        assert(ages@ =~= demo_ages(i as nat));
        assert(prices@ =~= demo_prices(i as nat));
    }
    ColumnarDemoBytes {
        user_ids: write_i64_column_bin(users.as_slice(), page_size),
        ages: write_i64_column_bin(ages.as_slice(), page_size),
        prices: write_i64_column_bin(prices.as_slice(), page_size),
    }
}

} // verus!
