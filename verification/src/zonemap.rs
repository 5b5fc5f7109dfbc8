//! Zone maps: the least and the greatest value of every page of an integer column, by which a
//! filter can pass over pages that hold no row for it.

use crate::bytes::{push_le, read_le, to_signed, to_unsigned};
use crate::columnar::{ColumnarFileStream, StorageError};
use vstd::prelude::*;

verus! {

/// The most pages that a zone map can describe.
pub const MAX_ZONE_PAGES: usize = 1024;

/// The bytes of one record.
pub const ZONE_PAGE_BYTES: usize = 24;

/// What a zone map says of a page.
#[derive(Copy, Clone, Debug, PartialEq, Eq, Structural)]
pub struct ZonePage {
    pub page_index: u32,
    pub row_count: u32,
    pub min: i64,
    pub max: i64,
}

/// Why a zone map cannot be read or made.
#[derive(Copy, Clone, Debug, PartialEq, Eq, Structural)]
pub enum ZoneMapError {
    /// The column itself is refused.
    Io(StorageError),
    /// A file that is no whole number of records.
    Truncated { file_len: u64 },
    /// More pages than [`MAX_ZONE_PAGES`].
    TooManyPages { pages: usize },
}

impl ZonePage {
    /// What there is to say of `page`, the page number `index`.
    pub open spec fn about(page: Seq<i64>, index: int) -> ZonePage {
        ZonePage {
            page_index: index as u32,
            row_count: page.len() as u32,
            min: crate::flow::least(page),
            max: crate::flow::greatest(page),
        }
    }

    /// The bytes of a record.
    pub open spec fn bytes(self) -> Seq<u8> {
        crate::bytes::le(self.page_index as nat, 4) + crate::bytes::le(self.row_count as nat, 4)
            + crate::bytes::i64_bytes(self.min) + crate::bytes::i64_bytes(self.max)
    }

    /// The record that twenty-four bytes hold.
    pub open spec fn of(s: Seq<u8>) -> ZonePage {
        ZonePage {
            page_index: crate::bytes::of_le(s.subrange(0, 4)) as u32,
            row_count: crate::bytes::of_le(s.subrange(4, 8)) as u32,
            min: crate::bytes::i64_of(s.subrange(8, 16)),
            max: crate::bytes::i64_of(s.subrange(16, 24)),
        }
    }
}

/// What there is to say of the pages of a column.
pub open spec fn zones(rows: Seq<i64>, page_rows: int) -> Seq<ZonePage> {
    let all = crate::columnar::pages(rows, 0, page_rows);
    Seq::new(all.len(), |i: int| ZonePage::about(all[i], i))
}

/// The file of a zone map.
pub open spec fn zone_file(z: Seq<ZonePage>) -> Seq<u8> {
    z.map_values(|p: ZonePage| p.bytes()).flatten()
}

/// What the file of a zone map says, or why it is refused.
pub open spec fn loaded(file: Seq<u8>) -> Result<Seq<ZonePage>, ZoneMapError> {
    if file.len() % 24 != 0 {
        Err(ZoneMapError::Truncated { file_len: file.len() as u64 })
    } else if file.len() / 24 > MAX_ZONE_PAGES {
        Err(ZoneMapError::TooManyPages { pages: (file.len() / 24) as usize })
    } else {
        Ok(Seq::new(file.len() / 24, |i: int| ZonePage::of(file.subrange(24 * i, 24 * i + 24))))
    }
}

/// Nothing is less than the least value or greater than the greatest, and both occur.
pub proof fn law_zone_bounds_every_row(page: Seq<i64>)
    requires
        page.len() > 0,
    ensures
        page.contains(crate::flow::least(page)),
        page.contains(crate::flow::greatest(page)),
        forall|i: int|
            0 <= i < page.len() ==> crate::flow::least(page) <= #[trigger] page[i]
                <= crate::flow::greatest(page),
    decreases page.len(),
{
    if page.len() == 1 {
        assert(page[0] == page.last());
    } else {
        let rest = page.drop_last();
        law_zone_bounds_every_row(rest);
        let a = choose|k: int| 0 <= k < rest.len() && rest[k] == crate::flow::least(rest);
        let b = choose|k: int| 0 <= k < rest.len() && rest[k] == crate::flow::greatest(rest);
        assert(page[a] == rest[a] && page[b] == rest[b]);
        assert(page[page.len() - 1] == page.last());
        assert forall|i: int| 0 <= i < page.len() implies crate::flow::least(page)
            <= #[trigger] page[i] <= crate::flow::greatest(page) by {
            if i < rest.len() {
                assert(rest[i] == page[i]);
            }
        }
    }
}

/// A zone map that was written is read back.
pub proof fn law_zone_map_reads_back(z: Seq<ZonePage>)
    requires
        z.len() <= MAX_ZONE_PAGES,
    ensures
        loaded(zone_file(z)) == Ok::<Seq<ZonePage>, ZoneMapError>(z),
{
    let records = z.map_values(|p: ZonePage| p.bytes());
    let file = zone_file(z);
    assert forall|k: int| 0 <= k < records.len() implies #[trigger] records[k].len() == 24 by {
        lemma_record(z[k]);
    }
    crate::bytes::lemma_even_len(records, 24);
    assert forall|i: int| 0 <= i < z.len() implies ZonePage::of(
        file.subrange(24 * i, 24 * i + 24),
    ) == #[trigger] z[i] by {
        crate::bytes::lemma_even_records(records, 24, i);
        lemma_record(z[i]);
        assert(records[i] == z[i].bytes());
    }
    assert(loaded(file)->Ok_0 =~= z);
}

proof fn lemma_record(p: ZonePage)
    ensures
        p.bytes().len() == 24,
        ZonePage::of(p.bytes()) == p,
{
    let s = p.bytes();
    crate::bytes::lemma_span();
    crate::bytes::law_number_reads_back(p.page_index as nat, 4);
    crate::bytes::law_number_reads_back(p.row_count as nat, 4);
    crate::bytes::law_i64_reads_back(p.min);
    crate::bytes::law_i64_reads_back(p.max);
    assert(s.subrange(0, 4) =~= crate::bytes::le(p.page_index as nat, 4));
    assert(s.subrange(4, 8) =~= crate::bytes::le(p.row_count as nat, 4));
    assert(s.subrange(8, 16) =~= crate::bytes::i64_bytes(p.min));
    assert(s.subrange(16, 24) =~= crate::bytes::i64_bytes(p.max));
}

/// What there is to say of a page.
fn page_zone(page: &[i64], page_index: u32) -> (r: ZonePage)
    requires
        page@.len() > 0,
    ensures
        r == (ZonePage { page_index, ..ZonePage::about(page@, 0) }),
{
    let mut min: i64 = page[0];
    let mut max: i64 = page[0];
    let mut i: usize = 1;
    while i < page.len()
        invariant
            1 <= i <= page@.len(),
            min == crate::flow::least(page@.take(i as int)),
            max == crate::flow::greatest(page@.take(i as int)),
        decreases page@.len() - i,
    {
        let v: i64 = page[i];
        if v < min {
            min = v;
        }
        if v > max {
            max = v;
        }
        i += 1;
        assert(page@.take(i as int).drop_last() =~= page@.take(i - 1));
    }
    assert(page@.take(i as int) =~= page@);
    ZonePage {
        page_index,
        row_count: #[verifier::truncate]
        (page.len() as u32),
        min,
        max,
    }
}

/// What there is to say of the pages of a stream that stands before its first row.
fn zone_pages(stream: &mut ColumnarFileStream) -> (r: Vec<ZonePage>)
    requires
        old(stream).wf(),
        old(stream).cursor_row == 0,
    ensures
        r@ == zones(old(stream).rows@, old(stream).page_rows as int),
{
    let ghost rows = stream.rows@;
    let ghost size = stream.page_rows as int;
    let ghost all = crate::columnar::pages(rows, 0, size);
    let mut records: Vec<ZonePage> = Vec::new();
    assert(all.take(0) + crate::columnar::pages(rows, 0, size) =~= all);
    assert(0 * size == 0) by (nonlinear_arith);
    while stream.cursor_row < stream.total_rows
        invariant
            stream.wf(),
            stream.rows@ == rows,
            stream.page_rows == size,
            all == crate::columnar::pages(rows, 0, size),
            records@.len() <= all.len(),
            all == all.take(records@.len() as int) + crate::columnar::pages(
                rows,
                stream.cursor_row as int,
                size,
            ),
            forall|i: int|
                0 <= i < records@.len() ==> #[trigger] records@[i] == ZonePage::about(all[i], i),
            stream.cursor_row < stream.total_rows ==> stream.cursor_row == records@.len() * size,
        decreases stream.total_rows - stream.cursor_row,
    {
        let ghost from = stream.cursor_row as int;
        let ghost k = records@.len() as int;
        proof {
            assert(all[k] == crate::columnar::page_at(rows, from, size)) by {
                assert(all[k] == crate::columnar::pages(rows, from, size)[0]);
            }
            assert(from / size == k) by (nonlinear_arith)
                requires
                    from == k * size,
                    size > 0,
            ;
        }
        let zone: ZonePage = match stream.next_page_chunk() {
            Some(chunk) => page_zone(chunk.rows, chunk.page_index),
            None => {
                return records;
            },
        };
        records.push(zone);
        proof {
            let next = stream.cursor_row as int;
            crate::columnar::lemma_page_step(rows, from, size);
            assert(all.take(k + 1) =~= all.take(k).push(all[k]));
            assert(all =~= all.take(k + 1) + crate::columnar::pages(rows, next, size));
            assert((k + 1) * size == k * size + size) by (nonlinear_arith);
        }
    }
    assert(crate::columnar::pages(rows, stream.cursor_row as int, size) =~= Seq::empty());
    assert(records@ =~= zones(rows, size));
    records
}

/// A zone map as the bytes of its file.
pub struct ZoneMapBytes {
    pub zmap: Vec<u8>,
    pub pages: usize,
}

/// Makes the zone map of an integer column from the bytes of its files.
pub fn write_zonemap_for_column(bin: &[u8], meta: Option<&[u8]>, page_size: usize) -> (r: Result<
    ZoneMapBytes,
    ZoneMapError,
>)
    ensures
        match crate::columnar::opened_beside(
            bin@,
            match meta {
                Some(m) => Some(m@),
                None => None,
            },
        ) {
            Ok(rows) => {
                let z = zones(rows, crate::columnar::rows_per_page(page_size as nat) as int);
                if z.len() > MAX_ZONE_PAGES {
                    r == Err::<ZoneMapBytes, ZoneMapError>(
                        ZoneMapError::TooManyPages { pages: z.len() as usize },
                    )
                } else {
                    r is Ok && r->Ok_0.zmap@ == zone_file(z) && r->Ok_0.pages == z.len()
                }
            },
            Err(e) => r == Err::<ZoneMapBytes, ZoneMapError>(ZoneMapError::Io(e)),
        },
{
    let mut stream = match ColumnarFileStream::open_int64_copied(bin, meta, page_size) {
        Ok(s) => s,
        Err(e) => {
            return Err(ZoneMapError::Io(e));
        },
    };
    let records: Vec<ZonePage> = zone_pages(&mut stream);
    if records.len() > MAX_ZONE_PAGES {
        return Err(ZoneMapError::TooManyPages { pages: records.len() });
    }
    let mut zmap: Vec<u8> = Vec::new();
    let mut i: usize = 0;
    assert(zmap@ =~= zone_file(records@.take(0)));
    while i < records.len()
        invariant
            i <= records@.len(),
            zmap@ == zone_file(records@.take(i as int)),
        decreases records@.len() - i,
    {
        let ghost before = records@.take(i as int).map_values(|p: ZonePage| p.bytes());
        let p: ZonePage = records[i];
        push_le(&mut zmap, p.page_index as u64, 4);
        push_le(&mut zmap, p.row_count as u64, 4);
        push_le(&mut zmap, to_unsigned(p.min), 8);
        push_le(&mut zmap, to_unsigned(p.max), 8);
        i += 1;
        proof {
            let now = records@.take(i as int).map_values(|q: ZonePage| q.bytes());
            assert(now =~= before.push(p.bytes()));
            before.lemma_flatten_push(p.bytes());
            assert(zmap@ =~= now.flatten());
        }
    }
    assert(records@.take(i as int) =~= records@);
    Ok(ZoneMapBytes { zmap, pages: records.len() })
}

/// A zone map in memory.
#[derive(Copy, Clone)]
pub struct ZoneMap {
    pages: [ZonePage; MAX_ZONE_PAGES],
    len: usize,
}

impl View for ZoneMap {
    type V = Seq<ZonePage>;

    closed spec fn view(&self) -> Seq<ZonePage> {
        self.pages@.take(self.len as int)
    }
}

impl ZoneMap {
    /// No more pages than there is room for.
    pub closed spec fn wf(&self) -> bool {
        self.len <= MAX_ZONE_PAGES
    }

    /// Reads the file of a zone map.
    pub fn open(file: &[u8]) -> (r: Result<Self, ZoneMapError>)
        ensures
            match loaded(file@) {
                Ok(z) => r is Ok && r->Ok_0.wf() && r->Ok_0@ == z,
                Err(e) => r == Err::<Self, ZoneMapError>(e),
            },
    {
        let file_len: usize = file.len();
        if file_len % ZONE_PAGE_BYTES != 0 {
            return Err(ZoneMapError::Truncated { file_len: file_len as u64 });
        }
        let n: usize = file_len / ZONE_PAGE_BYTES;
        if n > MAX_ZONE_PAGES {
            return Err(ZoneMapError::TooManyPages { pages: n });
        }
        let mut pages: [ZonePage; MAX_ZONE_PAGES] = [ZonePage {
            page_index: 0,
            row_count: 0,
            min: 0,
            max: 0,
        };MAX_ZONE_PAGES];
        let mut i: usize = 0;
        while i < n
            invariant
                i <= n <= MAX_ZONE_PAGES,
                24 * n <= file.len(),
                forall|k: int|
                    0 <= k < i ==> #[trigger] pages@[k] == ZonePage::of(
                        file@.subrange(24 * k, 24 * k + 24),
                    ),
            decreases n - i,
        {
            let at: usize = 24 * i;
            proof {
                let s = file@.subrange(24 * i, 24 * i + 24);
                crate::bytes::lemma_span();
                assert(file@.subrange(at as int, at + 4) =~= s.subrange(0, 4));
                assert(file@.subrange(at + 4, at + 8) =~= s.subrange(4, 8));
                assert(file@.subrange(at + 8, at + 16) =~= s.subrange(8, 16));
                assert(file@.subrange(at + 16, at + 24) =~= s.subrange(16, 24));
            }
            pages[i] = ZonePage {
                page_index: read_le(file, at, 4) as u32,
                row_count: read_le(file, at + 4, 4) as u32,
                min: to_signed(read_le(file, at + 8, 8)),
                max: to_signed(read_le(file, at + 16, 8)),
            };
            i += 1;
        }
        let zone_map = ZoneMap { pages, len: n };
        assert(zone_map@ =~= loaded(file@)->Ok_0);
        Ok(zone_map)
    }

    /// Reads the file of a zone map where there is one: a column without one is no error, a file
    /// that is no zone map is.
    pub fn load(file: Option<&[u8]>) -> (r: Result<Option<Self>, ZoneMapError>)
        ensures
            match file {
                None => r == Ok::<Option<Self>, ZoneMapError>(None),
                Some(f) => match loaded(f@) {
                    Ok(z) => r is Ok && r->Ok_0 is Some && r->Ok_0->0.wf() && r->Ok_0->0@ == z,
                    Err(e) => r == Err::<Option<Self>, ZoneMapError>(e),
                },
            },
    {
        match file {
            None => Ok(None),
            Some(f) => match Self::open(f) {
                Ok(m) => Ok(Some(m)),
                Err(e) => Err(e),
            },
        }
    }

    /// How many pages it describes.
    pub fn len(&self) -> (r: usize)
        requires
            self.wf(),
        ensures
            r == self@.len(),
    {
        self.len
    }

    /// Whether it describes no page.
    pub fn is_empty(&self) -> (r: bool)
        requires
            self.wf(),
        ensures
            r == (self@.len() == 0),
    {
        self.len == 0
    }

    /// What it says of page `i`, if anything.
    pub fn page(&self, i: usize) -> (r: Option<&ZonePage>)
        requires
            self.wf(),
        ensures
            match r {
                Some(p) => i < self@.len() && *p == self@[i as int],
                None => i >= self@.len(),
            },
    {
        if i < self.len {
            Some(&self.pages[i])
        } else {
            None
        }
    }

    /// How many pages it describes.
    pub fn page_count(&self) -> (r: u32)
        requires
            self.wf(),
        ensures
            r == self@.len(),
    {
        self.len() as u32
    }

    /// What it says of page `i`, if anything.
    pub fn entry(&self, i: usize) -> (r: Option<&ZonePage>)
        requires
            self.wf(),
        ensures
            match r {
                Some(p) => i < self@.len() && *p == self@[i as int],
                None => i >= self@.len(),
            },
    {
        self.page(i)
    }
}

/// A comparison of the values of a column with a number.
#[derive(Copy, Clone, Debug, PartialEq, Eq, Structural)]
pub enum ZonePredicate {
    Gt(i64),
    Gte(i64),
    Lt(i64),
    Eq(i64),
}

impl ZonePredicate {
    /// Whether `v` passes.
    pub open spec fn passes(self, v: i64) -> bool {
        match self {
            ZonePredicate::Gt(lit) => v > lit,
            ZonePredicate::Gte(lit) => v >= lit,
            ZonePredicate::Lt(lit) => v < lit,
            ZonePredicate::Eq(lit) => v == lit,
        }
    }

    /// Whether a value between the bounds of a page can pass.
    pub open spec fn may_match(self, page: ZonePage) -> bool {
        match self {
            ZonePredicate::Gt(lit) => page.max > lit,
            ZonePredicate::Gte(lit) => page.max >= lit,
            ZonePredicate::Lt(lit) => page.min < lit,
            ZonePredicate::Eq(lit) => page.min <= lit <= page.max,
        }
    }

    /// Whether `v` passes.
    pub fn keeps(&self, v: i64) -> (r: bool)
        ensures
            r == self.passes(v),
    {
        match *self {
            ZonePredicate::Gt(lit) => v > lit,
            ZonePredicate::Gte(lit) => v >= lit,
            ZonePredicate::Lt(lit) => v < lit,
            ZonePredicate::Eq(lit) => v == lit,
        }
    }

    /// Whether the page must be looked at: `false` only if no value between its bounds passes.
    pub fn page_may_match(&self, page: &ZonePage) -> (r: bool)
        ensures
            r == self.may_match(*page),
    {
        match *self {
            ZonePredicate::Gt(lit) => page.max > lit,
            ZonePredicate::Gte(lit) => page.max >= lit,
            ZonePredicate::Lt(lit) => page.min < lit,
            ZonePredicate::Eq(lit) => lit >= page.min && lit <= page.max,
        }
    }
}

/// A page is passed over if and only if no value between its bounds passes.
pub proof fn law_page_is_skipped_only_if_none_can_pass(p: ZonePredicate, page: ZonePage)
    requires
        page.min <= page.max,
    ensures
        p.may_match(page) <==> exists|v: i64|
            page.min <= v <= page.max && #[trigger] p.passes(v),
{
    if p.may_match(page) {
        let v = match p {
            ZonePredicate::Gt(_) | ZonePredicate::Gte(_) => page.max,
            ZonePredicate::Lt(_) => page.min,
            ZonePredicate::Eq(lit) => lit,
        };
        assert(page.min <= v <= page.max && p.passes(v));
    }
}

/// No row of a page that is passed over would have passed.
pub proof fn law_skipped_page_holds_no_match(p: ZonePredicate, page: Seq<i64>, index: int)
    requires
        page.len() > 0,
        !p.may_match(ZonePage::about(page, index)),
    ensures
        forall|i: int| 0 <= i < page.len() ==> !p.passes(#[trigger] page[i]),
{
    law_zone_bounds_every_row(page);
}

} // verus!
