//! Filters over columns in files, page by page.

use crate::columnar::{ColumnarFileStream, ColumnarTableStream};
use crate::runtime::PushdownStats;
use crate::zonemap::{ZoneMap, ZonePredicate};
use vstd::prelude::*;

verus! {

/// The values that pass, in order.
pub open spec fn passing(values: Seq<i64>, p: ZonePredicate) -> Seq<i64> {
    values.filter(|v: i64| p.passes(v))
}

/// Whether a filter with the zone map `z` passes over page `i`.
pub open spec fn passed_over(z: Seq<crate::zonemap::ZonePage>, p: ZonePredicate, i: int) -> bool {
    i < z.len() && !p.may_match(z[i])
}

/// The values that pass on the pages of a column that are not passed over.
pub open spec fn pushed_down(
    all: Seq<Seq<i64>>,
    z: Seq<crate::zonemap::ZonePage>,
    p: ZonePredicate,
) -> Seq<i64>
    decreases all.len(),
{
    if all.len() == 0 {
        Seq::empty()
    } else {
        let before = pushed_down(all.drop_last(), z, p);
        if passed_over(z, p, all.len() - 1) {
            before
        } else {
            before + passing(all.last(), p)
        }
    }
}

/// How many of the first `n` pages are passed over.
pub open spec fn count_passed_over(
    z: Seq<crate::zonemap::ZonePage>,
    p: ZonePredicate,
    n: nat,
) -> nat
    decreases n,
{
    if n == 0 {
        0
    } else {
        count_passed_over(z, p, (n - 1) as nat) + if passed_over(z, p, n - 1) {
            1nat
        } else {
            0nat
        }
    }
}

/// `out` holds as many of `kept` as there is room for, in front of what it held behind them.
pub open spec fn filled(out: Seq<i64>, len: int, before: Seq<i64>, kept: Seq<i64>) -> bool {
    &&& len == if kept.len() <= before.len() {
        kept.len()
    } else {
        before.len()
    }
    &&& out == kept.take(len) + before.skip(len)
}

/// A zone map of the column does not change what a filter keeps.
pub proof fn law_pushdown_keeps_what_passes(
    rows: Seq<i64>,
    page_rows: int,
    z: Seq<crate::zonemap::ZonePage>,
    p: ZonePredicate,
)
    requires
        page_rows > 0,
        z.is_prefix_of(crate::zonemap::zones(rows, page_rows)),
    ensures
        pushed_down(crate::columnar::pages(rows, 0, page_rows), z, p) == passing(rows, p),
{
    let all = crate::columnar::pages(rows, 0, page_rows);
    crate::columnar::law_pages_hold_every_row_once(rows, 0, page_rows);
    crate::columnar::law_pages_are_whole_but_the_last(rows, page_rows);
    assert(rows.skip(0) =~= rows);
    let full = rows.len() as int / page_rows;
    assert forall|i: int| 0 <= i < all.len() implies (#[trigger] all[i]).len() > 0 by {
        assert(all[i].len() == if i < full { page_rows } else { rows.len() as int % page_rows });
        assert(rows.len() as int % page_rows >= 0) by (nonlinear_arith)
            requires
                page_rows > 0,
        ;
    }
    assert forall|i: int| 0 <= i < z.len() && i < all.len() implies #[trigger] z[i]
        == crate::zonemap::ZonePage::about(all[i], i) by {
        let whole = crate::zonemap::zones(rows, page_rows);
        assert(whole.subrange(0, z.len() as int)[i] == whole[i]);
    }
    lemma_pushed_down(all, z, p);
}

proof fn lemma_pushed_down(
    all: Seq<Seq<i64>>,
    z: Seq<crate::zonemap::ZonePage>,
    p: ZonePredicate,
)
    requires
        forall|i: int| 0 <= i < all.len() ==> (#[trigger] all[i]).len() > 0,
        forall|i: int|
            0 <= i < z.len() && i < all.len() ==> #[trigger] z[i]
                == crate::zonemap::ZonePage::about(all[i], i),
    ensures
        pushed_down(all, z, p) == passing(all.flatten(), p),
    decreases all.len(),
{
    let f = |v: i64| p.passes(v);
    if all.len() == 0 {
        assert(all.flatten() =~= Seq::empty());
        reveal(Seq::filter);
    } else {
        let head = all.drop_last();
        let page = all.last();
        assert(page == all[all.len() - 1]);
        assert forall|i: int| 0 <= i < head.len() implies (#[trigger] head[i]).len() > 0 by {
            assert(head[i] == all[i]);
        }
        assert forall|i: int| 0 <= i < z.len() && i < head.len() implies #[trigger] z[i]
            == crate::zonemap::ZonePage::about(head[i], i) by {
            assert(head[i] == all[i]);
        }
        lemma_pushed_down(head, z, p);
        assert(all =~= head.push(page));
        head.lemma_flatten_push(page);
        Seq::filter_distributes_over_add(head.flatten(), page, f);
        if passed_over(z, p, all.len() - 1) {
            crate::zonemap::law_skipped_page_holds_no_match(p, page, all.len() - 1);
            lemma_none_pass(page, p);
            assert(passing(head.flatten(), p) + passing(page, p) =~= passing(head.flatten(), p));
        }
    }
}

proof fn lemma_none_pass(values: Seq<i64>, p: ZonePredicate)
    requires
        forall|i: int| 0 <= i < values.len() ==> !p.passes(#[trigger] values[i]),
    ensures
        passing(values, p) == Seq::<i64>::empty(),
    decreases values.len(),
{
    reveal(Seq::filter);
    if values.len() > 0 {
        let rest = values.drop_last();
        assert forall|i: int| 0 <= i < rest.len() implies !p.passes(#[trigger] rest[i]) by {
            assert(rest[i] == values[i]);
        }
        lemma_none_pass(rest, p);
        assert(values.last() == values[values.len() - 1]);
    }
}

/// Appends the values that pass to the first `*len` of `out`, as far as there is room.
fn keep_passing(values: &[i64], p: ZonePredicate, out: &mut Vec<i64>, len: &mut usize, Ghost(
    before,
): Ghost<Seq<i64>>, Ghost(kept): Ghost<Seq<i64>>)
    requires
        filled(old(out)@, *old(len) as int, before, kept),
    ensures
        filled(final(out)@, *final(len) as int, before, kept + passing(values@, p)),
{
    let mut i: usize = 0;
    proof {
        reveal(Seq::filter);
        assert(kept + passing(values@.take(0), p) =~= kept);
    }
    while i < values.len()
        invariant
            i <= values@.len(),
            filled(out@, *len as int, before, kept + passing(values@.take(i as int), p)),
        decreases values@.len() - i,
    {
        let v: i64 = values[i];
        let ghost now = kept + passing(values@.take(i as int), p);
        proof {
            reveal(Seq::filter);
            assert(values@.take(i + 1).drop_last() =~= values@.take(i as int));
            if p.passes(v) {
                assert(kept + passing(values@.take(i + 1), p) =~= now.push(v));
            }
        }
        if p.keeps(v) && *len < out.len() {
            out.set(*len, v);
            *len = *len + 1;
            assert(out@ =~= now.push(v).take(*len as int) + before.skip(*len as int));
        } else if p.keeps(v) {
            assert(now.push(v).take(*len as int) =~= now.take(*len as int));
        }
        i += 1;
    }
    assert(values@.take(i as int) =~= values@);
}

/// What a zone map says, or nothing where there is none.
pub open spec fn zones_of(zmap: Option<&ZoneMap>) -> Seq<crate::zonemap::ZonePage> {
    match zmap {
        Some(z) => z@,
        None => Seq::empty(),
    }
}

/// Filters an integer column from its first row on and puts the values that pass into `out`, as
/// many as there is room for. Pages on which the zone map says that none can pass are not looked
/// at; `stats` counts them and the others.
pub fn execute_mmap_i64_filter_stream_pushdown(
    stream: &mut ColumnarFileStream,
    zmap: Option<&ZoneMap>,
    predicate: ZonePredicate,
    out: &mut Vec<i64>,
    out_len: &mut usize,
    stats: &mut PushdownStats,
)
    requires
        old(stream).wf(),
        zmap matches Some(z) ==> z.wf(),
    ensures
        final(stream).wf(),
        old(stream).moved(final(stream), old(stream).total_rows as int),
        ({
            let all = crate::columnar::pages(old(stream).rows@, 0, old(stream).page_rows as int);
            let z = zones_of(zmap);
            let skipped = count_passed_over(z, predicate, all.len());
            &&& filled(
                final(out)@,
                *final(out_len) as int,
                old(out)@,
                pushed_down(all, z, predicate),
            )
            &&& final(stats).pages_total == all.len() as u32
            &&& final(stats).pages_skipped == skipped as u32
            &&& final(stats).pages_scanned == (all.len() - skipped) as u32
        }),
{
    let ghost before = out@;
    let ghost rows = stream.rows@;
    let ghost size = stream.page_rows as int;
    let ghost all = crate::columnar::pages(rows, 0, size);
    let ghost z = zones_of(zmap);
    stream.rewind();
    *out_len = 0;
    let mut total: usize = 0;
    let mut skipped: usize = 0;
    proof {
        assert(all.take(0) + crate::columnar::pages(rows, 0, size) =~= all);
        assert(pushed_down(all.take(0), z, predicate) =~= Seq::empty());
        assert(out@ =~= Seq::<i64>::empty().take(0) + before.skip(0));
    }
    while stream.cursor_row < stream.total_rows
        invariant
            stream.wf(),
            old(stream).moved(stream, stream.cursor_row as int),
            rows == stream.rows@,
            size == stream.page_rows,
            all == crate::columnar::pages(rows, 0, size),
            z == zones_of(zmap),
            zmap matches Some(m) ==> m.wf(),
            total <= all.len(),
            total <= stream.cursor_row,
            skipped <= total,
            all == all.take(total as int) + crate::columnar::pages(
                rows,
                stream.cursor_row as int,
                size,
            ),
            skipped == count_passed_over(z, predicate, total as nat),
            filled(
                out@,
                *out_len as int,
                before,
                pushed_down(all.take(total as int), z, predicate),
            ),
        decreases stream.total_rows - stream.cursor_row,
    {
        let ghost from = stream.cursor_row as int;
        let ghost kept = pushed_down(all.take(total as int), z, predicate);
        proof {
            crate::columnar::lemma_page_step(rows, from, size);
            let page = crate::columnar::page_at(rows, from, size);
            assert(all[total as int] == page) by {
                assert(all[total as int] == crate::columnar::pages(rows, from, size)[0]);
            }
            assert(all.take(total + 1) =~= all.take(total as int).push(page));
            assert(all.take(total + 1).drop_last() =~= all.take(total as int));
            assert(all =~= all.take(total + 1) + crate::columnar::pages(
                rows,
                from + page.len(),
                size,
            ));
        }
        let skip: bool = match zmap {
            Some(m) => match m.page(total) {
                Some(zone) => !predicate.page_may_match(zone),
                None => false,
            },
            None => false,
        };
        match stream.next_page_chunk() {
            Some(chunk) => {
                if skip {
                    skipped = skipped + 1;
                } else {
                    keep_passing(chunk.rows, predicate, out, out_len, Ghost(before), Ghost(kept));
                }
            },
            None => {},
        }
        total = total + 1;
    }
    proof {
        assert(crate::columnar::pages(rows, stream.cursor_row as int, size) =~= Seq::empty());
        assert(all.take(total as int) =~= all);
    }
    *stats = PushdownStats {
        pages_total: #[verifier::truncate]
        (total as u32),
        pages_scanned: #[verifier::truncate]
        ((total - skipped) as u32),
        pages_skipped: #[verifier::truncate]
        (skipped as u32),
    };
}

/// As [`execute_mmap_i64_filter_stream_pushdown`], with a switch: unless `enabled`, every page is
/// looked at.
pub fn execute_int64_filter_pushdown(
    stream: &mut ColumnarFileStream,
    zmap: Option<&ZoneMap>,
    predicate: ZonePredicate,
    enabled: bool,
    out: &mut Vec<i64>,
    out_len: &mut usize,
    stats: &mut PushdownStats,
)
    requires
        old(stream).wf(),
        zmap matches Some(z) ==> z.wf(),
    ensures
        final(stream).wf(),
        old(stream).moved(final(stream), old(stream).total_rows as int),
        ({
            let all = crate::columnar::pages(old(stream).rows@, 0, old(stream).page_rows as int);
            let z = if enabled {
                zones_of(zmap)
            } else {
                Seq::empty()
            };
            let skipped = count_passed_over(z, predicate, all.len());
            &&& filled(
                final(out)@,
                *final(out_len) as int,
                old(out)@,
                pushed_down(all, z, predicate),
            )
            &&& final(stats).pages_total == all.len() as u32
            &&& final(stats).pages_skipped == skipped as u32
            &&& final(stats).pages_scanned == (all.len() - skipped) as u32
        }),
{
    let consulted: Option<&ZoneMap> = if enabled {
        zmap
    } else {
        None
    };
    execute_mmap_i64_filter_stream_pushdown(stream, consulted, predicate, out, out_len, stats);
}

/// Without a zone map every page is looked at, and what passes in the column is kept.
pub proof fn law_no_zone_map_is_a_full_scan(rows: Seq<i64>, page_rows: int, p: ZonePredicate)
    requires
        page_rows > 0,
    ensures
        pushed_down(crate::columnar::pages(rows, 0, page_rows), Seq::empty(), p) == passing(
            rows,
            p,
        ),
        forall|n: nat| #[trigger] count_passed_over(Seq::empty(), p, n) == 0,
{
    let none = Seq::<crate::zonemap::ZonePage>::empty();
    assert(none.is_prefix_of(crate::zonemap::zones(rows, page_rows)));
    law_pushdown_keeps_what_passes(rows, page_rows, none, p);
    assert forall|n: nat| #[trigger] count_passed_over(Seq::empty(), p, n) == 0 by {
        lemma_none_passed_over(p, n);
    }
}

proof fn lemma_none_passed_over(p: ZonePredicate, n: nat)
    ensures
        count_passed_over(Seq::empty(), p, n) == 0,
    decreases n,
{
    if n > 0 {
        lemma_none_passed_over(p, (n - 1) as nat);
    }
}

/// What a filter over a column saw.
#[derive(Copy, Clone, Debug, PartialEq, Eq, Structural)]
pub struct MmapStreamStats {
    /// Pages that were full.
    pub pages_full: u32,
    /// Last pages that were not.
    pub pages_residue: u32,
    /// The rows of such a page.
    pub residue_rows: u32,
    pub rows_scanned: u64,
    pub rows_kept: u64,
}

impl Default for MmapStreamStats {
    /// Nothing.
    fn default() -> (r: Self)
        ensures
            r == (MmapStreamStats {
                pages_full: 0,
                pages_residue: 0,
                residue_rows: 0,
                rows_scanned: 0,
                rows_kept: 0,
            }),
    {
        MmapStreamStats {
            pages_full: 0,
            pages_residue: 0,
            residue_rows: 0,
            rows_scanned: 0,
            rows_kept: 0,
        }
    }
}

impl MmapStreamStats {
    /// The numbers of a filter over all of `rows` that kept `kept` of them.
    pub open spec fn of(rows: nat, page_rows: nat, kept: nat) -> MmapStreamStats {
        let rest = rows % page_rows;
        MmapStreamStats {
            pages_full: (rows / page_rows) as u32,
            pages_residue: if rest == 0 {
                0
            } else {
                1
            },
            residue_rows: rest as u32,
            rows_scanned: rows as u64,
            rows_kept: kept as u64,
        }
    }
}

/// The prices of the rows whose age passes, in order.
pub open spec fn priced(ages: Seq<i64>, prices: Seq<i64>, p: ZonePredicate) -> Seq<i64>
    decreases ages.len(),
{
    if ages.len() == 0 {
        Seq::empty()
    } else {
        let before = priced(ages.drop_last(), prices, p);
        if p.passes(ages.last()) {
            before.push(prices[ages.len() - 1])
        } else {
            before
        }
    }
}

/// As many rows are kept by a filter as ages pass.
pub proof fn law_one_price_for_every_age_that_passes(
    ages: Seq<i64>,
    prices: Seq<i64>,
    p: ZonePredicate,
)
    ensures
        priced(ages, prices, p).len() == passing(ages, p).len(),
    decreases ages.len(),
{
    reveal(Seq::filter);
    if ages.len() > 0 {
        law_one_price_for_every_age_that_passes(ages.drop_last(), prices, p);
    }
}

proof fn lemma_priced_in_parts(ages: Seq<i64>, prices: Seq<i64>, p: ZonePredicate, a: int, b: int)
    requires
        0 <= a <= b <= ages.len(),
        ages.len() == prices.len(),
    ensures
        priced(ages.take(b), prices, p) == priced(ages.take(a), prices, p) + priced(
            ages.subrange(a, b),
            prices.subrange(a, b),
            p,
        ),
    decreases b - a,
{
    let first = priced(ages.take(a), prices, p);
    if a == b {
        assert(first + priced(ages.subrange(a, b), prices.subrange(a, b), p) =~= first);
    } else {
        lemma_priced_in_parts(ages, prices, p, a, b - 1);
        let here = ages.subrange(a, b);
        assert(ages.take(b).drop_last() =~= ages.take(b - 1));
        assert(here.drop_last() =~= ages.subrange(a, b - 1));
        lemma_priced_prefix(
            ages.subrange(a, b - 1),
            prices.subrange(a, b),
            prices.subrange(a, b - 1),
            p,
        );
        assert(priced(ages.take(b), prices, p) =~= first + priced(
            here,
            prices.subrange(a, b),
            p,
        ));
    }
}

proof fn lemma_priced_prefix(ages: Seq<i64>, p1: Seq<i64>, p2: Seq<i64>, p: ZonePredicate)
    requires
        forall|i: int| 0 <= i < ages.len() ==> #[trigger] p1[i] == p2[i],
    ensures
        priced(ages, p1, p) == priced(ages, p2, p),
    decreases ages.len(),
{
    if ages.len() > 0 {
        lemma_priced_prefix(ages.drop_last(), p1, p2, p);
        assert(p1[ages.len() - 1] == p2[ages.len() - 1]);
    }
}

/// How many values pass.
fn count_passing(values: &[i64], p: ZonePredicate) -> (r: usize)
    ensures
        r == passing(values@, p).len(),
        r <= values@.len(),
{
    let mut n: usize = 0;
    let mut i: usize = 0;
    proof {
        reveal(Seq::filter);
        assert(values@.take(0) =~= Seq::empty());
    }
    while i < values.len()
        invariant
            n <= i <= values@.len(),
            n == passing(values@.take(i as int), p).len(),
        decreases values@.len() - i,
    {
        proof {
            reveal(Seq::filter);
            assert(values@.take(i + 1).drop_last() =~= values@.take(i as int));
        }
        if p.keeps(values[i]) {
            n += 1;
        }
        i += 1;
    }
    assert(values@.take(i as int) =~= values@);
    n
}

/// Goes through an integer column page by page and counts the rows above `threshold`.
pub fn execute_mmap_age_filter_stream(
    stream: &mut ColumnarFileStream,
    threshold: i64,
    stats: &mut MmapStreamStats,
)
    requires
        old(stream).wf(),
    ensures
        final(stream).wf(),
        old(stream).moved(final(stream), old(stream).total_rows as int),
        *final(stats) == MmapStreamStats::of(
            old(stream).rows@.len(),
            old(stream).page_rows as nat,
            passing(old(stream).rows@, ZonePredicate::Gt(threshold)).len(),
        ),
{
    let p = ZonePredicate::Gt(threshold);
    let ghost rows = stream.rows@;
    let ghost size = stream.page_rows as int;
    stream.rewind();
    let mut full: usize = 0;
    let mut residue: usize = 0;
    let mut kept: usize = 0;
    proof {
        reveal(Seq::filter);
        assert(rows.take(0) =~= Seq::empty());
        assert(0 * size == 0) by (nonlinear_arith);
    }
    while stream.cursor_row < stream.total_rows
        invariant
            stream.wf(),
            old(stream).moved(stream, stream.cursor_row as int),
            rows == stream.rows@,
            size == stream.page_rows,
            kept <= stream.cursor_row,
            full <= stream.cursor_row,
            stream.cursor_row == full * size + residue,
            residue < size,
            residue > 0 ==> stream.cursor_row == stream.total_rows,
            kept == passing(rows.take(stream.cursor_row as int), p).len(),
        decreases stream.total_rows - stream.cursor_row,
    {
        let ghost from = stream.cursor_row as int;
        let page_rows: usize = stream.page_rows;
        match stream.next_page_chunk() {
            Some(chunk) => {
                let n: usize = chunk.rows.len();
                let more: usize = count_passing(chunk.rows, p);
                proof {
                    assert(rows.take(from) + chunk.rows@ =~= rows.take(from + n));
                    Seq::filter_distributes_over_add(
                        rows.take(from),
                        chunk.rows@,
                        |v: i64| p.passes(v),
                    );
                    assert((full + 1) * size == full * size + size) by (nonlinear_arith);
                }
                kept = kept + more;
                if n < page_rows {
                    residue = n;
                } else {
                    full = full + 1;
                }
            },
            None => {},
        }
    }
    proof {
        assert(rows.take(stream.cursor_row as int) =~= rows);
        vstd::arithmetic::div_mod::lemma_fundamental_div_mod_converse(
            rows.len() as int,
            size,
            full as int,
            residue as int,
        );
    }
    *stats = MmapStreamStats {
        pages_full: #[verifier::truncate]
        (full as u32),
        pages_residue: if residue == 0 {
            0
        } else {
            1
        },
        residue_rows: #[verifier::truncate]
        (residue as u32),
        rows_scanned: stream.total_rows as u64,
        rows_kept: kept as u64,
    };
}

/// Appends the prices of the rows whose age passes to the first `*len` of `out`, as far as there
/// is room, and returns how many passed.
fn keep_prices(
    ages: &[i64],
    prices: &[i64],
    p: ZonePredicate,
    out: &mut Vec<i64>,
    len: &mut usize,
    Ghost(before): Ghost<Seq<i64>>,
    Ghost(kept): Ghost<Seq<i64>>,
) -> (r: usize)
    requires
        ages@.len() == prices@.len(),
        filled(old(out)@, *old(len) as int, before, kept),
    ensures
        r == priced(ages@, prices@, p).len(),
        r <= ages@.len(),
        filled(final(out)@, *final(len) as int, before, kept + priced(ages@, prices@, p)),
{
    let mut i: usize = 0;
    let mut n: usize = 0;
    assert(kept + priced(ages@.take(0), prices@, p) =~= kept);
    while i < ages.len()
        invariant
            n <= i <= ages@.len(),
            ages@.len() == prices@.len(),
            n == priced(ages@.take(i as int), prices@, p).len(),
            filled(out@, *len as int, before, kept + priced(ages@.take(i as int), prices@, p)),
        decreases ages@.len() - i,
    {
        let v: i64 = ages[i];
        let price: i64 = prices[i];
        let ghost now = kept + priced(ages@.take(i as int), prices@, p);
        proof {
            assert(ages@.take(i + 1).drop_last() =~= ages@.take(i as int));
            if p.passes(v) {
                assert(kept + priced(ages@.take(i + 1), prices@, p) =~= now.push(price));
            }
        }
        if p.keeps(v) {
            n += 1;
            if *len < out.len() {
                out.set(*len, price);
                *len = *len + 1;
                assert(out@ =~= now.push(price).take(*len as int) + before.skip(*len as int));
            } else {
                assert(now.push(price).take(*len as int) =~= now.take(*len as int));
            }
        }
        i += 1;
    }
    assert(ages@.take(i as int) =~= ages@);
    n
}

/// Goes through a table page by page and puts the prices of the rows with an age above
/// `threshold` into `out_prices`, as many as there is room for.
pub fn execute_mmap_table_filter_project_stream(
    table: &mut ColumnarTableStream,
    threshold: i64,
    stats: &mut MmapStreamStats,
    out_prices: &mut Vec<i64>,
    out_len: &mut usize,
)
    requires
        old(table).wf(),
    ensures
        final(table).wf(),
        old(table).user_ids.moved(&final(table).user_ids, old(table).ages.total_rows as int),
        old(table).ages.moved(&final(table).ages, old(table).ages.total_rows as int),
        old(table).prices.moved(&final(table).prices, old(table).ages.total_rows as int),
        ({
            let kept = priced(
                old(table).ages.rows@,
                old(table).prices.rows@,
                ZonePredicate::Gt(threshold),
            );
            &&& filled(final(out_prices)@, *final(out_len) as int, old(out_prices)@, kept)
            &&& *final(stats) == MmapStreamStats::of(
                old(table).ages.rows@.len(),
                old(table).ages.page_rows as nat,
                kept.len(),
            )
        }),
{
    let p = ZonePredicate::Gt(threshold);
    let ghost before = out_prices@;
    let ghost ages = table.ages.rows@;
    let ghost prices = table.prices.rows@;
    let ghost size = table.ages.page_rows as int;
    table.rewind();
    *out_len = 0;
    let mut full: usize = 0;
    let mut residue: usize = 0;
    let mut kept: usize = 0;
    proof {
        assert(0 * size == 0) by (nonlinear_arith);
        assert(out_prices@ =~= Seq::<i64>::empty().take(0) + before.skip(0));
    }
    while table.ages.cursor_row < table.ages.total_rows
        invariant
            table.wf(),
            old(table).user_ids.moved(&table.user_ids, table.ages.cursor_row as int),
            old(table).ages.moved(&table.ages, table.ages.cursor_row as int),
            old(table).prices.moved(&table.prices, table.ages.cursor_row as int),
            ages == table.ages.rows@,
            prices == table.prices.rows@,
            size == table.ages.page_rows,
            kept <= table.ages.cursor_row,
            full <= table.ages.cursor_row,
            table.ages.cursor_row == full * size + residue,
            residue < size,
            residue > 0 ==> table.ages.cursor_row == table.ages.total_rows,
            kept == priced(ages.take(table.ages.cursor_row as int), prices, p).len(),
            filled(
                out_prices@,
                *out_len as int,
                before,
                priced(ages.take(table.ages.cursor_row as int), prices, p),
            ),
        decreases table.ages.total_rows - table.ages.cursor_row,
    {
        let ghost from = table.ages.cursor_row as int;
        let ghost so_far = priced(ages.take(from), prices, p);
        let page_rows: usize = table.ages.page_rows;
        match table.next_page() {
            Some(page) => {
                let n: usize = page.ages.len();
                proof {
                    lemma_priced_in_parts(ages, prices, p, from, from + n);
                    assert((full + 1) * size == full * size + size) by (nonlinear_arith);
                }
                let more: usize = keep_prices(
                    page.ages,
                    page.prices,
                    p,
                    out_prices,
                    out_len,
                    Ghost(before),
                    Ghost(so_far),
                );
                kept = kept + more;
                if n < page_rows {
                    residue = n;
                } else {
                    full = full + 1;
                }
            },
            None => {},
        }
    }
    proof {
        assert(ages.take(table.ages.cursor_row as int) =~= ages);
        vstd::arithmetic::div_mod::lemma_fundamental_div_mod_converse(
            ages.len() as int,
            size,
            full as int,
            residue as int,
        );
    }
    *stats = MmapStreamStats {
        pages_full: #[verifier::truncate]
        (full as u32),
        pages_residue: if residue == 0 {
            0
        } else {
            1
        },
        residue_rows: #[verifier::truncate]
        (residue as u32),
        rows_scanned: table.ages.total_rows as u64,
        rows_kept: kept as u64,
    };
}

} // verus!
