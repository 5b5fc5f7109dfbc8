//! What the kernels and scans do to columns of numbers, told row by row.

use crate::kernels::{ArithOp, CompareOp};
use crate::scan::MmapStreamStats;
use crate::storage::MAX_ROWS;
use crate::zonemap::{ZonePage, ZonePredicate};
use vstd::prelude::*;

verus! {

// ---------------------------------------------------------------------------
// Single numbers
// ---------------------------------------------------------------------------
/// Arithmetic is what its sign says where the result fits, wraps where it does not, and a
/// difference adds back.
pub proof fn law_arithmetic_is_what_its_sign_says(a: i64, b: i64)
    ensures
        i64::MIN <= a + b <= i64::MAX ==> ArithOp::Add.apply(a, b) == a + b,
        i64::MIN <= a - b <= i64::MAX ==> ArithOp::Sub.apply(a, b) == a - b,
        i64::MIN <= a * b <= i64::MAX ==> ArithOp::Mul.apply(a, b) == a * b,
        ArithOp::Add.apply(a, b) == a.wrapping_add(b),
        ArithOp::Sub.apply(a, b) == a.wrapping_sub(b),
        ArithOp::Mul.apply(a, b) == a.wrapping_mul(b),
        ArithOp::Add.apply(ArithOp::Sub.apply(a, b), b) == a,
{
}

/// A comparison holds if and only if the numbers stand as its sign says.
pub proof fn law_comparisons_are_what_their_signs_say(v: i64, lit: i64)
    ensures
        CompareOp::Gt.holds(v, lit) <==> v > lit,
        CompareOp::Lt.holds(v, lit) <==> v < lit,
        CompareOp::Eq.holds(v, lit) <==> v == lit,
{
}

/// `v` meets the condition `p`.
pub open spec fn meets(p: ZonePredicate, v: i64) -> bool {
    ||| p is Gt && v > p->Gt_0
    ||| p is Gte && v >= p->Gte_0
    ||| p is Lt && v < p->Lt_0
    ||| p is Eq && v == p->Eq_0
}

// ---------------------------------------------------------------------------
// Filters, sorts and joins
// ---------------------------------------------------------------------------
/// A filter keeps a row that it looks at if and only if it was kept and compares, and leaves the
/// other rows as they are. It looks at the rows that the column, the selection and the buffers
/// all have.
pub proof fn law_a_filter_clears_the_rows_that_do_not_compare(
    mask: Seq<u8>,
    values: Seq<i64>,
    rows: usize,
    len: u16,
    op: CompareOp,
    lit: i64,
)
    requires
        forall|i: int| 0 <= i < mask.len() ==> #[trigger] mask[i] <= 1,
    ensures
        ({
            let n = crate::kernels::filter_rows(rows, len);
            let m = crate::kernels::filtered_mask(mask, values, n, op, lit);
            &&& n <= rows && n <= len && n <= MAX_ROWS
            &&& n == rows || n == len || n == MAX_ROWS
            &&& m.len() == mask.len()
            &&& forall|i: int|
                0 <= i < mask.len() ==> #[trigger] m[i] == if i < n {
                    if mask[i] == 1 && ({
                        ||| op == CompareOp::Gt && values[i] > lit
                        ||| op == CompareOp::Lt && values[i] < lit
                        ||| op == CompareOp::Eq && values[i] == lit
                    }) {
                        1u8
                    } else {
                        0u8
                    }
                } else {
                    mask[i]
                }
        }),
{
    assert(0u8 & 0u8 == 0u8 && 0u8 & 1u8 == 0u8 && 1u8 & 0u8 == 0u8 && 1u8 & 1u8 == 1u8)
        by (bit_vector);
    let n = crate::kernels::filter_rows(rows, len);
    let m = crate::kernels::filtered_mask(mask, values, n, op, lit);
    assert forall|i: int| 0 <= i < mask.len() implies #[trigger] m[i] == if i < n {
        if mask[i] == 1 && ({
            ||| op == CompareOp::Gt && values[i] > lit
            ||| op == CompareOp::Lt && values[i] < lit
            ||| op == CompareOp::Eq && values[i] == lit
        }) {
            1u8
        } else {
            0u8
        }
    } else {
        mask[i]
    } by {
        assert(mask[i] == 0 || mask[i] == 1);
    }
}

/// The pair `(l, r)` of rows comes before `(m, q)` in a join: by key, then by left row, then by
/// right row.
pub open spec fn pair_precedes(left: Seq<i64>, l: u16, r: u16, m: u16, q: u16) -> bool {
    let x = left[l as int];
    let y = left[m as int];
    x < y || (x == y && (l < m || (l == m && r < q)))
}

/// A merge join brings every pair of rows of equal key, each once, by key, then by left row, then
/// by right row, and no other pair.
pub proof fn law_a_merge_join_brings_equal_keys(
    left: Seq<i64>,
    ln: nat,
    right: Seq<i64>,
    rn: nat,
)
    requires
        ln <= MAX_ROWS,
        rn <= MAX_ROWS,
    ensures
        ({
            let p = crate::kernels::equi_join(left, ln, right, rn);
            &&& forall|l: u16, r: u16| #[trigger]
                p.contains((l, r)) <==> l < ln && r < rn && left[l as int] == right[r as int]
            &&& forall|i: int, j: int|
                #![trigger p[i], p[j]]
                0 <= i < j < p.len() ==> pair_precedes(left, p[i].0, p[i].1, p[j].0, p[j].1)
        }),
{
    let ls = crate::kernels::sorted_rows(left, ln);
    let rs = crate::order::iota(rn);
    let lkey = crate::order::by_value(left);
    let rkey = crate::order::by_value(right);
    let p = crate::kernels::equi_join(left, ln, right, rn);
    crate::stages::lemma_sorted_rows(left, ln);
    assert forall|l: u16, r: u16| #[trigger] p.contains((l, r)) <==> l < ln && r < rn
        && left[l as int] == right[r as int] by {
        crate::order::law_join_is_equal_keys(lkey, ls, rkey, rs, l, r);
        if rs.contains(r) {
            let b = choose|b: int| 0 <= b < rs.len() && rs[b] == r;
            assert(rs[b] == b);
        }
        if r < rn {
            assert(rs[r as int] == r);
        }
    }
    assert forall|i: int, j: int|
        #![trigger p[i], p[j]]
        0 <= i < j < p.len() implies pair_precedes(left, p[i].0, p[i].1, p[j].0, p[j].1) by {
        crate::stages::lemma_join_ascends(left, ls, rkey, rs, i, j);
    }
}

/// Row `a` comes before row `b` in a sort by `values`: its value is less, or the same and its
/// number less.
pub open spec fn sorts_before(values: Seq<i64>, a: u16, b: u16) -> bool {
    values[a as int] < values[b as int] || (values[a as int] == values[b as int] && a < b)
}

/// Ascending rows come out of a sort by their values, rows of equal value in the order they had,
/// and each as often as it went in.
pub proof fn law_a_sort_ascends_by_value(values: Seq<i64>, s: Seq<u16>)
    requires
        forall|i: int, j: int| 0 <= i < j < s.len() ==> #[trigger] s[i] < #[trigger] s[j],
    ensures
        ({
            let t = crate::order::stable_sort(crate::order::by_value(values), s);
            &&& t.len() == s.len()
            &&& t.to_multiset() == s.to_multiset()
            &&& forall|i: int, j: int|
                0 <= i < j < t.len() ==> sorts_before(values, #[trigger] t[i], #[trigger] t[j])
        }),
{
    let key = crate::order::by_value(values);
    let t = crate::order::stable_sort(key, s);
    crate::order::law_stable_sort_permutes(key, s);
    crate::laws::lemma_sort_of_ascending(values, s);
    assert forall|i: int, j: int| 0 <= i < j < t.len() implies sorts_before(
        values,
        #[trigger] t[i],
        #[trigger] t[j],
    ) by {}
}

/// A sort of a selection brings exactly the rows in view that are kept, each once, by ascending
/// value and rows of equal value in ascending order.
pub proof fn law_a_selection_is_sorted(values: Seq<i64>, mask: Seq<u8>, n: int, order: Seq<u16>)
    requires
        0 <= n <= MAX_ROWS,
        n <= mask.len(),
        order.len() == MAX_ROWS,
        forall|i: int| 0 <= i < n ==> #[trigger] mask[i] <= 1,
    ensures
        ({
            let len = crate::order::taken(mask, n) as int;
            let list = crate::order::appended(mask, n, order);
            let t = crate::order::stable_sort(crate::order::by_value(values), list.take(len));
            &&& t.len() == len
            &&& forall|r: u16| #[trigger] t.contains(r) <==> r < n && mask[r as int] == 1
            &&& forall|i: int, j: int|
                0 <= i < j < t.len() ==> sorts_before(values, #[trigger] t[i], #[trigger] t[j])
        }),
{
    let keep = Seq::new(n as nat, |i: int| mask[i] == 1);
    let len = crate::order::taken(mask, n) as int;
    let list = crate::order::appended(mask, n, order);
    let s = crate::order::selected(keep, n);
    crate::order::law_appending_selects(mask, keep, n, order);
    crate::order::law_selection_is_the_mask(keep, n);
    crate::order::lemma_selected_range(keep, n);
    assert(list.take(len) =~= s);
    let key = crate::order::by_value(values);
    let t = crate::order::stable_sort(key, s);
    law_a_sort_ascends_by_value(values, s);
    assert forall|r: u16| #[trigger] t.contains(r) <==> r < n && mask[r as int] == 1 by {
        if t.contains(r) {
            let a = choose|a: int| 0 <= a < t.len() && t[a] == r;
            crate::order::lemma_stable_sort_elements(key, s, a);
            let b = choose|b: int| 0 <= b < s.len() && s[b] == t[a];
            assert(s.contains(r));
            assert(keep[r as int]);
        }
        if r < n && mask[r as int] == 1 {
            assert(keep[r as int]);
            assert(s.contains(r as int as u16));
            crate::laws::lemma_sort_contains(key, s, r);
        }
    }
}

// ---------------------------------------------------------------------------
// Scans
// ---------------------------------------------------------------------------
/// `idx` are the rows whose value meets `p`, in ascending order.
pub open spec fn are_hits(rows: Seq<i64>, p: ZonePredicate, idx: Seq<int>) -> bool {
    &&& forall|i: int|
        0 <= i < idx.len() ==> 0 <= #[trigger] idx[i] < rows.len() && meets(p, rows[idx[i]])
    &&& forall|i: int, j: int| 0 <= i < j < idx.len() ==> #[trigger] idx[i] < #[trigger] idx[j]
    &&& forall|r: int| 0 <= r < rows.len() && meets(p, #[trigger] rows[r]) ==> idx.contains(r)
}

/// `out` are the values of `of` in the rows `idx`.
pub open spec fn are_values(of: Seq<i64>, idx: Seq<int>, out: Seq<i64>) -> bool {
    &&& out.len() == idx.len()
    &&& forall|i: int| 0 <= i < out.len() ==> #[trigger] out[i] == of[idx[i]]
}

proof fn lemma_hits(rows: Seq<i64>, of: Seq<i64>, p: ZonePredicate) -> (idx: Seq<int>)
    ensures
        are_hits(rows, p, idx),
        are_values(of, idx, crate::scan::priced(rows, of, p)),
        are_values(rows, idx, crate::scan::passing(rows, p)),
    decreases rows.len(),
{
    reveal(Seq::filter);
    if rows.len() == 0 {
        Seq::empty()
    } else {
        let front = rows.drop_last();
        let n = rows.len() - 1;
        let before = lemma_hits(front, of, p);
        assert forall|r: int| 0 <= r < front.len() implies #[trigger] front[r] == rows[r] by {}
        let idx = if meets(p, rows.last()) {
            before.push(n)
        } else {
            before
        };
        assert forall|i: int| 0 <= i < idx.len() implies 0 <= #[trigger] idx[i] < rows.len()
            && meets(p, rows[idx[i]]) by {
            if i < before.len() {
                assert(idx[i] == before[i]);
                assert(front[before[i]] == rows[before[i]]);
            }
        }
        assert forall|i: int, j: int| 0 <= i < j < idx.len() implies #[trigger] idx[i]
            < #[trigger] idx[j] by {
            assert(idx[i] == before[i]);
            if j < before.len() {
                assert(idx[j] == before[j]);
            }
        }
        assert forall|r: int| 0 <= r < rows.len() && meets(
            p,
            #[trigger] rows[r],
        ) implies idx.contains(r) by {
            if r < n {
                assert(front[r] == rows[r]);
                let i = choose|i: int| 0 <= i < before.len() && before[i] == r;
                assert(idx[i] == r);
            } else {
                assert(idx[before.len() as int] == r);
            }
        }
        let a = crate::scan::priced(rows, of, p);
        let b = crate::scan::passing(rows, p);
        assert forall|i: int| 0 <= i < a.len() implies #[trigger] a[i] == of[idx[i]] by {
            if i < before.len() {
                assert(a[i] == crate::scan::priced(front, of, p)[i]);
                assert(idx[i] == before[i]);
            }
        }
        assert forall|i: int| 0 <= i < b.len() implies #[trigger] b[i] == rows[idx[i]] by {
            if i < before.len() {
                assert(b[i] == crate::scan::passing(front, p)[i]);
                assert(idx[i] == before[i]);
                assert(front[before[i]] == rows[before[i]]);
            }
        }
        idx
    }
}

/// A scan brings the values of exactly the rows that meet its condition, in order, whether pages
/// were passed over by a zone map of the column or not.
pub proof fn law_a_scan_brings_the_rows_that_meet(
    rows: Seq<i64>,
    page_rows: int,
    z: Seq<ZonePage>,
    p: ZonePredicate,
)
    requires
        page_rows > 0,
        z.is_prefix_of(crate::zonemap::zones(rows, page_rows)),
    ensures
        exists|idx: Seq<int>| #[trigger]
            are_hits(rows, p, idx) && are_values(
                rows,
                idx,
                crate::scan::pushed_down(crate::columnar::pages(rows, 0, page_rows), z, p),
            ),
{
    crate::scan::law_pushdown_keeps_what_passes(rows, page_rows, z, p);
    let idx = lemma_hits(rows, rows, p);
    assert(are_hits(rows, p, idx));
}

/// A scan that projects brings, for exactly the rows whose first column meets the condition and
/// in order, what the second column has in the same row.
pub proof fn law_a_scan_brings_the_other_column(ages: Seq<i64>, prices: Seq<i64>, p: ZonePredicate)
    ensures
        exists|idx: Seq<int>| #[trigger]
            are_hits(ages, p, idx) && are_values(
                prices,
                idx,
                crate::scan::priced(ages, prices, p),
            ),
        exists|idx: Seq<int>| #[trigger]
            are_hits(ages, p, idx) && are_values(ages, idx, crate::scan::passing(ages, p)),
{
    let idx = lemma_hits(ages, prices, p);
    assert(are_hits(ages, p, idx));
}

/// What was kept is written from the start on as far as there is room, and what stands behind it
/// is left alone.
pub proof fn law_a_scan_fills_what_room_there_is(
    out: Seq<i64>,
    len: int,
    before: Seq<i64>,
    kept: Seq<i64>,
)
    requires
        crate::scan::filled(out, len, before, kept),
    ensures
        len <= kept.len() && len <= before.len(),
        len == kept.len() || len == before.len(),
        out.len() == before.len(),
        forall|i: int|
            0 <= i < out.len() ==> #[trigger] out[i] == if i < len {
                kept[i]
            } else {
                before[i]
            },
{
}

/// Page `i` has a record, and no number between the bounds in it meets `p`.
pub open spec fn is_hopeless(z: Seq<ZonePage>, p: ZonePredicate, i: int) -> bool {
    &&& 0 <= i < z.len()
    &&& forall|v: i64| z[i].min <= v <= z[i].max ==> !#[trigger] meets(p, v)
}

/// `idx` are the hopeless ones of the first `n` pages, in ascending order.
pub open spec fn are_hopeless(
    z: Seq<ZonePage>,
    p: ZonePredicate,
    n: nat,
    idx: Seq<int>,
) -> bool {
    &&& forall|i: int|
        0 <= i < idx.len() ==> 0 <= #[trigger] idx[i] < n && is_hopeless(z, p, idx[i])
    &&& forall|i: int, j: int| 0 <= i < j < idx.len() ==> #[trigger] idx[i] < #[trigger] idx[j]
    &&& forall|r: int| 0 <= r < n && #[trigger] is_hopeless(z, p, r) ==> idx.contains(r)
}

proof fn lemma_hopeless(z: Seq<ZonePage>, p: ZonePredicate, n: nat) -> (idx: Seq<int>)
    requires
        forall|i: int| 0 <= i < z.len() ==> (#[trigger] z[i]).min <= z[i].max,
    ensures
        are_hopeless(z, p, n, idx),
        idx.len() == crate::scan::count_passed_over(z, p, n),
    decreases n,
{
    if n == 0 {
        Seq::empty()
    } else {
        let last = n - 1;
        let before = lemma_hopeless(z, p, (n - 1) as nat);
        assert(crate::scan::passed_over(z, p, last) <==> is_hopeless(z, p, last)) by {
            if last < z.len() {
                crate::zonemap::law_page_is_skipped_only_if_none_can_pass(p, z[last]);
                if p.may_match(z[last]) {
                    let v = choose|v: i64|
                        z[last].min <= v <= z[last].max && #[trigger] p.passes(v);
                    assert(meets(p, v));
                } else {
                    assert forall|v: i64| z[last].min <= v <= z[last].max implies !#[trigger] meets(
                        p,
                        v,
                    ) by {
                        assert(!p.passes(v));
                    }
                }
            }
        }
        let idx = if is_hopeless(z, p, last) {
            before.push(last)
        } else {
            before
        };
        assert forall|r: int| 0 <= r < n && #[trigger] is_hopeless(
            z,
            p,
            r,
        ) implies idx.contains(r) by {
            if r < last {
                let i = choose|i: int| 0 <= i < before.len() && before[i] == r;
                assert(idx[i] == r);
            } else {
                assert(idx[before.len() as int] == r);
            }
        }
        assert forall|i: int| 0 <= i < idx.len() implies 0 <= #[trigger] idx[i] < n && is_hopeless(
            z,
            p,
            idx[i],
        ) by {
            if i < before.len() {
                assert(idx[i] == before[i]);
            }
        }
        assert forall|i: int, j: int| 0 <= i < j < idx.len() implies #[trigger] idx[i]
            < #[trigger] idx[j] by {
            assert(idx[i] == before[i]);
            if j < before.len() {
                assert(idx[j] == before[j]);
            }
        }
        idx
    }
}

/// A scan counts as passed over exactly the pages between whose bounds no number meets its
/// condition.
pub proof fn law_hopeless_pages_are_passed_over(z: Seq<ZonePage>, p: ZonePredicate, n: nat)
    requires
        forall|i: int| 0 <= i < z.len() ==> (#[trigger] z[i]).min <= z[i].max,
    ensures
        exists|idx: Seq<int>| #[trigger]
            are_hopeless(z, p, n, idx) && idx.len() == crate::scan::count_passed_over(z, p, n),
{
    let idx = lemma_hopeless(z, p, n);
    assert(are_hopeless(z, p, n, idx));
}

/// The numbers of a scan add up: its full pages and the rows of the one that is not full are all
/// of its rows.
pub proof fn law_the_pages_of_a_scan_add_up(rows: nat, page_rows: nat, kept: nat)
    requires
        0 < page_rows,
        rows <= u32::MAX,
        kept <= rows,
    ensures
        ({
            let s = MmapStreamStats::of(rows, page_rows, kept);
            &&& s.pages_full * page_rows + s.residue_rows == rows
            &&& s.residue_rows < page_rows
            &&& s.pages_residue == 1 <==> s.residue_rows > 0
            &&& s.pages_residue == 0 <==> s.residue_rows == 0
            &&& s.rows_scanned == rows
            &&& s.rows_kept == kept
        }),
{
    vstd::arithmetic::div_mod::lemma_fundamental_div_mod(rows as int, page_rows as int);
    vstd::arithmetic::mul::lemma_mul_is_commutative(
        page_rows as int,
        rows as int / page_rows as int,
    );
    assert(rows / page_rows <= rows) by (nonlinear_arith)
        requires
            0 < page_rows,
    ;
    assert(rows % page_rows <= rows) by (nonlinear_arith)
        requires
            0 < page_rows,
    ;
}

} // verus!
