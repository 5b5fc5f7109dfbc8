//! What holds of pipelines, whatever the tables and the queries are.

use crate::flow::{Flow, Group, Source};
use crate::parser::NodeKind;
use crate::storage::{IntView, Table, Utf8View, MAX_ROWS, UTF8_SLAB_CAP};
use vstd::prelude::*;

verus! {

/// Whether the slots in the order are slots.
pub open spec fn order_fits(f: Flow) -> bool {
    &&& f.slots() <= MAX_ROWS
    &&& forall|i: int| 0 <= i < f.order.len() ==> (#[trigger] f.order[i]) < f.slots()
}

pub proof fn lemma_kept_elements(s: Seq<u16>, keep: Seq<bool>, x: u16)
    ensures
        crate::flow::kept(s, keep).contains(x) <==> s.contains(x) && keep[x as int],
    decreases s.len(),
{
    if s.len() > 0 {
        let u = s.drop_last();
        lemma_kept_elements(u, keep, x);
        let w = crate::flow::kept(u, keep);
        assert(s.contains(x) <==> u.contains(x) || x == s.last()) by {
            if u.contains(x) {
                let i = choose|i: int| 0 <= i < u.len() && u[i] == x;
                assert(s[i] == x);
            }
            if x == s.last() {
                assert(s[s.len() - 1] == x);
            }
            if s.contains(x) {
                let i = choose|i: int| 0 <= i < s.len() && s[i] == x;
                if i < u.len() {
                    assert(u[i] == x);
                }
            }
        }
        assert(w.push(s.last()).contains(x) <==> w.contains(x) || x == s.last()) by {
            if w.contains(x) {
                let i = choose|i: int| 0 <= i < w.len() && w[i] == x;
                assert(w.push(s.last())[i] == x);
            }
            if x == s.last() {
                assert(w.push(s.last())[w.len() as int] == x);
            }
        }
    }
}

/// A filter keeps exactly the slots that were kept and pass. Where the order of a sort stays, the
/// slots that it brings are those of that order that are kept; else they are all that are kept.
pub proof fn law_filter_keeps_what_passes(f: Flow, pass: spec_fn(int) -> bool, stay: bool)
    requires
        order_fits(f),
    ensures
        ({
            let g = f.filtered(pass, stay);
            &&& g.slots() == f.slots()
            &&& forall|i: int|
                0 <= i < f.slots() ==> #[trigger] g.keep[i] == (f.keep[i] && pass(i))
            &&& forall|s: u16| #[trigger]
                g.order.contains(s) <==> s < f.slots() && g.keep[s as int] && (stay
                    ==> f.order.contains(s))
        }),
{
    let g = f.filtered(pass, stay);
    let n = f.slots() as int;
    crate::order::law_selection_is_the_mask(g.keep, n);
    crate::order::lemma_selected_range(g.keep, n);
    assert forall|s: u16| #[trigger] g.order.contains(s) <==> s < f.slots() && g.keep[s as int] && (
    stay ==> f.order.contains(s)) by {
        if stay {
            lemma_kept_elements(f.order, g.keep, s);
            if f.order.contains(s) {
                let i = choose|i: int| 0 <= i < f.order.len() && f.order[i] == s;
                assert(f.order[i] < f.slots());
            }
        } else {
            let t = crate::order::selected(g.keep, n);
            if t.contains(s) {
                let i = choose|i: int| 0 <= i < t.len() && t[i] == s;
                assert(t[i] < n && g.keep[t[i] as int]);
            }
            if s < n {
                assert(t.contains((s as int) as u16) <==> g.keep[s as int]);
            }
        }
    }
}

proof fn lemma_kept_twice(s: Seq<u16>, k1: Seq<bool>, k2: Seq<bool>, n: int)
    requires
        forall|i: int| 0 <= i < s.len() ==> (#[trigger] s[i]) < n,
        forall|i: int| 0 <= i < n ==> (#[trigger] k2[i] ==> k1[i]),
    ensures
        crate::flow::kept(crate::flow::kept(s, k1), k2) == crate::flow::kept(s, k2),
    decreases s.len(),
{
    if s.len() > 0 {
        let u = s.drop_last();
        assert forall|i: int| 0 <= i < u.len() implies (#[trigger] u[i]) < n by {
            assert(u[i] == s[i]);
        }
        lemma_kept_twice(u, k1, k2, n);
        let w = crate::flow::kept(u, k1);
        assert(w.push(s.last()).drop_last() =~= w);
        assert(s[s.len() - 1] < n);
        assert(k2[s.last() as int] ==> k1[s.last() as int]);
    }
}

/// Two filters, one after the other, do what one filter by both does: so it does not matter which
/// comes first, and a filter that is repeated changes nothing.
pub proof fn law_two_filters_are_one(
    f: Flow,
    p: spec_fn(int) -> bool,
    q: spec_fn(int) -> bool,
    stay: bool,
)
    requires
        order_fits(f),
    ensures
        f.filtered(p, stay).filtered(q, stay) == f.filtered(|i: int| p(i) && q(i), stay),
        f.filtered(p, stay).filtered(q, stay) == f.filtered(q, stay).filtered(p, stay),
        f.filtered(p, stay).filtered(p, stay) == f.filtered(p, stay),
{
    lemma_two_filters(f, p, q, stay);
    lemma_two_filters(f, q, p, stay);
    lemma_two_filters(f, p, p, stay);
    let a = f.filtered(|i: int| p(i) && q(i), stay);
    let b = f.filtered(|i: int| q(i) && p(i), stay);
    assert(a.keep =~= b.keep);
    assert(a =~= b);
    let c = f.filtered(|i: int| p(i) && p(i), stay);
    let d = f.filtered(p, stay);
    assert(c.keep =~= d.keep);
    assert(c =~= d);
}

proof fn lemma_two_filters(
    f: Flow,
    p: spec_fn(int) -> bool,
    q: spec_fn(int) -> bool,
    stay: bool,
)
    requires
        order_fits(f),
    ensures
        f.filtered(p, stay).filtered(q, stay) == f.filtered(|i: int| p(i) && q(i), stay),
{
    let a = f.filtered(p, stay);
    let b = a.filtered(q, stay);
    let c = f.filtered(|i: int| p(i) && q(i), stay);
    assert(b.keep =~= c.keep);
    if stay {
        lemma_kept_twice(f.order, a.keep, b.keep, f.slots() as int);
    }
    assert(b =~= c);
}

/// A take brings the first slots of the order and no others; what is taken after it is taken of
/// those.
pub proof fn law_take_is_a_prefix(f: Flow, n: i64, m: i64)
    ensures
        f.take(n).order.is_prefix_of(f.order),
        n >= 0 ==> f.take(n).order.len() == if n < f.order.len() {
            n as int
        } else {
            f.order.len() as int
        },
        n < 0 ==> f.take(n).order.len() == 0,
        0 <= m <= n ==> f.take(n).take(m) == f.take(m),
        0 <= n <= m ==> f.take(n).take(m) == f.take(n),
{
    if 0 <= m <= n {
        assert(f.take(n).take(m).order =~= f.take(m).order);
        assert(f.take(n).take(m) =~= f.take(m));
    }
    if 0 <= n <= m {
        assert(f.take(n).take(m).order =~= f.take(n).order);
        assert(f.take(n).take(m) =~= f.take(n));
    }
}

/// Whether slots stand by ascending value, and by ascending slot where the values are equal.
pub open spec fn sorted_by(v: Seq<i64>, s: Seq<u16>) -> bool {
    forall|i: int, j: int|
        0 <= i < j < s.len() ==> {
            let a = #[trigger] s[i];
            let b = #[trigger] s[j];
            v[a as int] < v[b as int] || (v[a as int] == v[b as int] && a < b)
        }
}

proof fn lemma_insert_sorted_by(v: Seq<i64>, t: Seq<u16>, x: u16)
    requires
        sorted_by(v, t),
        forall|i: int| 0 <= i < t.len() ==> (#[trigger] t[i]) < x,
    ensures
        ({
            let w = crate::order::insert_after(crate::order::by_value(v), t, x);
            &&& sorted_by(v, w)
            &&& w.len() == t.len() + 1
            &&& forall|i: int| 0 <= i < w.len() ==> #[trigger] w[i] == x || t.contains(w[i])
        }),
    decreases t.len(),
{
    let key = crate::order::by_value(v);
    let w = crate::order::insert_after(key, t, x);
    if t.len() == 0 || key(t.last()) <= key(x) {
        assert forall|i: int, j: int| 0 <= i < j < w.len() implies {
            let a = #[trigger] w[i];
            let b = #[trigger] w[j];
            v[a as int] < v[b as int] || (v[a as int] == v[b as int] && a < b)
        } by {
            assert(w[i] == t[i]);
            if j < t.len() {
                assert(w[j] == t[j]);
            } else if i < t.len() - 1 {
                assert(t[t.len() - 1] == t.last());
                assert(v[t[i] as int] <= v[t[t.len() - 1] as int]);
            }
        }
        assert forall|i: int| 0 <= i < w.len() implies #[trigger] w[i] == x || t.contains(w[i]) by {
            if i < t.len() {
                assert(w[i] == t[i]);
            }
        }
    } else {
        let u = t.drop_last();
        assert forall|i: int, j: int| 0 <= i < j < u.len() implies {
            let a = #[trigger] u[i];
            let b = #[trigger] u[j];
            v[a as int] < v[b as int] || (v[a as int] == v[b as int] && a < b)
        } by {
            assert(u[i] == t[i] && u[j] == t[j]);
        }
        assert forall|i: int| 0 <= i < u.len() implies (#[trigger] u[i]) < x by {
            assert(u[i] == t[i]);
        }
        lemma_insert_sorted_by(v, u, x);
        let z = crate::order::insert_after(key, u, x);
        let last = t.last();
        assert(t[t.len() - 1] == last);
        assert forall|i: int| 0 <= i < z.len() implies v[#[trigger] z[i] as int] < v[last as int]
            || (v[z[i] as int] == v[last as int] && z[i] < last) by {
            if z[i] != x {
                let k = choose|k: int| 0 <= k < u.len() && u[k] == z[i];
                assert(t[k] == z[i]);
            }
        }
        assert forall|i: int, j: int| 0 <= i < j < w.len() implies {
            let a = #[trigger] w[i];
            let b = #[trigger] w[j];
            v[a as int] < v[b as int] || (v[a as int] == v[b as int] && a < b)
        } by {
            assert(w[i] == z[i]);
            if j < z.len() {
                assert(w[j] == z[j]);
            }
        }
        assert forall|i: int| 0 <= i < w.len() implies #[trigger] w[i] == x || t.contains(w[i]) by {
            if i < z.len() {
                assert(w[i] == z[i]);
                if z[i] != x {
                    let k = choose|k: int| 0 <= k < u.len() && u[k] == z[i];
                    assert(t[k] == z[i]);
                }
            } else {
                assert(t.contains(last));
            }
        }
    }
}

pub proof fn lemma_sort_of_ascending(v: Seq<i64>, s: Seq<u16>)
    requires
        forall|i: int, j: int| 0 <= i < j < s.len() ==> #[trigger] s[i] < #[trigger] s[j],
    ensures
        sorted_by(v, crate::order::stable_sort(crate::order::by_value(v), s)),
        crate::order::stable_sort(crate::order::by_value(v), s).len() == s.len(),
        forall|i: int|
            0 <= i < s.len() ==> s.contains(
                #[trigger] crate::order::stable_sort(crate::order::by_value(v), s)[i],
            ),
    decreases s.len(),
{
    let key = crate::order::by_value(v);
    let t = crate::order::stable_sort(key, s);
    if s.len() > 0 {
        let u = s.drop_last();
        assert forall|i: int, j: int| 0 <= i < j < u.len() implies #[trigger] u[i]
            < #[trigger] u[j] by {
            assert(u[i] == s[i] && u[j] == s[j]);
        }
        lemma_sort_of_ascending(v, u);
        let w = crate::order::stable_sort(key, u);
        let x = s.last();
        assert(s[s.len() - 1] == x);
        assert forall|i: int| 0 <= i < w.len() implies (#[trigger] w[i]) < x by {
            let k = choose|k: int| 0 <= k < u.len() && u[k] == w[i];
            assert(s[k] == w[i]);
        }
        lemma_insert_sorted_by(v, w, x);
        assert forall|i: int| 0 <= i < s.len() implies s.contains(#[trigger] t[i]) by {
            if t[i] == x {
                assert(s[s.len() - 1] == x);
            } else {
                assert(w.contains(t[i]));
                let j = choose|j: int| 0 <= j < w.len() && w[j] == t[i];
                assert(u.contains(w[j]));
                let k = choose|k: int| 0 <= k < u.len() && u[k] == w[j];
                assert(s[k] == t[i]);
            }
        }
    }
}

/// A sort brings every kept slot once, by ascending value, and slots of equal value in the order
/// of the rows.
pub proof fn law_sort_orders_the_kept_slots(f: Flow, v: Seq<i64>)
    requires
        f.slots() <= MAX_ROWS,
    ensures
        ({
            let kept = crate::order::selected(f.keep, f.slots() as int);
            let order = crate::order::stable_sort(crate::order::by_value(v), kept);
            &&& order.to_multiset() == kept.to_multiset()
            &&& sorted_by(v, order)
            &&& forall|s: u16|
                s < f.slots() ==> (#[trigger] order.contains(s) <==> f.keep[s as int])
        }),
{
    broadcast use vstd::seq_lib::group_to_multiset_ensures;

    let n = f.slots() as int;
    let kept = crate::order::selected(f.keep, n);
    let key = crate::order::by_value(v);
    let order = crate::order::stable_sort(key, kept);
    crate::order::law_selection_is_the_mask(f.keep, n);
    lemma_sort_of_ascending(v, kept);
    crate::order::law_stable_sort_permutes(key, kept);
    assert forall|s: u16| s < f.slots() implies (#[trigger] order.contains(s) <==> f.keep[s as int]) by {
        assert(order.contains(s) <==> order.to_multiset().count(s) > 0);
        assert(kept.contains(s) <==> kept.to_multiset().count(s) > 0);
        assert(kept.contains((s as int) as u16) <==> f.keep[s as int]);
    }
}

/// A filter, a sort and a take bring the least of the slots that pass, in order: every slot that
/// passes and is not brought comes behind all that are.
pub proof fn law_filter_sort_take_brings_the_least(
    f: Flow,
    pass: spec_fn(int) -> bool,
    v: Seq<i64>,
    n: i64,
)
    requires
        order_fits(f),
        n >= 0,
    ensures
        ({
            let g = f.filtered(pass, false);
            let passing = crate::order::selected(g.keep, g.slots() as int);
            let sorted = Flow {
                order: crate::order::stable_sort(crate::order::by_value(v), passing),
                sorted: true,
                ..g
            };
            let top = sorted.take(n).order;
            &&& top.len() == if n < passing.len() {
                n as int
            } else {
                passing.len() as int
            }
            &&& sorted_by(v, top)
            &&& forall|i: int|
                0 <= i < top.len() ==> (#[trigger] top[i]) < f.slots() && f.keep[top[i] as int]
                    && pass(top[i] as int)
            &&& forall|s: u16, i: int|
                s < f.slots() && f.keep[s as int] && pass(s as int) && !(#[trigger] top.contains(s))
                    && 0 <= i < top.len() ==> v[(#[trigger] top[i]) as int] < v[s as int] || (
                v[top[i] as int] == v[s as int] && top[i] < s)
        }),
{
    let g = f.filtered(pass, false);
    let slots = f.slots() as int;
    let passing = crate::order::selected(g.keep, slots);
    let key = crate::order::by_value(v);
    let whole = crate::order::stable_sort(key, passing);
    let top = crate::order::first_of(whole, n as int);
    law_sort_orders_the_kept_slots(g, v);
    crate::order::law_stable_sort_permutes(key, passing);
    crate::order::lemma_selected_range(g.keep, slots);
    assert forall|i: int, j: int| 0 <= i < j < top.len() implies {
        let a = #[trigger] top[i];
        let b = #[trigger] top[j];
        v[a as int] < v[b as int] || (v[a as int] == v[b as int] && a < b)
    } by {
        assert(top[i] == whole[i] && top[j] == whole[j]);
    }
    assert forall|i: int| 0 <= i < top.len() implies (#[trigger] top[i]) < f.slots()
        && f.keep[top[i] as int] && pass(top[i] as int) by {
        assert(top[i] == whole[i]);
        crate::order::lemma_stable_sort_elements(key, passing, i);
        let k = choose|k: int| 0 <= k < passing.len() && passing[k] == whole[i];
        assert(passing[k] < slots && g.keep[passing[k] as int]);
    }
    assert forall|s: u16, i: int|
        s < f.slots() && f.keep[s as int] && pass(s as int) && !(#[trigger] top.contains(s)) && 0
            <= i < top.len() implies v[(#[trigger] top[i]) as int] < v[s as int] || (v[top[i] as int]
        == v[s as int] && top[i] < s) by {
        assert(whole.contains(s) <==> g.keep[s as int]);
        let j = choose|j: int| 0 <= j < whole.len() && whole[j] == s;
        if j < top.len() {
            assert(top[j] == s);
        }
        assert(whole[i] == top[i]);
    }
}

/// Whether runs are not empty, each of one key.
pub open spec fn are_runs(key: spec_fn(u16) -> int, r: Seq<Seq<u16>>) -> bool {
    &&& forall|g: int| 0 <= g < r.len() ==> (#[trigger] r[g]).len() > 0
    &&& forall|g: int, i: int|
        0 <= g < r.len() && 0 <= i < r[g].len() ==> key(#[trigger] r[g][i]) == key(r[g][0])
}

pub proof fn lemma_runs(key: spec_fn(u16) -> int, s: Seq<u16>)
    ensures
        are_runs(key, crate::flow::runs(key, s)),
        crate::flow::runs(key, s).flatten() == s,
        s.len() > 0 ==> crate::flow::runs(key, s).len() > 0 && key(
            crate::flow::runs(key, s).last()[0],
        ) == key(s.last()),
    decreases s.len(),
{
    let r = crate::flow::runs(key, s);
    if s.len() == 0 {
        assert(r.flatten() =~= s);
    } else {
        let u = s.drop_last();
        let x = s.last();
        let before = crate::flow::runs(key, u);
        lemma_runs(key, u);
        assert(u.push(x) =~= s);
        if before.len() > 0 && key(before.last()[0]) == key(x) {
            let head = before.drop_last();
            let run = before.last();
            assert(before =~= head.push(run));
            head.lemma_flatten_push(run);
            head.lemma_flatten_push(run.push(x));
            assert(head.flatten() + run.push(x) =~= (head.flatten() + run).push(x));
            assert(run == before[before.len() - 1]);
            assert(run.len() > 0);
            assert forall|g: int| 0 <= g < r.len() implies (#[trigger] r[g]).len() > 0 by {
                if g < head.len() {
                    assert(r[g] == before[g]);
                }
            }
            assert forall|g: int, i: int| 0 <= g < r.len() && 0 <= i < r[g].len() implies key(
                #[trigger] r[g][i],
            ) == key(r[g][0]) by {
                if g < head.len() {
                    assert(r[g] == before[g]);
                } else {
                    assert(r[g] == run.push(x));
                    if i < run.len() {
                        assert(before[before.len() - 1][i] == run[i]);
                    }
                }
            }
        } else {
            before.lemma_flatten_push(seq![x]);
            assert(before.flatten() + seq![x] =~= s);
            assert forall|g: int| 0 <= g < r.len() implies (#[trigger] r[g]).len() > 0 by {
                if g < before.len() {
                    assert(r[g] == before[g]);
                }
            }
            assert forall|g: int, i: int| 0 <= g < r.len() && 0 <= i < r[g].len() implies key(
                #[trigger] r[g][i],
            ) == key(r[g][0]) by {
                if g < before.len() {
                    assert(r[g] == before[g]);
                }
            }
        }
    }
}

pub proof fn lemma_runs_ascend(key: spec_fn(u16) -> int, s: Seq<u16>)
    requires
        forall|i: int, j: int|
            0 <= i <= j < s.len() ==> key(#[trigger] s[i]) <= key(#[trigger] s[j]),
    ensures
        forall|a: int, b: int|
            0 <= a < b < crate::flow::runs(key, s).len() ==> key(
                #[trigger] crate::flow::runs(key, s)[a][0],
            ) < key(#[trigger] crate::flow::runs(key, s)[b][0]),
    decreases s.len(),
{
    if s.len() > 0 {
        let u = s.drop_last();
        let x = s.last();
        let r = crate::flow::runs(key, s);
        let before = crate::flow::runs(key, u);
        assert forall|i: int, j: int| 0 <= i <= j < u.len() implies key(#[trigger] u[i]) <= key(
            #[trigger] u[j],
        ) by {
            assert(u[i] == s[i] && u[j] == s[j]);
        }
        lemma_runs_ascend(key, u);
        lemma_runs(key, u);
        if u.len() > 0 {
            assert(key(s[s.len() - 2]) <= key(s[s.len() - 1]));
            assert(u.last() == s[s.len() - 2]);
        } else {
            assert(before.len() == 0);
        }
        assert forall|a: int, b: int| 0 <= a < b < r.len() implies key(#[trigger] r[a][0]) < key(
            #[trigger] r[b][0],
        ) by {
            if before.len() > 0 && key(before.last()[0]) == key(x) {
                assert(before.last() == before[before.len() - 1]);
                assert(before.last().len() > 0);
                assert(r[a][0] == before[a][0]);
                assert(r[b][0] == before[b][0]);
            } else {
                assert(r[a][0] == before[a][0]);
                if b < before.len() {
                    assert(r[b][0] == before[b][0]);
                } else {
                    assert(r[b][0] == x);
                    assert(before.last() == before[before.len() - 1]);
                    if a < before.len() - 1 {
                        assert(key(before[a][0]) < key(before[before.len() - 1][0]));
                    }
                }
            }
        }
    }
}

/// The members of groups, one group behind the other.
pub open spec fn members_of(groups: Seq<Group>) -> Seq<(u16, u16)> {
    groups.map_values(|g: Group| g.members).flatten()
}

/// Groups come by strictly ascending key, none is empty, and together they hold every row of the
/// pipeline once, each in the group of its key.
pub proof fn law_groups_partition_the_rows(f: Flow, keys: Seq<i64>)
    ensures
        ({
            let groups = f.groups_by(keys);
            let sorted = crate::order::stable_sort(crate::order::by_value(keys), f.order);
            &&& forall|a: int, b: int|
                0 <= a < b < groups.len() ==> (#[trigger] groups[a]).key < (
                #[trigger] groups[b]).key
            &&& forall|g: int| 0 <= g < groups.len() ==> (#[trigger] groups[g]).members.len() > 0
            &&& members_of(groups) == sorted.map_values(
                |s: u16| (f.lrow[s as int], f.rrow[s as int]),
            )
            &&& members_of(groups).len() == f.order.len()
        }),
{
    let key = crate::order::by_value(keys);
    let sorted = crate::order::stable_sort(key, f.order);
    let cut = crate::flow::runs(key, sorted);
    let groups = f.groups_by(keys);
    let row = |s: u16| (f.lrow[s as int], f.rrow[s as int]);
    crate::order::law_stable_sort_permutes(key, f.order);
    crate::order::law_stable_sort_ascends(key, f.order);
    lemma_runs(key, sorted);
    lemma_runs_ascend(key, sorted);
    assert forall|a: int, b: int| 0 <= a < b < groups.len() implies (#[trigger] groups[a]).key < (
    #[trigger] groups[b]).key by {
        assert(key(cut[a][0]) < key(cut[b][0]));
    }
    assert forall|g: int| 0 <= g < groups.len() implies (#[trigger] groups[g]).members.len()
        > 0 by {
        assert(cut[g].len() > 0);
    }
    let parts = groups.map_values(|g: Group| g.members);
    assert(parts =~= cut.map_values(|r: Seq<u16>| r.map_values(row)));
    lemma_flatten_map(cut, row);
}

proof fn lemma_flatten_map(r: Seq<Seq<u16>>, row: spec_fn(u16) -> (u16, u16))
    ensures
        r.map_values(|s: Seq<u16>| s.map_values(row)).flatten() == r.flatten().map_values(row),
    decreases r.len(),
{
    let m = r.map_values(|s: Seq<u16>| s.map_values(row));
    if r.len() == 0 {
        assert(m.flatten() =~= r.flatten().map_values(row));
    } else {
        lemma_flatten_map(r.drop_first(), row);
        assert(m.drop_first() =~= r.drop_first().map_values(|s: Seq<u16>| s.map_values(row)));
        assert(m.flatten() =~= r.flatten().map_values(row));
    }
}

/// Every slot of a join stands for a kept slot and a row of the joined table with equal keys.
pub proof fn law_joined_slots_have_equal_keys(
    f: Flow,
    t: Table,
    lkeys: Seq<i64>,
    rkeys: Seq<i64>,
    i: int,
)
    requires
        f.slots() <= MAX_ROWS,
        t.live_rows() <= MAX_ROWS,
        0 <= i < f.joined_with(t, lkeys, rkeys).slots(),
    ensures
        ({
            let g = f.joined_with(t, lkeys, rkeys);
            &&& g.rrow[i] < t.live_rows()
            &&& exists|s: u16|
                {
                    &&& s < f.slots()
                    &&& f.keep[s as int]
                    &&& #[trigger] f.lrow[s as int] == g.lrow[i]
                    &&& lkeys[s as int] == rkeys[g.rrow[i] as int]
                }
        }),
{
    let ls = crate::order::selected(f.keep, f.slots() as int);
    let dense = Seq::new(ls.len(), |k: int| lkeys[ls[k] as int]);
    let all = crate::kernels::equi_join(dense, ls.len(), rkeys, t.live_rows());
    let pairs = crate::order::first_of(all, MAX_ROWS as int);
    let g = f.joined_with(t, lkeys, rkeys);
    let (l, r) = pairs[i];
    assert(all[i] == (l, r));
    assert(all.contains((l, r)));
    let lrows = crate::kernels::sorted_rows(dense, ls.len());
    let rrows = crate::order::iota(t.live_rows());
    crate::order::law_join_is_equal_keys(
        crate::order::by_value(dense),
        lrows,
        crate::order::by_value(rkeys),
        rrows,
        l,
        r,
    );
    crate::order::lemma_selected_range(f.keep, f.slots() as int);
    let a = choose|a: int| 0 <= a < lrows.len() && lrows[a] == l;
    let b = choose|b: int| 0 <= b < rrows.len() && rrows[b] == r;
    let rows = crate::order::iota(ls.len());
    crate::order::law_stable_sort_permutes(crate::order::by_value(dense), rows);
    crate::order::lemma_stable_sort_elements(crate::order::by_value(dense), rows, a);
    let c = choose|c: int| 0 <= c < rows.len() && rows[c] == l;
    assert(l < ls.len());
    let s = ls[l as int];
    assert(f.lrow[s as int] == g.lrow[i]);
}

/// How many pairs of a kept slot and a row of the joined table have equal keys.
pub open spec fn join_size(f: Flow, t: Table, lkeys: Seq<i64>, rkeys: Seq<i64>) -> nat {
    let ls = crate::order::selected(f.keep, f.slots() as int);
    let dense = Seq::new(ls.len(), |i: int| lkeys[ls[i] as int]);
    crate::kernels::equi_join(dense, ls.len(), rkeys, t.live_rows()).len()
}

/// A join misses no pair: where there is room for all, every kept slot and row of the joined table
/// with equal keys have a slot.
pub proof fn law_join_misses_no_pair(
    f: Flow,
    t: Table,
    lkeys: Seq<i64>,
    rkeys: Seq<i64>,
    s: u16,
    r: u16,
)
    requires
        f.slots() <= MAX_ROWS,
        s < f.slots(),
        f.keep[s as int],
        r < t.live_rows(),
        lkeys[s as int] == rkeys[r as int],
        join_size(f, t, lkeys, rkeys) <= MAX_ROWS,
    ensures
        ({
            let g = f.joined_with(t, lkeys, rkeys);
            exists|i: int|
                0 <= i < g.slots() && #[trigger] g.lrow[i] == f.lrow[s as int] && g.rrow[i] == r
        }),
{
    let n = f.slots() as int;
    let ls = crate::order::selected(f.keep, n);
    let dense = Seq::new(ls.len(), |k: int| lkeys[ls[k] as int]);
    let all = crate::kernels::equi_join(dense, ls.len(), rkeys, t.live_rows());
    let g = f.joined_with(t, lkeys, rkeys);
    crate::order::law_selection_is_the_mask(f.keep, n);
    crate::order::lemma_selected_range(f.keep, n);
    assert(ls.contains((s as int) as u16));
    let a = choose|a: int| 0 <= a < ls.len() && ls[a] == s;
    let l = a as u16;
    let key = crate::order::by_value(dense);
    let rows = crate::order::iota(ls.len());
    let lrows = crate::kernels::sorted_rows(dense, ls.len());
    let rrows = crate::order::iota(t.live_rows());
    assert(rows[a] == l);
    assert(rows.contains(l));
    crate::order::law_stable_sort_permutes(key, rows);
    lemma_sort_contains(key, rows, l);
    assert(rrows[r as int] == r);
    assert(rrows.contains(r));
    crate::order::law_join_is_equal_keys(
        key,
        lrows,
        crate::order::by_value(rkeys),
        rrows,
        l,
        r,
    );
    let i = choose|i: int| 0 <= i < all.len() && all[i] == (l, r);
    assert(g.lrow[i] == f.lrow[s as int]);
}

pub proof fn lemma_sort_contains(key: spec_fn(u16) -> int, s: Seq<u16>, x: u16)
    requires
        s.contains(x),
    ensures
        crate::order::stable_sort(key, s).contains(x),
{
    broadcast use vstd::seq_lib::group_to_multiset_ensures;

    crate::order::law_stable_sort_permutes(key, s);
    assert(s.to_multiset().count(x) > 0);
    assert(crate::order::stable_sort(key, s).to_multiset().count(x) > 0);
}

/// A number that a pipeline writes out is the number in the column for the slot of its row.
pub proof fn law_written_numbers_read_back(f: Flow, col: IntView, s: Source, n: int, i: int)
    requires
        0 <= i < n <= f.order.len(),
        n <= col.values.len(),
        n <= col.valid.len(),
        f.int_cell(s, f.order[i]) is Some,
    ensures
        f.int_rows(col, s, n).values[i] == f.int_cell(s, f.order[i])->0,
        f.int_rows(col, s, n).valid[i],
    decreases n,
{
    lemma_int_rows_len(f, col, s, n - 1);
    if i < n - 1 {
        law_written_numbers_read_back(f, col, s, n - 1, i);
    }
}

proof fn lemma_int_rows_len(f: Flow, col: IntView, s: Source, n: int)
    requires
        0 <= n < col.values.len(),
        n < col.valid.len(),
    ensures
        f.int_rows(col, s, n).values.len() == col.values.len(),
        f.int_rows(col, s, n).valid.len() == col.valid.len(),
    decreases n,
{
    if n > 0 {
        lemma_int_rows_len(f, col, s, n - 1);
    }
}

/// How many bytes the texts of the first `n` slots of the order take.
pub open spec fn text_bytes(f: Flow, s: Source, n: int) -> nat
    decreases n,
{
    if n <= 0 {
        0
    } else {
        text_bytes(f, s, n - 1) + match f.text_cell(s, f.order[n - 1]) {
            Some(b) => b.len(),
            None => 0,
        }
    }
}

/// The texts that a pipeline writes out are the texts in the column for the slots of their rows,
/// if there is one for every row and the slab has room for all.
pub proof fn law_written_texts_read_back(f: Flow, col: Utf8View, s: Source, n: int)
    requires
        col.wf(),
        0 <= n <= f.order.len(),
        n <= MAX_ROWS,
        forall|i: int| 0 <= i < n ==> f.text_cell(s, #[trigger] f.order[i]) is Some,
        text_bytes(f, s, n) <= UTF8_SLAB_CAP,
    ensures
        f.text_rows(col.cleared(), s, n).dense(n),
        f.text_rows(col.cleared(), s, n).data_len == text_bytes(f, s, n),
        forall|i: int|
            0 <= i < n ==> f.text_rows(col.cleared(), s, n).row(i) == f.text_cell(
                s,
                #[trigger] f.order[i],
            ),
    decreases n,
{
    if n > 0 {
        law_written_texts_read_back(f, col, s, n - 1);
        let before = f.text_rows(col.cleared(), s, n - 1);
        let b = f.text_cell(s, f.order[n - 1])->0;
        assert(before.fits(n - 1, b));
        crate::storage::law_appended_row_reads_back(before, n - 1, b);
        lemma_append_dense(before, n - 1, b);
        assert forall|i: int| 0 <= i < n implies f.text_rows(col.cleared(), s, n).row(i)
            == f.text_cell(s, #[trigger] f.order[i]) by {
            if i < n - 1 {
                crate::storage::law_appending_in_order_keeps_rows(before, n - 1, b, i);
            }
        }
    }
}

proof fn lemma_append_dense(c: Utf8View, n: int, bytes: Seq<u8>)
    requires
        c.dense(n),
        c.fits(n, bytes),
    ensures
        c.appended(n, bytes).dense(n + 1),
{
    if n > 0 {
        crate::storage::law_appending_in_order_keeps_rows(c, n, bytes, 0);
    } else {
        let d = c.appended(n, bytes);
        assert(d.data.len() == UTF8_SLAB_CAP);
    }
}

/// Whether the order holds slots that are kept, each at most once.
pub open spec fn sound(f: Flow) -> bool {
    &&& f.slots() <= MAX_ROWS
    &&& f.order.len() <= f.slots()
    &&& forall|i: int|
        0 <= i < f.order.len() ==> (#[trigger] f.order[i]) < f.slots() && f.keep[f.order[i] as int]
    &&& forall|i: int, j: int|
        0 <= i < j < f.order.len() ==> #[trigger] f.order[i] != #[trigger] f.order[j]
}

proof fn lemma_selected_sound(f: Flow)
    requires
        f.slots() <= MAX_ROWS,
        f.order == crate::order::selected(f.keep, f.slots() as int),
    ensures
        sound(f),
{
    let n = f.slots() as int;
    crate::order::lemma_selected_range(f.keep, n);
    crate::order::law_selection_is_the_mask(f.keep, n);
}

proof fn lemma_kept_sound(s: Seq<u16>, keep: Seq<bool>, n: int)
    requires
        forall|i: int| 0 <= i < s.len() ==> (#[trigger] s[i]) < n,
        forall|i: int, j: int| 0 <= i < j < s.len() ==> #[trigger] s[i] != #[trigger] s[j],
    ensures
        ({
            let w = crate::flow::kept(s, keep);
            &&& w.len() <= s.len()
            &&& forall|i: int|
                0 <= i < w.len() ==> (#[trigger] w[i]) < n && keep[w[i] as int]
            &&& forall|i: int, j: int| 0 <= i < j < w.len() ==> #[trigger] w[i] != #[trigger] w[j]
        }),
    decreases s.len(),
{
    if s.len() > 0 {
        let u = s.drop_last();
        let x = s.last();
        assert forall|i: int| 0 <= i < u.len() implies (#[trigger] u[i]) < n by {
            assert(u[i] == s[i]);
        }
        assert forall|i: int, j: int| 0 <= i < j < u.len() implies #[trigger] u[i]
            != #[trigger] u[j] by {
            assert(u[i] == s[i] && u[j] == s[j]);
        }
        lemma_kept_sound(u, keep, n);
        let w = crate::flow::kept(u, keep);
        assert(s[s.len() - 1] == x);
        assert forall|i: int| 0 <= i < w.len() implies #[trigger] w[i] != x by {
            assert(w.contains(w[i]));
            lemma_kept_elements(u, keep, w[i]);
            let k = choose|k: int| 0 <= k < u.len() && u[k] == w[i];
            assert(s[k] == w[i]);
        }
    }
}

/// Every stage keeps a flow sound: whatever is in the order is a slot that was kept, and no slot
/// is there twice.
pub proof fn law_stages_keep_flows_sound(
    f: Flow,
    cat: crate::storage::Catalog,
    src: Seq<u8>,
    nodes: Seq<crate::parser::AstNode>,
    st: crate::parser::AstNode,
)
    requires
        sound(f),
    ensures
        sound(f.stage(cat, src, nodes, st).flow),
{
    let g = f.stage(cat, src, nodes, st).flow;
    match st.kind {
        NodeKind::Filter => {
            if g.order != f.order || g.keep != f.keep {
                if g.order != crate::order::selected(g.keep, g.slots() as int) {
                    lemma_kept_sound(f.order, g.keep, f.slots() as int);
                } else {
                    lemma_selected_sound(g);
                }
            }
        },
        NodeKind::Sort => {
            if let Some(name) = crate::flow::name_at(src, nodes, st.left) {
                if let Some(v) = f.left_column(name) {
                    if f.left is Some {
                        lemma_sorted_sound(f, v);
                    }
                }
            }
        },
        NodeKind::Group => {
            if let Some(name) = crate::flow::name_at(src, nodes, st.left) {
                if let Some(keys) = f.column(name) {
                    lemma_groups_len(f, keys);
                }
            }
        },
        _ => {},
    }
}

/// So does a whole pipeline, up to the stage that fails if one does.
pub proof fn law_pipelines_keep_flows_sound(
    f: Flow,
    cat: crate::storage::Catalog,
    src: Seq<u8>,
    nodes: Seq<crate::parser::AstNode>,
    id: u32,
    n: nat,
)
    requires
        sound(f),
    ensures
        sound(f.stages(cat, src, nodes, id, n).flow),
    decreases n,
{
    if id != crate::parser::NIL && n > 0 && id < nodes.len() {
        let st = nodes[id as int];
        law_stages_keep_flows_sound(f, cat, src, nodes, st);
        let step = f.stage(cat, src, nodes, st);
        if step.fault is None {
            law_pipelines_keep_flows_sound(step.flow, cat, src, nodes, st.next, (n - 1) as nat);
        }
    }
}

pub proof fn lemma_sorted_sound(f: Flow, v: Seq<i64>)
    requires
        f.slots() <= MAX_ROWS,
    ensures
        sound(
            Flow {
                order: crate::order::stable_sort(
                    crate::order::by_value(v),
                    crate::order::selected(f.keep, f.slots() as int),
                ),
                sorted: true,
                ..f
            },
        ),
{
    let n = f.slots() as int;
    let kept = crate::order::selected(f.keep, n);
    let order = crate::order::stable_sort(crate::order::by_value(v), kept);
    crate::order::law_selection_is_the_mask(f.keep, n);
    crate::order::lemma_selected_range(f.keep, n);
    lemma_sort_of_ascending(v, kept);
    assert forall|i: int| 0 <= i < order.len() implies (#[trigger] order[i]) < f.slots()
        && f.keep[order[i] as int] by {
        let k = choose|k: int| 0 <= k < kept.len() && kept[k] == order[i];
        assert(kept[k] < n);
    }
}

pub proof fn lemma_groups_len(f: Flow, keys: Seq<i64>)
    ensures
        f.groups_by(keys).len() <= f.order.len(),
{
    let key = crate::order::by_value(keys);
    let sorted = crate::order::stable_sort(key, f.order);
    crate::order::law_stable_sort_permutes(key, f.order);
    lemma_runs(key, sorted);
    lemma_parts_len(crate::flow::runs(key, sorted));
}

/// A part is no longer than the whole.
pub proof fn lemma_part_len(r: Seq<Seq<u16>>, q: int)
    requires
        0 <= q < r.len(),
    ensures
        r[q].len() <= r.flatten().len(),
    decreases r.len(),
{
    if q > 0 {
        lemma_part_len(r.drop_first(), q - 1);
        assert(r.drop_first()[q - 1] == r[q]);
    }
}

proof fn lemma_parts_len(r: Seq<Seq<u16>>)
    requires
        forall|g: int| 0 <= g < r.len() ==> (#[trigger] r[g]).len() > 0,
    ensures
        r.len() <= r.flatten().len(),
    decreases r.len(),
{
    if r.len() > 0 {
        let rest = r.drop_first();
        assert forall|g: int| 0 <= g < rest.len() implies (#[trigger] rest[g]).len() > 0 by {
            assert(rest[g] == r[g + 1]);
        }
        lemma_parts_len(rest);
        assert(r[0].len() > 0);
    }
}

} // verus!
