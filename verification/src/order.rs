//! What sorting and joining mean: stable sorts of row lists, and the pairs of an equi-join.

use vstd::prelude::*;

verus! {

/// The key of a row in a column of values.
pub open spec fn by_value(values: Seq<i64>) -> spec_fn(u16) -> int {
    |x: u16| values[x as int] as int
}

/// The rows `0..n` in order.
pub open spec fn iota(n: nat) -> Seq<u16> {
    Seq::new(n, |i: int| i as u16)
}

/// The rows of `0..n` that `keep` keeps, in order.
pub open spec fn selected(keep: Seq<bool>, n: int) -> Seq<u16>
    decreases n,
{
    if n <= 0 {
        Seq::empty()
    } else if keep[n - 1] {
        selected(keep, n - 1).push((n - 1) as u16)
    } else {
        selected(keep, n - 1)
    }
}

/// How far the first `n` bytes of a mask move a list on, each by its value.
pub open spec fn taken(mask: Seq<u8>, n: int) -> nat
    decreases n,
{
    if n <= 0 {
        0
    } else {
        taken(mask, n - 1) + mask[n - 1] as nat
    }
}

/// The buffer `order` after the rows `0..n` were written to it one by one, each to where the
/// bytes of the mask before it have moved the list on to. A row whose byte is zero is written
/// over by the next one.
pub open spec fn appended(mask: Seq<u8>, n: int, order: Seq<u16>) -> Seq<u16>
    decreases n,
{
    if n <= 0 {
        order
    } else {
        appended(mask, n - 1, order).update(taken(mask, n - 1) as int, (n - 1) as u16)
    }
}

/// `t` with `x` put behind the last element whose key is not greater.
pub open spec fn insert_after(key: spec_fn(u16) -> int, t: Seq<u16>, x: u16) -> Seq<u16>
    decreases t.len(),
{
    if t.len() == 0 || key(t.last()) <= key(x) {
        t.push(x)
    } else {
        insert_after(key, t.drop_last(), x).push(t.last())
    }
}

/// `s` sorted by ascending key, elements of equal key in the order they had.
pub open spec fn stable_sort(key: spec_fn(u16) -> int, s: Seq<u16>) -> Seq<u16>
    decreases s.len(),
{
    if s.len() == 0 {
        s
    } else {
        insert_after(key, stable_sort(key, s.drop_last()), s.last())
    }
}

/// The elements of `s` whose key is `k`, in order.
pub open spec fn with_key(key: spec_fn(u16) -> int, s: Seq<u16>, k: int) -> Seq<u16>
    decreases s.len(),
{
    if s.len() == 0 {
        s
    } else if key(s.last()) == k {
        with_key(key, s.drop_last(), k).push(s.last())
    } else {
        with_key(key, s.drop_last(), k)
    }
}

/// For each left row in `ls`, in order, the pairs it makes with the right rows in `rs` of
/// equal key, in order.
pub open spec fn join_pairs(
    lkey: spec_fn(u16) -> int,
    ls: Seq<u16>,
    rkey: spec_fn(u16) -> int,
    rs: Seq<u16>,
) -> Seq<(u16, u16)>
    decreases ls.len(),
{
    if ls.len() == 0 {
        Seq::empty()
    } else {
        join_pairs(lkey, ls.drop_last(), rkey, rs) + with_key(rkey, rs, lkey(ls.last())).map_values(
            |r: u16| (ls.last(), r),
        )
    }
}

/// The first `n` elements of `s`, or all of them if there are fewer.
pub open spec fn first_of<A>(s: Seq<A>, n: int) -> Seq<A> {
    if s.len() <= n {
        s
    } else {
        s.take(n)
    }
}

/// Element `i` comes before element `j` when `s` is sorted stably.
pub open spec fn precedes(key: spec_fn(u16) -> int, s: Seq<u16>, i: int, j: int) -> bool {
    key(s[i]) < key(s[j]) || (key(s[i]) == key(s[j]) && i < j)
}

/// `place[i]` is where element `i` of `s` stands in `t`, and places follow the stable order.
pub open spec fn placed(
    key: spec_fn(u16) -> int,
    s: Seq<u16>,
    t: Seq<u16>,
    place: Seq<int>,
) -> bool {
    &&& t.len() == s.len()
    &&& place.len() == s.len()
    &&& forall|i: int|
        0 <= i < s.len() ==> 0 <= #[trigger] place[i] < s.len() && t[place[i]] == s[i]
    &&& forall|i: int, j: int|
        0 <= i < s.len() && 0 <= j < s.len() && precedes(key, s, i, j) ==> #[trigger] place[i]
            < #[trigger] place[j]
}

/// Distinct numbers below `p.len()` hit every number below it.
proof fn lemma_pigeonhole(p: Seq<int>, d: int)
    requires
        forall|i: int| 0 <= i < p.len() ==> 0 <= #[trigger] p[i] < p.len(),
        forall|i: int, j: int|
            0 <= i < p.len() && 0 <= j < p.len() && i != j ==> #[trigger] p[i] != #[trigger] p[j],
        0 <= d < p.len(),
    ensures
        exists|i: int| 0 <= i < p.len() && #[trigger] p[i] == d,
{
    assert(p.no_duplicates());
    p.unique_seq_to_set();
    let all = vstd::set_lib::set_int_range(0, p.len() as int);
    vstd::set_lib::lemma_int_range(0, p.len() as int);
    assert(p.to_set().subset_of(all)) by {
        assert forall|x: int| p.to_set().contains(x) implies all.contains(x) by {
            let i = choose|i: int| 0 <= i < p.len() && p[i] == x;
            assert(0 <= p[i] < p.len());
        }
    }
    vstd::set_lib::lemma_subset_equality(p.to_set(), all);
    assert(p.to_set().contains(d));
    let i = choose|i: int| 0 <= i < p.len() && p[i] == d;
    assert(p[i] == d);
}

proof fn lemma_insert_between(key: spec_fn(u16) -> int, a: Seq<u16>, b: Seq<u16>, x: u16)
    requires
        forall|i: int| 0 <= i < a.len() ==> key(#[trigger] a[i]) <= key(x),
        forall|i: int| 0 <= i < b.len() ==> key(#[trigger] b[i]) > key(x),
    ensures
        insert_after(key, a + b, x) == a.push(x) + b,
    decreases b.len(),
{
    let t = a + b;
    if b.len() == 0 {
        assert(t =~= a);
        assert(a.push(x) + b =~= a.push(x));
        if a.len() > 0 {
            assert(key(a[a.len() - 1]) <= key(x));
        }
    } else {
        assert(t.last() == b[b.len() - 1]);
        assert(t.drop_last() =~= a + b.drop_last());
        lemma_insert_between(key, a, b.drop_last(), x);
        assert((a.push(x) + b.drop_last()).push(b.last()) =~= a.push(x) + b);
    }
}

/// A list whose elements stand at their stable places is the stable sort.
pub proof fn lemma_placed_is_stable_sort(
    key: spec_fn(u16) -> int,
    s: Seq<u16>,
    t: Seq<u16>,
    place: Seq<int>,
)
    requires
        placed(key, s, t, place),
    ensures
        t == stable_sort(key, s),
    decreases s.len(),
{
    let n = s.len() as int;
    if n == 0 {
        assert(t =~= s);
    } else {
        assert forall|i: int, j: int| 0 <= i < n && 0 <= j < n && i != j implies #[trigger] place[i]
            != #[trigger] place[j] by {
            if precedes(key, s, i, j) {
                assert(place[i] < place[j]);
            } else {
                assert(precedes(key, s, j, i));
                assert(place[j] < place[i]);
            }
        }
        let d = place[n - 1];
        let x = s[n - 1];
        let s1 = s.drop_last();
        let t1 = t.take(d) + t.skip(d + 1);
        let place1 = Seq::new(
            (n - 1) as nat,
            |i: int|
                if place[i] < d {
                    place[i]
                } else {
                    place[i] - 1
                },
        );
        assert(placed(key, s1, t1, place1)) by {
            assert forall|i: int| 0 <= i < s1.len() implies 0 <= #[trigger] place1[i] < s1.len()
                && t1[place1[i]] == s1[i] by {
                assert(place[i] != place[n - 1]);
                assert(0 <= place[i] < n);
            }
            assert forall|i: int, j: int|
                0 <= i < s1.len() && 0 <= j < s1.len() && precedes(
                    key,
                    s1,
                    i,
                    j,
                ) implies #[trigger] place1[i] < #[trigger] place1[j] by {
                assert(precedes(key, s, i, j));
                assert(place[i] < place[j]);
                assert(place[i] != place[n - 1]);
                assert(place[j] != place[n - 1]);
            }
        }
        lemma_placed_is_stable_sort(key, s1, t1, place1);
        let a = t.take(d);
        let b = t.skip(d + 1);
        assert forall|i: int| 0 <= i < a.len() implies key(#[trigger] a[i]) <= key(x) by {
            lemma_pigeonhole(place, i);
            let j = choose|j: int| 0 <= j < place.len() && #[trigger] place[j] == i;
            assert(t[place[j]] == s[j]);
            if key(s[j]) > key(x) {
                assert(precedes(key, s, n - 1, j));
                assert(place[n - 1] < place[j]);
            }
        }
        assert forall|i: int| 0 <= i < b.len() implies key(#[trigger] b[i]) > key(x) by {
            lemma_pigeonhole(place, i + d + 1);
            let j = choose|j: int| 0 <= j < place.len() && #[trigger] place[j] == i + d + 1;
            assert(t[place[j]] == s[j]);
            if key(s[j]) <= key(x) {
                assert(precedes(key, s, j, n - 1));
                assert(place[j] < place[n - 1]);
            }
        }
        lemma_insert_between(key, a, b, x);
        assert(a.push(x) + b =~= t);
    }
}

proof fn lemma_insert_len(key: spec_fn(u16) -> int, t: Seq<u16>, x: u16)
    ensures
        insert_after(key, t, x).len() == t.len() + 1,
        insert_after(key, t, x).to_multiset() =~= t.to_multiset().insert(x),
    decreases t.len(),
{
    broadcast use vstd::seq_lib::group_to_multiset_ensures;

    if !(t.len() == 0 || key(t.last()) <= key(x)) {
        lemma_insert_len(key, t.drop_last(), x);
        assert(t =~= t.drop_last().push(t.last()));
    }
}

/// A stable sort only moves elements: it has the length and the elements of the list.
pub proof fn law_stable_sort_permutes(key: spec_fn(u16) -> int, s: Seq<u16>)
    ensures
        stable_sort(key, s).len() == s.len(),
        stable_sort(key, s).to_multiset() =~= s.to_multiset(),
    decreases s.len(),
{
    broadcast use vstd::seq_lib::group_to_multiset_ensures;

    if s.len() > 0 {
        law_stable_sort_permutes(key, s.drop_last());
        lemma_insert_len(key, stable_sort(key, s.drop_last()), s.last());
        assert(s =~= s.drop_last().push(s.last()));
    }
}

proof fn lemma_insert_sorted(key: spec_fn(u16) -> int, t: Seq<u16>, x: u16)
    requires
        forall|i: int, j: int|
            0 <= i <= j < t.len() ==> key(#[trigger] t[i]) <= key(#[trigger] t[j]),
    ensures
        forall|i: int, j: int|
            0 <= i <= j < insert_after(key, t, x).len() ==> key(
                #[trigger] insert_after(key, t, x)[i],
            ) <= key(#[trigger] insert_after(key, t, x)[j]),
        t.len() > 0 ==> key(insert_after(key, t, x).last()) == if key(t.last()) <= key(x) {
            key(x)
        } else {
            key(t.last())
        },
    decreases t.len(),
{
    if !(t.len() == 0 || key(t.last()) <= key(x)) {
        let u = t.drop_last();
        assert forall|i: int, j: int| 0 <= i <= j < u.len() implies key(#[trigger] u[i]) <= key(
            #[trigger] u[j],
        ) by {
            assert(key(t[i]) <= key(t[j]));
        }
        lemma_insert_sorted(key, u, x);
        lemma_insert_len(key, u, x);
        let w = insert_after(key, u, x);
        if u.len() > 0 {
            assert(key(t[t.len() - 2]) <= key(t[t.len() - 1]));
        }
        assert(w[w.len() - 1] == w.last());
        assert forall|i: int| 0 <= i < w.len() implies key(#[trigger] w[i]) <= key(t.last()) by {
            assert(key(w[i]) <= key(w[w.len() - 1]));
        }
    } else {
        assert forall|i: int| 0 <= i < t.len() implies key(#[trigger] t[i]) <= key(x) by {
            assert(key(t[i]) <= key(t[t.len() - 1]));
        }
    }
}

/// A stable sort is in ascending order of the keys.
pub proof fn law_stable_sort_ascends(key: spec_fn(u16) -> int, s: Seq<u16>)
    ensures
        forall|i: int, j: int|
            0 <= i <= j < s.len() ==> key(#[trigger] stable_sort(key, s)[i]) <= key(
                #[trigger] stable_sort(key, s)[j],
            ),
    decreases s.len(),
{
    law_stable_sort_permutes(key, s);
    if s.len() > 0 {
        law_stable_sort_permutes(key, s.drop_last());
        law_stable_sort_ascends(key, s.drop_last());
        lemma_insert_sorted(key, stable_sort(key, s.drop_last()), s.last());
    }
}

proof fn lemma_insert_with_key(key: spec_fn(u16) -> int, t: Seq<u16>, x: u16, k: int)
    ensures
        with_key(key, insert_after(key, t, x), k) == if key(x) == k {
            with_key(key, t, k).push(x)
        } else {
            with_key(key, t, k)
        },
    decreases t.len(),
{
    if t.len() == 0 || key(t.last()) <= key(x) {
        assert(t.push(x).drop_last() =~= t);
    } else {
        let u = insert_after(key, t.drop_last(), x);
        lemma_insert_with_key(key, t.drop_last(), x, k);
        assert(u.push(t.last()).drop_last() =~= u);
    }
}

/// A stable sort keeps the elements of one key in the order they had.
pub proof fn law_stable_sort_is_stable(key: spec_fn(u16) -> int, s: Seq<u16>, k: int)
    ensures
        with_key(key, stable_sort(key, s), k) == with_key(key, s, k),
    decreases s.len(),
{
    if s.len() > 0 {
        law_stable_sort_is_stable(key, s.drop_last(), k);
        lemma_insert_with_key(key, stable_sort(key, s.drop_last()), s.last(), k);
    }
}

/// Every element of a stable sort is an element of the list.
pub proof fn lemma_stable_sort_elements(key: spec_fn(u16) -> int, s: Seq<u16>, i: int)
    requires
        0 <= i < s.len(),
    ensures
        s.contains(stable_sort(key, s)[i]),
{
    broadcast use vstd::seq_lib::group_to_multiset_ensures;

    law_stable_sort_permutes(key, s);
    let t = stable_sort(key, s);
    assert(t.contains(t[i]));
    assert(t.to_multiset().count(t[i]) > 0);
    assert(s.to_multiset().count(t[i]) > 0);
}

pub proof fn lemma_with_key_append(key: spec_fn(u16) -> int, a: Seq<u16>, b: Seq<u16>, k: int)
    ensures
        with_key(key, a + b, k) == with_key(key, a, k) + with_key(key, b, k),
    decreases b.len(),
{
    if b.len() == 0 {
        assert(a + b =~= a);
        assert(with_key(key, a, k) + with_key(key, b, k) =~= with_key(key, a, k));
    } else {
        assert((a + b).drop_last() =~= a + b.drop_last());
        assert((a + b).last() == b.last());
        lemma_with_key_append(key, a, b.drop_last(), k);
        assert(with_key(key, a + b, k) =~= with_key(key, a, k) + with_key(key, b, k));
    }
}

pub proof fn lemma_with_key_none(key: spec_fn(u16) -> int, s: Seq<u16>, k: int)
    requires
        forall|i: int| 0 <= i < s.len() ==> key(#[trigger] s[i]) != k,
    ensures
        with_key(key, s, k) == Seq::<u16>::empty(),
    decreases s.len(),
{
    if s.len() > 0 {
        assert(key(s[s.len() - 1]) != k);
        assert forall|i: int| 0 <= i < s.drop_last().len() implies key(
            #[trigger] s.drop_last()[i],
        ) != k by {
            assert(key(s[i]) != k);
        }
        lemma_with_key_none(key, s.drop_last(), k);
    } else {
        assert(s =~= Seq::<u16>::empty());
    }
}

pub proof fn lemma_with_key_all(key: spec_fn(u16) -> int, s: Seq<u16>, k: int)
    requires
        forall|i: int| 0 <= i < s.len() ==> key(#[trigger] s[i]) == k,
    ensures
        with_key(key, s, k) == s,
    decreases s.len(),
{
    if s.len() > 0 {
        assert(key(s[s.len() - 1]) == k);
        assert forall|i: int| 0 <= i < s.drop_last().len() implies key(
            #[trigger] s.drop_last()[i],
        ) == k by {
            assert(key(s[i]) == k);
        }
        lemma_with_key_all(key, s.drop_last(), k);
        assert(s.drop_last().push(s.last()) =~= s);
    }
}

/// In a list whose keys are below `k` up to `a`, equal to `k` up to `b` and above it from
/// there, the elements of key `k` are those from `a` to `b`.
pub proof fn lemma_with_key_run(key: spec_fn(u16) -> int, s: Seq<u16>, k: int, a: int, b: int)
    requires
        0 <= a <= b <= s.len(),
        forall|i: int| 0 <= i < a ==> key(#[trigger] s[i]) < k,
        forall|i: int| a <= i < b ==> key(#[trigger] s[i]) == k,
        forall|i: int| b <= i < s.len() ==> key(#[trigger] s[i]) > k,
    ensures
        with_key(key, s, k) == s.subrange(a, b),
{
    let x = s.subrange(0, a);
    let y = s.subrange(a, b);
    let z = s.subrange(b, s.len() as int);
    assert(s =~= (x + y) + z);
    lemma_with_key_append(key, x + y, z, k);
    lemma_with_key_append(key, x, y, k);
    assert forall|i: int| 0 <= i < x.len() implies key(#[trigger] x[i]) != k by {
        assert(key(s[i]) < k);
    }
    assert forall|i: int| 0 <= i < y.len() implies key(#[trigger] y[i]) == k by {
        assert(key(s[a + i]) == k);
    }
    assert forall|i: int| 0 <= i < z.len() implies key(#[trigger] z[i]) != k by {
        assert(key(s[b + i]) > k);
    }
    lemma_with_key_none(key, x, k);
    lemma_with_key_all(key, y, k);
    lemma_with_key_none(key, z, k);
    assert(with_key(key, s, k) =~= y);
}

/// Joining more left rows only adds pairs behind those of fewer.
pub proof fn lemma_join_prefix(
    lkey: spec_fn(u16) -> int,
    ls: Seq<u16>,
    rkey: spec_fn(u16) -> int,
    rs: Seq<u16>,
    n: int,
)
    requires
        0 <= n <= ls.len(),
    ensures
        join_pairs(lkey, ls.take(n), rkey, rs).len() <= join_pairs(lkey, ls, rkey, rs).len(),
        join_pairs(lkey, ls, rkey, rs).take(
            join_pairs(lkey, ls.take(n), rkey, rs).len() as int,
        ) == join_pairs(lkey, ls.take(n), rkey, rs),
    decreases ls.len(),
{
    let p = join_pairs(lkey, ls.take(n), rkey, rs);
    let q = join_pairs(lkey, ls, rkey, rs);
    if n == ls.len() {
        assert(ls.take(n) =~= ls);
        assert(q.take(q.len() as int) =~= q);
    } else {
        let u = ls.drop_last();
        lemma_join_prefix(lkey, u, rkey, rs, n);
        assert(u.take(n) =~= ls.take(n));
        let r = join_pairs(lkey, u, rkey, rs);
        assert(q.take(p.len() as int) =~= r.take(p.len() as int));
    }
}

/// Left rows whose keys match no right row add nothing to a join.
pub proof fn lemma_join_no_more(
    lkey: spec_fn(u16) -> int,
    ls: Seq<u16>,
    rkey: spec_fn(u16) -> int,
    rs: Seq<u16>,
    n: int,
)
    requires
        0 <= n <= ls.len(),
        forall|i: int, j: int|
            n <= i < ls.len() && 0 <= j < rs.len() ==> lkey(#[trigger] ls[i]) != rkey(
                #[trigger] rs[j],
            ),
    ensures
        join_pairs(lkey, ls, rkey, rs) == join_pairs(lkey, ls.take(n), rkey, rs),
    decreases ls.len(),
{
    if n == ls.len() {
        assert(ls.take(n) =~= ls);
    } else {
        let u = ls.drop_last();
        lemma_join_no_more(lkey, u, rkey, rs, n);
        assert(u.take(n) =~= ls.take(n));
        let k = lkey(ls.last());
        assert(ls.last() == ls[ls.len() - 1]);
        lemma_with_key_none(rkey, rs, k);
        assert(join_pairs(lkey, ls, rkey, rs) =~= join_pairs(lkey, u, rkey, rs));
    }
}

pub proof fn lemma_with_key_elements(key: spec_fn(u16) -> int, s: Seq<u16>, k: int, x: u16)
    ensures
        with_key(key, s, k).contains(x) <==> s.contains(x) && key(x) == k,
    decreases s.len(),
{
    if s.len() > 0 {
        let u = s.drop_last();
        lemma_with_key_elements(key, u, k, x);
        let w = with_key(key, u, k);
        assert(s =~= u.push(s.last()));
        assert(s.contains(x) <==> u.contains(x) || x == s.last()) by {
            if u.contains(x) {
                let i = choose|i: int| 0 <= i < u.len() && u[i] == x;
                assert(s[i] == x);
            }
            if x == s.last() {
                assert(s[s.len() - 1] == x);
            }
            if s.contains(x) {
                let i = choose|i: int| 0 <= i < s.len() && s[i] == x;
                if i < u.len() {
                    assert(u[i] == x);
                }
            }
        }
        assert(w.push(s.last()).contains(x) <==> w.contains(x) || x == s.last()) by {
            if w.contains(x) {
                let i = choose|i: int| 0 <= i < w.len() && w[i] == x;
                assert(w.push(s.last())[i] == x);
            }
            if x == s.last() {
                assert(w.push(s.last())[w.len() as int] == x);
            }
        }
    }
}

/// A join is exactly the pairs of equal key.
pub proof fn law_join_is_equal_keys(
    lkey: spec_fn(u16) -> int,
    ls: Seq<u16>,
    rkey: spec_fn(u16) -> int,
    rs: Seq<u16>,
    l: u16,
    r: u16,
)
    ensures
        join_pairs(lkey, ls, rkey, rs).contains((l, r)) <==> ls.contains(l) && rs.contains(r)
            && lkey(l) == rkey(r),
    decreases ls.len(),
{
    let p = join_pairs(lkey, ls, rkey, rs);
    if ls.len() > 0 {
        let u = ls.drop_last();
        let last = ls.last();
        law_join_is_equal_keys(lkey, u, rkey, rs, l, r);
        let q = join_pairs(lkey, u, rkey, rs);
        let w = with_key(rkey, rs, lkey(last));
        let m = w.map_values(|x: u16| (last, x));
        lemma_with_key_elements(rkey, rs, lkey(last), r);
        assert(ls =~= u.push(last));
        if ls.contains(l) && rs.contains(r) && lkey(l) == rkey(r) {
            if l == last {
                let i = choose|i: int| 0 <= i < w.len() && w[i] == r;
                assert(p[q.len() + i] == (l, r));
            } else {
                let i = choose|i: int| 0 <= i < ls.len() && ls[i] == l;
                assert(u[i] == l);
                let j = choose|j: int| 0 <= j < q.len() && q[j] == (l, r);
                assert(p[j] == (l, r));
            }
        }
        if p.contains((l, r)) {
            let i = choose|i: int| 0 <= i < p.len() && p[i] == (l, r);
            if i < q.len() {
                assert(q[i] == (l, r));
                let j = choose|j: int| 0 <= j < u.len() && u[j] == l;
                assert(ls[j] == l);
            } else {
                assert(w[i - q.len()] == r);
                assert(ls[ls.len() - 1] == l);
            }
        }
    }
}

pub proof fn lemma_selected_range(keep: Seq<bool>, n: int)
    requires
        0 <= n <= 65536,
    ensures
        selected(keep, n).len() <= n,
        forall|i: int|
            0 <= i < selected(keep, n).len() ==> 0 <= #[trigger] selected(keep, n)[i] < n
                && keep[selected(keep, n)[i] as int],
    decreases n,
{
    if n > 0 {
        lemma_selected_range(keep, n - 1);
    }
}

pub proof fn lemma_taken_grows(mask: Seq<u8>, i: int, n: int)
    requires
        i <= n,
    ensures
        taken(mask, i) <= taken(mask, n),
    decreases n - i,
{
    if i < n {
        lemma_taken_grows(mask, i, n - 1);
    }
}

/// Where the bytes of a mask are zero and one, appending by them brings the kept rows and leaves
/// the rest of the buffer alone, but for the slot behind them if the last row was dropped: there
/// that row stands.
pub proof fn law_appending_selects(mask: Seq<u8>, keep: Seq<bool>, n: int, order: Seq<u16>)
    requires
        0 <= n <= order.len(),
        n <= 65536,
        forall|i: int| 0 <= i < n ==> #[trigger] mask[i] <= 1,
        forall|i: int| 0 <= i < n ==> #[trigger] keep[i] == (mask[i] != 0),
    ensures
        ({
            let kept = selected(keep, n);
            let rest = order.skip(kept.len() as int);
            &&& taken(mask, n) == kept.len()
            &&& kept.len() <= n
            &&& appended(mask, n, order) == kept + if n > 0 && mask[n - 1] == 0 {
                rest.update(0, (n - 1) as u16)
            } else {
                rest
            }
        }),
    decreases n,
{
    let kept = selected(keep, n);
    let rest = order.skip(kept.len() as int);
    if n <= 0 {
        assert(appended(mask, n, order) =~= kept + rest);
    } else {
        law_appending_selects(mask, keep, n - 1, order);
        assert(mask[n - 1] <= 1);
        assert(keep[n - 1] == (mask[n - 1] != 0));
        if mask[n - 1] == 0 {
            assert(appended(mask, n, order) =~= kept + rest.update(0, (n - 1) as u16));
        } else {
            assert(appended(mask, n, order) =~= kept + rest);
        }
    }
}

/// A selection keeps a row if and only if its mask does, and keeps rows in ascending order.
pub proof fn law_selection_is_the_mask(keep: Seq<bool>, n: int)
    requires
        0 <= n <= 65536,
    ensures
        forall|r: int| 0 <= r < n ==> (selected(keep, n).contains(r as u16) <==> keep[r]),
        forall|i: int, j: int|
            0 <= i < j < selected(keep, n).len() ==> #[trigger] selected(keep, n)[i]
                < #[trigger] selected(keep, n)[j],
    decreases n,
{
    if n > 0 {
        law_selection_is_the_mask(keep, n - 1);
        lemma_selected_range(keep, n - 1);
        lemma_selected_range(keep, n);
        let s = selected(keep, n - 1);
        let t = selected(keep, n);
        assert forall|r: int| 0 <= r < n implies (t.contains(r as u16) <==> keep[r]) by {
            if t.contains(r as u16) {
                let i = choose|i: int| 0 <= i < t.len() && t[i] == r as u16;
                assert(keep[t[i] as int]);
            }
            if keep[r] {
                if r == n - 1 {
                    assert(t[t.len() - 1] == r as u16);
                } else {
                    let i = choose|i: int| 0 <= i < s.len() && s[i] == r as u16;
                    assert(t[i] == r as u16);
                }
            }
        }
    }
}

} // verus!
