//! Demonstration relations: `பயனர்கள்` (users) and `ஆர்டர்கள்` (orders).

use vstd::prelude::*;
use crate::storage::{
    Catalog, ColumnData, FixedOrdersDatabase, Int64Column, IntView, PhysType, Table, Utf8View,
};

verus! {

/// Rows of the users relation.
pub const USER_ROWS: usize = 16;

/// Rows of the orders relation.
pub const ORDER_ROWS: usize = 12;

/// Rows of the orders relation in which prices repeat.
pub const DUP_ORDER_ROWS: usize = 8;

/// The names of the users.
pub open spec fn user_names() -> Seq<Seq<char>> {
    seq![
        "அருண்"@,
        "பிரியா"@,
        "கண்ணன்"@,
        "லட்சுமி"@,
        "முருகன்"@,
        "கவிதா"@,
        "ராஜ்"@,
        "மீனா"@,
        "சுரேஷ்"@,
        "தீபா"@,
        "விஜய்"@,
        "அனிதா"@,
        "கோபால்"@,
        "சுமதி"@,
        "கார்த்திக்"@,
        "நந்தினி"@,
    ]
}

/// The ages of the users.
pub open spec fn user_ages() -> Seq<i64> {
    seq![18i64, 22, 19, 25, 30, 21, 27, 24, 17, 35, 28, 20, 23, 26, 31, 29]
}

/// The user and the price of each order.
pub open spec fn order_pairs() -> Seq<(i64, i64)> {
    seq![
        (1i64, 450i64),
        (3, 800),
        (4, 1200),
        (6, 350),
        (7, 600),
        (9, 900),
        (10, 500),
        (12, 700),
        (13, 550),
        (14, 1100),
        (15, 400),
        (0, 100),
    ]
}

/// The prices of the orders in which prices repeat.
pub open spec fn dup_prices() -> Seq<i64> {
    seq![100i64, 250, 100, 250, 500, 250, 100, 250]
}

/// The bytes of a text.
pub open spec fn bytes_of(s: &str) -> Seq<u8> {
    vstd::utf8::encode_utf8(s@)
}

/// A text of at most sixteen characters is no longer than a name can be.
proof fn lemma_short_name(s: &str)
    requires
        s@.len() <= 16,
    ensures
        bytes_of(s).len() <= crate::storage::NAME_CAP,
        crate::storage::cut_name(bytes_of(s)) == bytes_of(s),
{
    crate::utf8::lemma_encoded_len(s@);
}

proof fn lemma_seed_names()
    ensures
        bytes_of("பயனர்கள்").len() <= crate::storage::NAME_CAP,
        bytes_of("ஆர்டர்கள்").len() <= crate::storage::NAME_CAP,
        bytes_of("அடையாளம்").len() <= crate::storage::NAME_CAP,
        bytes_of("பெயர்").len() <= crate::storage::NAME_CAP,
        bytes_of("வயது").len() <= crate::storage::NAME_CAP,
        bytes_of("விலை").len() <= crate::storage::NAME_CAP,
{
    reveal_strlit("பயனர்கள்");
    reveal_strlit("ஆர்டர்கள்");
    reveal_strlit("அடையாளம்");
    reveal_strlit("பெயர்");
    reveal_strlit("வயது");
    reveal_strlit("விலை");
    lemma_short_name("பயனர்கள்");
    lemma_short_name("ஆர்டர்கள்");
    lemma_short_name("அடையாளம்");
    lemma_short_name("பெயர்");
    lemma_short_name("வயது");
    lemma_short_name("விலை");
}

/// The column with `vals` in its first rows, each valid, and the rows behind as they were.
pub open spec fn with_first(col: IntView, vals: Seq<i64>) -> IntView {
    IntView {
        values: Seq::new(
            crate::storage::MAX_ROWS as nat,
            |i: int|
                if i < vals.len() {
                    vals[i]
                } else {
                    col.values[i]
                },
        ),
        valid: Seq::new(
            crate::storage::MAX_ROWS as nat,
            |i: int| i < vals.len() || col.valid[i],
        ),
    }
}

/// A column of `vals` with zeros behind, every row valid.
pub open spec fn number_column(vals: Seq<i64>) -> IntView {
    with_first(crate::storage::zero_ints(), vals)
}

/// The first `n` names of the users, appended one after the other to a cleared column.
pub open spec fn name_column(n: nat) -> Utf8View
    decreases n,
{
    if n == 0 {
        crate::storage::empty_texts().cleared()
    } else {
        name_column((n - 1) as nat).appended(
            n - 1,
            vstd::utf8::encode_utf8(user_names()[n - 1]),
        )
    }
}

/// The columns from `n` on are not in use: they have neither name, type nor buffer.
pub open spec fn unused_from(t: Table, n: int) -> bool {
    &&& forall|i: int|
        n <= i < crate::storage::MAX_COLUMNS ==> #[trigger] t.columns@[i] == ColumnData::Null
    &&& forall|i: int|
        n <= i < crate::storage::MAX_COLUMNS ==> (#[trigger] t.col_meta@[i])@
            == crate::storage::meta_view(Seq::empty(), PhysType::Null)
}

/// Writes `vals` to the first rows of a column, each valid.
fn fill_column(col: &mut Int64Column, vals: &[i64])
    requires
        vals@.len() <= crate::storage::MAX_ROWS,
    ensures
        final(col)@ == with_first(old(col)@, vals@),
{
    let mut i: usize = 0;
    assert(col@ =~= with_first(old(col)@, vals@.take(0)));
    while i < vals.len()
        invariant
            i <= vals@.len() <= crate::storage::MAX_ROWS,
            col@ == with_first(old(col)@, vals@.take(i as int)),
        decreases vals@.len() - i,
    {
        col.put(i, vals[i]);
        i += 1;
        assert(col@ =~= with_first(old(col)@, vals@.take(i as int)));
    }
    assert(vals@.take(i as int) =~= vals@);
}

/// What the users table is.
pub open spec fn is_users_table(t: Table) -> bool {
    &&& t.wf()
    &&& t.name.is_padded()
    &&& t.name@ == bytes_of("பயனர்கள்")
    &&& t.col_count == 3
    &&& t.row_count == USER_ROWS
    &&& t.col_meta@[0]@ == crate::storage::meta_view(bytes_of("அடையாளம்"), PhysType::Int64)
    &&& t.col_meta@[1]@ == crate::storage::meta_view(bytes_of("பெயர்"), PhysType::Utf8)
    &&& t.col_meta@[2]@ == crate::storage::meta_view(bytes_of("வயது"), PhysType::Int64)
    &&& t.int_column(0) == Some(number_column(Seq::new(USER_ROWS as nat, |i: int| i as i64)))
    &&& t.text_column(1) == Some(name_column(USER_ROWS as nat))
    &&& t.int_column(2) == Some(number_column(user_ages()))
    &&& forall|i: int|
        0 <= i < USER_ROWS ==> (#[trigger] (t.text_column(1)->0).row(i)) == Some(
            vstd::utf8::encode_utf8(user_names()[i]),
        )
    &&& unused_from(t, 3)
}

/// The users relation: number, name and age of sixteen users.
pub fn seed_users_table() -> (t: Box<Table>)
    ensures
        is_users_table(*t),
{
    proof {
        lemma_seed_names();
    }
    let mut t = Table::new_boxed("பயனர்கள்".as_bytes());
    t.add_int64_column("அடையாளம்".as_bytes());
    t.add_utf8_column("பெயர்".as_bytes());
    t.add_int64_column("வயது".as_bytes());
    let ids: [i64; 16] = [0, 1, 2, 3, 4, 5, 6, 7, 8, 9, 10, 11, 12, 13, 14, 15];
    let ages: [i64; 16] = [18, 22, 19, 25, 30, 21, 27, 24, 17, 35, 28, 20, 23, 26, 31, 29];
    let names: [&str; 16] = [
        "அருண்",
        "பிரியா",
        "கண்ணன்",
        "லட்சுமி",
        "முருகன்",
        "கவிதா",
        "ராஜ்",
        "மீனா",
        "சுரேஷ்",
        "தீபா",
        "விஜய்",
        "அனிதா",
        "கோபால்",
        "சுமதி",
        "கார்த்திக்",
        "நந்தினி",
    ];
    proof {
        reveal_strlit("அருண்");
        reveal_strlit("பிரியா");
        reveal_strlit("கண்ணன்");
        reveal_strlit("லட்சுமி");
        reveal_strlit("முருகன்");
        reveal_strlit("கவிதா");
        reveal_strlit("ராஜ்");
        reveal_strlit("மீனா");
        reveal_strlit("சுரேஷ்");
        reveal_strlit("தீபா");
        reveal_strlit("விஜய்");
        reveal_strlit("அனிதா");
        reveal_strlit("கோபால்");
        reveal_strlit("சுமதி");
        reveal_strlit("கார்த்திக்");
        reveal_strlit("நந்தினி");
        assert forall|i: int| 0 <= i < 16 implies (#[trigger] names@[i])@ == user_names()[i]
            && names@[i]@.len() <= 16 by {}
        assert(ids@ =~= Seq::new(USER_ROWS as nat, |i: int| i as i64));
        assert(ages@ =~= user_ages());
    }
    if let Some(c) = t.int64_mut(0) {
        fill_column(c, &ids);
    }
    let ghost before = *t;
    if let Some(c) = t.utf8_mut(1) {
        c.clear();
        let mut i: usize = 0;
        while i < 16
            invariant
                i <= 16,
                c.wf(),
                c@ == name_column(i as nat),
                c@.dense(i as int),
                c@.data_len <= 64 * i,
                forall|k: int|
                    0 <= k < 16 ==> (#[trigger] names@[k])@ == user_names()[k] && names@[k]@.len()
                        <= 16,
                forall|k: int|
                    0 <= k < i ==> (#[trigger] c@.row(k)) == Some(
                        vstd::utf8::encode_utf8(user_names()[k]),
                    ),
            decreases 16 - i,
        {
            let bytes = names[i].as_bytes();
            let ghost prev = c@;
            proof {
                crate::utf8::lemma_encoded_len(names@[i as int]@);
                assert(prev.fits(i as int, bytes@));
                crate::storage::law_appended_row_reads_back(prev, i as int, bytes@);
                assert forall|k: int| 0 <= k < i implies (#[trigger] prev.appended(
                    i as int,
                    bytes@,
                ).row(k)) == prev.row(k) by {
                    crate::storage::law_appending_in_order_keeps_rows(prev, i as int, bytes@, k);
                }
                lemma_appended_dense(prev, i as int, bytes@);
            }
            c.set_row(i, bytes);
            i += 1;
        }
    }
    if let Some(c) = t.int64_mut(2) {
        fill_column(c, &ages);
    }
    t.set_row_count(16);
    t
}

proof fn lemma_appended_dense(c: crate::storage::Utf8View, n: int, bytes: Seq<u8>)
    requires
        c.dense(n),
        c.fits(n, bytes),
    ensures
        c.appended(n, bytes).dense(n + 1),
{
    let d = c.appended(n, bytes);
    assert(d.data.len() == crate::storage::UTF8_SLAB_CAP);
    assert forall|i: int| 0 <= i < n + 1 implies #[trigger] d.offsets[i] <= d.offsets[i + 1]
        <= d.data_len by {
        if i < n {
            assert(c.offsets[i] <= c.offsets[i + 1]);
        }
    }
}

/// Whether `o` holds the orders in packed form, with the prices as derived prices.
pub open spec fn is_packed_orders(o: FixedOrdersDatabase) -> bool {
    &&& o.row_count == ORDER_ROWS
    &&& forall|i: int|
        0 <= i < crate::storage::MAX_ROWS ==> #[trigger] o.user_id_column@[i] == if i < ORDER_ROWS {
            order_pairs()[i].0
        } else {
            0
        }
    &&& forall|i: int|
        0 <= i < crate::storage::MAX_ROWS ==> #[trigger] o.price_column@[i] == if i < ORDER_ROWS {
            order_pairs()[i].1
        } else {
            0
        }
    &&& o.derived_prices@ == o.price_column@
}

/// The orders relation in packed form. The slot for derived prices starts out as the prices.
pub fn seed_orders_database() -> (o: Box<FixedOrdersDatabase>)
    ensures
        is_packed_orders(*o),
{
    let mut o = FixedOrdersDatabase::new_boxed();
    let users: [i64; 12] = [1, 3, 4, 6, 7, 9, 10, 12, 13, 14, 15, 0];
    let prices: [i64; 12] = [450, 800, 1200, 350, 600, 900, 500, 700, 550, 1100, 400, 100];
    let mut i: usize = 0;
    while i < 12
        invariant
            i <= 12,
            forall|k: int| 0 <= k < 12 ==> #[trigger] users@[k] == order_pairs()[k].0,
            forall|k: int| 0 <= k < 12 ==> #[trigger] prices@[k] == order_pairs()[k].1,
            forall|k: int|
                0 <= k < crate::storage::MAX_ROWS ==> #[trigger] o.user_id_column@[k] == if k < i {
                    order_pairs()[k].0
                } else {
                    0
                },
            forall|k: int|
                0 <= k < crate::storage::MAX_ROWS ==> #[trigger] o.price_column@[k] == if k < i {
                    order_pairs()[k].1
                } else {
                    0
                },
            o.derived_prices@ == o.price_column@,
        decreases 12 - i,
    {
        o.user_id_column[i] = users[i];
        o.price_column[i] = prices[i];
        o.derived_prices[i] = prices[i];
        i += 1;
    }
    o.row_count = 12;
    o
}

/// What an orders table with the given users and prices is.
pub open spec fn is_orders_table(t: Table, users: Seq<i64>, prices: Seq<i64>) -> bool {
    &&& t.wf()
    &&& t.name.is_padded()
    &&& t.name@ == bytes_of("ஆர்டர்கள்")
    &&& t.col_count == 2
    &&& t.row_count == users.len()
    &&& t.col_meta@[0]@ == crate::storage::meta_view(bytes_of("அடையாளம்"), PhysType::Int64)
    &&& t.col_meta@[1]@ == crate::storage::meta_view(bytes_of("விலை"), PhysType::Int64)
    &&& t.int_column(0) == Some(number_column(users))
    &&& t.int_column(1) == Some(number_column(prices))
    &&& unused_from(t, 2)
}

/// An orders table with the given users and prices.
fn orders_table(users: &[i64], prices: &[i64]) -> (t: Box<Table>)
    requires
        users@.len() == prices@.len(),
        users@.len() <= crate::storage::MAX_ROWS,
    ensures
        is_orders_table(*t, users@, prices@),
{
    proof {
        lemma_seed_names();
    }
    let mut t = Table::new_boxed("ஆர்டர்கள்".as_bytes());
    t.add_int64_column("அடையாளம்".as_bytes());
    t.add_int64_column("விலை".as_bytes());
    if let Some(c) = t.int64_mut(0) {
        fill_column(c, users);
    }
    if let Some(c) = t.int64_mut(1) {
        fill_column(c, prices);
    }
    t.set_row_count(users.len());
    t
}

/// The orders relation: user and price of twelve orders.
pub fn seed_orders_table() -> (t: Box<Table>)
    ensures
        is_orders_table(
            *t,
            order_pairs().map_values(|p: (i64, i64)| p.0),
            order_pairs().map_values(|p: (i64, i64)| p.1),
        ),
{
    let orders = seed_orders_database();
    let n: usize = orders.row_count as usize;
    let users = vstd::slice::slice_subrange(&orders.user_id_column, 0, n);
    let prices = vstd::slice::slice_subrange(&orders.price_column, 0, n);
    proof {
        assert(users@ =~= order_pairs().map_values(|p: (i64, i64)| p.0));
        assert(prices@ =~= order_pairs().map_values(|p: (i64, i64)| p.1));
    }
    orders_table(users, prices)
}

/// An orders relation in which prices repeat: `100` three times, `250` four times, `500` once.
pub fn seed_dup_price_orders_table() -> (t: Box<Table>)
    ensures
        is_orders_table(*t, Seq::new(DUP_ORDER_ROWS as nat, |i: int| i as i64), dup_prices()),
{
    let users: [i64; 8] = [0, 1, 2, 3, 4, 5, 6, 7];
    let prices: [i64; 8] = [100, 250, 100, 250, 500, 250, 100, 250];
    proof {
        assert(users@ =~= Seq::new(DUP_ORDER_ROWS as nat, |i: int| i as i64));
        assert(prices@ =~= dup_prices());
    }
    orders_table(&users, &prices)
}

/// A catalog with the orders relation in which prices repeat.
pub fn dup_price_orders_catalog() -> (cat: Catalog)
    ensures
        cat.wf(),
        cat.len == 1,
        cat.orders is None,
        forall|i: int| 1 <= i < crate::storage::MAX_TABLES ==> #[trigger] cat.tables@[i] is None,
        cat.tables@[0] matches Some(t) && is_orders_table(
            *t,
            Seq::new(DUP_ORDER_ROWS as nat, |i: int| i as i64),
            dup_prices(),
        ),
{
    let mut cat = Catalog::new();
    let t = seed_dup_price_orders_table();
    cat.register_box(t);
    cat
}

/// A catalog with the users and the orders relation.
pub fn demo_catalog() -> (cat: Catalog)
    ensures
        cat.wf(),
        cat.len == 2,
        forall|i: int| 2 <= i < crate::storage::MAX_TABLES ==> #[trigger] cat.tables@[i] is None,
        cat.orders matches Some(o) && is_packed_orders(*o),
        cat.tables@[0] matches Some(t) && is_users_table(*t),
        cat.tables@[1] matches Some(t) && is_orders_table(
            *t,
            order_pairs().map_values(|p: (i64, i64)| p.0),
            order_pairs().map_values(|p: (i64, i64)| p.1),
        ),
{
    let mut cat = Catalog::new();
    let users = seed_users_table();
    cat.register_box(users);
    let orders = seed_orders_table();
    cat.register_box(orders);
    cat.set_orders(seed_orders_database());
    cat
}

} // verus!
