//! What tables, catalogs and selections keep of what is put into them.

use crate::storage::{
    cut_name, empty_texts, mask_sum, padded_name, table_index, PhysType, Table, Utf8View,
    MAX_COLUMNS, MAX_ROWS, NAME_CAP, UTF8_SLAB_CAP,
};
use vstd::prelude::*;

verus! {

/// A name keeps its first bytes, as many as its buffer has room for, and zeros stand behind them.
pub proof fn law_a_name_keeps_its_first_bytes(b: Seq<u8>)
    ensures
        cut_name(b).len() <= NAME_CAP,
        cut_name(b).len() == b.len() || cut_name(b).len() == NAME_CAP,
        cut_name(b).is_prefix_of(b),
        padded_name(b).len() == NAME_CAP,
        forall|i: int|
            0 <= i < NAME_CAP ==> #[trigger] padded_name(b)[i] == if i < b.len() {
                b[i]
            } else {
                0
            },
{
    assert(b.subrange(0, b.len() as int) =~= b);
    assert(cut_name(b) =~= b.subrange(0, cut_name(b).len() as int));
}

/// A text is taken if and only if there is such a row and room for its bytes, and is then what the
/// row holds; a text that is not taken changes nothing.
pub proof fn law_a_text_is_taken_where_there_is_room(c: Utf8View, row: int, bytes: Seq<u8>)
    requires
        c.wf(),
        0 <= row,
    ensures
        ({
            let d = c.offered(row, bytes);
            let room = row < MAX_ROWS && c.data_len + bytes.len() <= UTF8_SLAB_CAP;
            &&& c.fits(row, bytes) <==> room
            &&& room ==> d.row(row) == Some(bytes) && d.data_len == c.data_len + bytes.len()
            &&& !room ==> d == c
            &&& forall|r: int|
                0 <= r < MAX_ROWS && r != row ==> #[trigger] d.valid[r] == c.valid[r]
        }),
{
    if c.fits(row, bytes) {
        crate::storage::law_appended_row_reads_back(c, row, bytes);
    }
}

/// A new column holds an empty text in every row. One that was cleared holds none in any, and has
/// room for as many bytes as a new one.
pub proof fn law_new_and_cleared_columns_hold_no_text(c: Utf8View, row: int, bytes: Seq<u8>)
    requires
        c.wf(),
        0 <= row < MAX_ROWS,
    ensures
        empty_texts().wf(),
        empty_texts().row(row) == Some(Seq::<u8>::empty()),
        c.cleared().row(row) is None,
        c.cleared().fits(row, bytes) <==> bytes.len() <= UTF8_SLAB_CAP,
        empty_texts().fits(row, bytes) <==> bytes.len() <= UTF8_SLAB_CAP,
        bytes.len() <= UTF8_SLAB_CAP ==> c.cleared().offered(row, bytes).row(row) == Some(bytes),
{
    let e = empty_texts();
    assert(e.data.subrange(0, 0) =~= Seq::<u8>::empty());
    if bytes.len() <= UTF8_SLAB_CAP {
        crate::storage::law_appended_row_reads_back(c.cleared(), row, bytes);
    }
}

/// The sum of a mask is the number of rows that it keeps.
pub proof fn law_a_selection_counts_the_rows_it_keeps(mask: Seq<u8>, n: int)
    requires
        0 <= n <= mask.len(),
        n <= MAX_ROWS,
        forall|i: int| 0 <= i < n ==> #[trigger] mask[i] <= 1,
    ensures
        mask_sum(mask, n) == Set::new(|i: int| 0 <= i < n && mask[i] == 1).len(),
        Set::new(|i: int| 0 <= i < n && mask[i] == 1).finite(),
    decreases n,
{
    let all = Set::new(|i: int| 0 <= i < n && mask[i] == 1);
    if n == 0 {
        assert(all =~= Set::<int>::empty());
    } else {
        let before = Set::new(|i: int| 0 <= i < n - 1 && mask[i] == 1);
        law_a_selection_counts_the_rows_it_keeps(mask, n - 1);
        assert(mask[n - 1] <= 1);
        if mask[n - 1] == 1 {
            assert(all =~= before.insert(n - 1));
        } else {
            assert(all =~= before);
        }
    }
}

proof fn lemma_table_put(
    tables: Seq<Option<Box<Table>>>,
    n: int,
    t: Box<Table>,
    name: Seq<u8>,
    from: int,
)
    requires
        0 <= from <= n < tables.len(),
    ensures
        table_index(tables.update(n, Some(t)), n + 1, name, from) == if table_index(
            tables,
            n,
            name,
            from,
        ) is Some {
            table_index(tables, n, name, from)
        } else if t.name@ == name {
            Some(n)
        } else {
            None
        },
    decreases n - from,
{
    let after = tables.update(n, Some(t));
    if from < n {
        assert(after[from] == tables[from]);
        lemma_table_put(tables, n, t, name, from + 1);
    } else {
        assert(after[n] == Some(t));
        assert(table_index(after, n + 1, name, n + 1) is None);
    }
}

/// A table that is registered is found by its name, unless one of that name was there before, and
/// every other name finds what it found before.
pub proof fn law_a_registered_table_is_found(
    tables: Seq<Option<Box<Table>>>,
    n: int,
    t: Box<Table>,
    name: Seq<u8>,
)
    requires
        0 <= n < tables.len(),
    ensures
        ({
            let before = table_index(tables, n, name, 0);
            let after = table_index(tables.update(n, Some(t)), n + 1, name, 0);
            &&& before is Some ==> after == before
            &&& before is None && t.name@ == name ==> after == Some(n)
            &&& t.name@ != name ==> after == before
        }),
{
    lemma_table_put(tables, n, t, name, 0);
}

proof fn lemma_column_put(before: Table, after: Table, name: Seq<u8>, from: int)
    requires
        0 <= from <= before.col_count < MAX_COLUMNS,
        after.col_count == before.col_count + 1,
        forall|j: int|
            0 <= j < before.col_count ==> #[trigger] after.col_meta@[j] == before.col_meta@[j],
    ensures
        ({
            let n = before.col_count as int;
            let old_index = crate::storage::meta_index(before.col_meta@, n, name, from);
            crate::storage::meta_index(after.col_meta@, n + 1, name, from) == if old_index is Some {
                old_index
            } else if after.col_meta@[n].name@ == name {
                Some(n)
            } else {
                None
            }
        }),
    decreases before.col_count - from,
{
    let n = before.col_count as int;
    if from < n {
        assert(after.col_meta@[from] == before.col_meta@[from]);
        lemma_column_put(before, after, name, from + 1);
    } else {
        assert(crate::storage::meta_index(after.col_meta@, n + 1, name, n + 1) is None);
    }
}

/// A column that is added is found by its name, unless one of that name was there before, and
/// every other name finds what it found before. Only a full table takes none.
pub proof fn law_an_added_column_is_found(
    before: Table,
    after: Table,
    r: Option<usize>,
    name: Seq<u8>,
    phys: PhysType,
    other: Seq<u8>,
)
    requires
        before.col_count <= MAX_COLUMNS,
        Table::column_added(before, after, r, name, phys),
    ensures
        r is None <==> before.col_count == MAX_COLUMNS,
        r is None ==> after == before,
        r matches Some(i) ==> {
            &&& i == before.col_count
            &&& before.column_index(other) is Some ==> after.column_index(other)
                == before.column_index(other)
            &&& before.column_index(other) is None && other == cut_name(name)
                ==> after.column_index(other) == Some(i as int)
            &&& other != cut_name(name) ==> after.column_index(other) == before.column_index(other)
            &&& after.col_meta@[i as int].phys == phys
            &&& after.row_count == before.row_count
        },
{
    if r is Some {
        lemma_column_put(before, after, other, 0);
    }
}

} // verus!
