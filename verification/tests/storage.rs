//! Columns, tables and catalogs in memory.

use tamil_query_engine::seed::seed_users_table;
use tamil_query_engine::storage::{
    memcpy_bytes, ColName, ColumnData, MappedRegion, ValidityBitmap,
};
use tamil_query_engine::{
    demo_catalog, seed_orders_database, Catalog, PhysType, SelectionVector, Table, Utf8Column,
    MAX_ROWS, NAME_CAP,
};

#[test]
fn users_table_roundtrip() {
    let t = seed_users_table();
    assert_eq!(t.row_count, 16);
    let name = t.find_column("பெயர்".as_bytes()).unwrap();
    let age = t.find_column("வயது".as_bytes()).unwrap();
    assert_eq!(t.utf8(name).unwrap().get_row(1), Some("பிரியா"));
    assert_eq!(t.int64(age).unwrap().values[1], 22);
    assert_eq!(t.col_meta[name].name.as_bytes(), "பெயர்".as_bytes());
}

#[test]
fn names_are_cut_at_their_capacity() {
    let long = [b'x'; NAME_CAP + 9];
    let n = ColName::from_bytes(&long);
    assert_eq!(n.as_bytes(), &long[..NAME_CAP]);
    assert!(!n.eq_bytes(&long));
    assert!(ColName::empty().eq_bytes(b""));
}

#[test]
fn validity_bits_are_independent() {
    let mut v = ValidityBitmap::none_valid();
    v.set(63, true);
    v.set(64, true);
    v.set(4095, true);
    v.set(64, false);
    assert!(v.get(63) && !v.get(64) && !v.get(65) && v.get(4095) && !v.get(0));
    assert!(ValidityBitmap::all_valid().get(4095));
}

#[test]
fn texts_read_back_until_the_slab_is_full() {
    let mut c = Box::new(Utf8Column::new());
    c.clear();
    assert!(c.set_row(0, "தே".as_bytes()));
    assert!(c.set_row(1, b""));
    assert!(!c.set_row(2, &[b'x'; 8187]));
    assert!(c.set_row(2, &[b'x'; 8186]));
    assert!(!c.set_row(3, b"y"));
    assert!(c.set_row(3, b""));
    assert!(!c.set_row(MAX_ROWS, b""));
    assert_eq!(c.get_row(0), Some("தே"));
    assert_eq!(c.get_row(1), Some(""));
    assert_eq!(c.get_row(2).map(|s| s.len()), Some(8186));
    assert_eq!(c.get_row(4), None);
    assert_eq!(c.get_row(MAX_ROWS), None);
}

#[test]
fn bytes_that_are_no_text_read_as_nothing() {
    let mut c = Box::new(Utf8Column::new());
    c.clear();
    assert!(c.set_row(0, &[0xE0, 0xAE]));
    assert_eq!(c.get_row(0), None);
}

#[test]
fn a_table_holds_eight_columns() {
    let mut t = Table::new_boxed(b"t");
    for i in 0..8u8 {
        let added = if i % 2 == 0 {
            t.add_int64_column(&[b'a' + i])
        } else {
            t.add_utf8_column(&[b'a' + i])
        };
        assert_eq!(added, Some(i as usize));
    }
    assert_eq!(t.add_int64_column(b"z"), None);
    assert_eq!(t.add_utf8_column(b"z"), None);
    assert_eq!(t.find_column(b"d"), Some(3));
    assert_eq!(t.find_column(b"z"), None);
    assert!(t.int64(3).is_none() && t.utf8(3).is_some());
    assert!(t.utf8_mut(0).is_none() && t.int64_mut(0).is_some());
    assert_eq!(t.columns[0].phys_type(), PhysType::Int64);
    assert_eq!(ColumnData::Null.phys_type(), PhysType::Null);
    t.set_row_count(100_000);
    assert_eq!(t.row_count as usize, MAX_ROWS);
}

#[test]
fn a_catalog_finds_the_first_table_of_a_name() {
    let mut cat = Catalog::new();
    for rows in 0..8usize {
        let mut t = Table::new_boxed(if rows < 4 { b"low" } else { b"top" });
        t.set_row_count(rows);
        assert_eq!(cat.register(t), Some(rows));
    }
    assert_eq!(cat.register_box(Table::new_boxed(b"more")), None);
    assert_eq!(cat.find(b"top").unwrap().row_count, 4);
    cat.find_mut(b"top").unwrap().set_row_count(99);
    assert_eq!(cat.find(b"top").unwrap().row_count, 99);
    assert_eq!(cat.find(b"low").unwrap().row_count, 0);
    assert!(cat.find(b"more").is_none());
    assert!(cat.find_mut(b"more").is_none());
    assert_eq!(Catalog::default().len, 0);
    assert!(Catalog::default().tables.iter().all(|t| t.is_none()));
}

#[test]
fn the_packed_orders_mirror_their_prices() {
    let o = seed_orders_database();
    assert_eq!(o.row_count, 12);
    assert_eq!((o.user_id_column[2], o.price_column[2]), (4, 1200));
    assert_eq!(o.derived_prices[11], 100);
    assert_eq!(o.price_column[12], 0);
    let cat = demo_catalog();
    let t = cat.find("ஆர்டர்கள்".as_bytes()).unwrap();
    assert_eq!(t.int64(1).unwrap().values[10], 400);
}

#[test]
fn a_selection_counts_what_it_keeps() {
    let mut sel = SelectionVector::all(10);
    sel.mask[3] = 0;
    assert_eq!(sel.count_selected(), 9);
    sel.clear();
    assert_eq!(sel.count_selected(), 0);
    assert_eq!(sel.len, 0);
}

#[test]
fn regions_are_cut_within_bounds() {
    let bytes = [1u8, 2, 3, 4, 5];
    let region = MappedRegion::from_slice(&bytes);
    assert_eq!(region.as_slice(), &bytes);
    assert_eq!(region.slice_at(1, 3).unwrap().as_slice(), &[2, 3, 4]);
    assert_eq!(region.slice_at(5, 0).unwrap().as_slice().len(), 0);
    assert!(region.slice_at(4, 2).is_none());
    assert!(region.slice_at(usize::MAX, 2).is_none());
    let mut dst = [9u8; 4];
    memcpy_bytes(&mut dst, &bytes, 2);
    assert_eq!(dst, [1, 2, 9, 9]);
}

#[test]
fn seeded_tables_are_valid_and_empty_behind_their_rows() {
    let users = seed_users_table();
    for c in [0usize, 2] {
        let col = users.int64(c).unwrap();
        assert!((0..MAX_ROWS).all(|r| col.validity.get(r)));
        assert!(col.values[16..].iter().all(|&v| v == 0));
    }
    let names = users.utf8(1).unwrap();
    assert!((0..MAX_ROWS).all(|r| names.validity.get(r) == (r < 16)));
    assert!(users.columns[3..].iter().all(|c| matches!(c, ColumnData::Null)));
    let cat = demo_catalog();
    assert!(cat.tables[2..].iter().all(|t| t.is_none()));
    let orders = cat.find("ஆர்டர்கள்".as_bytes()).unwrap();
    let prices = orders.int64(1).unwrap();
    assert!((0..MAX_ROWS).all(|r| prices.validity.get(r)));
    assert!(prices.values[12..].iter().all(|&v| v == 0));
    assert!(orders.columns[2..].iter().all(|c| matches!(c, ColumnData::Null)));
}
