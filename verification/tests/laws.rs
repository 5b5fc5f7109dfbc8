//! What holds of every pipeline, on the demonstration relations.

use tamil_query_engine::{
    alloc_token_window, demo_catalog, dup_price_orders_catalog, run_query, AstArena, Catalog,
    EngineError, PhysType, QueryResult, RuntimeScratch, Table,
};

fn run_on(catalog: &Catalog, query: &str) -> Result<Box<QueryResult>, EngineError> {
    let mut arena = Box::new(AstArena::new());
    let mut out = QueryResult::new_boxed();
    let mut scratch = RuntimeScratch::new_boxed();
    let mut tokens = alloc_token_window();
    run_query(query, catalog, &mut arena, &mut out, &mut scratch, &mut tokens)?;
    Ok(out)
}

fn ints(out: &QueryResult, c: usize) -> Vec<i64> {
    assert_eq!(out.types[c], PhysType::Int64);
    (0..out.row_count as usize).map(|r| out.int_out[c].values[r]).collect()
}

fn ages(query: &str) -> Vec<i64> {
    ints(&run_on(&demo_catalog(), query).unwrap(), 0)
}

#[test]
fn filters_may_change_places_and_be_repeated() {
    let a = ages("இருந்து பயனர்கள் | வடி வயது > 21 | வடி வயது < 30 | தேடு வயது;");
    let b = ages("இருந்து பயனர்கள் | வடி வயது < 30 | வடி வயது > 21 | தேடு வயது;");
    let c = ages("இருந்து பயனர்கள் | வடி வயது > 21 | வடி வயது > 21 | வடி வயது < 30 | தேடு வயது;");
    assert!(!a.is_empty());
    assert!(a.iter().all(|&v| v > 21 && v < 30));
    assert_eq!(a, b);
    assert_eq!(a, c);
    let d = ages("இருந்து பயனர்கள் | அடுக்கு வயது | வடி வயது < 30 | வடி வயது > 21 | தேடு வயது;");
    let e = ages("இருந்து பயனர்கள் | அடுக்கு வயது | வடி வயது > 21 | வடி வயது < 30 | தேடு வயது;");
    assert_eq!(d, e);
    assert!(d.windows(2).all(|w| w[0] <= w[1]));
}

#[test]
fn a_take_is_a_prefix() {
    let all = ages("இருந்து பயனர்கள் | தேடு வயது;");
    assert_eq!(all.len(), 16);
    for n in [0usize, 1, 5, 16, 99] {
        let some = ages(&format!("இருந்து பயனர்கள் | எடு {n} | தேடு வயது;"));
        assert_eq!(some, all[..n.min(16)]);
    }
    assert_eq!(
        ages("இருந்து பயனர்கள் | எடு 9 | எடு 4 | தேடு வயது;"),
        ages("இருந்து பயனர்கள் | எடு 4 | தேடு வயது;")
    );
}

#[test]
fn a_sorted_take_survives_a_filter() {
    let taken = ages("இருந்து பயனர்கள் | அடுக்கு வயது | எடு 6 | வடி வயது > 19 | தேடு வயது;");
    let sorted = ages("இருந்து பயனர்கள் | அடுக்கு வயது | தேடு வயது;");
    let want: Vec<i64> = sorted[..6].iter().copied().filter(|&v| v > 19).collect();
    assert_eq!(taken, want);
}

#[test]
fn filter_sort_take_brings_the_least() {
    let all = ages("இருந்து பயனர்கள் | தேடு வயது;");
    let mut passing: Vec<i64> = all.into_iter().filter(|&v| v > 21).collect();
    passing.sort();
    let top = ages("இருந்து பயனர்கள் | வடி வயது > 21 | அடுக்கு வயது | எடு 3 | தேடு வயது;");
    assert_eq!(top, passing[..3]);
}

#[test]
fn groups_partition_the_rows() {
    let catalog = dup_price_orders_catalog();
    let rows = run_on(&catalog, "இருந்து ஆர்டர்கள் | தேடு விலை;").unwrap();
    let keys = ints(
        &run_on(&catalog, "இருந்து ஆர்டர்கள் | தொகுப்பு விலை | தேடு விலை;").unwrap(),
        0,
    );
    let counts = ints(
        &run_on(&catalog, "இருந்து ஆர்டர்கள் | தொகுப்பு விலை | தேடு எண்ணிக்கை;").unwrap(),
        0,
    );
    assert!(keys.windows(2).all(|w| w[0] < w[1]));
    assert!(counts.iter().all(|&c| c > 0));
    assert_eq!(counts.iter().sum::<i64>(), rows.row_count as i64);
    let prices = ints(&rows, 0);
    for (k, n) in keys.iter().zip(&counts) {
        assert_eq!(prices.iter().filter(|&p| p == k).count() as i64, *n);
    }
}

#[test]
fn sums_over_groups_are_sums_of_their_rows() {
    let catalog = dup_price_orders_catalog();
    let sums = ints(
        &run_on(
            &catalog,
            "இருந்து ஆர்டர்கள் | தொகுப்பு விலை | சுருக்கு அடையாளம் | தேடு அடையாளம்;",
        )
        .unwrap(),
        0,
    );
    let rows = run_on(&catalog, "இருந்து ஆர்டர்கள் | தேடு அடையாளம்;").unwrap();
    assert_eq!(sums.iter().sum::<i64>(), ints(&rows, 0).iter().sum::<i64>());
}

#[test]
fn joined_rows_have_equal_keys() {
    let out = run_on(
        &demo_catalog(),
        "இருந்து பயனர்கள் | இணை ஆர்டர்கள் | தேடு அடையாளம், விலை;",
    )
    .unwrap();
    let cat = demo_catalog();
    let orders = cat.find("ஆர்டர்கள்".as_bytes()).unwrap();
    let users = cat.find("பயனர்கள்".as_bytes()).unwrap();
    let key = users.find_column("அடையாளம்".as_bytes()).unwrap();
    let mut got: Vec<(i64, i64)> = ints(&out, 0).into_iter().zip(ints(&out, 1)).collect();
    let mut want = Vec::new();
    for u in 0..users.row_count as usize {
        for o in 0..orders.row_count as usize {
            let k = users.int64(key).unwrap().values[u];
            if k == orders.int64(0).unwrap().values[o] {
                want.push((k, orders.int64(1).unwrap().values[o]));
            }
        }
    }
    got.sort();
    want.sort();
    assert_eq!(got, want);
}

#[test]
fn derived_arithmetic_wraps() {
    let mut cat = Catalog::new();
    let mut t = Table::new_boxed(b"t");
    let c = t.add_int64_column(b"v").unwrap();
    t.int64_mut(c).unwrap().values[0] = i64::MAX;
    t.int64_mut(c).unwrap().values[1] = -4;
    t.set_row_count(2);
    cat.register(t);
    let row = |q: &str| ints(&run_on(&cat, q).unwrap(), 0);
    assert_eq!(row("இருந்து t | கணி d = v + 1;"), [i64::MIN, -3]);
    assert_eq!(row("இருந்து t | கணி d = v * 2;"), [-2, -8]);
    assert_eq!(row("இருந்து t | கணி d = 10 - v | தேடு d;"), [10 - i64::MAX, 14]);
    assert_eq!(row("இருந்து t | கணி d = v | தேடு d;"), [i64::MAX, -4]);
    assert_eq!(row("இருந்து t | கணி d = v - v | வடி d = 0 | தேடு v;"), [i64::MAX, -4]);
}

#[test]
fn errors_name_the_table_and_the_column() {
    let cat = demo_catalog();
    let cut = |b: &[u8]| b[..b.iter().position(|&x| x == 0).unwrap_or(b.len())].to_vec();
    match run_on(&cat, "இருந்து பயனர்கள் | அடுக்கு இல்லை;").err().unwrap() {
        EngineError::ColumnNotFound { table, column } => {
            assert_eq!(cut(&table), "பயனர்கள்".as_bytes());
            assert_eq!(cut(&column), "இல்லை".as_bytes());
        }
        other => panic!("{other:?}"),
    }
    match run_on(&cat, "இருந்து இல்லை | எடு 1;").err().unwrap() {
        EngineError::ColumnNotFound { table, column } => {
            assert_eq!(cut(&table), "இல்லை".as_bytes());
            assert_eq!(cut(&column), b"");
        }
        other => panic!("{other:?}"),
    }
    assert_eq!(run_on(&cat, "இருந்து").err(), Some(EngineError::ParseFailed));
    assert_eq!(
        run_on(&cat, "இருந்து பயனர்கள் | எடு 99999999999999999999").err(),
        Some(EngineError::LiteralOverflow)
    );
}
