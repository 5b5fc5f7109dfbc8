//! Zone maps, and filters that use them.

use tamil_query_engine::ingest::{column_files, ingest_csv, parse_schema};
use tamil_query_engine::{
    execute_int64_filter_pushdown, execute_mmap_i64_filter_stream_pushdown, write_i64_column_bin,
    write_zonemap_for_column, ColumnarFileStream, PushdownStats, StorageError, ZoneMap,
    ZoneMapError, ZonePage, ZonePredicate, MAX_ROWS, MAX_ZONE_PAGES,
};

const PAGE: usize = 4096;

fn open(values: &[i64], page: usize) -> (ColumnarFileStream, ZoneMap) {
    let files = write_i64_column_bin(values, page);
    let zmap = write_zonemap_for_column(&files.bin, Some(&files.meta), page).ok().unwrap();
    let stream = ColumnarFileStream::open_i64_with_meta(&files.bin, &files.meta, page).unwrap();
    (stream, ZoneMap::open(&zmap.zmap).ok().unwrap())
}

#[test]
fn zonemap_written_correctly_for_multipage_column() {
    let n = 12_000usize;
    let values: Vec<i64> =
        (0..n as i64).map(|i| ((i * 2654435761i64) % 1_000_000).abs()).collect();
    let files = write_i64_column_bin(&values, PAGE);
    let written = write_zonemap_for_column(&files.bin, Some(&files.meta), PAGE).ok().unwrap();
    let zm = ZoneMap::load(Some(&written.zmap)).ok().unwrap().expect("zmap must exist");
    assert_eq!(zm.len(), written.pages);
    let probe =
        ColumnarFileStream::open_int64_copied(&files.bin, Some(&files.meta), PAGE).unwrap();
    let page_rows = probe.page_rows();
    let expected_pages = (n + page_rows - 1) / page_rows;
    assert_eq!(written.pages, expected_pages, "page count must match the pages of the column");
    let mut offset = 0usize;
    for i in 0..zm.len() {
        let zp = zm.page(i).unwrap();
        let take = (n - offset).min(page_rows);
        let slice = &values[offset..offset + take];
        let expected_min = *slice.iter().min().unwrap();
        let expected_max = *slice.iter().max().unwrap();
        assert_eq!(zp.min, expected_min, "page {i} min mismatch");
        assert_eq!(zp.max, expected_max, "page {i} max mismatch");
        assert_eq!(zp.row_count as usize, take, "page {i} row_count mismatch");
        offset += take;
    }
}

#[test]
fn zonemap_load_missing_file_is_none_not_error() {
    assert!(ZoneMap::load(None).ok().unwrap().is_none());
}

#[test]
fn zonemap_load_truncated_file_is_a_real_error() {
    let result = ZoneMap::load(Some(&[0u8; 7]));
    assert!(matches!(result, Err(ZoneMapError::Truncated { file_len: 7 })));
}

#[test]
fn predicate_boundary_values_are_correct_not_off_by_one() {
    let page = ZonePage {
        page_index: 0,
        row_count: 10,
        min: 100,
        max: 200,
    };
    assert!(!ZonePredicate::Gt(200).page_may_match(&page));
    assert!(ZonePredicate::Gt(199).page_may_match(&page));
    assert!(!ZonePredicate::Lt(100).page_may_match(&page));
    assert!(ZonePredicate::Lt(101).page_may_match(&page));
    assert!(ZonePredicate::Eq(100).page_may_match(&page));
    assert!(ZonePredicate::Eq(200).page_may_match(&page));
    assert!(!ZonePredicate::Eq(99).page_may_match(&page));
    assert!(!ZonePredicate::Eq(201).page_may_match(&page));
    assert!(ZonePredicate::Gte(200).page_may_match(&page));
    assert!(!ZonePredicate::Gte(201).page_may_match(&page));
}

#[test]
fn test_zonemap_written_correctly_for_multipage_column() {
    let n = 12_000i64;
    let mut csv = String::from("price\n");
    let mut raw: Vec<i64> = Vec::with_capacity(n as usize);
    for i in 0..n {
        let price = 100 + (i % 900);
        raw.push(price);
        csv.push_str(&format!("{price}\n"));
    }
    let schema = parse_schema("price:i64").unwrap();
    let read = ingest_csv(csv.as_bytes(), &schema, true).ok().unwrap();
    assert_eq!(read.report.rows_ingested, n as usize);
    let files = column_files("price", &read.columns[0], PAGE).ok().unwrap();
    let zmap = files.iter().find(|f| f.name == "price.zmap").expect("a zone map is laid out too");
    let zm = ZoneMap::open(&zmap.bytes).ok().unwrap();
    let page_rows = PAGE / 8;
    let expected_pages = ((n as usize) + page_rows - 1) / page_rows;
    assert_eq!(zm.page_count() as usize, expected_pages);
    let mut p = 0usize;
    while p < expected_pages {
        let start = p * page_rows;
        let end = ((p + 1) * page_rows).min(n as usize);
        let mut mn = i64::MAX;
        let mut mx = i64::MIN;
        let mut i = start;
        while i < end {
            if raw[i] < mn {
                mn = raw[i];
            }
            if raw[i] > mx {
                mx = raw[i];
            }
            i += 1;
        }
        let e = zm.entry(p).expect("entry");
        assert_eq!(e.page_index, p as u32);
        assert_eq!(e.row_count as usize, end - start);
        assert_eq!(e.min, mn, "page {p} min");
        assert_eq!(e.max, mx, "page {p} max");
        p += 1;
    }
}

#[test]
fn test_pushdown_skips_pages_outside_predicate_range() {
    let page_rows = PAGE / 8;
    let mut values: Vec<i64> = (0..page_rows).map(|i| (i % 1000) as i64).collect();
    values.extend((0..page_rows).map(|i| 100_000 + i as i64));
    let (mut stream, zmap) = open(&values, PAGE);
    assert!(zmap.page_count() >= 2);
    let mut out_on = vec![0i64; MAX_ROWS];
    let mut out_off = vec![0i64; MAX_ROWS];
    let mut len_on = 0usize;
    let mut len_off = 0usize;
    let mut stats_on = PushdownStats::default();
    let mut stats_off = PushdownStats::default();
    execute_int64_filter_pushdown(
        &mut stream,
        Some(&zmap),
        ZonePredicate::Gt(50_000),
        true,
        &mut out_on,
        &mut len_on,
        &mut stats_on,
    );
    stream.rewind();
    execute_int64_filter_pushdown(
        &mut stream,
        Some(&zmap),
        ZonePredicate::Gt(50_000),
        false,
        &mut out_off,
        &mut len_off,
        &mut stats_off,
    );
    assert_eq!(stats_on.pages_skipped, 1);
    assert_eq!(stats_on.pages_scanned, 1);
    assert_eq!(stats_off.pages_skipped, 0);
    assert_eq!(stats_off.pages_scanned, 2);
    assert_eq!(len_on, len_off, "pushdown must not change result cardinality");
    assert_eq!(&out_on[..len_on], &out_off[..len_off]);
    assert_eq!(len_on, page_rows);
    assert!(out_on[..len_on].iter().all(|&v| v > 50_000));
}

#[test]
fn test_pushdown_correct_at_exact_boundary_values() {
    let page_rows = PAGE / 8;
    let mut values = vec![10i64; page_rows];
    values.extend(vec![200i64; page_rows]);
    let (mut stream, zmap) = open(&values, PAGE);
    let e0 = zmap.entry(0).unwrap();
    assert_eq!(e0.min, 10);
    assert_eq!(e0.max, 10);
    let mut out = vec![0i64; MAX_ROWS];
    let mut len = 0usize;
    let mut stats = PushdownStats::default();
    execute_int64_filter_pushdown(
        &mut stream,
        Some(&zmap),
        ZonePredicate::Gt(10),
        true,
        &mut out,
        &mut len,
        &mut stats,
    );
    assert_eq!(stats.pages_skipped, 1);
    assert_eq!(len, page_rows);
    assert!(out[..len].iter().all(|&v| v > 10));
    stream.rewind();
    execute_int64_filter_pushdown(
        &mut stream,
        Some(&zmap),
        ZonePredicate::Gte(10),
        true,
        &mut out,
        &mut len,
        &mut stats,
    );
    assert_eq!(stats.pages_skipped, 0, "a value on the boundary passes");
    assert_eq!(stats.pages_scanned, 2);
    assert_eq!(len, page_rows * 2);
}

#[test]
fn a_full_output_keeps_what_came_first() {
    let values: Vec<i64> = (0..100).collect();
    let (mut stream, zmap) = open(&values, 64);
    let mut out = vec![-1i64; 3];
    let mut len = 9usize;
    let mut stats = PushdownStats::default();
    execute_mmap_i64_filter_stream_pushdown(
        &mut stream,
        Some(&zmap),
        ZonePredicate::Lt(70),
        &mut out,
        &mut len,
        &mut stats,
    );
    assert_eq!((len, out), (3, vec![0, 1, 2]));
    assert_eq!((stats.pages_total, stats.pages_scanned, stats.pages_skipped), (13, 9, 4));
    let mut roomy = vec![-1i64; 5];
    execute_mmap_i64_filter_stream_pushdown(
        &mut stream,
        None,
        ZonePredicate::Eq(41),
        &mut roomy,
        &mut len,
        &mut stats,
    );
    assert_eq!((len, roomy), (1, vec![41, -1, -1, -1, -1]));
    assert_eq!((stats.pages_total, stats.pages_scanned, stats.pages_skipped), (13, 13, 0));
}

#[test]
fn records_are_twenty_four_bytes() {
    let files = write_i64_column_bin(&[5, -7, 6], 16);
    let written = write_zonemap_for_column(&files.bin, Some(&files.meta), 16).ok().unwrap();
    let mut want = Vec::new();
    for (index, count, min, max) in [(0u32, 2u32, -7i64, 5i64), (1, 1, 6, 6)] {
        want.extend_from_slice(&index.to_le_bytes());
        want.extend_from_slice(&count.to_le_bytes());
        want.extend_from_slice(&min.to_le_bytes());
        want.extend_from_slice(&max.to_le_bytes());
    }
    assert_eq!(written.zmap, want);
    assert_eq!(written.pages, 2);
    let zm = ZoneMap::open(&want).ok().unwrap();
    assert!(!zm.is_empty());
    assert_eq!(zm.page(1), Some(&ZonePage { page_index: 1, row_count: 1, min: 6, max: 6 }));
    assert_eq!(zm.page(2), None);
    assert_eq!(zm.page_count(), 2);
    assert_eq!(zm.entry(1), zm.page(1));
    assert_eq!(zm.entry(2), None);
    assert!(ZoneMap::open(&[]).ok().unwrap().is_empty());
}

#[test]
fn zone_map_errors_are_named() {
    let too_many = vec![0u8; 24 * (MAX_ZONE_PAGES + 1)];
    assert!(matches!(
        ZoneMap::open(&too_many),
        Err(ZoneMapError::TooManyPages { pages: 1025 })
    ));
    let values = vec![1i64; MAX_ZONE_PAGES + 1];
    let files = write_i64_column_bin(&values, 8);
    assert!(matches!(
        write_zonemap_for_column(&files.bin, Some(&files.meta), 8),
        Err(ZoneMapError::TooManyPages { pages: 1025 })
    ));
    assert!(matches!(
        write_zonemap_for_column(&[1, 2, 3], None, PAGE),
        Err(ZoneMapError::Io(StorageError::RaggedColumn))
    ));
    // A column with that many pages is laid out without a zone map.
    let schema = parse_schema("v:i64").unwrap();
    let csv = "1\n".repeat(MAX_ZONE_PAGES + 1);
    let read = ingest_csv(csv.as_bytes(), &schema, false).ok().unwrap();
    let names: Vec<String> = column_files("v", &read.columns[0], 8)
        .ok()
        .unwrap()
        .into_iter()
        .map(|f| f.name)
        .collect();
    assert_eq!(names, ["v.bin", "v.meta"]);
}
