//! Column files as bytes: what is written is read back, page by page.

use tamil_query_engine::{
    execute_mmap_age_filter_stream, execute_mmap_table_filter_project_stream,
    write_i64_column_bin, write_stage4_columnar_demo, write_utf8_column_files, ColumnarChunk,
    ColumnarFileStream, ColumnarTableStream, EngineError, Int64ColumnMeta, MmapStreamStats,
    StorageError, Utf8ColumnFile, Utf8ColumnMeta,
};

const PAGE: usize = 4096;

fn column(total: usize) -> ColumnarFileStream {
    let values: Vec<i64> = (0..total as i64).collect();
    let files = write_i64_column_bin(&values, PAGE);
    ColumnarFileStream::open_i64(&files.bin, Some(&files.meta), PAGE).unwrap()
}

#[test]
fn storage_test_mmap_page_streaming_10000_rows_exact_remainder() {
    const TOTAL: usize = 10_000;
    let mut stream = column(TOTAL);
    let page_rows = stream.page_rows();
    assert_eq!(page_rows, PAGE / 8);
    assert_eq!(stream.total_rows(), TOTAL as u64);
    let expected_full = TOTAL / page_rows;
    let expected_rem = TOTAL % page_rows;
    let mut sum = 0usize;
    let mut full = 0usize;
    let mut last_n = 0usize;
    let mut last_residue = 0u8;
    while let Some(chunk) = stream.next_page_chunk() {
        sum += chunk.row_count as usize;
        if chunk.is_residue == 0 {
            assert_eq!(chunk.row_count as usize, page_rows);
            full += 1;
        } else {
            last_n = chunk.row_count as usize;
            last_residue = 1;
        }
    }
    assert_eq!(sum, TOTAL);
    assert_eq!(full, expected_full);
    if expected_rem == 0 {
        assert_eq!(last_residue, 0);
    } else {
        assert_eq!(last_residue, 1);
        assert_eq!(last_n, expected_rem);
    }
}

#[test]
fn lib_test_mmap_page_streaming_10000_rows_exact_remainder() {
    const TOTAL: usize = 10_000;
    let mut stream = column(TOTAL);
    let page_rows = stream.page_rows();
    assert_eq!(page_rows, PAGE / core::mem::size_of::<i64>());
    let expected_rem = TOTAL % page_rows;
    let mut sum = 0usize;
    let mut last_is_residue = false;
    let mut last_n = 0usize;
    while let Some(chunk) = stream.next_page_chunk() {
        sum += chunk.row_count as usize;
        last_is_residue = chunk.is_residue != 0;
        last_n = chunk.row_count as usize;
    }
    assert_eq!(sum, TOTAL);
    if expected_rem == 0 {
        assert!(!last_is_residue);
    } else {
        assert!(last_is_residue);
        assert_eq!(last_n, expected_rem);
    }
}

#[test]
fn columnar_file_stream_pages_10000() {
    const TOTAL: usize = 10_000;
    let mut stream = column(TOTAL);
    let page_rows = stream.page_rows();
    let rem = TOTAL % page_rows;
    let mut sum = 0usize;
    while let Some(p) = stream.next_page_chunk() {
        sum += p.row_count as usize;
        if p.is_residue != 0 {
            assert_eq!(p.row_count as usize, rem);
        } else {
            assert_eq!(p.row_count as usize, page_rows);
        }
    }
    assert_eq!(sum, TOTAL);
}

#[test]
fn utf8_column_file_offset_blob_roundtrip() {
    let rows: [&[u8]; 3] = ["அருண்".as_bytes(), "பிரியா".as_bytes(), "கண்ணன்".as_bytes()];
    let files = write_utf8_column_files(&rows, PAGE).unwrap();
    let f = Utf8ColumnFile::open(&files.offsets, &files.blob, Some(&files.meta)).unwrap();
    assert_eq!(f.total_rows(), 3);
    assert_eq!(f.get_row(0), Some("அருண்"));
    assert_eq!(f.get_row(1), Some("பிரியா"));
    assert_eq!(f.get_row(2), Some("கண்ணன்"));
    assert_eq!(f.get_row(3), None);
}

#[test]
fn test_empty_column_file_stream_e2e() {
    let files = write_i64_column_bin(&[], PAGE);
    let mut stream = ColumnarFileStream::open_i64(&files.bin, Some(&files.meta), PAGE).unwrap();
    assert_eq!(stream.total_rows(), 0);
    assert!(stream.next_page_chunk().is_none());
    let mut copied =
        ColumnarFileStream::open_int64_copied(&files.bin, Some(&files.meta), PAGE).unwrap();
    assert!(copied.is_copied());
    assert_eq!(copied.total_rows(), 0);
    assert!(copied.next_page_chunk().is_none());
}

#[test]
fn test_persistent_mmap_page_streaming_fidelity() {
    const TOTAL: usize = 10_000;
    let page_rows = PAGE / 8;
    let expected_full = (TOTAL / page_rows) as u32;
    let expected_rem = (TOTAL % page_rows) as u32;
    let demo = write_stage4_columnar_demo(TOTAL, PAGE);

    let mut ages =
        ColumnarFileStream::open_i64(&demo.ages.bin, Some(&demo.ages.meta), PAGE).unwrap();
    assert_eq!(ages.total_rows(), TOTAL as u64);
    assert_eq!(ages.page_rows(), page_rows);
    let mut sum = 0usize;
    let mut full = 0u32;
    let mut residue = 0u32;
    let mut last_rem = 0u32;
    while let Some(p) = ages.next_page_chunk() {
        sum += p.row_count as usize;
        if p.is_residue == 0 {
            assert_eq!(p.row_count as usize, page_rows);
            full += 1;
        } else {
            residue += 1;
            last_rem = p.row_count as u32;
        }
    }
    assert_eq!(sum, TOTAL);
    assert_eq!(full, expected_full);
    assert_eq!(residue, 1);
    assert_eq!(last_rem, expected_rem);

    let mut ages2 =
        ColumnarFileStream::open_i64(&demo.ages.bin, Some(&demo.ages.meta), PAGE).unwrap();
    let mut stats = MmapStreamStats::default();
    execute_mmap_age_filter_stream(&mut ages2, 21, &mut stats);
    assert_eq!(stats.pages_full, expected_full);
    assert_eq!(stats.pages_residue, 1);
    assert_eq!(stats.residue_rows, expected_rem);
    assert_eq!(stats.rows_scanned, TOTAL as u64);
    assert_eq!(stats.rows_kept, 9_000);
    assert!(stats.rows_kept < stats.rows_scanned);

    let users =
        ColumnarFileStream::open_i64(&demo.user_ids.bin, Some(&demo.user_ids.meta), PAGE).unwrap();
    let prices =
        ColumnarFileStream::open_i64(&demo.prices.bin, Some(&demo.prices.meta), PAGE).unwrap();
    let mut table = ColumnarTableStream::open(users, ages, prices).ok().unwrap();
    assert_eq!(table.total_rows(), TOTAL as u64);
    let mut out_prices = vec![0i64; 64];
    let mut out_len = 0usize;
    let mut stats2 = MmapStreamStats::default();
    execute_mmap_table_filter_project_stream(
        &mut table,
        21,
        &mut stats2,
        &mut out_prices,
        &mut out_len,
    );
    assert_eq!(stats2, stats);
    assert_eq!(out_len, 64);
    let mut k = 0usize;
    while k < out_len {
        assert!(out_prices[k] >= 100);
        k += 1;
    }
    // The first four ages are 18 to 21; row 4 is the first above.
    assert_eq!(&out_prices[..3], &[112, 115, 118]);
    assert_eq!(out_prices[35], 100 + 3 * 39);
    assert_eq!(out_prices[36], 100 + 3 * 44);
}

#[test]
fn a_column_file_is_its_values_in_little_endian_and_zeros() {
    let files = write_i64_column_bin(&[1, -2, 0x0102_0304_0506_0708], 32);
    let mut want = Vec::new();
    want.extend_from_slice(&1i64.to_le_bytes());
    want.extend_from_slice(&(-2i64).to_le_bytes());
    want.extend_from_slice(&[8, 7, 6, 5, 4, 3, 2, 1]);
    want.extend_from_slice(&[0; 8]);
    assert_eq!(files.bin, want);
    assert_eq!(files.meta, 3u64.to_le_bytes());
    let mut back = ColumnarFileStream::open_i64_with_meta(&files.bin, &files.meta, 16).unwrap();
    assert_eq!(back.page_rows(), 2);
    let first = back.next_page_chunk().unwrap();
    assert_eq!((first.rows, first.row_count, first.page_index, first.is_residue), (&[1i64, -2][..], 2, 0, 0));
    assert_eq!(back.cursor_row(), 2);
    assert_eq!(back.pages_emitted(), 1);
    let second = back.next_page_chunk().unwrap();
    assert_eq!((second.rows[0], second.row_count, second.page_index, second.is_residue), (0x0102_0304_0506_0708, 1, 1, 1));
    assert!(back.next_page_chunk().is_none());
    back.rewind();
    assert_eq!(back.next_page_chunk().unwrap().rows, &[1, -2]);
    // Without the companion the padding counts as a row.
    assert_eq!(ColumnarFileStream::open_i64(&files.bin, None, 16).unwrap().total_rows(), 4);
}

#[test]
fn extreme_values_survive() {
    let values = [i64::MIN, i64::MAX, -1, 0, i64::MIN + 1];
    let files = write_i64_column_bin(&values, PAGE);
    assert_eq!(files.bin.len(), PAGE);
    let mut file = ColumnarFileStream::open_int64_column(&files.bin, &files.meta, PAGE).ok().unwrap();
    assert_eq!(file.meta, Int64ColumnMeta { row_count: 5 });
    assert_eq!(file.stream.next_page_chunk().unwrap().rows, &values);
}

#[test]
fn refused_columns_name_their_error() {
    let open = |bin: &[u8], meta: Option<&[u8]>| {
        ColumnarFileStream::open_i64(bin, meta, PAGE).map(|s| s.total_rows())
    };
    assert_eq!(open(&[0; 7], None), Err(StorageError::RaggedColumn));
    assert_eq!(open(&[0; 16], Some(&[1, 0, 0])), Err(StorageError::UnexpectedEof));
    assert_eq!(open(&[0; 16], Some(&3u64.to_le_bytes())), Err(StorageError::RowCountBeyondColumn));
    assert_eq!(open(&[0; 7], Some(&[1])), Err(StorageError::UnexpectedEof));
    assert_eq!(open(&[0; 16], Some(&2u64.to_le_bytes())), Ok(2));
    let open_with = |bin: &[u8], meta: &[u8]| {
        ColumnarFileStream::open_i64_with_meta(bin, meta, PAGE).map(|s| s.total_rows())
    };
    assert_eq!(open_with(&[0; 16], &[1, 0, 0]), Err(StorageError::Int64MetaTooShort));
    assert_eq!(open_with(&[0; 7], &[1]), Err(StorageError::Int64MetaTooShort));
    assert_eq!(open_with(&[0; 16], &2u64.to_le_bytes()), Ok(2));
    let text = |offsets: &[u8], blob: &[u8], meta: Option<&[u8]>| {
        Utf8ColumnFile::open(offsets, blob, meta).map(|f| f.total_rows())
    };
    let meta = |row_count, blob_len| Utf8ColumnMeta { row_count, blob_len }.encode();
    assert_eq!(text(&[0; 9], b"", None), Err(StorageError::RaggedOffsets));
    assert_eq!(text(&[0; 8], b"", Some(&[0; 15])), Err(StorageError::Utf8MetaTooShort));
    assert_eq!(text(&[0; 8], b"", Some(&meta(2, 0))), Err(StorageError::RowCountBeyondOffsets));
    assert_eq!(text(&[0; 8], b"ab", Some(&meta(1, 1))), Err(StorageError::BlobLenMismatch));
    assert_eq!(text(&[0; 16], b"ab", None), Ok(2));
    assert_eq!(StorageError::BlobLenMismatch.message(), "utf8 .meta blob_len mismatch");
    assert_eq!(StorageError::RowTooLong.message(), "utf8 row longer than u32::MAX");
    assert_eq!(StorageError::UnexpectedEof.message(), "failed to fill whole buffer");
    assert_eq!(EngineError::from(StorageError::RaggedColumn), EngineError::IoError);
}

#[test]
fn entries_outside_the_blob_read_as_nothing() {
    let mut offsets = Vec::new();
    for (offset, length) in [(0u32, 2u32), (1, 2), (u32::MAX, 1), (2, 0)] {
        offsets.extend_from_slice(&offset.to_le_bytes());
        offsets.extend_from_slice(&length.to_le_bytes());
    }
    let f = Utf8ColumnFile::open(&offsets, b"ab", None).unwrap();
    assert_eq!(f.get_row(0), Some("ab"));
    assert_eq!(f.get_row(1), None);
    assert_eq!(f.get_row(2), None);
    assert_eq!(f.get_row(3), Some(""));
    let torn = Utf8ColumnFile::open(&offsets, &[0xE0, 0xAE], None).unwrap();
    assert_eq!(torn.get_row(0), None);
}

#[test]
fn columns_of_one_table_must_agree() {
    let open = |a: usize, b: usize, size: usize| {
        let values: Vec<i64> = (0..b as i64).collect();
        let files = write_i64_column_bin(&values, PAGE);
        let other = ColumnarFileStream::open_i64(&files.bin, Some(&files.meta), size).unwrap();
        ColumnarTableStream::open(column(a), other, column(a)).map(|t| t.total_rows())
    };
    assert_eq!(open(10, 10, PAGE), Ok(10));
    assert_eq!(open(10, 9, PAGE), Err(StorageError::RowCountsDiverge));
    assert_eq!(open(10, 10, 64), Err(StorageError::PageRowsDiverge));
}

#[test]
fn a_table_is_read_in_step() {
    let make = |k: i64| {
        let values: Vec<i64> = (0..5).map(|i| i * k).collect();
        let files = write_i64_column_bin(&values, 32);
        ColumnarFileStream::open_i64(&files.bin, Some(&files.meta), 32).unwrap()
    };
    let mut table = ColumnarTableStream::open(make(1), make(10), make(100)).ok().unwrap();
    let first = table.next_page().unwrap();
    assert_eq!(first.prices, &[0, 100, 200, 300]);
    assert_eq!(first.is_residue, 0);
    let second = table.next_page().unwrap();
    assert_eq!((second.user_ids, second.ages, second.prices), (&[4i64][..], &[40i64][..], &[400i64][..]));
    assert_eq!((second.row_count, second.page_index, second.is_residue), (1, 1, 1));
    assert!(table.next_page().is_none());
    table.rewind();
    assert_eq!(table.next_page().unwrap().user_ids, &[0, 1, 2, 3]);
}

#[test]
fn an_empty_chunk_has_no_rows() {
    let c = ColumnarChunk::empty();
    assert_eq!((c.rows.len(), c.row_count, c.page_index, c.is_residue), (0, 0, 0, 0));
}
