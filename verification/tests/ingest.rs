//! Comma-separated text: schemas, lines, rows and the files of columns.

use tamil_query_engine::ingest::{
    column_files, ingest_csv, parse_schema, ColumnFile, ColumnType, ColumnValues, IngestError,
};
use tamil_query_engine::{ColumnarFileStream, StorageError, Utf8ColumnFile};

const PAGE: usize = 4096;

fn file<'a>(files: &'a [ColumnFile], name: &str) -> &'a [u8] {
    &files.iter().find(|f| f.name == name).unwrap().bytes
}

fn ints(v: &ColumnValues) -> &[i64] {
    match v {
        ColumnValues::Int64(v) => v,
        ColumnValues::Utf8(_) => panic!("a text column"),
    }
}

fn texts(v: &ColumnValues) -> Vec<&str> {
    match v {
        ColumnValues::Utf8(v) => v.iter().map(|t| core::str::from_utf8(t).unwrap()).collect(),
        ColumnValues::Int64(_) => panic!("an integer column"),
    }
}

#[test]
fn parse_schema_basic() {
    let s = parse_schema("id:i64,name:utf8,age:int64").unwrap();
    assert_eq!(s.columns.len(), 3);
    assert_eq!(s.columns[0].name, "id");
    assert_eq!(s.columns[0].ty, ColumnType::Int64);
    assert_eq!(s.columns[1].ty, ColumnType::Utf8);
    assert_eq!(s.columns[2].ty, ColumnType::Int64);
}

#[test]
fn parse_schema_rejects_empty_and_duplicates() {
    assert!(matches!(parse_schema(""), Err(IngestError::EmptySchema)));
    assert!(matches!(
        parse_schema("id:i64,id:utf8"),
        Err(IngestError::DuplicateColumnName(n)) if n == "id"
    ));
    assert!(matches!(
        parse_schema("id:banana"),
        Err(IngestError::BadSchemaSpec { .. })
    ));
}

#[test]
fn ingest_round_trip_small_csv() {
    let csv = "id,name,age\n1,அருண்,18\n2,பிரியா,22\n3,கண்ணன்,19\n";
    let schema = parse_schema("id:i64,name:utf8,age:i64").unwrap();
    let read = ingest_csv(csv.as_bytes(), &schema, true).ok().unwrap();
    assert_eq!(read.report.rows_ingested, 3);
    assert_eq!(read.report.columns_written.len(), 3);
    assert_eq!(read.report.columns_written, ["id.bin", "name.offsets", "age.bin"]);
    let id = column_files("id", &read.columns[0], PAGE).ok().unwrap();
    let mut ids = ColumnarFileStream::open_int64_column(file(&id, "id.bin"), file(&id, "id.meta"), PAGE)
        .ok()
        .unwrap();
    assert_eq!(ids.stream.total_rows(), 3);
    let chunk = ids.stream.next_page_chunk().unwrap();
    assert_eq!(chunk.rows, &[1, 2, 3]);
    let name = column_files("name", &read.columns[1], PAGE).ok().unwrap();
    let names = Utf8ColumnFile::open(
        file(&name, "name.offsets"),
        file(&name, "name.blob"),
        Some(file(&name, "name.meta")),
    )
    .unwrap();
    assert_eq!(names.get_row(0).unwrap(), "அருண்");
    assert_eq!(names.get_row(1).unwrap(), "பிரியா");
    assert_eq!(names.get_row(2).unwrap(), "கண்ணன்");
}

#[test]
fn ingest_rejects_column_count_mismatch_with_line_number() {
    let schema = parse_schema("id:i64,age:i64").unwrap();
    let err = ingest_csv(b"id,age\n1,18\n2\n", &schema, true).err().unwrap();
    match err {
        IngestError::ColumnCountMismatch {
            line,
            expected,
            found,
        } => {
            assert_eq!(line, 3);
            assert_eq!(expected, 2);
            assert_eq!(found, 1);
        }
        other => panic!("expected ColumnCountMismatch, got {other:?}"),
    }
}

#[test]
fn ingest_rejects_non_numeric_i64_field() {
    let schema = parse_schema("id:i64,age:i64").unwrap();
    let err = ingest_csv(b"id,age\n1,not_a_number\n", &schema, true).err().unwrap();
    match err {
        IngestError::NumericParse {
            line,
            column,
            value,
        } => {
            assert_eq!(line, 2);
            assert_eq!(column, "age");
            assert_eq!(value, "not_a_number");
        }
        other => panic!("expected NumericParse, got {other:?}"),
    }
}

#[test]
fn ingest_rejects_i64_overflow_field() {
    let schema = parse_schema("id:i64,age:i64").unwrap();
    let err = ingest_csv(b"id,age\n1,99999999999999999999999\n", &schema, true).err().unwrap();
    assert!(matches!(err, IngestError::NumericParse { line: 2, .. }));
}

#[test]
fn ingest_rejects_header_mismatch() {
    let schema = parse_schema("id:i64,age:i64").unwrap();
    let err = ingest_csv(b"id,wrong_name\n1,2\n", &schema, true).err().unwrap();
    assert!(matches!(err, IngestError::HeaderMismatch { .. }));
}

#[test]
fn ingest_handles_quoted_fields_with_embedded_comma_and_escaped_quote() {
    let csv = "id,note\n1,\"hello, world\"\n2,\"she said \"\"hi\"\"\"\n";
    let schema = parse_schema("id:i64,note:utf8").unwrap();
    let read = ingest_csv(csv.as_bytes(), &schema, true).ok().unwrap();
    let note = column_files("note", &read.columns[1], PAGE).ok().unwrap();
    let notes = Utf8ColumnFile::open(
        file(&note, "note.offsets"),
        file(&note, "note.blob"),
        Some(file(&note, "note.meta")),
    )
    .unwrap();
    assert_eq!(notes.get_row(0).unwrap(), "hello, world");
    assert_eq!(notes.get_row(1).unwrap(), "she said \"hi\"");
}

#[test]
fn ingest_rejects_unterminated_quote() {
    let schema = parse_schema("id:i64,note:utf8").unwrap();
    let err = ingest_csv(b"id,note\n1,\"never closed\n", &schema, true).err().unwrap();
    assert!(matches!(err, IngestError::UnterminatedQuote { line: 2 }));
}

#[test]
fn ingest_large_synthetic_dataset_end_to_end_with_hand_computed_sum() {
    let n = 12_000i64;
    let mut csv = String::from("user_id,price\n");
    let mut expected_sum: i64 = 0;
    for i in 0..n {
        let user_id = i % 500;
        let price = 100 + (i % 900);
        expected_sum += price;
        csv.push_str(&format!("{user_id},{price}\n"));
    }
    let schema = parse_schema("user_id:i64,price:i64").unwrap();
    let read = ingest_csv(csv.as_bytes(), &schema, true).ok().unwrap();
    assert_eq!(read.report.rows_ingested, n as usize);
    let price = column_files("price", &read.columns[1], PAGE).ok().unwrap();
    let mut prices =
        ColumnarFileStream::open_int64_column(file(&price, "price.bin"), file(&price, "price.meta"), PAGE)
            .ok()
            .unwrap();
    assert_eq!(prices.stream.total_rows(), n as u64);
    let mut actual_sum: i64 = 0;
    let mut rows_seen = 0usize;
    while let Some(chunk) = prices.stream.next_page_chunk() {
        for &v in chunk.rows {
            actual_sum += v;
        }
        rows_seen += chunk.rows.len();
    }
    assert_eq!(rows_seen, n as usize, "every row must be streamed exactly once");
    assert_eq!(actual_sum, expected_sum, "ingested data must survive round-trip exactly");
}

#[test]
fn schemas_are_trimmed_and_typed() {
    let s = parse_schema("\u{3000} id : int , note:\tstring,பெயர்:text,n:i64\u{a0}").unwrap();
    let got: Vec<(&str, &str)> =
        s.columns.iter().map(|c| (c.name.as_str(), c.ty.name())).collect();
    assert_eq!(got, [("id", "i64"), ("note", "utf8"), ("பெயர்", "utf8"), ("n", "i64")]);
}

#[test]
fn refused_schemas_say_why() {
    let cases = [
        ("  \t", "schema declares zero columns"),
        (",", "invalid --schema spec: empty column spec at position 0"),
        ("a:i64,b:i64,", "invalid --schema spec: empty column spec at position 2"),
        ("id", "invalid --schema spec: missing ':type' in 'id' (expected e.g. 'name:i64')"),
        (
            "id:banana",
            "invalid --schema spec: unknown type 'banana' for column 'id' (expected 'i64' or 'utf8')",
        ),
        (
            "a:b:i64",
            "invalid --schema spec: unknown type 'b:i64' for column 'a' (expected 'i64' or 'utf8')",
        ),
        (" :i64", "invalid --schema spec: empty column name in ':i64'"),
        ("a:i64,b:i64,c:i64,b:utf8,a:i64", "duplicate column name in schema: 'a'"),
    ];
    for (spec, want) in cases {
        match parse_schema(spec) {
            Ok(_) => panic!("{spec} must be refused"),
            Err(e) => assert_eq!(e.message(), want),
        }
    }
    let long = vec!["c:i64"; 12].join(",") + ",,x:i64";
    match parse_schema(&long) {
        Err(IngestError::BadSchemaSpec { reason }) => {
            assert_eq!(reason, "empty column spec at position 12");
        }
        _ => panic!("an empty piece must be refused"),
    }
}

#[test]
fn refused_texts_say_why() {
    let schema = parse_schema("id:i64,note:utf8").unwrap();
    let message = |raw: &[u8], header: bool| match ingest_csv(raw, &schema, header) {
        Ok(_) => panic!("must be refused"),
        Err(e) => e.message(),
    };
    assert_eq!(message(&[0xFF], true), "line 0, column '<file>': field is not valid UTF-8");
    assert_eq!(
        message(b"id,nota\n", true),
        "CSV header does not match schema: expected [\"id\", \"note\"], found [\"id\", \"nota\"]"
    );
    assert_eq!(message(b"\"id,note", true), "line 1: unterminated quoted field");
    assert_eq!(message(b"1,a\n\n2,b,c", false), "line 3: expected 2 columns, found 3");
    assert_eq!(
        message("\n1x,ஆ".as_bytes(), false),
        "line 2, column 'id': '1x' is not a valid i64 (non-numeric or out of range)"
    );
    assert_eq!(IngestError::Io(StorageError::RowTooLong).message(), "I/O error: utf8 row longer than u32::MAX");
}

#[test]
fn lines_end_in_any_of_the_usual_ways() {
    let schema = parse_schema("id:i64,note:utf8").unwrap();
    let read = ingest_csv(b"id,note\r\n1,a\r\n\r\n\n2,b\r\r\n3,c\r", &schema, true).ok().unwrap();
    assert_eq!(read.report.rows_ingested, 3);
    assert_eq!(ints(&read.columns[0]), &[1, 2, 3]);
    assert_eq!(texts(&read.columns[1]), ["a", "b\r", "c\r"]);
    let empty = ingest_csv(b"", &schema, true).ok().unwrap();
    assert_eq!(empty.report.rows_ingested, 0);
    assert!(ingest_csv(b"\n", &schema, true).is_err());
    assert!(ingest_csv(b"\n", &schema, false).is_ok());
}

#[test]
fn numbers_may_have_a_sign_and_space_around() {
    let schema = parse_schema("n:i64").unwrap();
    let read = ingest_csv(
        "+7\n -0 \n\u{2003}9223372036854775807\n-9223372036854775808\n0000000000000000000000012".as_bytes(),
        &schema,
        false,
    )
    .ok()
    .unwrap();
    assert_eq!(ints(&read.columns[0]), &[7, 0, i64::MAX, i64::MIN, 12]);
    for bad in ["+", "-", "+-1", "1 2", "9223372036854775808", "-9223372036854775809", "௧", "0x1", " "] {
        assert!(ingest_csv(bad.as_bytes(), &schema, false).is_err(), "{bad}");
    }
}

#[test]
fn quotes_count_only_at_the_start_of_a_field() {
    let schema = parse_schema("a:utf8,b:utf8,c:utf8").unwrap();
    let read = ingest_csv(b"x\"y\",\"\"\"\",\"p\"q\"r", &schema, false).ok().unwrap();
    assert_eq!(texts(&read.columns[0]), ["x\"y\""]);
    assert_eq!(texts(&read.columns[1]), ["\""]);
    assert_eq!(texts(&read.columns[2]), ["pq\"r"]);
    let blank = ingest_csv(b",,", &schema, false).ok().unwrap();
    assert_eq!(texts(&blank.columns[2]), [""]);
}

#[test]
fn quoted_fields_read_back() {
    let schema = parse_schema("a:utf8,b:utf8,c:utf8").unwrap();
    let fields = ["say \"no\"", ",\",\"", ""];
    let line: Vec<String> = fields.iter().map(|f| format!("\"{}\"", f.replace('"', "\"\""))).collect();
    let read = ingest_csv(line.join(",").as_bytes(), &schema, false).ok().unwrap();
    for (c, want) in fields.iter().enumerate() {
        assert_eq!(texts(&read.columns[c]), [*want]);
    }
}
