//! From comma-separated text to columns: the schema, the fields of a line, and the rows.
//!
//! Everything is checked before anything is laid out, and what is refused is refused with the
//! line and the column where it stands.

use crate::columnar::StorageError;
use crate::text::{
    chars_of, find_char, parse_i64, push_chars, push_decimal, same_chars, string_of, trim,
};
use vstd::prelude::*;

verus! {

/// The type of a column.
#[derive(Copy, Clone, Debug, PartialEq, Eq, Structural)]
pub enum ColumnType {
    Int64,
    Utf8,
}

impl ColumnType {
    /// The name of the type.
    pub fn name(self) -> (r: &'static str)
        ensures
            r@ == match self {
                ColumnType::Int64 => "i64"@,
                ColumnType::Utf8 => "utf8"@,
            },
    {
        match self {
            ColumnType::Int64 => "i64",
            ColumnType::Utf8 => "utf8",
        }
    }
}

/// A column of a schema.
#[derive(Clone, Debug)]
pub struct ColumnSpec {
    pub name: String,
    pub ty: ColumnType,
}

/// A column of a schema, its name as characters.
pub struct Column {
    pub name: Seq<char>,
    pub ty: ColumnType,
}

impl View for ColumnSpec {
    type V = Column;

    open spec fn view(&self) -> Column {
        Column { name: self.name@, ty: self.ty }
    }
}

/// The columns of a table, in order.
#[derive(Clone, Debug)]
pub struct IngestSchema {
    pub columns: Vec<ColumnSpec>,
}

impl View for IngestSchema {
    type V = Seq<Column>;

    open spec fn view(&self) -> Seq<Column> {
        self.columns@.map_values(|c: ColumnSpec| c@)
    }
}

/// Why a schema or a text is refused.
#[allow(inconsistent_fields)]
#[derive(Debug)]
pub enum IngestError {
    /// A column that cannot be laid out.
    Io(StorageError),
    /// A schema that is not of the form `name:type,name:type`.
    BadSchemaSpec { reason: String },
    /// A schema of no columns.
    EmptySchema,
    /// Two columns of one name.
    DuplicateColumnName(String),
    /// A first line other than the names of the columns.
    HeaderMismatch { expected: Vec<String>, found: Vec<String> },
    /// A line with another number of fields than there are columns.
    ColumnCountMismatch { line: usize, expected: usize, found: usize },
    /// A field of an integer column that is no integer, or one that an `i64` cannot hold.
    NumericParse { line: usize, column: String, value: String },
    /// Bytes that are no text.
    InvalidUtf8 { line: usize, column: String },
    /// A quoted field without an end.
    UnterminatedQuote { line: usize },
}

/// An [`IngestError`], its texts as characters.
#[allow(inconsistent_fields)]
pub enum IngestFault {
    Io(StorageError),
    BadSchemaSpec { reason: Seq<char> },
    EmptySchema,
    DuplicateColumnName(Seq<char>),
    HeaderMismatch { expected: Seq<Seq<char>>, found: Seq<Seq<char>> },
    ColumnCountMismatch { line: int, expected: int, found: int },
    NumericParse { line: int, column: Seq<char>, value: Seq<char> },
    InvalidUtf8 { line: int, column: Seq<char> },
    UnterminatedQuote { line: int },
}

/// The characters of each of a run of texts.
pub open spec fn texts(v: Seq<String>) -> Seq<Seq<char>> {
    v.map_values(|s: String| s@)
}

impl View for IngestError {
    type V = IngestFault;

    open spec fn view(&self) -> IngestFault {
        match *self {
            IngestError::Io(e) => IngestFault::Io(e),
            IngestError::BadSchemaSpec { reason } => IngestFault::BadSchemaSpec { reason: reason@ },
            IngestError::EmptySchema => IngestFault::EmptySchema,
            IngestError::DuplicateColumnName(name) => IngestFault::DuplicateColumnName(name@),
            IngestError::HeaderMismatch { expected, found } => IngestFault::HeaderMismatch {
                expected: texts(expected@),
                found: texts(found@),
            },
            IngestError::ColumnCountMismatch { line, expected, found } => {
                IngestFault::ColumnCountMismatch {
                    line: line as int,
                    expected: expected as int,
                    found: found as int,
                }
            },
            IngestError::NumericParse { line, column, value } => IngestFault::NumericParse {
                line: line as int,
                column: column@,
                value: value@,
            },
            IngestError::InvalidUtf8 { line, column } => IngestFault::InvalidUtf8 {
                line: line as int,
                column: column@,
            },
            IngestError::UnterminatedQuote { line } => IngestFault::UnterminatedQuote {
                line: line as int,
            },
        }
    }
}

/// How the standard library writes a list of texts for debugging.
pub uninterp spec fn debug_list(list: Seq<Seq<char>>) -> Seq<char>;

/// `format!("{:?}", list)`, the `Debug` form of a list of texts: a text that depends on the list
/// alone. Nothing is said here of how the texts are quoted and escaped in it.
#[verifier::external_body]
fn debug_text(list: &Vec<String>) -> (r: String)
    ensures
        r@ == debug_list(texts(list@)),
{
    format!("{:?}", list)
}

impl IngestFault {
    /// The error in words.
    pub open spec fn message(self) -> Seq<char> {
        match self {
            IngestFault::Io(e) => "I/O error: "@ + e.words(),
            IngestFault::BadSchemaSpec { reason } => "invalid --schema spec: "@ + reason,
            IngestFault::EmptySchema => "schema declares zero columns"@,
            IngestFault::DuplicateColumnName(name) => "duplicate column name in schema: '"@ + name
                + "'"@,
            IngestFault::HeaderMismatch { expected, found } => {
                "CSV header does not match schema: expected "@ + debug_list(expected)
                    + ", found "@ + debug_list(found)
            },
            IngestFault::ColumnCountMismatch { line, expected, found } => "line "@
                + crate::text::decimal(line as nat) + ": expected "@ + crate::text::decimal(
                expected as nat,
            ) + " columns, found "@ + crate::text::decimal(found as nat),
            IngestFault::NumericParse { line, column, value } => "line "@ + crate::text::decimal(
                line as nat,
            ) + ", column '"@ + column + "': '"@ + value
                + "' is not a valid i64 (non-numeric or out of range)"@,
            IngestFault::InvalidUtf8 { line, column } => "line "@ + crate::text::decimal(
                line as nat,
            ) + ", column '"@ + column + "': field is not valid UTF-8"@,
            IngestFault::UnterminatedQuote { line } => "line "@ + crate::text::decimal(
                line as nat,
            ) + ": unterminated quoted field"@,
        }
    }
}

impl IngestError {
    /// The error in words.
    pub fn message(&self) -> (r: String)
        ensures
            r@ == self@.message(),
    {
        let mut out: String = String::new();
        match self {
            IngestError::Io(e) => {
                push_text(&mut out, "I/O error: ");
                push_text(&mut out, e.message());
            },
            IngestError::BadSchemaSpec { reason } => {
                push_text(&mut out, "invalid --schema spec: ");
                push_text(&mut out, reason.as_str());
            },
            IngestError::EmptySchema => {
                push_text(&mut out, "schema declares zero columns");
            },
            IngestError::DuplicateColumnName(name) => {
                push_text(&mut out, "duplicate column name in schema: '");
                push_text(&mut out, name.as_str());
                push_text(&mut out, "'");
            },
            IngestError::HeaderMismatch { expected, found } => {
                let e: String = debug_text(expected);
                let f: String = debug_text(found);
                push_text(&mut out, "CSV header does not match schema: expected ");
                push_text(&mut out, e.as_str());
                push_text(&mut out, ", found ");
                push_text(&mut out, f.as_str());
            },
            IngestError::ColumnCountMismatch { line, expected, found } => {
                push_text(&mut out, "line ");
                push_decimal(&mut out, *line as u64);
                push_text(&mut out, ": expected ");
                push_decimal(&mut out, *expected as u64);
                push_text(&mut out, " columns, found ");
                push_decimal(&mut out, *found as u64);
            },
            IngestError::NumericParse { line, column, value } => {
                push_text(&mut out, "line ");
                push_decimal(&mut out, *line as u64);
                push_text(&mut out, ", column '");
                push_text(&mut out, column.as_str());
                push_text(&mut out, "': '");
                push_text(&mut out, value.as_str());
                push_text(&mut out, "' is not a valid i64 (non-numeric or out of range)");
            },
            IngestError::InvalidUtf8 { line, column } => {
                push_text(&mut out, "line ");
                push_decimal(&mut out, *line as u64);
                push_text(&mut out, ", column '");
                push_text(&mut out, column.as_str());
                push_text(&mut out, "': field is not valid UTF-8");
            },
            IngestError::UnterminatedQuote { line } => {
                push_text(&mut out, "line ");
                push_decimal(&mut out, *line as u64);
                push_text(&mut out, ": unterminated quoted field");
            },
        }
        assert(out@ =~= self@.message());
        out
    }
}

/// The type that a word names.
pub open spec fn type_named(word: Seq<char>) -> Option<ColumnType> {
    if word == "i64"@ || word == "int64"@ || word == "int"@ {
        Some(ColumnType::Int64)
    } else if word == "utf8"@ || word == "text"@ || word == "string"@ {
        Some(ColumnType::Utf8)
    } else {
        None
    }
}

/// The column that piece number `index` of a schema describes.
pub open spec fn column_described(piece: Seq<char>, index: int, whole: Seq<char>) -> Result<
    Column,
    IngestFault,
> {
    let field = crate::text::trimmed(piece);
    let k = crate::text::find(field, ':', 0);
    let name = crate::text::trimmed(field.take(k));
    let word = crate::text::trimmed(field.skip(k + 1));
    if field.len() == 0 {
        if index == 0 && crate::text::trimmed(whole).len() == 0 {
            Err(IngestFault::EmptySchema)
        } else {
            Err(
                IngestFault::BadSchemaSpec {
                    reason: "empty column spec at position "@ + crate::text::decimal(index as nat),
                },
            )
        }
    } else if k >= field.len() {
        Err(
            IngestFault::BadSchemaSpec {
                reason: "missing ':type' in '"@ + field + "' (expected e.g. 'name:i64')"@,
            },
        )
    } else {
        match type_named(word) {
            None => Err(
                IngestFault::BadSchemaSpec {
                    reason: "unknown type '"@ + word + "' for column '"@ + name
                        + "' (expected 'i64' or 'utf8')"@,
                },
            ),
            Some(ty) => if name.len() == 0 {
                Err(
                    IngestFault::BadSchemaSpec {
                        reason: "empty column name in '"@ + field + "'"@,
                    },
                )
            } else {
                Ok(Column { name, ty })
            },
        }
    }
}

/// The columns that the pieces of a schema from number `index` on describe, or what is wrong with
/// the first that describes none.
pub open spec fn columns_described(pieces: Seq<Seq<char>>, index: int, whole: Seq<char>) -> Result<
    Seq<Column>,
    IngestFault,
>
    decreases pieces.len() - index,
{
    if 0 <= index < pieces.len() {
        match column_described(pieces[index], index, whole) {
            Err(e) => Err(e),
            Ok(c) => match columns_described(pieces, index + 1, whole) {
                Err(e) => Err(e),
                Ok(rest) => Ok(seq![c] + rest),
            },
        }
    } else {
        Ok(Seq::empty())
    }
}

/// Whether a column behind column `i` has its name.
pub open spec fn name_recurs(columns: Seq<Column>, i: int) -> bool {
    exists|j: int| i < j < columns.len() && columns[i].name == (#[trigger] columns[j]).name
}

/// The first column from `i` on whose name recurs, or the number of columns.
pub open spec fn first_recurring(columns: Seq<Column>, i: int) -> int
    decreases columns.len() - i,
{
    if 0 <= i < columns.len() && !name_recurs(columns, i) {
        first_recurring(columns, i + 1)
    } else {
        i
    }
}

/// The schema that a text describes, or why it is refused.
pub open spec fn schema_described(spec: Seq<char>) -> Result<Seq<Column>, IngestFault> {
    match columns_described(crate::text::pieces(spec, ',', 0), 0, spec) {
        Err(e) => Err(e),
        Ok(columns) => {
            let i = first_recurring(columns, 0);
            if i < columns.len() {
                Err(IngestFault::DuplicateColumnName(columns[i].name))
            } else {
                Ok(columns)
            }
        },
    }
}

/// The names in a schema that is accepted differ from each other, and none is empty.
pub proof fn law_accepted_names_are_distinct(spec: Seq<char>)
    ensures
        schema_described(spec) matches Ok(columns) ==> {
            &&& columns.len() > 0
            &&& forall|i: int, j: int|
                0 <= i < j < columns.len() ==> (#[trigger] columns[i]).name != (
                #[trigger] columns[j]).name
            &&& forall|i: int| 0 <= i < columns.len() ==> (#[trigger] columns[i]).name.len() > 0
        },
{
    let p = crate::text::pieces(spec, ',', 0);
    if let Ok(columns) = schema_described(spec) {
        lemma_columns_described(p, 0, spec);
        assert(p.len() > 0);
        assert forall|i: int, j: int| 0 <= i < j < columns.len() implies (
        #[trigger] columns[i]).name != (#[trigger] columns[j]).name by {
            lemma_first_recurring(columns, 0, i);
            assert(!name_recurs(columns, i));
        }
    }
}

proof fn lemma_columns_described(pieces: Seq<Seq<char>>, index: int, whole: Seq<char>)
    requires
        0 <= index <= pieces.len(),
    ensures
        columns_described(pieces, index, whole) matches Ok(columns) ==> {
            &&& columns.len() == pieces.len() - index
            &&& forall|i: int| 0 <= i < columns.len() ==> (#[trigger] columns[i]).name.len() > 0
        },
    decreases pieces.len() - index,
{
    if index < pieces.len() {
        lemma_columns_described(pieces, index + 1, whole);
        if let Ok(columns) = columns_described(pieces, index, whole) {
            let rest = columns_described(pieces, index + 1, whole)->Ok_0;
            assert forall|i: int| 0 <= i < columns.len() implies (
            #[trigger] columns[i]).name.len() > 0 by {
                if i > 0 {
                    assert(columns[i] == rest[i - 1]);
                }
            }
        }
    }
}

proof fn lemma_first_recurring(columns: Seq<Column>, from: int, i: int)
    requires
        0 <= from <= i < columns.len(),
        first_recurring(columns, from) >= columns.len(),
    ensures
        !name_recurs(columns, i),
    decreases i - from,
{
    if from < i {
        lemma_first_recurring(columns, from + 1, i);
    }
}

/// The type that a word names.
fn type_of_word(word: &[char]) -> (r: Option<ColumnType>)
    ensures
        r == type_named(word@),
{
    if same_chars(word, "i64") || same_chars(word, "int64") || same_chars(word, "int") {
        Some(ColumnType::Int64)
    } else if same_chars(word, "utf8") || same_chars(word, "text") || same_chars(word, "string") {
        Some(ColumnType::Utf8)
    } else {
        None
    }
}

/// Appends the characters of a text.
fn push_text(out: &mut String, text: &str)
    ensures
        final(out)@ == old(out)@ + text@,
{
    let more: Vec<char> = chars_of(text);
    push_chars(out, more.as_slice());
}

/// The column that piece number `index` of the schema `whole` describes.
fn describe_column(piece: &[char], index: usize, whole: &[char]) -> (r: Result<
    ColumnSpec,
    IngestError,
>)
    ensures
        match column_described(piece@, index as int, whole@) {
            Ok(c) => r is Ok && r->Ok_0@ == c,
            Err(e) => r is Err && r->Err_0@ == e,
        },
{
    let field: &[char] = trim(piece);
    if field.len() == 0 {
        if index == 0 && trim(whole).len() == 0 {
            return Err(IngestError::EmptySchema);
        }
        let mut reason: String = String::new();
        push_text(&mut reason, "empty column spec at position ");
        push_decimal(&mut reason, index as u64);
        assert(reason@ =~= "empty column spec at position "@ + crate::text::decimal(index as nat));
        return Err(IngestError::BadSchemaSpec { reason });
    }
    let k: usize = find_char(field, ':', 0);
    if k >= field.len() {
        let mut reason: String = String::new();
        push_text(&mut reason, "missing ':type' in '");
        push_chars(&mut reason, field);
        push_text(&mut reason, "' (expected e.g. 'name:i64')");
        assert(reason@ =~= "missing ':type' in '"@ + field@ + "' (expected e.g. 'name:i64')"@);
        return Err(IngestError::BadSchemaSpec { reason });
    }
    proof {
        assert(field@.subrange(0, k as int) =~= field@.take(k as int));
        assert(field@.subrange(k + 1, field@.len() as int) =~= field@.skip(k + 1));
    }
    let name: &[char] = trim(vstd::slice::slice_subrange(field, 0, k));
    let word: &[char] = trim(vstd::slice::slice_subrange(field, k + 1, field.len()));
    match type_of_word(word) {
        None => {
            let mut reason: String = String::new();
            push_text(&mut reason, "unknown type '");
            push_chars(&mut reason, word);
            push_text(&mut reason, "' for column '");
            push_chars(&mut reason, name);
            push_text(&mut reason, "' (expected 'i64' or 'utf8')");
            assert(reason@ =~= "unknown type '"@ + word@ + "' for column '"@ + name@
                + "' (expected 'i64' or 'utf8')"@);
            Err(IngestError::BadSchemaSpec { reason })
        },
        Some(ty) => {
            if name.len() == 0 {
                let mut reason: String = String::new();
                push_text(&mut reason, "empty column name in '");
                push_chars(&mut reason, field);
                push_text(&mut reason, "'");
                assert(reason@ =~= "empty column name in '"@ + field@ + "'"@);
                return Err(IngestError::BadSchemaSpec { reason });
            }
            Ok(ColumnSpec { name: string_of(name), ty })
        },
    }
}

/// What reading the rest of a schema adds to the columns read so far.
spec fn with_columns(before: Seq<Column>, rest: Result<Seq<Column>, IngestFault>) -> Result<
    Seq<Column>,
    IngestFault,
> {
    match rest {
        Ok(columns) => Ok(before + columns),
        Err(e) => Err(e),
    }
}

/// Reads a schema of the form `name:type,name:type`.
pub fn parse_schema(spec: &str) -> (r: Result<IngestSchema, IngestError>)
    ensures
        match schema_described(spec@) {
            Ok(columns) => r is Ok && r->Ok_0@ == columns,
            Err(e) => r is Err && r->Err_0@ == e,
        },
{
    let whole: Vec<char> = chars_of(spec);
    let n: usize = whole.len();
    let ghost all = crate::text::pieces(spec@, ',', 0);
    let mut columns: Vec<ColumnSpec> = Vec::new();
    let mut from: usize = 0;
    let mut more: bool = true;
    proof {
        assert(all.take(0) + crate::text::pieces(spec@, ',', 0) =~= all);
        let start = columns_described(all, 0, spec@);
        if start is Ok {
            assert(Seq::<Column>::empty() + start->Ok_0 =~= start->Ok_0);
        }
        assert(columns@.map_values(|c: ColumnSpec| c@) =~= Seq::empty());
    }
    while more
        invariant
            n == whole@.len(),
            whole@ == spec@,
            all == crate::text::pieces(spec@, ',', 0),
            from <= n,
            columns@.len() <= all.len(),
            columns@.len() <= from || (columns@.len() == from + 1 && !more),
            more ==> all == all.take(columns@.len() as int) + crate::text::pieces(
                spec@,
                ',',
                from as int,
            ),
            !more ==> columns@.len() == all.len(),
            columns_described(all, 0, spec@) == with_columns(
                columns@.map_values(|c: ColumnSpec| c@),
                columns_described(all, columns@.len() as int, spec@),
            ),
        decreases (if more { n - from + 1 } else { 0 }),
    {
        let ghost index = columns@.len() as int;
        let ghost before = columns@.map_values(|c: ColumnSpec| c@);
        let k: usize = find_char(whole.as_slice(), ',', from);
        let piece: &[char] = vstd::slice::slice_subrange(whole.as_slice(), from, k);
        proof {
            let here = crate::text::pieces(spec@, ',', from as int);
            assert(piece@ =~= here[0]) by {
                if k == n {
                    assert(spec@.skip(from as int) =~= piece@);
                }
            }
            assert(all[index] == here[0]);
            if k < n {
                assert(here =~= seq![piece@] + crate::text::pieces(spec@, ',', k + 1));
                assert(all =~= all.take(index + 1) + crate::text::pieces(spec@, ',', k + 1));
            } else {
                assert(here.len() == 1);
            }
        }
        let column: ColumnSpec = match describe_column(piece, columns.len(), whole.as_slice()) {
            Ok(c) => c,
            Err(e) => {
                return Err(e);
            },
        };
        columns.push(column);
        proof {
            let now = columns@.map_values(|c: ColumnSpec| c@);
            assert(now =~= before.push(column@));
            let rest = columns_described(all, index + 1, spec@);
            if rest is Ok {
                assert(before + (seq![column@] + rest->Ok_0) =~= now + rest->Ok_0);
            }
        }
        if k < n {
            from = k + 1;
        } else {
            more = false;
        }
    }
    let schema = IngestSchema { columns };
    assert(schema@ + Seq::<Column>::empty() =~= schema@);
    let mut i: usize = 0;
    while i < schema.columns.len()
        invariant
            i <= schema.columns@.len(),
            columns_described(all, 0, spec@) == Ok::<Seq<Column>, IngestFault>(schema@),
            all == crate::text::pieces(spec@, ',', 0),
            first_recurring(schema@, 0) == first_recurring(schema@, i as int),
        decreases schema.columns@.len() - i,
    {
        let mut j: usize = i + 1;
        while j < schema.columns.len()
            invariant
                i < j <= schema.columns@.len(),
                columns_described(all, 0, spec@) == Ok::<Seq<Column>, IngestFault>(schema@),
                all == crate::text::pieces(spec@, ',', 0),
                first_recurring(schema@, 0) == first_recurring(schema@, i as int),
                forall|q: int|
                    i < q < j ==> schema@[i as int].name != (#[trigger] schema@[q]).name,
            decreases schema.columns@.len() - j,
        {
            if schema.columns[i].name == schema.columns[j].name {
                proof {
                    assert(schema@[i as int].name == schema@[j as int].name);
                    assert(name_recurs(schema@, i as int));
                }
                return Err(IngestError::DuplicateColumnName(schema.columns[i].name.clone()));
            }
            j += 1;
        }
        i += 1;
    }
    Ok(schema)
}

/// The text of a quoted field from `at` on, behind its opening quote, and where its closing quote
/// ends. Two quotes stand for one that does not close it.
pub open spec fn quoted(line: Seq<char>, at: int) -> Option<(Seq<char>, int)>
    decreases line.len() - at,
{
    if !(0 <= at < line.len()) {
        None
    } else if line[at] != '"' {
        after(seq![line[at]], quoted(line, at + 1))
    } else if at + 1 < line.len() && line[at + 1] == '"' {
        after(seq!['"'], quoted(line, at + 2))
    } else {
        Some((Seq::empty(), at + 1))
    }
}

/// What was read, behind `before`.
pub open spec fn after(before: Seq<char>, rest: Option<(Seq<char>, int)>) -> Option<
    (Seq<char>, int),
> {
    match rest {
        Some((text, end)) => Some((before + text, end)),
        None => None,
    }
}

/// The field that starts at `at`, and where it ends: at a comma or at the end of the line. A field
/// that starts with a quote is quoted; what stands between its closing quote and the comma
/// belongs to it too.
pub open spec fn field_at(line: Seq<char>, at: int) -> Option<(Seq<char>, int)> {
    if at < line.len() && line[at] == '"' {
        match quoted(line, at + 1) {
            Some((text, end)) => {
                let comma = crate::text::find(line, ',', end);
                Some((text + line.subrange(end, comma), comma))
            },
            None => None,
        }
    } else {
        let comma = crate::text::find(line, ',', at);
        Some((line.subrange(at, comma), comma))
    }
}

/// The fields of a line from `at` on; `None` if a quoted field has no end.
pub open spec fn fields(line: Seq<char>, at: int) -> Option<Seq<Seq<char>>>
    decreases line.len() - at,
{
    match field_at(line, at) {
        None => None,
        Some((text, end)) => if at <= end < line.len() {
            match fields(line, end + 1) {
                Some(rest) => Some(seq![text] + rest),
                None => None,
            }
        } else {
            Some(seq![text])
        },
    }
}

proof fn lemma_quoted_end(line: Seq<char>, at: int)
    requires
        0 <= at <= line.len(),
    ensures
        quoted(line, at) matches Some((_, end)) ==> at < end <= line.len(),
    decreases line.len() - at,
{
    if at < line.len() {
        if line[at] != '"' {
            lemma_quoted_end(line, at + 1);
        } else if at + 1 < line.len() && line[at + 1] == '"' {
            lemma_quoted_end(line, at + 2);
        }
    }
}

/// Reads a quoted field behind its opening quote into `out`, and returns where its closing quote
/// ends.
fn read_quoted(line: &[char], at: usize, out: &mut String) -> (r: Option<usize>)
    requires
        at <= line@.len(),
    ensures
        match quoted(line@, at as int) {
            Some((text, end)) => {
                &&& r is Some
                &&& r->0 == end
                &&& at < end <= line@.len()
                &&& final(out)@ == old(out)@ + text
            },
            None => r is None,
        },
{
    let ghost start = out@;
    let ghost mut read = Seq::<char>::empty();
    let mut i: usize = at;
    proof {
        if quoted(line@, at as int) is Some {
            assert(read + (quoted(line@, at as int)->0).0 =~= (quoted(line@, at as int)->0).0);
        }
        assert(out@ =~= start + read);
    }
    while i < line.len()
        invariant
            at <= i <= line@.len(),
            start == old(out)@,
            out@ == start + read,
            quoted(line@, at as int) == after(read, quoted(line@, i as int)),
        decreases line@.len() - i,
    {
        let c: char = line[i];
        if c != '"' {
            out.push(c);
            proof {
                let rest = quoted(line@, i + 1);
                if rest is Some {
                    assert(read + (seq![c] + (rest->0).0) =~= read.push(c) + (rest->0).0);
                }
                read = read.push(c);
                assert(out@ =~= start + read);
            }
            i += 1;
        } else if i + 1 < line.len() && line[i + 1] == '"' {
            out.push('"');
            proof {
                let rest = quoted(line@, i + 2);
                if rest is Some {
                    assert(read + (seq!['"'] + (rest->0).0) =~= read.push('"') + (rest->0).0);
                }
                read = read.push('"');
                assert(out@ =~= start + read);
            }
            i += 2;
        } else {
            proof {
                lemma_quoted_end(line@, at as int);
                assert(read + Seq::<char>::empty() =~= read);
            }
            return Some(i + 1);
        }
    }
    None
}

/// What reading the rest of a line adds to the fields read so far.
spec fn with_fields(before: Seq<Seq<char>>, rest: Option<Seq<Seq<char>>>) -> Option<
    Seq<Seq<char>>,
> {
    match rest {
        Some(f) => Some(before + f),
        None => None,
    }
}

/// Splits a line into its fields.
fn split_csv_line(line: &[char], line_no: usize) -> (r: Result<Vec<String>, IngestError>)
    ensures
        match fields(line@, 0) {
            Some(f) => r is Ok && texts(r->Ok_0@) == f,
            None => r is Err && r->Err_0@ == (IngestFault::UnterminatedQuote {
                line: line_no as int,
            }),
        },
{
    let n: usize = line.len();
    let mut found: Vec<String> = Vec::new();
    let mut at: usize = 0;
    proof {
        let start = fields(line@, 0);
        if start is Some {
            assert(Seq::<Seq<char>>::empty() + start->0 =~= start->0);
        }
        assert(texts(found@) =~= Seq::empty());
    }
    loop
        invariant
            n == line@.len(),
            at <= n,
            fields(line@, 0) == with_fields(texts(found@), fields(line@, at as int)),
        decreases n - at,
    {
        let ghost before = texts(found@);
        let mut text: String = String::new();
        let mut end: usize = at;
        if at < n && line[at] == '"' {
            match read_quoted(line, at + 1, &mut text) {
                Some(e) => {
                    end = e;
                },
                None => {
                    return Err(IngestError::UnterminatedQuote { line: line_no });
                },
            }
        }
        let comma: usize = find_char(line, ',', end);
        push_chars(&mut text, vstd::slice::slice_subrange(line, end, comma));
        proof {
            let here = field_at(line@, at as int);
            assert(here is Some);
            assert(text@ =~= (here->0).0);
            assert(comma == (here->0).1);
            assert(texts(found@.push(text)) =~= before.push(text@));
            if comma < n {
                let rest = fields(line@, comma + 1);
                if rest is Some {
                    assert(before + (seq![text@] + rest->0) =~= before.push(text@) + rest->0);
                }
            } else {
                assert(before + seq![text@] =~= before.push(text@));
            }
        }
        found.push(text);
        if comma >= n {
            return Ok(found);
        }
        at = comma + 1;
    }
}

/// `text` with every quote doubled.
pub open spec fn escaped(text: Seq<char>) -> Seq<char>
    decreases text.len(),
{
    if text.len() == 0 {
        Seq::empty()
    } else if text[0] == '"' {
        seq!['"', '"'] + escaped(text.drop_first())
    } else {
        seq![text[0]] + escaped(text.drop_first())
    }
}

/// A line of quoted fields, with commas between them.
pub open spec fn quoted_line(f: Seq<Seq<char>>) -> Seq<char>
    decreases f.len(),
{
    if f.len() == 0 {
        Seq::empty()
    } else {
        let first = seq!['"'] + escaped(f[0]) + seq!['"'];
        if f.len() == 1 {
            first
        } else {
            first + seq![','] + quoted_line(f.drop_first())
        }
    }
}

/// Fields that are quoted, with their quotes doubled, are read back, whatever they hold.
pub proof fn law_quoted_fields_read_back(f: Seq<Seq<char>>)
    requires
        f.len() > 0,
    ensures
        fields(quoted_line(f), 0) == Some(f),
{
    let line = quoted_line(f);
    assert(line.skip(0) =~= line);
    lemma_quoted_fields(line, 0, f);
}

proof fn lemma_quoted_fields(line: Seq<char>, at: int, f: Seq<Seq<char>>)
    requires
        f.len() > 0,
        0 <= at <= line.len(),
        line.skip(at) == quoted_line(f),
    ensures
        fields(line, at) == Some(f),
    decreases f.len(),
{
    let body = escaped(f[0]);
    let rest = if f.len() == 1 {
        Seq::empty()
    } else {
        seq![','] + quoted_line(f.drop_first())
    };
    assert(line.skip(at) =~= seq!['"'] + body + seq!['"'] + rest);
    assert(line[at] == line.skip(at)[0]);
    assert(line.skip(at + 1) =~= body + seq!['"'] + rest) by {
        assert(line.skip(at + 1) =~= line.skip(at).skip(1));
    }
    lemma_quoted_text(line, at + 1, f[0], rest);
    let end = at + 1 + body.len() + 1;
    assert(line.skip(end) =~= rest) by {
        assert(line.skip(end) =~= line.skip(at + 1).skip(body.len() as int + 1));
    }
    if f.len() == 1 {
        assert(line.len() == end);
        assert(f[0] + line.subrange(end, end) =~= f[0]);
        assert(f =~= seq![f[0]]);
    } else {
        assert(line[end] == line.skip(end)[0]);
        assert(f[0] + line.subrange(end, end) =~= f[0]);
        assert(line.skip(end + 1) =~= quoted_line(f.drop_first())) by {
            assert(line.skip(end + 1) =~= line.skip(end).skip(1));
        }
        lemma_quoted_fields(line, end + 1, f.drop_first());
        assert(f =~= seq![f[0]] + f.drop_first());
    }
}

proof fn lemma_quoted_text(line: Seq<char>, at: int, text: Seq<char>, rest: Seq<char>)
    requires
        0 <= at <= line.len(),
        line.skip(at) == escaped(text) + seq!['"'] + rest,
        rest.len() > 0 ==> rest[0] != '"',
    ensures
        quoted(line, at) == Some((text, at + escaped(text).len() + 1)),
    decreases text.len(),
{
    let tail = line.skip(at);
    assert(tail.len() == escaped(text).len() + 1 + rest.len());
    assert(line[at] == tail[0]);
    if text.len() == 0 {
        if at + 1 < line.len() {
            assert(line[at + 1] == tail[1]);
        }
        assert(text =~= Seq::empty());
    } else if text[0] == '"' {
        assert(escaped(text).len() >= 2);
        assert(line[at + 1] == tail[1]);
        assert(line.skip(at + 2) =~= escaped(text.drop_first()) + seq!['"'] + rest) by {
            assert(line.skip(at + 2) =~= tail.skip(2));
        }
        lemma_quoted_text(line, at + 2, text.drop_first(), rest);
        assert(seq!['"'] + text.drop_first() =~= text);
    } else {
        assert(line.skip(at + 1) =~= escaped(text.drop_first()) + seq!['"'] + rest) by {
            assert(line.skip(at + 1) =~= tail.skip(1));
        }
        lemma_quoted_text(line, at + 1, text.drop_first(), rest);
        assert(seq![text[0]] + text.drop_first() =~= text);
    }
}

/// The names in a schema.
pub open spec fn names(columns: Seq<Column>) -> Seq<Seq<char>> {
    columns.map_values(|c: Column| c.name)
}

/// The first field from `c` on that stands in an integer column and is no `i64`, or the number of
/// columns.
pub open spec fn bad_number(f: Seq<Seq<char>>, columns: Seq<Column>, c: int) -> int
    decreases columns.len() - c,
{
    if 0 <= c < columns.len() && (columns[c].ty == ColumnType::Utf8 || crate::text::i64_text(
        crate::text::trimmed(f[c]),
    ) is Some) {
        bad_number(f, columns, c + 1)
    } else {
        c
    }
}

/// The row on line number `line`, or why it is refused.
pub open spec fn row_on(text: Seq<char>, line: int, columns: Seq<Column>) -> Result<
    Seq<Seq<char>>,
    IngestFault,
> {
    match fields(text, 0) {
        None => Err(IngestFault::UnterminatedQuote { line }),
        Some(f) => if f.len() != columns.len() {
            Err(
                IngestFault::ColumnCountMismatch {
                    line,
                    expected: columns.len() as int,
                    found: f.len() as int,
                },
            )
        } else {
            let c = bad_number(f, columns, 0);
            if c < columns.len() {
                Err(IngestFault::NumericParse { line, column: columns[c].name, value: f[c] })
            } else {
                Ok(f)
            }
        },
    }
}

/// The rows on the lines from index `at` on, or why the first that is refused is refused. Empty
/// lines hold no row.
pub open spec fn rows_on(lines: Seq<Seq<char>>, at: int, columns: Seq<Column>) -> Result<
    Seq<Seq<Seq<char>>>,
    IngestFault,
>
    decreases lines.len() - at,
{
    if !(0 <= at < lines.len()) {
        Ok(Seq::empty())
    } else if lines[at].len() == 0 {
        rows_on(lines, at + 1, columns)
    } else {
        match row_on(lines[at], at + 1, columns) {
            Err(e) => Err(e),
            Ok(row) => match rows_on(lines, at + 1, columns) {
                Err(e) => Err(e),
                Ok(rest) => Ok(seq![row] + rest),
            },
        }
    }
}

/// What is wrong with the first line as a header, if anything.
pub open spec fn header_fault(lines: Seq<Seq<char>>, columns: Seq<Column>) -> Option<IngestFault> {
    if lines.len() == 0 {
        None
    } else {
        match fields(lines[0], 0) {
            None => Some(IngestFault::UnterminatedQuote { line: 1 }),
            Some(f) => if f == names(columns) {
                None
            } else {
                Some(IngestFault::HeaderMismatch { expected: names(columns), found: f })
            },
        }
    }
}

/// The rows of a text, each as its fields, or why it is refused.
pub open spec fn table_rows(raw: Seq<u8>, columns: Seq<Column>, has_header: bool) -> Result<
    Seq<Seq<Seq<char>>>,
    IngestFault,
> {
    let lines = crate::text::lines(vstd::utf8::decode_utf8(raw), 0);
    if !vstd::utf8::valid_utf8(raw) {
        Err(IngestFault::InvalidUtf8 { line: 0, column: "<file>"@ })
    } else if !has_header {
        rows_on(lines, 0, columns)
    } else {
        match header_fault(lines, columns) {
            Some(e) => Err(e),
            None => rows_on(lines, 1, columns),
        }
    }
}

/// The values of a column.
pub enum ColumnValues {
    Int64(Vec<i64>),
    Utf8(Vec<Vec<u8>>),
}

/// The values of a column, as sequences.
pub enum Values {
    Int64(Seq<i64>),
    Utf8(Seq<Seq<u8>>),
}

/// The bytes of each of a run of texts.
pub open spec fn byte_views(v: Seq<Vec<u8>>) -> Seq<Seq<u8>> {
    v.map_values(|t: Vec<u8>| t@)
}

impl View for ColumnValues {
    type V = Values;

    open spec fn view(&self) -> Values {
        match *self {
            ColumnValues::Int64(v) => Values::Int64(v@),
            ColumnValues::Utf8(v) => Values::Utf8(byte_views(v@)),
        }
    }
}

/// The values of column `c` in rows of fields.
pub open spec fn column_values(rows: Seq<Seq<Seq<char>>>, c: int, ty: ColumnType) -> Values {
    match ty {
        ColumnType::Int64 => Values::Int64(
            Seq::new(
                rows.len(),
                |r: int| crate::text::i64_text(crate::text::trimmed(rows[r][c]))->0,
            ),
        ),
        ColumnType::Utf8 => Values::Utf8(
            Seq::new(rows.len(), |r: int| vstd::utf8::encode_utf8(rows[r][c])),
        ),
    }
}

/// The file by which a column is known.
pub open spec fn column_file_name(column: Column) -> Seq<char> {
    match column.ty {
        ColumnType::Int64 => column.name + ".bin"@,
        ColumnType::Utf8 => column.name + ".offsets"@,
    }
}

/// What was read: how many rows, and the file of each column.
#[derive(Debug)]
pub struct IngestReport {
    pub rows_ingested: usize,
    pub columns_written: Vec<String>,
}

/// A table that was read.
pub struct Ingested {
    pub report: IngestReport,
    pub columns: Vec<ColumnValues>,
}

/// Whether every row has as many fields as there are columns, with an `i64` in every integer
/// column.
pub open spec fn rows_fit(rows: Seq<Seq<Seq<char>>>, columns: Seq<Column>) -> bool {
    forall|r: int|
        0 <= r < rows.len() ==> (#[trigger] rows[r]).len() == columns.len() && bad_number(
            rows[r],
            columns,
            0,
        ) >= columns.len()
}

/// Every row that is accepted has as many fields as there are columns, with an `i64` in every
/// integer column.
pub proof fn law_accepted_rows_fit(raw: Seq<u8>, columns: Seq<Column>, has_header: bool)
    ensures
        table_rows(raw, columns, has_header) matches Ok(rows) ==> rows_fit(rows, columns),
{
    let lines = crate::text::lines(vstd::utf8::decode_utf8(raw), 0);
    lemma_rows_fit(lines, 0, columns);
    if lines.len() > 0 {
        lemma_rows_fit(lines, 1, columns);
    }
}

proof fn lemma_rows_fit(lines: Seq<Seq<char>>, at: int, columns: Seq<Column>)
    requires
        0 <= at <= lines.len(),
    ensures
        rows_on(lines, at, columns) matches Ok(rows) ==> rows_fit(rows, columns),
    decreases lines.len() - at,
{
    if at < lines.len() {
        lemma_rows_fit(lines, at + 1, columns);
        if let Ok(rows) = rows_on(lines, at, columns) {
            if lines[at].len() > 0 {
                let rest = rows_on(lines, at + 1, columns)->Ok_0;
                assert forall|r: int| 0 <= r < rows.len() implies (#[trigger] rows[r]).len()
                    == columns.len() && bad_number(rows[r], columns, 0) >= columns.len() by {
                    if r > 0 {
                        assert(rows[r] == rest[r - 1]);
                    }
                }
            }
        }
    }
}

proof fn lemma_good_number(f: Seq<Seq<char>>, columns: Seq<Column>, from: int, c: int)
    requires
        0 <= from <= c < columns.len(),
        bad_number(f, columns, from) >= columns.len(),
    ensures
        columns[c].ty == ColumnType::Int64 ==> crate::text::i64_text(
            crate::text::trimmed(f[c]),
        ) is Some,
    decreases c - from,
{
    if from < c {
        lemma_good_number(f, columns, from + 1, c);
    }
}

/// The fields of each of a run of rows.
pub open spec fn row_texts(v: Seq<Vec<String>>) -> Seq<Seq<Seq<char>>> {
    v.map_values(|r: Vec<String>| texts(r@))
}

/// The row on line number `line_no`.
fn read_row(line: &[char], line_no: usize, schema: &IngestSchema) -> (r: Result<
    Vec<String>,
    IngestError,
>)
    ensures
        match row_on(line@, line_no as int, schema@) {
            Ok(row) => r is Ok && texts(r->Ok_0@) == row,
            Err(e) => r is Err && r->Err_0@ == e,
        },
{
    let row: Vec<String> = match split_csv_line(line, line_no) {
        Ok(f) => f,
        Err(e) => {
            return Err(e);
        },
    };
    let n_cols: usize = schema.columns.len();
    if row.len() != n_cols {
        return Err(
            IngestError::ColumnCountMismatch { line: line_no, expected: n_cols, found: row.len() },
        );
    }
    let mut c: usize = 0;
    while c < n_cols
        invariant
            c <= n_cols,
            n_cols == schema.columns@.len(),
            row@.len() == n_cols,
            fields(line@, 0) == Some(texts(row@)),
            bad_number(texts(row@), schema@, 0) == bad_number(texts(row@), schema@, c as int),
        decreases n_cols - c,
    {
        assert(texts(row@)[c as int] == row@[c as int]@);
        assert(schema@[c as int] == schema.columns@[c as int]@);
        match schema.columns[c].ty {
            ColumnType::Int64 => {
                let field: Vec<char> = chars_of(row[c].as_str());
                if parse_i64(trim(field.as_slice())).is_none() {
                    return Err(
                        IngestError::NumericParse {
                            line: line_no,
                            column: schema.columns[c].name.clone(),
                            value: row[c].clone(),
                        },
                    );
                }
            },
            ColumnType::Utf8 => {},
        }
        c += 1;
    }
    Ok(row)
}

/// What reading the rest of a text adds to the rows read so far.
spec fn with_rows(
    before: Seq<Seq<Seq<char>>>,
    rest: Result<Seq<Seq<Seq<char>>>, IngestFault>,
) -> Result<Seq<Seq<Seq<char>>>, IngestFault> {
    match rest {
        Ok(rows) => Ok(before + rows),
        Err(e) => Err(e),
    }
}

/// The rows on the lines from index `at` on.
fn read_rows(lines: &Vec<&[char]>, at: usize, schema: &IngestSchema) -> (r: Result<
    Vec<Vec<String>>,
    IngestError,
>)
    requires
        at <= lines@.len(),
    ensures
        match rows_on(crate::text::slices(lines@), at as int, schema@) {
            Ok(rows) => r is Ok && row_texts(r->Ok_0@) == rows,
            Err(e) => r is Err && r->Err_0@ == e,
        },
{
    let ghost all = crate::text::slices(lines@);
    let mut rows: Vec<Vec<String>> = Vec::new();
    let mut i: usize = at;
    proof {
        let start = rows_on(all, at as int, schema@);
        if start is Ok {
            assert(Seq::<Seq<Seq<char>>>::empty() + start->Ok_0 =~= start->Ok_0);
        }
        assert(row_texts(rows@) =~= Seq::empty());
    }
    while i < lines.len()
        invariant
            at <= i <= lines@.len(),
            all == crate::text::slices(lines@),
            rows_on(all, at as int, schema@) == with_rows(
                row_texts(rows@),
                rows_on(all, i as int, schema@),
            ),
        decreases lines@.len() - i,
    {
        let line: &[char] = lines[i];
        assert(all[i as int] == line@);
        if line.len() > 0 {
            let ghost before = row_texts(rows@);
            let row: Vec<String> = match read_row(line, i + 1, schema) {
                Ok(f) => f,
                Err(e) => {
                    return Err(e);
                },
            };
            proof {
                assert(row_texts(rows@.push(row)) =~= before.push(texts(row@)));
                let rest = rows_on(all, i + 1, schema@);
                if rest is Ok {
                    assert(before + (seq![texts(row@)] + rest->Ok_0) =~= before.push(texts(row@))
                        + rest->Ok_0);
                }
            }
            rows.push(row);
        }
        i += 1;
    }
    assert(row_texts(rows@) + Seq::<Seq<Seq<char>>>::empty() =~= row_texts(rows@));
    Ok(rows)
}

/// Checks the first line against the names in the schema.
fn check_header(lines: &Vec<&[char]>, schema: &IngestSchema) -> (r: Result<(), IngestError>)
    ensures
        match header_fault(crate::text::slices(lines@), schema@) {
            None => r is Ok,
            Some(e) => r is Err && r->Err_0@ == e,
        },
{
    if lines.len() == 0 {
        return Ok(());
    }
    assert(crate::text::slices(lines@)[0] == lines@[0]@);
    let found: Vec<String> = match split_csv_line(lines[0], 1) {
        Ok(f) => f,
        Err(e) => {
            return Err(e);
        },
    };
    let mut expected: Vec<String> = Vec::new();
    let mut same: bool = found.len() == schema.columns.len();
    let mut c: usize = 0;
    assert(texts(found@).take(0) =~= names(schema@).take(0));
    while c < schema.columns.len()
        invariant
            c <= schema.columns@.len(),
            texts(expected@) == names(schema@).take(c as int),
            same <==> found@.len() == schema.columns@.len() && texts(found@).take(c as int)
                == names(schema@).take(c as int),
        decreases schema.columns@.len() - c,
    {
        let name: String = schema.columns[c].name.clone();
        proof {
            let f = texts(found@);
            let g = names(schema@);
            assert(g[c as int] == name@);
            assert(g.take(c + 1) =~= g.take(c as int).push(name@));
            assert(texts(expected@.push(name)) =~= texts(expected@).push(name@));
            if found@.len() == schema.columns@.len() {
                assert(f.take(c + 1) =~= f.take(c as int).push(f[c as int]));
                if f.take(c + 1) == g.take(c + 1) {
                    assert(f.take(c as int) =~= f.take(c + 1).drop_last());
                    assert(g.take(c as int) =~= g.take(c + 1).drop_last());
                    assert(f[c as int] == f.take(c + 1).last());
                    assert(g[c as int] == g.take(c + 1).last());
                }
            }
        }
        if same && found[c] != name {
            same = false;
        }
        expected.push(name);
        c += 1;
    }
    proof {
        assert(names(schema@).take(c as int) =~= names(schema@));
        if found@.len() == schema.columns@.len() {
            assert(texts(found@).take(c as int) =~= texts(found@));
        }
    }
    if same {
        Ok(())
    } else {
        Err(IngestError::HeaderMismatch { expected, found })
    }
}

/// The values of integer column `c`.
fn int_values(rows: &Vec<Vec<String>>, c: usize) -> (r: Vec<i64>)
    requires
        forall|i: int|
            0 <= i < rows@.len() ==> c < (#[trigger] rows@[i])@.len() && crate::text::i64_text(
                crate::text::trimmed(rows@[i]@[c as int]@),
            ) is Some,
    ensures
        Values::Int64(r@) == column_values(row_texts(rows@), c as int, ColumnType::Int64),
{
    let mut values: Vec<i64> = Vec::new();
    let mut i: usize = 0;
    while i < rows.len()
        invariant
            i <= rows@.len(),
            values@.len() == i,
            forall|k: int|
                0 <= k < rows@.len() ==> c < (#[trigger] rows@[k])@.len() && crate::text::i64_text(
                    crate::text::trimmed(rows@[k]@[c as int]@),
                ) is Some,
            forall|k: int|
                0 <= k < i ==> #[trigger] values@[k] == crate::text::i64_text(
                    crate::text::trimmed(row_texts(rows@)[k][c as int]),
                )->0,
        decreases rows@.len() - i,
    {
        let ghost row = rows@[i as int];
        let field: Vec<char> = chars_of(rows[i][c].as_str());
        assert(row_texts(rows@)[i as int][c as int] == field@);
        match parse_i64(trim(field.as_slice())) {
            Some(v) => {
                values.push(v);
            },
            None => {
                values.push(0);
            },
        }
        i += 1;
    }
    assert(values@ =~= column_values(row_texts(rows@), c as int, ColumnType::Int64)->Int64_0);
    values
}

/// The values of text column `c`.
fn text_values(rows: &Vec<Vec<String>>, c: usize) -> (r: Vec<Vec<u8>>)
    requires
        forall|i: int| 0 <= i < rows@.len() ==> c < (#[trigger] rows@[i])@.len(),
    ensures
        Values::Utf8(byte_views(r@)) == column_values(
            row_texts(rows@),
            c as int,
            ColumnType::Utf8,
        ),
{
    let mut values: Vec<Vec<u8>> = Vec::new();
    let mut i: usize = 0;
    while i < rows.len()
        invariant
            i <= rows@.len(),
            values@.len() == i,
            forall|k: int| 0 <= k < rows@.len() ==> c < (#[trigger] rows@[k])@.len(),
            forall|k: int|
                0 <= k < i ==> (#[trigger] values@[k])@ == vstd::utf8::encode_utf8(
                    row_texts(rows@)[k][c as int],
                ),
        decreases rows@.len() - i,
    {
        let ghost row = rows@[i as int];
        let field: &str = rows[i][c].as_str();
        assert(row_texts(rows@)[i as int][c as int] == field@);
        values.push(vstd::slice::slice_to_vec(field.as_bytes()));
        i += 1;
    }
    assert(byte_views(values@) =~= column_values(
        row_texts(rows@),
        c as int,
        ColumnType::Utf8,
    )->Utf8_0);
    values
}

/// Reads comma-separated text into the columns of a schema. If `has_header`, the first line must
/// hold the names of the columns.
pub fn ingest_csv(raw: &[u8], schema: &IngestSchema, has_header: bool) -> (r: Result<
    Ingested,
    IngestError,
>)
    ensures
        match table_rows(raw@, schema@, has_header) {
            Ok(rows) => {
                &&& r is Ok
                &&& r->Ok_0.report.rows_ingested == rows.len()
                &&& texts(r->Ok_0.report.columns_written@) == schema@.map_values(
                    |c: Column| column_file_name(c),
                )
                &&& r->Ok_0.columns@.len() == schema@.len()
                &&& forall|c: int|
                    0 <= c < schema@.len() ==> (#[trigger] r->Ok_0.columns@[c])@ == column_values(
                        rows,
                        c,
                        schema@[c].ty,
                    )
            },
            Err(e) => r is Err && r->Err_0@ == e,
        },
{
    let text: &str = match core::str::from_utf8(raw) {
        Ok(t) => t,
        Err(_) => {
            let mut column: String = String::new();
            push_text(&mut column, "<file>");
            assert(column@ =~= "<file>"@);
            return Err(IngestError::InvalidUtf8 { line: 0, column });
        },
    };
    proof {
        vstd::utf8::encode_utf8_decode_utf8(text@);
    }
    let chars: Vec<char> = chars_of(text);
    let lines: Vec<&[char]> = crate::text::split_lines(chars.as_slice());
    let mut first: usize = 0;
    if has_header {
        match check_header(&lines, schema) {
            Ok(_) => {},
            Err(e) => {
                return Err(e);
            },
        }
        if lines.len() > 0 {
            first = 1;
        }
    }
    let rows: Vec<Vec<String>> = match read_rows(&lines, first, schema) {
        Ok(rows) => rows,
        Err(e) => {
            return Err(e);
        },
    };
    let ghost all = row_texts(rows@);
    proof {
        law_accepted_rows_fit(raw@, schema@, has_header);
        assert(table_rows(raw@, schema@, has_header) == Ok::<
            Seq<Seq<Seq<char>>>,
            IngestFault,
        >(all));
    }
    let mut columns: Vec<ColumnValues> = Vec::new();
    let mut columns_written: Vec<String> = Vec::new();
    let mut c: usize = 0;
    while c < schema.columns.len()
        invariant
            c <= schema.columns@.len(),
            all == row_texts(rows@),
            rows_fit(all, schema@),
            columns@.len() == c,
            columns_written@.len() == c,
            forall|k: int|
                0 <= k < c ==> (#[trigger] columns@[k])@ == column_values(all, k, schema@[k].ty),
            forall|k: int|
                0 <= k < c ==> (#[trigger] columns_written@[k])@ == column_file_name(schema@[k]),
        decreases schema.columns@.len() - c,
    {
        proof {
            assert(schema@[c as int] == schema.columns@[c as int]@);
            assert forall|i: int| 0 <= i < rows@.len() implies c < (#[trigger] rows@[i])@.len()
                && (schema@[c as int].ty == ColumnType::Int64 ==> crate::text::i64_text(
                crate::text::trimmed(rows@[i]@[c as int]@),
            ) is Some) by {
                assert(all[i] == texts(rows@[i]@));
                assert(all[i][c as int] == rows@[i]@[c as int]@);
                lemma_good_number(all[i], schema@, 0, c as int);
            }
        }
        let mut file: String = schema.columns[c].name.clone();
        match schema.columns[c].ty {
            ColumnType::Int64 => {
                columns.push(ColumnValues::Int64(int_values(&rows, c)));
                push_text(&mut file, ".bin");
            },
            ColumnType::Utf8 => {
                columns.push(ColumnValues::Utf8(text_values(&rows, c)));
                push_text(&mut file, ".offsets");
            },
        }
        columns_written.push(file);
        c += 1;
    }
    assert(texts(columns_written@) =~= schema@.map_values(|q: Column| column_file_name(q)));
    Ok(
        Ingested {
            report: IngestReport { rows_ingested: rows.len(), columns_written },
            columns,
        },
    )
}

/// A file of a column.
pub struct ColumnFile {
    pub name: String,
    pub bytes: Vec<u8>,
}

/// A file of a column, as sequences.
pub struct FileImage {
    pub name: Seq<char>,
    pub bytes: Seq<u8>,
}

impl View for ColumnFile {
    type V = FileImage;

    open spec fn view(&self) -> FileImage {
        FileImage { name: self.name@, bytes: self.bytes@ }
    }
}

/// The files of each of a run of files.
pub open spec fn images(v: Seq<ColumnFile>) -> Seq<FileImage> {
    v.map_values(|f: ColumnFile| f@)
}

/// The files of an integer column: the values, the companion, and a zone map unless there are too
/// many pages for one.
pub open spec fn int_files(name: Seq<char>, values: Seq<i64>, page_size: nat) -> Seq<FileImage> {
    let meta = crate::columnar::Int64ColumnMeta { row_count: values.len() as u64 };
    let z = crate::zonemap::zones(values, crate::columnar::rows_per_page(page_size) as int);
    let two = seq![
        FileImage {
            name: name + ".bin"@,
            bytes: crate::columnar::i64_file(values, page_size),
        },
        FileImage { name: name + ".meta"@, bytes: meta.bytes() },
    ];
    if z.len() > crate::zonemap::MAX_ZONE_PAGES {
        two
    } else {
        two.push(FileImage { name: name + ".zmap"@, bytes: crate::zonemap::zone_file(z) })
    }
}

/// The files of a text column: the offsets, the blob and the companion.
pub open spec fn text_files(name: Seq<char>, values: Seq<Seq<u8>>, page_size: nat) -> Seq<
    FileImage,
> {
    let meta = crate::columnar::Utf8ColumnMeta {
        row_count: values.len() as u64,
        blob_len: values.flatten().len() as u64,
    };
    seq![
        FileImage {
            name: name + ".offsets"@,
            bytes: crate::columnar::offsets_file(values, page_size),
        },
        FileImage { name: name + ".blob"@, bytes: values.flatten() },
        FileImage { name: name + ".meta"@, bytes: meta.bytes() },
    ]
}

/// The values of an integer column are read back from its files, and its zone map, where there is
/// one, describes them.
pub proof fn law_int_files_read_back(name: Seq<char>, values: Seq<i64>, page_size: nat)
    requires
        page_size > 0,
        page_size % 8 == 0,
        values.len() <= u64::MAX,
    ensures
        ({
            let files = int_files(name, values, page_size);
            let z = crate::zonemap::zones(
                values,
                crate::columnar::rows_per_page(page_size) as int,
            );
            &&& crate::columnar::opened_with(files[0].bytes, files[1].bytes) == Ok::<
                Seq<i64>,
                StorageError,
            >(values)
            &&& crate::columnar::opened_beside(files[0].bytes, Some(files[1].bytes)) == Ok::<
                Seq<i64>,
                StorageError,
            >(values)
            &&& files.len() == 3 ==> crate::zonemap::loaded(files[2].bytes) == Ok::<
                Seq<crate::zonemap::ZonePage>,
                crate::zonemap::ZoneMapError,
            >(z)
        }),
{
    crate::columnar::law_i64_column_reads_back(values, page_size);
    let z = crate::zonemap::zones(values, crate::columnar::rows_per_page(page_size) as int);
    if z.len() <= crate::zonemap::MAX_ZONE_PAGES {
        crate::zonemap::law_zone_map_reads_back(z);
    }
}

/// The texts of a column are read back from its files.
pub proof fn law_text_files_read_back(name: Seq<char>, values: Seq<Seq<u8>>, page_size: nat)
    requires
        page_size > 0,
        page_size % 8 == 0,
        values.len() <= u64::MAX,
        values.flatten().len() <= u32::MAX,
    ensures
        ({
            let files = text_files(name, values, page_size);
            let opened = crate::columnar::opened_text(
                files[0].bytes,
                files[1].bytes,
                Some(files[2].bytes),
            );
            &&& opened is Ok
            &&& opened->Ok_0.row_count == values.len()
            &&& forall|i: int|
                0 <= i < values.len() ==> crate::columnar::text_row(
                    files[0].bytes,
                    files[1].bytes,
                    opened->Ok_0.row_count as int,
                    i,
                ) == Some(#[trigger] values[i])
        }),
{
    crate::columnar::law_text_column_reads_back(values, page_size);
}

/// A file of the column called `name`.
fn column_file(name: &str, suffix: &str, bytes: Vec<u8>) -> (r: ColumnFile)
    ensures
        r@ == (FileImage { name: name@ + suffix@, bytes: bytes@ }),
{
    let mut whole: String = String::new();
    push_text(&mut whole, name);
    push_text(&mut whole, suffix);
    assert(whole@ =~= name@ + suffix@);
    ColumnFile { name: whole, bytes }
}

/// Lays out the files of a column, for pages of `page_size` bytes.
pub fn column_files(name: &str, values: &ColumnValues, page_size: usize) -> (r: Result<
    Vec<ColumnFile>,
    StorageError,
>)
    requires
        page_size > 0,
        page_size % 8 == 0,
    ensures
        match values@ {
            Values::Int64(v) => r is Ok && images(r->Ok_0@) == int_files(
                name@,
                v,
                page_size as nat,
            ),
            Values::Utf8(v) => if v.flatten().len() <= u32::MAX {
                r is Ok && images(r->Ok_0@) == text_files(name@, v, page_size as nat)
            } else {
                r is Err && crate::columnar::too_long(v, r->Err_0)
            },
        },
{
    let mut files: Vec<ColumnFile> = Vec::new();
    match values {
        ColumnValues::Int64(v) => {
            let image = crate::columnar::write_i64_column_bin(v.as_slice(), page_size);
            let zmap = crate::zonemap::write_zonemap_for_column(
                image.bin.as_slice(),
                Some(image.meta.as_slice()),
                page_size,
            );
            proof {
                assert(v.len() <= usize::MAX);
                crate::columnar::law_i64_column_reads_back(v@, page_size as nat);
            }
            files.push(column_file(name, ".bin", image.bin));
            files.push(column_file(name, ".meta", image.meta));
            match zmap {
                Ok(z) => {
                    files.push(column_file(name, ".zmap", z.zmap));
                },
                Err(_) => {},
            }
            assert(images(files@) =~= int_files(name@, v@, page_size as nat));
            Ok(files)
        },
        ColumnValues::Utf8(v) => {
            let mut refs: Vec<&[u8]> = Vec::new();
            let mut i: usize = 0;
            while i < v.len()
                invariant
                    i <= v@.len(),
                    refs@.len() == i,
                    forall|k: int| 0 <= k < i ==> (#[trigger] refs@[k])@ == v@[k]@,
                decreases v@.len() - i,
            {
                refs.push(v[i].as_slice());
                i += 1;
            }
            assert(crate::columnar::views(refs@) =~= byte_views(v@));
            match crate::columnar::write_utf8_column_files(refs.as_slice(), page_size) {
                Ok(image) => {
                    files.push(column_file(name, ".offsets", image.offsets));
                    files.push(column_file(name, ".blob", image.blob));
                    files.push(column_file(name, ".meta", image.meta));
                    assert(images(files@) =~= text_files(
                        name@,
                        byte_views(v@),
                        page_size as nat,
                    ));
                    Ok(files)
                },
                Err(e) => Err(e),
            }
        },
    }
}

} // verus!
