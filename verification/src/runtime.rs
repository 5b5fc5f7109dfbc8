//! The engine: runs a parsed pipeline over the tables of a catalog.

use vstd::prelude::*;
use crate::columnar::StorageError;
use crate::flow::{Fault, Flow, Group, OutView, Source, MAX_PROJECT};
use crate::kernels::{
    arith_i64, execute_chunk_parallel, filter_i64_chunked, lsd_radix_sort_ages, vector_merge_join,
    ArithOp, CompareOp,
};
use crate::lexer::{Token, TokenKind, MAX_TOKENS};
use crate::parser::{parse_query, AstArena, AstNode, NodeKind, ParserError, NIL};
use crate::storage::{
    Catalog, ColName, ColumnMeta, Int64Column, PhysType, SelectionVector, Table, Utf8Column,
    MAX_COLUMNS, MAX_ROWS, NAME_CAP,
};

verus! {

/// Why a query fails.
#[derive(Copy, Clone, Debug, PartialEq, Eq)]
pub enum EngineError {
    /// The query cannot be parsed, or its tree does not have the shape of a pipeline.
    ParseFailed,
    /// There is no such table (then the column is empty), or no such column in it. The names
    /// are filled up with zeros.
    ColumnNotFound { table: [u8; NAME_CAP], column: [u8; NAME_CAP] },
    /// A number literal does not fit into 64 bits.
    LiteralOverflow,
    /// A column file cannot be read.
    IoError,
}

impl From<StorageError> for EngineError {
    /// Whatever is wrong with a column file, it cannot be read.
    fn from(e: StorageError) -> (r: Self) {
        EngineError::IoError
    }
}

impl vstd::std_specs::convert::FromSpecImpl<StorageError> for EngineError {
    open spec fn obeys_from_spec() -> bool {
        true
    }

    open spec fn from_spec(e: StorageError) -> Self {
        EngineError::IoError
    }
}

impl EngineError {
    /// Whether this is the error for `f`.
    pub open spec fn is_fault(&self, f: Fault) -> bool {
        match (self, f) {
            (EngineError::ParseFailed, Fault::Shape) => true,
            (
                EngineError::ColumnNotFound { table, column },
                Fault::NotFound { table: t, column: c },
            ) => table@ == t && column@ == c,
            _ => false,
        }
    }
}

/// The error of a table or column that is not there.
fn column_not_found(table: &[u8], column: &[u8]) -> (e: EngineError)
    ensures
        e.is_fault(crate::flow::not_found(table@, column@)),
{
    EngineError::ColumnNotFound {
        table: ColName::from_bytes(table).bytes,
        column: ColName::from_bytes(column).bytes,
    }
}

/// The error of a table that is not there.
fn table_not_found(table: &[u8]) -> (e: EngineError)
    ensures
        e.is_fault(crate::flow::not_found(table@, Seq::empty())),
{
    let none = vstd::slice::slice_subrange(table, 0, 0);
    assert(none@ =~= Seq::<u8>::empty());
    column_not_found(table, none)
}

/// The bytes before the first zero.
pub fn trim_z(buf: &[u8]) -> (r: &[u8])
    ensures
        r@.len() <= buf@.len(),
        r@ == buf@.take(r@.len() as int),
        forall|i: int| 0 <= i < r@.len() ==> r@[i] != 0,
        r@.len() < buf@.len() ==> buf@[r@.len() as int] == 0,
{
    let mut n: usize = 0;
    while n < buf.len() && buf[n] != 0
        invariant
            n <= buf@.len(),
            forall|i: int| 0 <= i < n ==> buf@[i] != 0,
        decreases buf@.len() - n,
    {
        n += 1;
    }
    vstd::slice::slice_subrange(buf, 0, n)
}

/// The result of a query.
pub struct QueryResult {
    pub schema: [ColumnMeta; MAX_PROJECT],
    pub col_count: u16,
    pub row_count: u16,
    /// Output columns of numbers.
    pub int_out: [Box<Int64Column>; MAX_PROJECT],
    /// Output columns of texts.
    pub utf8_out: [Box<Utf8Column>; MAX_PROJECT],
    /// Type of each output column.
    pub types: [PhysType; MAX_PROJECT],
    /// Which output columns are in use.
    pub live: [u8; MAX_PROJECT],
}

impl QueryResult {
    /// What the result holds.
    pub open spec fn view(&self) -> OutView {
        OutView {
            schema: Seq::new(MAX_PROJECT as nat, |c: int| self.schema@[c]@),
            types: self.types@,
            live: self.live@,
            ints: Seq::new(MAX_PROJECT as nat, |c: int| self.int_out@[c]@),
            texts: Seq::new(MAX_PROJECT as nat, |c: int| self.utf8_out@[c]@),
            col_count: self.col_count as nat,
            row_count: self.row_count as nat,
        }
    }

    /// The columns and rows lie in the buffers, and so do the names and texts in theirs.
    pub open spec fn wf(&self) -> bool {
        &&& self.col_count <= MAX_PROJECT
        &&& self.row_count <= MAX_ROWS
        &&& forall|c: int| 0 <= c < self.col_count ==> (#[trigger] self.schema@[c]).name.wf()
        &&& forall|c: int| 0 <= c < MAX_PROJECT ==> (#[trigger] self.utf8_out@[c]).wf()
    }

    /// No columns and no rows: every schema entry empty, every number zero, every text empty.
    pub open spec fn is_blank(&self) -> bool {
        &&& self.col_count == 0
        &&& self.row_count == 0
        &&& self.types@ == Seq::new(MAX_PROJECT as nat, |c: int| PhysType::Null)
        &&& self.live@ == Seq::new(MAX_PROJECT as nat, |c: int| 0u8)
        &&& forall|c: int|
            0 <= c < MAX_PROJECT ==> (#[trigger] self.schema@[c])@ == crate::storage::meta_view(
                Seq::empty(),
                PhysType::Null,
            )
        &&& forall|c: int|
            0 <= c < MAX_PROJECT ==> (#[trigger] self.int_out@[c])@ == crate::storage::zero_ints()
        &&& forall|c: int|
            0 <= c < MAX_PROJECT ==> (#[trigger] self.utf8_out@[c])@
                == crate::storage::empty_texts()
    }

    /// A result without columns and rows.
    pub fn new() -> (r: Self)
        ensures
            r.is_blank(),
            r.wf(),
    {
        let schema = [
            ColumnMeta::empty(),
            ColumnMeta::empty(),
            ColumnMeta::empty(),
            ColumnMeta::empty(),
            ColumnMeta::empty(),
            ColumnMeta::empty(),
            ColumnMeta::empty(),
            ColumnMeta::empty(),
        ];
        let types = [
            PhysType::Null,
            PhysType::Null,
            PhysType::Null,
            PhysType::Null,
            PhysType::Null,
            PhysType::Null,
            PhysType::Null,
            PhysType::Null,
        ];
        assert(types@ =~= Seq::new(MAX_PROJECT as nat, |c: int| PhysType::Null));
        let r = QueryResult {
            schema,
            col_count: 0,
            row_count: 0,
            int_out: [
                Box::new(Int64Column::new()),
                Box::new(Int64Column::new()),
                Box::new(Int64Column::new()),
                Box::new(Int64Column::new()),
                Box::new(Int64Column::new()),
                Box::new(Int64Column::new()),
                Box::new(Int64Column::new()),
                Box::new(Int64Column::new()),
            ],
            utf8_out: [
                Box::new(Utf8Column::new()),
                Box::new(Utf8Column::new()),
                Box::new(Utf8Column::new()),
                Box::new(Utf8Column::new()),
                Box::new(Utf8Column::new()),
                Box::new(Utf8Column::new()),
                Box::new(Utf8Column::new()),
                Box::new(Utf8Column::new()),
            ],
            types,
            live: [0u8; MAX_PROJECT],
        };
        assert(r.live@ =~= Seq::new(MAX_PROJECT as nat, |c: int| 0u8));
        r
    }

    /// A result without columns and rows, on the heap.
    pub fn new_boxed() -> (r: Box<Self>)
        ensures
            r.is_blank(),
            r.wf(),
    {
        Box::new(Self::new())
    }
}

impl Default for QueryResult {
    /// A result without columns and rows.
    fn default() -> (r: Self)
        ensures
            r.is_blank(),
            r.wf(),
    {
        Self::new()
    }
}

/// A buffer of values, all zero.
pub open spec fn zero_values() -> Seq<i64> {
    Seq::new(MAX_ROWS as nat, |i: int| 0i64)
}

/// A buffer of rows, all zero.
pub open spec fn zero_rows() -> Seq<u16> {
    Seq::new(MAX_ROWS as nat, |i: int| 0u16)
}

/// The groups of a grouping, in ascending order of their keys.
pub struct GroupedAgg {
    pub len: u16,
    pub keys: [i64; MAX_ROWS],
    /// Rows of each group.
    pub count: [i64; MAX_ROWS],
    pub sum: [i64; MAX_ROWS],
    pub min: [i64; MAX_ROWS],
    pub max: [i64; MAX_ROWS],
    /// Where the members of each group start.
    pub start: [u16; MAX_ROWS],
    /// Rows of all groups.
    pub used: u16,
    /// Source rows, group after group.
    pub member_left: [u16; MAX_ROWS],
    /// Joined rows, group after group.
    pub member_right: [u16; MAX_ROWS],
}

impl GroupedAgg {
    /// The groups lie in the buffers, none is empty, and their rows are rows of tables.
    pub open spec fn wf(&self) -> bool {
        &&& self.len <= MAX_ROWS
        &&& self.used <= MAX_ROWS
        &&& forall|g: int|
            #![trigger self.count@[g]]
            0 <= g < self.len ==> 1 <= self.count@[g] && self.start@[g] + self.count@[g]
                <= self.used
        &&& forall|j: int| 0 <= j < self.used ==> #[trigger] self.member_left@[j] < MAX_ROWS
        &&& forall|j: int| 0 <= j < self.used ==> #[trigger] self.member_right@[j] < MAX_ROWS
    }

    /// The rows of group `g`.
    pub open spec fn members(&self, g: int) -> Seq<(u16, u16)> {
        Seq::new(
            self.count@[g] as nat,
            |j: int|
                (self.member_left@[self.start@[g] + j], self.member_right@[self.start@[g] + j]),
        )
    }

    /// The groups.
    pub open spec fn view(&self) -> Seq<Group> {
        Seq::new(
            self.len as nat,
            |g: int|
                Group {
                    key: self.keys@[g],
                    members: self.members(g),
                    sum: self.sum@[g],
                    min: self.min@[g],
                    max: self.max@[g],
                },
        )
    }

    /// No groups, in buffers of zeros.
    pub open spec fn is_blank(&self) -> bool {
        &&& self.len == 0
        &&& self.used == 0
        &&& self.keys@ == zero_values()
        &&& self.count@ == zero_values()
        &&& self.sum@ == zero_values()
        &&& self.min@ == zero_values()
        &&& self.max@ == zero_values()
        &&& self.start@ == zero_rows()
        &&& self.member_left@ == zero_rows()
        &&& self.member_right@ == zero_rows()
    }

    /// No groups.
    pub fn new() -> (r: Self)
        ensures
            r.is_blank(),
            r.wf(),
    {
        let r = GroupedAgg {
            len: 0,
            used: 0,
            keys: [0i64; MAX_ROWS],
            count: [0i64; MAX_ROWS],
            sum: [0i64; MAX_ROWS],
            min: [0i64; MAX_ROWS],
            max: [0i64; MAX_ROWS],
            start: [0u16; MAX_ROWS],
            member_left: [0u16; MAX_ROWS],
            member_right: [0u16; MAX_ROWS],
        };
        assert(r.keys@ =~= zero_values());
        assert(r.count@ =~= zero_values());
        assert(r.sum@ =~= zero_values());
        assert(r.min@ =~= zero_values());
        assert(r.max@ =~= zero_values());
        assert(r.start@ =~= zero_rows());
        assert(r.member_left@ =~= zero_rows());
        assert(r.member_right@ =~= zero_rows());
        r
    }
}

/// Buffers that a query works in.
pub struct RuntimeScratch {
    /// Slots in the pipeline, in order.
    pub order: [u16; MAX_ROWS],
    /// Source row of each slot.
    pub join_left: [u16; MAX_ROWS],
    /// Joined row of each slot.
    pub join_right: [u16; MAX_ROWS],
    /// Sorted left rows of a join.
    pub left_order: [u16; MAX_ROWS],
    /// Sorted right rows of a join.
    pub right_order: [u16; MAX_ROWS],
    /// Scatter buffer of a sort.
    pub tmp_u16: [u16; MAX_ROWS],
    /// Left keys of a join, dense.
    pub left_dense: [i64; MAX_ROWS],
    /// Source row of each dense left key.
    pub left_remap: [u16; MAX_ROWS],
    /// Values of a column by slot.
    pub key_buf: [i64; MAX_ROWS],
    /// The derived column by slot.
    pub derived: [i64; MAX_ROWS],
    /// Its name.
    pub derived_name: ColName,
    /// `1` if there is a derived column.
    pub has_derived: u8,
    /// The groups of the last grouping.
    pub groups: Box<GroupedAgg>,
}

impl RuntimeScratch {
    /// Buffers of zeros, without a derived column or groups.
    pub open spec fn is_blank(&self) -> bool {
        &&& self.order@ == zero_rows()
        &&& self.join_left@ == zero_rows()
        &&& self.join_right@ == zero_rows()
        &&& self.left_order@ == zero_rows()
        &&& self.right_order@ == zero_rows()
        &&& self.tmp_u16@ == zero_rows()
        &&& self.left_dense@ == zero_values()
        &&& self.left_remap@ == zero_rows()
        &&& self.key_buf@ == zero_values()
        &&& self.derived@ == zero_values()
        &&& self.derived_name.is_padded()
        &&& self.derived_name@ == Seq::<u8>::empty()
        &&& self.has_derived == 0
        &&& self.groups.is_blank()
    }

    /// What can be read after a query: the flag is `0` or `1`, the name of the derived column
    /// lies in its buffer with zeros behind it, and the groups are well formed.
    pub open spec fn is_tidy(&self) -> bool {
        &&& self.has_derived <= 1
        &&& self.derived_name.is_padded()
        &&& self.groups.wf()
    }

    /// Buffers of zeros, without a derived column or groups.
    pub fn new() -> (r: Self)
        ensures
            r.is_blank(),
            r.is_tidy(),
    {
        let r = RuntimeScratch {
            order: [0u16; MAX_ROWS],
            join_left: [0u16; MAX_ROWS],
            join_right: [0u16; MAX_ROWS],
            left_order: [0u16; MAX_ROWS],
            right_order: [0u16; MAX_ROWS],
            tmp_u16: [0u16; MAX_ROWS],
            left_dense: [0i64; MAX_ROWS],
            left_remap: [0u16; MAX_ROWS],
            key_buf: [0i64; MAX_ROWS],
            derived: [0i64; MAX_ROWS],
            derived_name: ColName::empty(),
            has_derived: 0,
            groups: Box::new(GroupedAgg::new()),
        };
        assert(r.order@ =~= zero_rows());
        assert(r.join_left@ =~= zero_rows());
        assert(r.join_right@ =~= zero_rows());
        assert(r.left_order@ =~= zero_rows());
        assert(r.right_order@ =~= zero_rows());
        assert(r.tmp_u16@ =~= zero_rows());
        assert(r.left_dense@ =~= zero_values());
        assert(r.left_remap@ =~= zero_rows());
        assert(r.key_buf@ =~= zero_values());
        assert(r.derived@ =~= zero_values());
        r
    }

    /// Buffers of zeros, on the heap.
    pub fn new_boxed() -> (r: Box<Self>)
        ensures
            r.is_blank(),
            r.is_tidy(),
    {
        Box::new(Self::new())
    }
}

impl Default for RuntimeScratch {
    /// Buffers of zeros.
    fn default() -> (r: Self)
        ensures
            r.is_blank(),
            r.is_tidy(),
    {
        Self::new()
    }
}

/// The arithmetic that a token stands for.
fn arith_from_token(kind: TokenKind) -> (r: Option<ArithOp>)
    ensures
        r == crate::flow::arithmetic_of(kind),
{
    match kind {
        TokenKind::Star => Some(ArithOp::Mul),
        TokenKind::Plus => Some(ArithOp::Add),
        TokenKind::Minus => Some(ArithOp::Sub),
        _ => None,
    }
}

/// The comparison that a token stands for.
fn compare_from_token(kind: TokenKind) -> (r: Option<CompareOp>)
    ensures
        r == crate::flow::comparison_of(kind),
{
    match kind {
        TokenKind::Gt => Some(CompareOp::Gt),
        TokenKind::Lt => Some(CompareOp::Lt),
        TokenKind::Eq => Some(CompareOp::Eq),
        _ => None,
    }
}

/// Where a running pipeline stands.
pub struct Cursor<'a> {
    /// The source relation.
    pub left: Option<&'a Table>,
    /// The relation joined last.
    pub right: Option<&'a Table>,
    /// Whether slots are looked up in the row maps of the scratch buffers.
    pub mapped: bool,
    /// Number of slots.
    pub slots: usize,
    /// Slots that the filters have kept.
    pub sel: SelectionVector,
    /// Slots in the order.
    pub order_len: usize,
    /// Whether the order comes from a sort.
    pub sorted: bool,
}

/// A reference, read as the value it refers to.
pub open spec fn table_of(t: Option<&Table>) -> Option<Table> {
    match t {
        Some(x) => Some(*x),
        None => None,
    }
}

impl<'a> Cursor<'a> {
    /// The row of each slot, given the row map.
    pub open spec fn rows(&self, map: Seq<u16>) -> Seq<u16> {
        if self.mapped {
            map.take(self.slots as int)
        } else {
            crate::order::iota(self.slots as nat)
        }
    }

    /// The flow that a cursor and its buffers stand for.
    pub open spec fn flow(&self, s: RuntimeScratch, out: OutView) -> Flow {
        Flow {
            left: table_of(self.left),
            right: table_of(self.right),
            mapped: self.mapped,
            lrow: self.rows(s.join_left@),
            rrow: self.rows(s.join_right@),
            keep: self.sel@,
            order: s.order@.take(self.order_len as int),
            sorted: self.sorted,
            has_derived: s.has_derived,
            derived_name: s.derived_name@,
            derived: s.derived@,
            groups: s.groups@,
            out,
        }
    }

    /// The tables are well formed, and every slot is one and stands for rows.
    pub open spec fn wf(&self, s: RuntimeScratch) -> bool {
        &&& self.slots <= MAX_ROWS
        &&& self.sel.wf()
        &&& self.sel.len == self.slots
        &&& self.order_len <= self.slots
        &&& forall|i: int| 0 <= i < self.order_len ==> #[trigger] s.order@[i] < self.slots
        &&& self.mapped ==> forall|i: int|
            0 <= i < self.slots ==> #[trigger] s.join_left@[i] < MAX_ROWS
        &&& self.mapped ==> forall|i: int|
            0 <= i < self.slots ==> #[trigger] s.join_right@[i] < MAX_ROWS
        &&& self.left matches Some(t) ==> t.wf()
        &&& self.right matches Some(t) ==> t.wf()
        &&& self.left is Some ==> s.is_tidy()
        &&& self.left is None ==> self.slots == 0 && !self.mapped
        &&& !self.mapped ==> self.right is None
    }

    /// The cursor before the first stage.
    fn start() -> (r: Self)
        ensures
            forall|s: RuntimeScratch| #[trigger] r.wf(s),
            r.left is None,
            r.right is None,
            !r.mapped,
            r.slots == 0,
            r.order_len == 0,
            !r.sorted,
            r.sel@ == Seq::<bool>::empty(),
    {
        let r = Cursor {
            left: None,
            right: None,
            mapped: false,
            slots: 0,
            sel: SelectionVector::all(0),
            order_len: 0,
            sorted: false,
        };
        assert(r.sel@ =~= Seq::<bool>::empty());
        r
    }
}

/// An engine: a catalog, and the source that the names of a tree refer to.
pub struct Engine<'a> {
    pub catalog: &'a Catalog,
    pub src: &'a [u8],
}

/// A kept byte and-ed with a comparison keeps the row if both do.
proof fn lemma_mask_and(m: u8)
    requires
        m <= 1,
    ensures
        m & 1u8 == m,
        m & 0u8 == 0u8,
{
    assert(m & 1u8 == m) by (bit_vector)
        requires
            m <= 1,
    ;
    assert(m & 0u8 == 0u8) by (bit_vector);
}

impl<'a> Engine<'a> {
    /// An engine for the names in `src`.
    pub fn new(catalog: &'a Catalog, src: &'a [u8]) -> (r: Self)
        ensures
            r.catalog == catalog,
            r.src@ == src@,
    {
        Engine { catalog, src }
    }

    /// The text of a node.
    fn ident_bytes(&self, node: &AstNode) -> (r: &'a [u8])
        ensures
            r@ == crate::flow::name_of(self.src@, *node),
    {
        let s: usize = node.start as usize;
        let e: usize = node.end as usize;
        if s <= e && e <= self.src.len() {
            vstd::slice::slice_subrange(self.src, s, e)
        } else {
            vstd::slice::slice_subrange(self.src, 0, 0)
        }
    }

    /// The name that node `id` gives, which has to be the node of a name.
    fn expect_ident_bytes(&self, arena: &AstArena, id: u32) -> (r: Result<&'a [u8], EngineError>)
        requires
            arena.wf(),
        ensures
            match crate::flow::name_at(self.src@, arena@, id) {
                Some(name) => r is Ok && r->Ok_0@ == name,
                None => r is Err && r->Err_0 is ParseFailed,
            },
    {
        match arena.get(id) {
            Some(n) => {
                if n.kind == NodeKind::Ident {
                    Ok(self.ident_bytes(n))
                } else {
                    Err(EngineError::ParseFailed)
                }
            },
            None => Err(EngineError::ParseFailed),
        }
    }

    /// Keeps, of the rows in view, those whose value is greater than `lit`.
    pub fn filter_i64_gt(
        values: &[i64; MAX_ROWS],
        sel: &mut SelectionVector,
        rows: usize,
        lit: i64,
    )
        ensures
            final(sel).len == old(sel).len,
            final(sel).mask@ == crate::kernels::filtered_mask(
                old(sel).mask@,
                values@,
                crate::kernels::filter_rows(rows, old(sel).len),
                CompareOp::Gt,
                lit,
            ),
    {
        filter_i64_chunked(values, sel, rows, lit, CompareOp::Gt);
    }

    /// Keeps, of the rows in view, those whose value is less than `lit`.
    pub fn filter_i64_lt(
        values: &[i64; MAX_ROWS],
        sel: &mut SelectionVector,
        rows: usize,
        lit: i64,
    )
        ensures
            final(sel).len == old(sel).len,
            final(sel).mask@ == crate::kernels::filtered_mask(
                old(sel).mask@,
                values@,
                crate::kernels::filter_rows(rows, old(sel).len),
                CompareOp::Lt,
                lit,
            ),
    {
        filter_i64_chunked(values, sel, rows, lit, CompareOp::Lt);
    }

    /// Keeps, of the rows in view, those whose value is `lit`.
    pub fn filter_i64_eq(
        values: &[i64; MAX_ROWS],
        sel: &mut SelectionVector,
        rows: usize,
        lit: i64,
    )
        ensures
            final(sel).len == old(sel).len,
            final(sel).mask@ == crate::kernels::filtered_mask(
                old(sel).mask@,
                values@,
                crate::kernels::filter_rows(rows, old(sel).len),
                CompareOp::Eq,
                lit,
            ),
    {
        filter_i64_chunked(values, sel, rows, lit, CompareOp::Eq);
    }

    /// Appends the rows `0..n` to `order` by the bytes of the mask and returns how far they move
    /// the list on.
    fn append_selected(sel: &SelectionVector, n: usize, order: &mut [u16; MAX_ROWS]) -> (r: usize)
        requires
            n <= MAX_ROWS,
            n > 0 ==> crate::order::taken(sel.mask@, n - 1) < MAX_ROWS,
        ensures
            r == crate::order::taken(sel.mask@, n as int),
            final(order)@ == crate::order::appended(sel.mask@, n as int, old(order)@),
    {
        let mut len: usize = 0;
        let mut i: usize = 0;
        while i < n
            invariant
                i <= n <= MAX_ROWS,
                n > 0 ==> crate::order::taken(sel.mask@, n - 1) < MAX_ROWS,
                len == crate::order::taken(sel.mask@, i as int),
                order@ == crate::order::appended(sel.mask@, i as int, old(order)@),
            decreases n - i,
        {
            proof {
                crate::order::lemma_taken_grows(sel.mask@, i as int, n - 1);
            }
            order[len] = i as u16;
            len += sel.mask[i] as usize;
            i += 1;
        }
        len
    }

    /// Appends the rows in view to `order` by the bytes of the mask, which for bytes of zero and
    /// one brings the kept rows, and sorts them stably by their values. The list has to stay in
    /// the buffer, and what it holds have to be rows.
    pub fn sort_i64_selected(
        values: &[i64; MAX_ROWS],
        sel: &SelectionVector,
        rows: usize,
        order: &mut [u16; MAX_ROWS],
        order_len: &mut usize,
        tmp: &mut [u16; MAX_ROWS],
    )
        requires
            ({
                let n = crate::kernels::filter_rows(rows, sel.len);
                let list = crate::order::appended(sel.mask@, n, old(order)@);
                let len = crate::order::taken(sel.mask@, n);
                &&& n > 0 ==> crate::order::taken(sel.mask@, n - 1) < MAX_ROWS
                &&& len <= MAX_ROWS
                &&& len > 1 ==> forall|j: int| 0 <= j < len ==> #[trigger] list[j] < MAX_ROWS
            }),
        ensures
            ({
                let n = crate::kernels::filter_rows(rows, sel.len);
                let list = crate::order::appended(sel.mask@, n, old(order)@);
                let len = crate::order::taken(sel.mask@, n) as int;
                let sorted = crate::order::stable_sort(
                    crate::order::by_value(values@),
                    list.take(len),
                );
                &&& *final(order_len) == len
                &&& final(order)@ == sorted + list.skip(len)
                &&& final(tmp)@ == crate::kernels::scattered(old(tmp)@, sorted)
            }),
    {
        let shorter: usize = if rows < sel.len as usize {
            rows
        } else {
            sel.len as usize
        };
        let n: usize = if shorter < MAX_ROWS {
            shorter
        } else {
            MAX_ROWS
        };
        let len: usize = Self::append_selected(sel, n, order);
        *order_len = len;
        let ghost list = order@;
        lsd_radix_sort_ages(values, order, len, tmp);
        proof {
            let key = crate::order::by_value(values@);
            crate::order::law_stable_sort_permutes(key, list.take(len as int));
            assert(order@.take(len as int) =~= crate::order::stable_sort(
                key,
                list.take(len as int),
            ));
        }
    }

    /// Cuts `order_len` to at most `limit`; a negative limit counts as zero.
    pub fn apply_take(order_len: &mut usize, limit: i64)
        ensures
            *final(order_len) == if limit < 0 {
                0
            } else if *old(order_len) > limit {
                limit as int
            } else {
                *old(order_len) as int
            },
    {
        if limit < 0 {
            *order_len = 0;
        } else if (*order_len as u64) > (limit as u64) {
            *order_len = limit as usize;
        }
    }
}

/// What running a stage leaves behind and returns, given what the stage means.
pub open spec fn ran(
    r: Result<(), EngineError>,
    after: Flow,
    step: crate::flow::Step,
) -> bool {
    &&& after == step.flow
    &&& match step.fault {
        None => r is Ok,
        Some(f) => r is Err && r->Err_0.is_fault(f),
    }
}

/// Fills `order[0..n]` with `0..n`.
fn fill_iota(order: &mut [u16; MAX_ROWS], n: usize)
    requires
        n <= MAX_ROWS,
    ensures
        final(order)@.take(n as int) == crate::order::iota(n as nat),
        forall|i: int| 0 <= i < n ==> #[trigger] final(order)@[i] == i,
{
    let mut i: usize = 0;
    while i < n
        invariant
            i <= n <= MAX_ROWS,
            forall|k: int| 0 <= k < i ==> #[trigger] order@[k] == k,
        decreases n - i,
    {
        order[i] = i as u16;
        i += 1;
    }
    assert(order@.take(n as int) =~= crate::order::iota(n as nat));
}

/// Writes to `out[i]`, for `i` below `n`, the value of the row that slot `i` stands for.
fn gather(
    values: &[i64; MAX_ROWS],
    mapped: bool,
    map: &[u16; MAX_ROWS],
    n: usize,
    out: &mut [i64; MAX_ROWS],
)
    requires
        n <= MAX_ROWS,
        mapped ==> forall|i: int| 0 <= i < n ==> #[trigger] map@[i] < MAX_ROWS,
    ensures
        forall|i: int|
            0 <= i < MAX_ROWS ==> #[trigger] final(out)@[i] == if i < n {
                values@[if mapped {
                    map@[i] as int
                } else {
                    i
                }]
            } else {
                old(out)@[i]
            },
{
    let mut i: usize = 0;
    while i < n
        invariant
            i <= n <= MAX_ROWS,
            mapped ==> forall|k: int| 0 <= k < n ==> #[trigger] map@[k] < MAX_ROWS,
            forall|k: int|
                0 <= k < MAX_ROWS ==> #[trigger] out@[k] == if k < i {
                    values@[if mapped {
                        map@[k] as int
                    } else {
                        k
                    }]
                } else {
                    old(out)@[k]
                },
        decreases n - i,
    {
        let row: usize = if mapped {
            map[i] as usize
        } else {
            i
        };
        out[i] = values[row];
        i += 1;
    }
}

impl<'a> Engine<'a> {
    /// Runs `இருந்து`.
    fn run_from(
        &self,
        arena: &AstArena,
        st: &AstNode,
        cur: &mut Cursor<'a>,
        scratch: &mut RuntimeScratch,
        Ghost(out): Ghost<OutView>,
    ) -> (r: Result<(), EngineError>)
        requires
            arena.wf(),
            self.catalog.wf(),
            old(cur).wf(*old(scratch)),
        ensures
            final(cur).wf(*final(scratch)),
            old(scratch).is_tidy() ==> final(scratch).is_tidy(),
            ran(
                r,
                final(cur).flow(*final(scratch), out),
                old(cur).flow(*old(scratch), out).from(*self.catalog, self.src@, arena@, *st),
            ),
    {
        let name = match self.expect_ident_bytes(arena, st.left) {
            Ok(n) => n,
            Err(e) => {
                return Err(e);
            },
        };
        let table = match self.catalog.find(name) {
            Some(t) => t,
            None => {
                return Err(table_not_found(name));
            },
        };
        let rows: usize = if (table.row_count as usize) < MAX_ROWS {
            table.row_count as usize
        } else {
            MAX_ROWS
        };
        cur.slots = rows;
        cur.sel = SelectionVector::all(rows);
        cur.order_len = rows;
        cur.sorted = false;
        cur.mapped = false;
        cur.right = None;
        cur.left = Some(table);
        fill_iota(&mut scratch.order, rows);
        scratch.has_derived = 0;
        scratch.derived_name = ColName::empty();
        scratch.groups.len = 0;
        scratch.groups.used = 0;
        assert(scratch.groups@ =~= Seq::<Group>::empty());
        Ok(())
    }

    /// Runs `அடுக்கு`.
    fn run_sort(
        &self,
        arena: &AstArena,
        st: &AstNode,
        cur: &mut Cursor<'a>,
        scratch: &mut RuntimeScratch,
        Ghost(out): Ghost<OutView>,
    ) -> (r: Result<(), EngineError>)
        requires
            arena.wf(),
            old(cur).wf(*old(scratch)),
        ensures
            final(cur).wf(*final(scratch)),
            old(scratch).is_tidy() ==> final(scratch).is_tidy(),
            ran(
                r,
                final(cur).flow(*final(scratch), out),
                old(cur).flow(*old(scratch), out).sort(self.src@, arena@, *st),
            ),
    {
        let ghost f = cur.flow(*scratch, out);
        let table = match cur.left {
            Some(t) => t,
            None => {
                return Err(EngineError::ParseFailed);
            },
        };
        let name = match self.expect_ident_bytes(arena, st.left) {
            Ok(n) => n,
            Err(e) => {
                return Err(e);
            },
        };
        let col: usize = match table.find_column(name) {
            Some(c) => c,
            None => {
                return Err(column_not_found(table.name.as_bytes(), name));
            },
        };
        let data = match table.int64(col) {
            Some(c) => c,
            None => {
                return Err(column_not_found(table.name.as_bytes(), name));
            },
        };
        gather(&data.values, cur.mapped, &scratch.join_left, cur.slots, &mut scratch.key_buf);
        proof {
            let s = crate::order::selected(cur.sel@, cur.slots as int);
            lemma_append_selected(cur.sel, cur.slots as int, scratch.order@);
            crate::order::lemma_selected_range(cur.sel@, cur.slots as int);
            lemma_order_prefix(
                crate::order::appended(cur.sel.mask@, cur.slots as int, scratch.order@),
                s,
                s.len() as int,
            );
        }
        Self::sort_i64_selected(
            &scratch.key_buf,
            &cur.sel,
            cur.slots,
            &mut scratch.order,
            &mut cur.order_len,
            &mut scratch.tmp_u16,
        );
        cur.sorted = true;
        proof {
            let v = f.left_column(name@)->0;
            let s = crate::order::selected(f.keep, f.slots() as int);
            crate::order::lemma_selected_range(f.keep, f.slots() as int);
            let k1 = crate::order::by_value(scratch.key_buf@);
            let k2 = crate::order::by_value(v);
            assert forall|i: int| 0 <= i < s.len() implies k1(#[trigger] s[i]) == k2(s[i]) by {
                assert(s[i] < f.slots());
            }
            lemma_sort_same_keys(k1, k2, s);
            let t = crate::order::stable_sort(k2, s);
            crate::order::law_stable_sort_permutes(k2, s);
            assert(cur.sel == old(cur).sel);
            assert(scratch.order@.take(cur.order_len as int) =~= t);
            assert forall|i: int| 0 <= i < cur.order_len implies #[trigger] scratch.order@[i]
                < cur.slots by {
                crate::order::lemma_stable_sort_elements(k2, s, i);
                assert(scratch.order@[i] == t[i]);
                let j = choose|j: int| 0 <= j < s.len() && s[j] == t[i];
                assert(s[j] < f.slots());
            }
        }
        Ok(())
    }
}

/// Keys that agree on a list sort it the same.
proof fn lemma_sort_same_keys(
    k1: spec_fn(u16) -> int,
    k2: spec_fn(u16) -> int,
    s: Seq<u16>,
)
    requires
        forall|i: int| 0 <= i < s.len() ==> k1(#[trigger] s[i]) == k2(s[i]),
    ensures
        crate::order::stable_sort(k1, s) == crate::order::stable_sort(k2, s),
    decreases s.len(),
{
    if s.len() > 0 {
        let u = s.drop_last();
        assert forall|i: int| 0 <= i < u.len() implies k1(#[trigger] u[i]) == k2(u[i]) by {
            assert(k1(s[i]) == k2(s[i]));
        }
        lemma_sort_same_keys(k1, k2, u);
        let t = crate::order::stable_sort(k2, u);
        crate::order::law_stable_sort_permutes(k2, u);
        assert forall|i: int| 0 <= i < t.len() implies k1(#[trigger] t[i]) == k2(t[i]) by {
            crate::order::lemma_stable_sort_elements(k2, u, i);
            let j = choose|j: int| 0 <= j < u.len() && u[j] == t[i];
            assert(k1(u[j]) == k2(u[j]));
        }
        assert(k1(s[s.len() - 1]) == k2(s[s.len() - 1]));
        lemma_insert_same_keys(k1, k2, t, s.last());
    }
}

proof fn lemma_insert_same_keys(
    k1: spec_fn(u16) -> int,
    k2: spec_fn(u16) -> int,
    t: Seq<u16>,
    x: u16,
)
    requires
        forall|i: int| 0 <= i < t.len() ==> k1(#[trigger] t[i]) == k2(t[i]),
        k1(x) == k2(x),
    ensures
        crate::order::insert_after(k1, t, x) == crate::order::insert_after(k2, t, x),
    decreases t.len(),
{
    if t.len() > 0 {
        assert(k1(t[t.len() - 1]) == k2(t[t.len() - 1]));
        let u = t.drop_last();
        assert forall|i: int| 0 <= i < u.len() implies k1(#[trigger] u[i]) == k2(u[i]) by {
            assert(k1(t[i]) == k2(t[i]));
        }
        lemma_insert_same_keys(k1, k2, u, x);
    }
}

/// The integer column `name` of a table.
fn int_column_named<'a>(table: &'a Table, name: &[u8]) -> (r: Option<&'a Int64Column>)
    requires
        table.wf(),
    ensures
        match table.int_values(name@) {
            Some(v) => r is Some && r->0.values@ == v,
            None => r is None,
        },
{
    match table.find_column(name) {
        Some(c) => table.int64(c),
        None => None,
    }
}

/// Keeps, of the first `n` slots, those whose value passes; without a comparison none does.
fn apply_filter(
    values: &[i64; MAX_ROWS],
    sel: &mut SelectionVector,
    n: usize,
    op: Option<CompareOp>,
    lit: i64,
)
    requires
        old(sel).wf(),
        old(sel).len == n,
    ensures
        final(sel).wf(),
        final(sel).len == n,
        final(sel)@ == Seq::new(
            n as nat,
            |i: int| old(sel)@[i] && (op is Some && op->0.holds(values@[i], lit)),
        ),
{
    match op {
        Some(CompareOp::Gt) => Engine::filter_i64_gt(values, sel, n, lit),
        Some(CompareOp::Lt) => Engine::filter_i64_lt(values, sel, n, lit),
        Some(CompareOp::Eq) => Engine::filter_i64_eq(values, sel, n, lit),
        None => {
            let mut i: usize = 0;
            while i < n
                invariant
                    i <= n <= MAX_ROWS,
                    sel.len == n,
                    forall|k: int| 0 <= k < i ==> #[trigger] sel.mask@[k] == 0,
                    forall|k: int| i <= k < n ==> #[trigger] sel.mask@[k] <= 1,
                decreases n - i,
            {
                sel.mask[i] = 0;
                i += 1;
            }
        },
    }
    proof {
        assert forall|i: int| 0 <= i < n implies #[trigger] sel.mask@[i] <= 1 && (sel.mask@[i] != 0
            <==> old(sel)@[i] && (op is Some && op->0.holds(values@[i], lit))) by {
            lemma_mask_and(old(sel).mask@[i]);
        }
        assert(sel@ =~= Seq::new(
            n as nat,
            |i: int| old(sel)@[i] && (op is Some && op->0.holds(values@[i], lit)),
        ));
    }
}

/// Drops from `order[0..len]` the slots that are not kept, and returns how many are left.
fn compact_order(sel: &SelectionVector, order: &mut [u16; MAX_ROWS], len: usize) -> (r: usize)
    requires
        sel.len <= MAX_ROWS,
        len <= MAX_ROWS,
        forall|i: int| 0 <= i < len ==> #[trigger] old(order)@[i] < sel.len,
    ensures
        r <= len,
        final(order)@.take(r as int) == crate::flow::kept(old(order)@.take(len as int), sel@),
        forall|i: int| 0 <= i < r ==> #[trigger] final(order)@[i] < sel.len,
{
    let ghost before = order@;
    let mut w: usize = 0;
    let mut k: usize = 0;
    assert(order@.take(0) =~= crate::flow::kept(before.take(0), sel@));
    while k < len
        invariant
            w <= k <= len <= MAX_ROWS,
            sel.len <= MAX_ROWS,
            before == old(order)@,
            forall|i: int| 0 <= i < len ==> #[trigger] before[i] < sel.len,
            forall|i: int| k <= i < len ==> #[trigger] order@[i] == before[i],
            forall|i: int| 0 <= i < w ==> #[trigger] order@[i] < sel.len,
            order@.take(w as int) == crate::flow::kept(before.take(k as int), sel@),
        decreases len - k,
    {
        let slot: u16 = order[k];
        proof {
            assert(before[k as int] == slot);
            assert(before.take(k as int + 1).drop_last() =~= before.take(k as int));
        }
        let ghost mid = order@;
        if sel.mask[slot as usize] != 0 {
            order[w] = slot;
            w += 1;
            assert(order@.take(w as int) =~= mid.take(w - 1).push(slot));
        }
        k += 1;
    }
    w
}

impl<'a> Engine<'a> {
    /// Runs `வடி`.
    fn run_filter(
        &self,
        arena: &AstArena,
        st: &AstNode,
        cur: &mut Cursor<'a>,
        scratch: &mut RuntimeScratch,
        Ghost(out): Ghost<OutView>,
    ) -> (r: Result<(), EngineError>)
        requires
            arena.wf(),
            old(cur).wf(*old(scratch)),
        ensures
            final(cur).wf(*final(scratch)),
            old(scratch).is_tidy() ==> final(scratch).is_tidy(),
            ran(
                r,
                final(cur).flow(*final(scratch), out),
                old(cur).flow(*old(scratch), out).filter(self.src@, arena@, *st),
            ),
    {
        let ghost f = cur.flow(*scratch, out);
        let table = match cur.left {
            Some(t) => t,
            None => {
                return Err(EngineError::ParseFailed);
            },
        };
        let bin = match arena.get(st.left) {
            Some(n) => n,
            None => {
                return Err(EngineError::ParseFailed);
            },
        };
        if bin.kind != NodeKind::BinOp {
            return Err(EngineError::ParseFailed);
        }
        let name = match self.expect_ident_bytes(arena, bin.left) {
            Ok(n) => n,
            Err(e) => {
                return Err(e);
            },
        };
        let lit: i64 = match arena.get(bin.right) {
            Some(n) => n.value,
            None => {
                return Err(EngineError::ParseFailed);
            },
        };
        let op = compare_from_token(bin.op);
        let n: usize = cur.slots;
        if scratch.has_derived != 0 && scratch.derived_name.eq_bytes(name) {
            apply_filter(&scratch.derived, &mut cur.sel, n, op, lit);
            proof {
                lemma_append_selected(cur.sel, n as int, scratch.order@);
            }
            cur.order_len = Self::append_selected(&cur.sel, n, &mut scratch.order);
            proof {
                let pass = |v: i64| op is Some && op->0.holds(v, lit);
                let g = f.filtered(|i: int| pass(f.derived[i]), false);
                assert(cur.sel@ =~= g.keep);
                crate::order::lemma_selected_range(cur.sel@, n as int);
                lemma_order_prefix(
                    scratch.order@,
                    crate::order::selected(cur.sel@, n as int),
                    cur.order_len as int,
                );
                assert(cur.flow(*scratch, out) =~= g);
            }
            return Ok(());
        }
        if cur.mapped {
            match int_column_named(table, name) {
                Some(c) => {
                    gather(&c.values, true, &scratch.join_left, n, &mut scratch.key_buf);
                },
                None => {
                    let c = match cur.right {
                        Some(t) => int_column_named(t, name),
                        None => None,
                    };
                    match c {
                        Some(c) => {
                            gather(&c.values, true, &scratch.join_right, n, &mut scratch.key_buf);
                        },
                        None => {
                            return Err(column_not_found(table.name.as_bytes(), name));
                        },
                    }
                },
            }
            apply_filter(&scratch.key_buf, &mut cur.sel, n, op, lit);
            proof {
                lemma_append_selected(cur.sel, n as int, scratch.order@);
            }
            cur.order_len = Self::append_selected(&cur.sel, n, &mut scratch.order);
            proof {
                let v = f.column(name@)->0;
                let pass = |v: i64| op is Some && op->0.holds(v, lit);
                let g = f.filtered(|i: int| pass(v[i]), false);
                assert(cur.sel@ =~= g.keep);
                crate::order::lemma_selected_range(cur.sel@, n as int);
                lemma_order_prefix(
                    scratch.order@,
                    crate::order::selected(cur.sel@, n as int),
                    cur.order_len as int,
                );
                assert(cur.flow(*scratch, out) =~= g);
            }
            return Ok(());
        }
        let c = match int_column_named(table, name) {
            Some(c) => c,
            None => {
                return Err(column_not_found(table.name.as_bytes(), name));
            },
        };
        if op.is_none() {
            return Err(EngineError::ParseFailed);
        }
        apply_filter(&c.values, &mut cur.sel, n, op, lit);
        let ghost v = f.column(name@)->0;
        let ghost pass = |v: i64| op is Some && op->0.holds(v, lit);
        let ghost g = f.filtered(|i: int| pass(v[i]), f.sorted);
        proof {
            assert(cur.sel@ =~= g.keep);
        }
        if cur.sorted {
            cur.order_len = compact_order(&cur.sel, &mut scratch.order, cur.order_len);
        } else {
            proof {
                lemma_append_selected(cur.sel, n as int, scratch.order@);
            }
            cur.order_len = Self::append_selected(&cur.sel, n, &mut scratch.order);
            proof {
                crate::order::lemma_selected_range(cur.sel@, n as int);
                lemma_order_prefix(
                    scratch.order@,
                    crate::order::selected(cur.sel@, n as int),
                    cur.order_len as int,
                );
            }
        }
        assert(cur.flow(*scratch, out) =~= g);
        Ok(())
    }
}

/// Appending by a selection stays in the buffer and brings the kept rows in front.
proof fn lemma_append_selected(sel: SelectionVector, n: int, order: Seq<u16>)
    requires
        sel.wf(),
        0 <= n <= sel.len,
        order.len() == MAX_ROWS,
    ensures
        n > 0 ==> crate::order::taken(sel.mask@, n - 1) < MAX_ROWS,
        crate::order::taken(sel.mask@, n) == crate::order::selected(sel@, n).len(),
        crate::order::taken(sel.mask@, n) <= n,
        exists|rest: Seq<u16>|
            crate::order::appended(sel.mask@, n, order) == crate::order::selected(sel@, n) + rest,
{
    crate::order::law_appending_selects(sel.mask@, sel@, n, order);
    if n > 0 {
        crate::order::law_appending_selects(sel.mask@, sel@, n - 1, order);
    }
}

/// A buffer that starts with `s` holds the elements of `s` in front.
proof fn lemma_order_prefix(order: Seq<u16>, s: Seq<u16>, n: int)
    requires
        s.len() == n,
        exists|rest: Seq<u16>| order == s + rest,
    ensures
        order.take(n) == s,
        forall|i: int| 0 <= i < n ==> #[trigger] order[i] == s[i],
{
    let rest = choose|rest: Seq<u16>| order == s + rest;
    assert(order.take(n) =~= s);
}

proof fn lemma_join_same_keys(
    k1: spec_fn(u16) -> int,
    k2: spec_fn(u16) -> int,
    ls: Seq<u16>,
    rkey: spec_fn(u16) -> int,
    rs: Seq<u16>,
)
    requires
        forall|i: int| 0 <= i < ls.len() ==> k1(#[trigger] ls[i]) == k2(ls[i]),
    ensures
        crate::order::join_pairs(k1, ls, rkey, rs) == crate::order::join_pairs(k2, ls, rkey, rs),
    decreases ls.len(),
{
    if ls.len() > 0 {
        let u = ls.drop_last();
        assert forall|i: int| 0 <= i < u.len() implies k1(#[trigger] u[i]) == k2(u[i]) by {
            assert(k1(ls[i]) == k2(ls[i]));
        }
        assert(k1(ls[ls.len() - 1]) == k2(ls[ls.len() - 1]));
        lemma_join_same_keys(k1, k2, u, rkey, rs);
    }
}

/// A join looks only at the keys of its left rows.
proof fn lemma_equi_join_prefix(a: Seq<i64>, b: Seq<i64>, n: nat, right: Seq<i64>, rn: nat)
    requires
        n <= MAX_ROWS,
        forall|i: int| 0 <= i < n ==> #[trigger] a[i] == b[i],
    ensures
        crate::kernels::equi_join(a, n, right, rn) == crate::kernels::equi_join(b, n, right, rn),
{
    let k1 = crate::order::by_value(a);
    let k2 = crate::order::by_value(b);
    let s = crate::order::iota(n);
    assert forall|i: int| 0 <= i < s.len() implies k1(#[trigger] s[i]) == k2(s[i]) by {
        assert(a[i] == b[i]);
    }
    lemma_sort_same_keys(k1, k2, s);
    let ls = crate::order::stable_sort(k2, s);
    crate::order::law_stable_sort_permutes(k2, s);
    assert forall|i: int| 0 <= i < ls.len() implies k1(#[trigger] ls[i]) == k2(ls[i]) by {
        crate::order::lemma_stable_sort_elements(k2, s, i);
        let j = choose|j: int| 0 <= j < s.len() && s[j] == ls[i];
        assert(k1(s[j]) == k2(s[j]));
    }
    lemma_join_same_keys(k1, k2, ls, crate::order::by_value(right), crate::order::iota(rn));
}

impl<'a> Engine<'a> {
    /// Runs `இணை`.
    fn run_join(
        &self,
        arena: &AstArena,
        st: &AstNode,
        cur: &mut Cursor<'a>,
        scratch: &mut RuntimeScratch,
        Ghost(out): Ghost<OutView>,
    ) -> (r: Result<(), EngineError>)
        requires
            arena.wf(),
            self.catalog.wf(),
            old(cur).wf(*old(scratch)),
        ensures
            final(cur).wf(*final(scratch)),
            old(scratch).is_tidy() ==> final(scratch).is_tidy(),
            ran(
                r,
                final(cur).flow(*final(scratch), out),
                old(cur).flow(*old(scratch), out).join(*self.catalog, self.src@, arena@, *st),
            ),
    {
        let ghost f = cur.flow(*scratch, out);
        let left = match cur.left {
            Some(t) => t,
            None => {
                return Err(EngineError::ParseFailed);
            },
        };
        let name = match self.expect_ident_bytes(arena, st.left) {
            Ok(n) => n,
            Err(e) => {
                return Err(e);
            },
        };
        let right = match self.catalog.find(name) {
            Some(t) => t,
            None => {
                return Err(table_not_found(name));
            },
        };
        let key = "அடையாளம்".as_bytes();
        let left_col = match int_column_named(left, key) {
            Some(c) => c,
            None => {
                return Err(column_not_found(left.name.as_bytes(), key));
            },
        };
        let right_col = match int_column_named(right, key) {
            Some(c) => c,
            None => {
                return Err(column_not_found(right.name.as_bytes(), key));
            },
        };
        let ghost lkeys = f.left_column(key@)->0;
        let ghost ls = crate::order::selected(f.keep, f.slots() as int);
        let mut ln: usize = 0;
        let mut i: usize = 0;
        while i < cur.slots
            invariant
                i <= cur.slots,
                cur.wf(*scratch),
                *cur == *old(cur),
                f == old(cur).flow(*old(scratch), out),
                f == cur.flow(*scratch, out),
                cur.left == Some(left),
                left.int_values(key@) == Some(left_col.values@),
                lkeys == f.left_column(key@)->0,
                scratch.derived == old(scratch).derived,
                scratch.derived_name == old(scratch).derived_name,
                scratch.has_derived == old(scratch).has_derived,
                ln <= i,
                ln == crate::order::selected(f.keep, i as int).len(),
                forall|j: int|
                    0 <= j < ln ==> #[trigger] scratch.left_remap@[j]
                        == f.lrow[crate::order::selected(f.keep, i as int)[j] as int]
                        && scratch.left_remap@[j] < MAX_ROWS,
                forall|j: int|
                    0 <= j < ln ==> #[trigger] scratch.left_dense@[j]
                        == lkeys[crate::order::selected(f.keep, i as int)[j] as int],
            decreases cur.slots - i,
        {
            if cur.sel.mask[i] != 0 {
                let row: usize = if cur.mapped {
                    scratch.join_left[i] as usize
                } else {
                    i
                };
                assert(row == f.lrow[i as int]);
                scratch.left_dense[ln] = left_col.values[row];
                scratch.left_remap[ln] = row as u16;
                ln += 1;
            }
            i += 1;
        }
        let matches: usize = vector_merge_join(
            &scratch.left_dense,
            ln,
            &right_col.values,
            right.row_count as usize,
            &mut scratch.join_left,
            &mut scratch.join_right,
            &mut scratch.left_order,
            &mut scratch.right_order,
            &mut scratch.tmp_u16,
        );
        let ghost rn = right.live_rows();
        let ghost dense = Seq::new(ls.len(), |j: int| lkeys[ls[j] as int]);
        let ghost pairs = crate::order::first_of(
            crate::kernels::equi_join(dense, ls.len(), right_col.values@, rn),
            MAX_ROWS as int,
        );
        proof {
            lemma_equi_join_prefix(scratch.left_dense@, dense, ln as nat, right_col.values@, rn);
        }
        let mut m: usize = 0;
        while m < matches
            invariant
                m <= matches <= MAX_ROWS,
                matches == pairs.len(),
                ln == ls.len(),
                ln <= MAX_ROWS,
                forall|j: int|
                    0 <= j < ln ==> #[trigger] scratch.left_remap@[j] == f.lrow[ls[j] as int]
                        && scratch.left_remap@[j] < MAX_ROWS,
                forall|j: int|
                    m <= j < matches ==> #[trigger] scratch.join_left@[j] == pairs[j].0
                        && scratch.join_left@[j] < ln,
                forall|j: int|
                    0 <= j < m ==> #[trigger] scratch.join_left@[j] == f.lrow[ls[pairs[j].0 as int] as int]
                        && scratch.join_left@[j] < MAX_ROWS,
                forall|j: int|
                    0 <= j < matches ==> #[trigger] scratch.join_right@[j] == pairs[j].1
                        && scratch.join_right@[j] < MAX_ROWS,
                scratch.derived == old(scratch).derived,
                scratch.derived_name == old(scratch).derived_name,
                scratch.has_derived == old(scratch).has_derived,
            decreases matches - m,
        {
            let dense_row: usize = scratch.join_left[m] as usize;
            scratch.join_left[m] = scratch.left_remap[dense_row];
            m += 1;
        }
        cur.mapped = true;
        cur.right = Some(right);
        cur.slots = matches;
        cur.sel = SelectionVector::all(matches);
        cur.order_len = matches;
        cur.sorted = false;
        fill_iota(&mut scratch.order, matches);
        scratch.groups.len = 0;
        scratch.groups.used = 0;
        proof {
            let g = f.joined_with(*right, lkeys, right_col.values@);
            assert(scratch.groups@ =~= Seq::<Group>::empty());
            assert(cur.flow(*scratch, out).lrow =~= g.lrow);
            assert(cur.flow(*scratch, out).rrow =~= g.rrow);
            assert(cur.flow(*scratch, out) =~= g);
        }
        Ok(())
    }
}

impl<'a> Cursor<'a> {
    /// The part of the state that looking up a column takes: the tables, and a row of them
    /// for each slot.
    pub open spec fn looks_up(&self, f: Flow, join_left: Seq<u16>, join_right: Seq<u16>) -> bool {
        &&& f.left == table_of(self.left)
        &&& f.right == table_of(self.right)
        &&& f.slots() == self.slots
        &&& f.lrow == self.rows(join_left)
        &&& f.rrow == self.rows(join_right)
        &&& self.slots <= MAX_ROWS
        &&& self.mapped ==> forall|i: int|
            0 <= i < self.slots ==> #[trigger] join_left[i] < MAX_ROWS
        &&& self.mapped ==> forall|i: int|
            0 <= i < self.slots ==> #[trigger] join_right[i] < MAX_ROWS
        &&& self.left matches Some(t) ==> t.wf()
        &&& self.right matches Some(t) ==> t.wf()
        &&& self.left is None ==> self.right is None
        &&& !self.mapped ==> self.right is None
    }
}

/// A buffer whose first values are `v` and whose others are as they were.
pub open spec fn starts_with(after: Seq<i64>, before: Seq<i64>, v: Seq<i64>) -> bool {
    forall|i: int|
        0 <= i < MAX_ROWS ==> #[trigger] after[i] == if i < v.len() {
            v[i]
        } else {
            before[i]
        }
}

/// Writes the value of the integer column `name` for each slot to `out_vals`: of the source
/// relation if that has one, else of the joined relation. Without such a column nothing is
/// written.
fn gather_column<'a>(
    name: &[u8],
    cur: &Cursor<'a>,
    join_left: &[u16; MAX_ROWS],
    join_right: &[u16; MAX_ROWS],
    out_vals: &mut [i64; MAX_ROWS],
    Ghost(f): Ghost<Flow>,
) -> (r: bool)
    requires
        cur.looks_up(f, join_left@, join_right@),
    ensures
        match f.column(name@) {
            Some(v) => r && starts_with(final(out_vals)@, old(out_vals)@, v) && v.len()
                == cur.slots,
            None => !r && final(out_vals)@ == old(out_vals)@,
        },
{
    if let Some(lt) = cur.left {
        if let Some(c) = int_column_named(lt, name) {
            gather(&c.values, cur.mapped, join_left, cur.slots, out_vals);
            return true;
        }
    }
    if let Some(rt) = cur.right {
        if let Some(c) = int_column_named(rt, name) {
            gather(&c.values, cur.mapped, join_right, cur.slots, out_vals);
            return true;
        }
    }
    false
}

impl<'a> Engine<'a> {
    /// Writes the value of an operand for each slot to `out_vals`.
    fn resolve_operand_dense(
        &self,
        node: &AstNode,
        cur: &Cursor<'a>,
        join_left: &[u16; MAX_ROWS],
        join_right: &[u16; MAX_ROWS],
        out_vals: &mut [i64; MAX_ROWS],
        Ghost(f): Ghost<Flow>,
    ) -> (r: Result<(), EngineError>)
        requires
            cur.looks_up(f, join_left@, join_right@),
        ensures
            match f.operand(self.src@, *node) {
                Ok(v) => r is Ok && starts_with(final(out_vals)@, old(out_vals)@, v) && v.len()
                    == cur.slots,
                Err(e) => r is Err && r->Err_0.is_fault(e) && final(out_vals)@ == old(out_vals)@,
            },
    {
        match node.kind {
            NodeKind::Literal => {
                let lit: i64 = node.value;
                let mut i: usize = 0;
                while i < cur.slots
                    invariant
                        i <= cur.slots <= MAX_ROWS,
                        forall|k: int|
                            0 <= k < MAX_ROWS ==> #[trigger] out_vals@[k] == if k < i {
                                lit
                            } else {
                                old(out_vals)@[k]
                            },
                    decreases cur.slots - i,
                {
                    out_vals[i] = lit;
                    i += 1;
                }
                Ok(())
            },
            NodeKind::Ident => {
                let name = self.ident_bytes(node);
                match cur.left {
                    None => Err(EngineError::ParseFailed),
                    Some(t) => {
                        if gather_column(name, cur, join_left, join_right, out_vals, Ghost(f)) {
                            Ok(())
                        } else {
                            Err(column_not_found(t.name.as_bytes(), name))
                        }
                    },
                }
            },
            _ => Err(EngineError::ParseFailed),
        }
    }

    /// Writes the value of an expression for each slot to the derived column.
    fn evaluate(
        &self,
        arena: &AstArena,
        expr: &AstNode,
        cur: &Cursor<'a>,
        scratch: &mut RuntimeScratch,
        Ghost(f): Ghost<Flow>,
    ) -> (r: Result<(), EngineError>)
        requires
            arena.wf(),
            cur.looks_up(f, old(scratch).join_left@, old(scratch).join_right@),
        ensures
            final(scratch).order == old(scratch).order,
            final(scratch).join_left == old(scratch).join_left,
            final(scratch).join_right == old(scratch).join_right,
            final(scratch).derived_name == old(scratch).derived_name,
            final(scratch).has_derived == old(scratch).has_derived,
            final(scratch).groups == old(scratch).groups,
            match f.expression(self.src@, arena@, *expr) {
                Ok(v) => r is Ok && starts_with(
                    final(scratch).derived@,
                    old(scratch).derived@,
                    v,
                ) && v.len() == cur.slots,
                Err(e) => r is Err && r->Err_0.is_fault(e) && final(scratch).derived
                    == old(scratch).derived,
            },
    {
        let n: usize = cur.slots;
        if expr.kind != NodeKind::BinOp {
            let r = self.resolve_operand_dense(
                expr,
                cur,
                &scratch.join_left,
                &scratch.join_right,
                &mut scratch.derived,
                Ghost(f),
            );
            proof {
                if r is Err {
                    assert(scratch.derived =~= old(scratch).derived);
                }
            }
            return r;
        }
        let op = match arith_from_token(expr.op) {
            Some(o) => o,
            None => {
                return Err(EngineError::ParseFailed);
            },
        };
        let lhs = match arena.get(expr.left) {
            Some(m) => m,
            None => {
                return Err(EngineError::ParseFailed);
            },
        };
        let rhs = match arena.get(expr.right) {
            Some(m) => m,
            None => {
                return Err(EngineError::ParseFailed);
            },
        };
        match self.resolve_operand_dense(
            lhs,
            cur,
            &scratch.join_left,
            &scratch.join_right,
            &mut scratch.key_buf,
            Ghost(f),
        ) {
            Ok(_) => {},
            Err(e) => {
                return Err(e);
            },
        }
        if rhs.kind == NodeKind::Literal {
            execute_chunk_parallel(&scratch.key_buf, &mut scratch.derived, n, op, rhs.value);
            return Ok(());
        }
        match self.resolve_operand_dense(
            rhs,
            cur,
            &scratch.join_left,
            &scratch.join_right,
            &mut scratch.left_dense,
            Ghost(f),
        ) {
            Ok(_) => {},
            Err(e) => {
                return Err(e);
            },
        }
        let ghost x = f.operand(self.src@, *lhs)->Ok_0;
        let ghost y = f.operand(self.src@, *rhs)->Ok_0;
        let mut i: usize = 0;
        while i < n
            invariant
                i <= n <= MAX_ROWS,
                x.len() == n,
                y.len() == n,
                forall|k: int| 0 <= k < n ==> #[trigger] scratch.key_buf@[k] == x[k],
                forall|k: int| 0 <= k < n ==> #[trigger] scratch.left_dense@[k] == y[k],
                forall|k: int|
                    0 <= k < MAX_ROWS ==> #[trigger] scratch.derived@[k] == if k < i {
                        op.apply(x[k], y[k])
                    } else {
                        old(scratch).derived@[k]
                    },
                scratch.order == old(scratch).order,
                scratch.join_left == old(scratch).join_left,
                scratch.join_right == old(scratch).join_right,
                scratch.derived_name == old(scratch).derived_name,
                scratch.has_derived == old(scratch).has_derived,
                scratch.groups == old(scratch).groups,
            decreases n - i,
        {
            scratch.derived[i] = arith_i64(op, scratch.key_buf[i], scratch.left_dense[i]);
            i += 1;
        }
        Ok(())
    }

    /// Runs `கணி`.
    fn apply_derive(
        &self,
        arena: &AstArena,
        st: &AstNode,
        cur: &Cursor<'a>,
        scratch: &mut RuntimeScratch,
        Ghost(out): Ghost<OutView>,
    ) -> (r: Result<(), EngineError>)
        requires
            arena.wf(),
            cur.wf(*old(scratch)),
        ensures
            cur.wf(*final(scratch)),
            old(scratch).is_tidy() ==> final(scratch).is_tidy(),
            ran(
                r,
                cur.flow(*final(scratch), out),
                cur.flow(*old(scratch), out).derive(self.src@, arena@, *st),
            ),
            final(scratch).order == old(scratch).order,
            final(scratch).join_left == old(scratch).join_left,
            final(scratch).join_right == old(scratch).join_right,
            final(scratch).groups == old(scratch).groups,
            match (
                crate::flow::name_at(self.src@, arena@, st.left),
                crate::flow::node_at(arena@, st.right),
            ) {
                (Some(name), Some(_)) => {
                    &&& final(scratch).has_derived == 1
                    &&& final(scratch).derived_name.wf()
                    &&& final(scratch).derived_name@ == crate::storage::cut_name(name)
                    &&& final(scratch).derived_name.bytes@ == crate::storage::padded_name(name)
                },
                _ => *final(scratch) == *old(scratch),
            },
    {
        let ghost f = cur.flow(*scratch, out);
        let name = match self.expect_ident_bytes(arena, st.left) {
            Ok(n) => n,
            Err(e) => {
                return Err(e);
            },
        };
        let expr = match arena.get(st.right) {
            Some(n) => n,
            None => {
                return Err(EngineError::ParseFailed);
            },
        };
        scratch.derived_name = ColName::from_bytes(name);
        scratch.has_derived = 1;
        let r = self.evaluate(arena, expr, cur, scratch, Ghost(f));
        proof {
            let named = Flow {
                has_derived: 1,
                derived_name: crate::storage::cut_name(name@),
                ..f
            };
            match f.expression(self.src@, arena@, *expr) {
                Ok(v) => {
                    let g = named.with_values(v);
                    assert(scratch.derived@ =~= g.derived);
                    assert(cur.flow(*scratch, out) =~= g);
                },
                Err(e) => {
                    assert(cur.flow(*scratch, out) =~= named);
                },
            }
        }
        r
    }
}

/// Sets the sum, minimum and maximum of each group to those of `vals`, which holds a value
/// for each row.
fn fill_aggregates(groups: &mut GroupedAgg, vals: &[i64; MAX_ROWS])
    requires
        old(groups).wf(),
    ensures
        final(groups).wf(),
        final(groups).len == old(groups).len,
        final(groups).keys == old(groups).keys,
        final(groups).count == old(groups).count,
        final(groups).start == old(groups).start,
        final(groups).used == old(groups).used,
        final(groups).member_left == old(groups).member_left,
        final(groups).member_right == old(groups).member_right,
        forall|g: int|
            0 <= g < old(groups).len ==> {
                let v = vals@.subrange(
                    old(groups).start@[g] as int,
                    old(groups).start@[g] + old(groups).count@[g],
                );
                &&& #[trigger] final(groups).sum@[g] == crate::flow::wrapping_sum(v)
                &&& final(groups).min@[g] == crate::flow::least(v)
                &&& final(groups).max@[g] == crate::flow::greatest(v)
            },
{
    let n: usize = groups.len as usize;
    let mut g: usize = 0;
    while g < n
        invariant
            g <= n == groups.len,
            n <= MAX_ROWS,
            groups.wf(),
            groups.len == old(groups).len,
            groups.keys == old(groups).keys,
            groups.count == old(groups).count,
            groups.start == old(groups).start,
            groups.used == old(groups).used,
            groups.member_left == old(groups).member_left,
            groups.member_right == old(groups).member_right,
            forall|q: int|
                0 <= q < g ==> {
                    let v = vals@.subrange(
                        old(groups).start@[q] as int,
                        old(groups).start@[q] + old(groups).count@[q],
                    );
                    &&& #[trigger] groups.sum@[q] == crate::flow::wrapping_sum(v)
                    &&& groups.min@[q] == crate::flow::least(v)
                    &&& groups.max@[q] == crate::flow::greatest(v)
                },
        decreases n - g,
    {
        let a: usize = groups.start[g] as usize;
        assert(1 <= groups.count@[g as int]);
        let b: usize = a + groups.count[g] as usize;
        let mut sum: i64 = vals[a];
        let mut lo: i64 = vals[a];
        let mut hi: i64 = vals[a];
        let mut j: usize = a + 1;
        proof {
            let one = vals@.subrange(a as int, a + 1);
            assert(one.drop_last() =~= Seq::<i64>::empty());
            assert(crate::flow::wrapping_sum(one.drop_last()) == 0);
            assert(one.last() == vals@[a as int]);
            assert(crate::flow::wrapping_sum(one) == 0i64.wrapping_add(vals@[a as int]));
        }
        while j < b
            invariant
                a < j <= b <= MAX_ROWS,
                sum == crate::flow::wrapping_sum(vals@.subrange(a as int, j as int)),
                lo == crate::flow::least(vals@.subrange(a as int, j as int)),
                hi == crate::flow::greatest(vals@.subrange(a as int, j as int)),
            decreases b - j,
        {
            let v: i64 = vals[j];
            proof {
                let longer = vals@.subrange(a as int, j + 1);
                assert(longer.drop_last() =~= vals@.subrange(a as int, j as int));
                assert(longer.last() == v);
            }
            sum = sum.wrapping_add(v);
            if v < lo {
                lo = v;
            }
            if v > hi {
                hi = v;
            }
            j += 1;
        }
        let ghost before = *groups;
        groups.sum[g] = sum;
        groups.min[g] = lo;
        groups.max[g] = hi;
        proof {
            assert forall|q: int| 0 <= q < g + 1 implies {
                let v = vals@.subrange(
                    old(groups).start@[q] as int,
                    old(groups).start@[q] + old(groups).count@[q],
                );
                &&& #[trigger] groups.sum@[q] == crate::flow::wrapping_sum(v)
                &&& groups.min@[q] == crate::flow::least(v)
                &&& groups.max@[q] == crate::flow::greatest(v)
            } by {
                if q < g {
                    assert(before.sum@[q] == groups.sum@[q]);
                }
            }
        }
        g += 1;
    }
}

/// Every run is a piece of the list, and has an element.
proof fn lemma_runs_nonempty(key: spec_fn(u16) -> int, s: Seq<u16>)
    ensures
        forall|g: int|
            0 <= g < crate::flow::runs(key, s).len() ==> (#[trigger] crate::flow::runs(
                key,
                s,
            )[g]).len() >= 1,
        crate::flow::runs(key, s).len() <= s.len(),
    decreases s.len(),
{
    if s.len() > 0 {
        lemma_runs_nonempty(key, s.drop_last());
    }
}

proof fn lemma_runs_same_keys(k1: spec_fn(u16) -> int, k2: spec_fn(u16) -> int, s: Seq<u16>)
    requires
        forall|i: int| 0 <= i < s.len() ==> k1(#[trigger] s[i]) == k2(s[i]),
    ensures
        crate::flow::runs(k1, s) == crate::flow::runs(k2, s),
        forall|g: int, j: int|
            0 <= g < crate::flow::runs(k1, s).len() && 0 <= j < crate::flow::runs(k1, s)[g].len()
                ==> s.contains(#[trigger] crate::flow::runs(k1, s)[g][j]),
    decreases s.len(),
{
    if s.len() > 0 {
        let u = s.drop_last();
        assert forall|i: int| 0 <= i < u.len() implies k1(#[trigger] u[i]) == k2(u[i]) by {
            assert(k1(s[i]) == k2(s[i]));
        }
        lemma_runs_same_keys(k1, k2, u);
        lemma_runs_nonempty(k1, u);
        let before = crate::flow::runs(k1, u);
        assert(k1(s[s.len() - 1]) == k2(s[s.len() - 1]));
        if before.len() > 0 {
            let x = before[before.len() - 1][0];
            assert(u.contains(x));
            let i = choose|i: int| 0 <= i < u.len() && u[i] == x;
            assert(k1(u[i]) == k2(u[i]));
        }
        assert forall|g: int, j: int|
            0 <= g < crate::flow::runs(k1, s).len() && 0 <= j < crate::flow::runs(
                k1,
                s,
            )[g].len() implies s.contains(#[trigger] crate::flow::runs(k1, s)[g][j]) by {
            let x = crate::flow::runs(k1, s)[g][j];
            if x == s.last() {
                assert(s[s.len() - 1] == x);
            } else {
                assert(before[g][j] == x);
                let i = choose|i: int| 0 <= i < u.len() && u[i] == x;
                assert(s[i] == x);
            }
        }
    }
}

/// Whether group `g` has the key of run `g` of `cut`, its size, and its place in `s`.
spec fn groups_are(
    gk: Seq<i64>,
    gc: Seq<i64>,
    gs: Seq<u16>,
    keys: Seq<i64>,
    s: Seq<u16>,
    cut: Seq<Seq<u16>>,
    upto: int,
) -> bool {
    forall|g: int|
        0 <= g < cut.len() ==> {
            &&& #[trigger] gk[g] == keys[cut[g][0] as int]
            &&& gc[g] == cut[g].len()
            &&& cut[g].len() >= 1
            &&& gs[g] + cut[g].len() <= upto
            &&& s.subrange(gs[g] as int, gs[g] + cut[g].len()) == cut[g]
        }
}

proof fn lemma_group_grows(
    gk: Seq<i64>,
    gc: Seq<i64>,
    gs: Seq<u16>,
    keys: Seq<i64>,
    s: Seq<u16>,
    cut: Seq<Seq<u16>>,
    j: int,
)
    requires
        groups_are(gk, gc, gs, keys, s, cut, j),
        0 < cut.len() <= gc.len(),
        gs[cut.len() - 1] + gc[cut.len() - 1] == j,
        0 <= j < s.len() <= MAX_ROWS,
    ensures
        groups_are(
            gk,
            gc.update(cut.len() - 1, (gc[cut.len() - 1] + 1) as i64),
            gs,
            keys,
            s,
            cut.drop_last().push(cut.last().push(s[j])),
            j + 1,
        ),
{
    let last = cut.len() - 1;
    let now = cut.drop_last().push(cut.last().push(s[j]));
    let count = gc.update(last, (gc[last] + 1) as i64);
    let st = gs[last] as int;
    assert(gk[last] == keys[cut[last][0] as int]);
    assert forall|g: int| 0 <= g < now.len() implies {
        &&& #[trigger] gk[g] == keys[now[g][0] as int]
        &&& count[g] == now[g].len()
        &&& now[g].len() >= 1
        &&& gs[g] + now[g].len() <= j + 1
        &&& s.subrange(gs[g] as int, gs[g] + now[g].len()) == now[g]
    } by {
        assert(gk[g] == keys[cut[g][0] as int]);
        if g < last {
            assert(now[g] == cut[g]);
            assert(count[g] == gc[g]);
        } else {
            assert(g == last);
            assert(now[g] == cut[last].push(s[j]));
            assert(now[g][0] == cut[last][0]);
            assert(count[g] == gc[last] + 1);
            assert(st + now[g].len() == j + 1);
            assert(s.subrange(st, j) == cut[last]);
            assert(s.subrange(st, j + 1) =~= s.subrange(st, j).push(s[j]));
        }
    }
}

proof fn lemma_group_starts(
    gk: Seq<i64>,
    gc: Seq<i64>,
    gs: Seq<u16>,
    keys: Seq<i64>,
    s: Seq<u16>,
    cut: Seq<Seq<u16>>,
    j: int,
)
    requires
        groups_are(gk, gc, gs, keys, s, cut, j),
        cut.len() < gk.len(),
        cut.len() < gc.len(),
        cut.len() < gs.len(),
        0 <= j < s.len() <= MAX_ROWS,
    ensures
        groups_are(
            gk.update(cut.len() as int, keys[s[j] as int]),
            gc.update(cut.len() as int, 1),
            gs.update(cut.len() as int, j as u16),
            keys,
            s,
            cut.push(seq![s[j]]),
            j + 1,
        ),
{
    let len = cut.len() as int;
    let now = cut.push(seq![s[j]]);
    let k = gk.update(len, keys[s[j] as int]);
    let count = gc.update(len, 1);
    let start = gs.update(len, j as u16);
    assert forall|g: int| 0 <= g < now.len() implies {
        &&& #[trigger] k[g] == keys[now[g][0] as int]
        &&& count[g] == now[g].len()
        &&& now[g].len() >= 1
        &&& start[g] + now[g].len() <= j + 1
        &&& s.subrange(start[g] as int, start[g] + now[g].len()) == now[g]
    } by {
        if g < len {
            assert(now[g] == cut[g]);
            assert(gk[g] == keys[cut[g][0] as int]);
        } else {
            assert(s.subrange(j, j + 1) =~= seq![s[j]]);
        }
    }
}

/// The row of each slot of `s`.
spec fn rows_of(s: Seq<u16>, mapped: bool, join: Seq<u16>, n: int) -> Seq<u16> {
    Seq::new(
        n as nat,
        |i: int|
            if mapped {
                join[s[i] as int]
            } else {
                s[i]
            },
    )
}

/// Groups `order[0..n]`, sorted by key, by their keys: one group for each run of equal keys,
/// with the rows of its slots as members. `vals` gets the key of each row.
fn collect_groups(
    groups: &mut GroupedAgg,
    order: &[u16; MAX_ROWS],
    n: usize,
    keys: &[i64; MAX_ROWS],
    mapped: bool,
    join_left: &[u16; MAX_ROWS],
    join_right: &[u16; MAX_ROWS],
    vals: &mut [i64; MAX_ROWS],
)
    requires
        n <= MAX_ROWS,
        forall|i: int| 0 <= i < n ==> #[trigger] order@[i] < MAX_ROWS,
        mapped ==> forall|i: int|
            0 <= i < n ==> join_left@[#[trigger] order@[i] as int] < MAX_ROWS && join_right@[order@[i] as int]
                < MAX_ROWS,
    ensures
        final(groups).wf(),
        ({
            let s = order@.take(n as int);
            let cut = crate::flow::runs(crate::order::by_value(keys@), s);
            &&& final(groups).len == cut.len()
            &&& final(groups).used == n
            &&& groups_are(
                final(groups).keys@,
                final(groups).count@,
                final(groups).start@,
                keys@,
                s,
                cut,
                n as int,
            )
            &&& final(groups).member_left@.take(n as int) == rows_of(
                s,
                mapped,
                join_left@,
                n as int,
            )
            &&& final(groups).member_right@.take(n as int) == rows_of(
                s,
                mapped,
                join_right@,
                n as int,
            )
            &&& forall|i: int| 0 <= i < n ==> #[trigger] final(vals)@[i] == keys@[s[i] as int]
        }),
{
    let ghost s = order@.take(n as int);
    let ghost key = crate::order::by_value(keys@);
    groups.len = 0;
    groups.used = n as u16;
    let mut len: usize = 0;
    let mut j: usize = 0;
    proof {
        assert(s.take(0) =~= Seq::<u16>::empty());
        assert(groups.member_left@.take(0) =~= rows_of(s, mapped, join_left@, 0));
        assert(groups.member_right@.take(0) =~= rows_of(s, mapped, join_right@, 0));
    }
    while j < n
        invariant
            len <= j <= n <= MAX_ROWS,
            s == order@.take(n as int),
            key == crate::order::by_value(keys@),
            groups.used == n,
            forall|i: int| 0 <= i < n ==> #[trigger] order@[i] < MAX_ROWS,
            len == crate::flow::runs(key, s.take(j as int)).len(),
            groups_are(
                groups.keys@,
                groups.count@,
                groups.start@,
                keys@,
                s,
                crate::flow::runs(key, s.take(j as int)),
                j as int,
            ),
            len > 0 ==> groups.start@[len - 1] + groups.count@[len - 1] == j,
            groups.member_left@.take(j as int) == rows_of(s, mapped, join_left@, j as int),
            groups.member_right@.take(j as int) == rows_of(s, mapped, join_right@, j as int),
            forall|i: int| 0 <= i < j ==> #[trigger] vals@[i] == keys@[s[i] as int],
        decreases n - j,
    {
        let slot: u16 = order[j];
        let k: i64 = keys[slot as usize];
        let ghost mid = *groups;
        let ghost before = crate::flow::runs(key, s.take(j as int));
        let ghost whole = s.take(j as int + 1);
        proof {
            assert(s[j as int] == slot);
            assert(whole.drop_last() =~= s.take(j as int));
            assert(whole.last() == slot);
            if len > 0 {
                assert(mid.keys@[len - 1] == keys@[before[len - 1][0] as int]);
                assert(before.last() == before[len - 1]);
            }
        }
        groups.member_left[j] = if mapped {
            join_left[slot as usize]
        } else {
            slot
        };
        groups.member_right[j] = if mapped {
            join_right[slot as usize]
        } else {
            slot
        };
        vals[j] = k;
        proof {
            assert(groups.member_left@.take(j + 1) =~= rows_of(s, mapped, join_left@, j + 1)) by {
                assert(groups.member_left@.take(j + 1) =~= mid.member_left@.take(j as int).push(
                    groups.member_left@[j as int],
                ));
            }
            assert(groups.member_right@.take(j + 1) =~= rows_of(s, mapped, join_right@, j + 1)) by {
                assert(groups.member_right@.take(j + 1) =~= mid.member_right@.take(j as int).push(
                    groups.member_right@[j as int],
                ));
            }
        }
        if len > 0 && groups.keys[len - 1] == k {
            groups.count[len - 1] = groups.count[len - 1] + 1;
            proof {
                lemma_group_grows(mid.keys@, mid.count@, mid.start@, keys@, s, before, j as int);
                assert(crate::flow::runs(key, whole) == before.drop_last().push(
                    before.last().push(slot),
                ));
            }
        } else {
            groups.keys[len] = k;
            groups.start[len] = j as u16;
            groups.count[len] = 1;
            proof {
                lemma_group_starts(mid.keys@, mid.count@, mid.start@, keys@, s, before, j as int);
                assert(crate::flow::runs(key, whole) == before.push(seq![slot]));
            }
            len += 1;
        }
        j += 1;
    }
    groups.len = len as u16;
    proof {
        assert(s.take(n as int) =~= s);
        assert forall|i: int| 0 <= i < n implies #[trigger] groups.member_left@[i] < MAX_ROWS by {
            assert(order@[i] < MAX_ROWS);
            assert(s[i] == order@[i]);
            assert(groups.member_left@.take(n as int)[i] == groups.member_left@[i]);
        }
        assert forall|i: int| 0 <= i < n implies #[trigger] groups.member_right@[i] < MAX_ROWS by {
            assert(order@[i] < MAX_ROWS);
            assert(s[i] == order@[i]);
            assert(groups.member_right@.take(n as int)[i] == groups.member_right@[i]);
        }
        let cut = crate::flow::runs(key, s);
        assert forall|g: int| 0 <= g < groups.len implies 1 <= #[trigger] groups.count@[g]
            && groups.start@[g] + groups.count@[g] <= groups.used by {
            assert(groups.keys@[g] == keys@[cut[g][0] as int]);
        }
    }
}

impl<'a> Engine<'a> {
    /// Runs `தொகுப்பு`.
    #[verifier::rlimit(40)]
    fn run_group(
        &self,
        arena: &AstArena,
        st: &AstNode,
        cur: &mut Cursor<'a>,
        scratch: &mut RuntimeScratch,
        Ghost(out): Ghost<OutView>,
    ) -> (r: Result<(), EngineError>)
        requires
            arena.wf(),
            old(cur).wf(*old(scratch)),
        ensures
            final(cur).wf(*final(scratch)),
            old(scratch).is_tidy() ==> final(scratch).is_tidy(),
            ran(
                r,
                final(cur).flow(*final(scratch), out),
                old(cur).flow(*old(scratch), out).group(self.src@, arena@, *st),
            ),
    {
        let ghost f = cur.flow(*scratch, out);
        let table = match cur.left {
            Some(t) => t,
            None => {
                return Err(EngineError::ParseFailed);
            },
        };
        let name = match self.expect_ident_bytes(arena, st.left) {
            Ok(n) => n,
            Err(e) => {
                return Err(e);
            },
        };
        if !gather_column(
            name,
            cur,
            &scratch.join_left,
            &scratch.join_right,
            &mut scratch.key_buf,
            Ghost(f),
        ) {
            assert(cur.flow(*scratch, out) =~= f);
            return Err(column_not_found(table.name.as_bytes(), name));
        }
        let n: usize = cur.order_len;
        let ghost keys = f.column(name@)->0;
        lsd_radix_sort_ages(&scratch.key_buf, &mut scratch.order, n, &mut scratch.tmp_u16);
        let ghost key = crate::order::by_value(keys);
        let ghost buf_key = crate::order::by_value(scratch.key_buf@);
        let ghost s = crate::order::stable_sort(key, f.order);
        proof {
            assert forall|i: int| 0 <= i < f.order.len() implies buf_key(#[trigger] f.order[i])
                == key(f.order[i]) by {
                assert(f.order[i] == old(scratch).order@[i]);
                assert(f.order[i] < f.slots());
            }
            lemma_sort_same_keys(buf_key, key, f.order);
            crate::order::law_stable_sort_permutes(key, f.order);
            assert(scratch.order@.take(n as int) =~= s);
            assert forall|i: int| 0 <= i < n implies #[trigger] s[i] < f.slots() by {
                crate::order::lemma_stable_sort_elements(key, f.order, i);
                let j = choose|j: int| 0 <= j < f.order.len() && f.order[j] == s[i];
                assert(f.order[j] == old(scratch).order@[j]);
            }
            assert forall|i: int| 0 <= i < n implies #[trigger] scratch.order@[i] == s[i] by {
                assert(scratch.order@.take(n as int)[i] == s[i]);
            }
            assert forall|i: int| 0 <= i < n implies buf_key(#[trigger] s[i]) == key(s[i]) by {}
            lemma_runs_same_keys(buf_key, key, s);
        }
        collect_groups(
            &mut scratch.groups,
            &scratch.order,
            n,
            &scratch.key_buf,
            cur.mapped,
            &scratch.join_left,
            &scratch.join_right,
            &mut scratch.left_dense,
        );
        let ghost cut = crate::flow::runs(key, s);
        let ghost plain = *scratch.groups;
        fill_aggregates(&mut scratch.groups, &scratch.left_dense);
        let ghost groups = f.groups_by(keys);
        proof {
            lemma_runs_nonempty(key, s);
            assert(scratch.groups@.len() == groups.len());
            assert forall|g: int| 0 <= g < cut.len() implies #[trigger] scratch.groups@[g]
                == groups[g] by {
                assert(plain.keys@[g] == scratch.key_buf@[cut[g][0] as int]);
                let a = plain.start@[g] as int;
                let b = a + cut[g].len();
                let vals = scratch.left_dense@.subrange(a, b);
                let want = cut[g].map_values(|t: u16| keys[t as int]);
                assert forall|j: int| 0 <= j < cut[g].len() implies #[trigger] cut[g][j] == s[a + j]
                    && cut[g][j] < f.slots() by {
                    assert(s.subrange(a, b)[j] == cut[g][j]);
                }
                assert(cut[g][0] < f.slots());
                assert(vals =~= want) by {
                    assert forall|j: int| 0 <= j < cut[g].len() implies vals[j] == want[j] by {
                        assert(cut[g][j] == s[a + j]);
                    }
                }
                assert(scratch.groups.sum@[g] == crate::flow::wrapping_sum(vals));
                let rows = cut[g].map_values(
                    |t: u16| (f.lrow[t as int], f.rrow[t as int]),
                );
                assert(scratch.groups.members(g) =~= rows) by {
                    assert forall|j: int| 0 <= j < cut[g].len() implies scratch.groups.members(g)[j]
                        == rows[j] by {
                        assert(cut[g][j] == s[a + j]);
                        assert(plain.member_left@.take(n as int)[a + j] == plain.member_left@[a + j]);
                        assert(plain.member_right@.take(n as int)[a + j] == plain.member_right@[a + j]);
                        assert(plain.member_left@[a + j] == if cur.mapped {
                            scratch.join_left@[s[a + j] as int]
                        } else {
                            s[a + j]
                        });
                        assert(plain.member_right@[a + j] == if cur.mapped {
                            scratch.join_right@[s[a + j] as int]
                        } else {
                            s[a + j]
                        });
                    }
                }
            }
            assert(scratch.groups@ =~= groups);
        }
        let len: usize = scratch.groups.len as usize;
        let ghost derived0 = scratch.derived@;
        let mut g: usize = 0;
        while g < len
            invariant
                g <= len <= MAX_ROWS,
                len == scratch.groups.len,
                scratch.groups.wf(),
                scratch.groups@ == groups,
                groups.len() == len,
                derived0 == old(scratch).derived@,
                forall|q: int|
                    0 <= q < g ==> #[trigger] scratch.join_left@[q] == groups[q].members[0].0
                        && scratch.join_left@[q] < MAX_ROWS,
                forall|q: int|
                    0 <= q < g ==> #[trigger] scratch.join_right@[q] == groups[q].members[0].1
                        && scratch.join_right@[q] < MAX_ROWS,
                forall|q: int|
                    0 <= q < MAX_ROWS ==> #[trigger] scratch.derived@[q] == if q < g {
                        groups[q].members.len() as i64
                    } else {
                        derived0[q]
                    },
            decreases len - g,
        {
            let a: usize = scratch.groups.start[g] as usize;
            proof {
                assert(1 <= scratch.groups.count@[g as int]);
                assert(scratch.groups@[g as int].members == scratch.groups.members(g as int));
                assert(scratch.groups.members(g as int)[0].0 == scratch.groups.member_left@[a as int]);
                assert(scratch.groups.members(g as int)[0].1
                    == scratch.groups.member_right@[a as int]);
            }
            scratch.join_left[g] = scratch.groups.member_left[a];
            scratch.join_right[g] = scratch.groups.member_right[a];
            scratch.derived[g] = scratch.groups.count[g];
            g += 1;
        }
        fill_iota(&mut scratch.order, len);
        scratch.derived_name = ColName::from_bytes("எண்ணிக்கை".as_bytes());
        scratch.has_derived = 1;
        cur.mapped = true;
        cur.slots = len;
        cur.sel = SelectionVector::all(len);
        cur.order_len = len;
        cur.sorted = false;
        proof {
            reveal_strlit("எண்ணிக்கை");
            crate::utf8::lemma_encoded_len("எண்ணிக்கை"@);
            let g = f.grouped(groups);
            let h = cur.flow(*scratch, out);
            assert(h.lrow =~= g.lrow);
            assert(h.rrow =~= g.rrow);
            assert(h.derived =~= g.derived);
            assert(h =~= g);
        }
        Ok(())
    }

    /// Runs `சுருக்கு`.
    fn run_aggregate(
        &self,
        arena: &AstArena,
        st: &AstNode,
        cur: &mut Cursor<'a>,
        scratch: &mut RuntimeScratch,
        Ghost(out): Ghost<OutView>,
    ) -> (r: Result<(), EngineError>)
        requires
            arena.wf(),
            old(cur).wf(*old(scratch)),
        ensures
            final(cur).wf(*final(scratch)),
            old(scratch).is_tidy() ==> final(scratch).is_tidy(),
            ran(
                r,
                final(cur).flow(*final(scratch), out),
                old(cur).flow(*old(scratch), out).aggregate(self.src@, arena@, *st),
            ),
    {
        let ghost f = cur.flow(*scratch, out);
        if scratch.groups.len == 0 {
            return Ok(());
        }
        let name = match self.expect_ident_bytes(arena, st.left) {
            Ok(n) => n,
            Err(e) => {
                return Err(e);
            },
        };
        let table = match cur.left {
            Some(t) => t,
            None => {
                return Err(EngineError::ParseFailed);
            },
        };
        let used: usize = scratch.groups.used as usize;
        match int_column_named(table, name) {
            Some(c) => {
                gather(&c.values, true, &scratch.groups.member_left, used, &mut scratch.left_dense);
            },
            None => {
                let c = match cur.right {
                    Some(t) => int_column_named(t, name),
                    None => None,
                };
                match c {
                    Some(c) => {
                        gather(
                            &c.values,
                            true,
                            &scratch.groups.member_right,
                            used,
                            &mut scratch.left_dense,
                        );
                    },
                    None => {
                        return Err(column_not_found(table.name.as_bytes(), name));
                    },
                }
            },
        }
        let ghost plain = *scratch.groups;
        fill_aggregates(&mut scratch.groups, &scratch.left_dense);
        let ghost groups = Seq::new(
            f.groups.len(),
            |g: int| f.groups[g].aggregated(f.member_values(name@, f.groups[g])->0),
        );
        proof {
            assert forall|g: int| 0 <= g < groups.len() implies #[trigger] scratch.groups@[g]
                == groups[g] by {
                let a = plain.start@[g] as int;
                let b = a + plain.count@[g];
                assert(1 <= plain.count@[g] && b <= plain.used);
                let vals = scratch.left_dense@.subrange(a, b);
                let want = f.member_values(name@, f.groups[g])->0;
                assert(f.groups[g].members == plain.members(g));
                assert(vals =~= want);
                assert(scratch.groups.sum@[g] == crate::flow::wrapping_sum(vals));
                assert(scratch.groups.members(g) =~= plain.members(g));
            }
            assert(scratch.groups@ =~= groups);
        }
        let len: usize = scratch.groups.len as usize;
        let ghost derived0 = scratch.derived@;
        let mut g: usize = 0;
        while g < len
            invariant
                g <= len <= MAX_ROWS,
                len == scratch.groups.len,
                scratch.groups.wf(),
                scratch.groups@ == groups,
                groups.len() == len,
                scratch.order == old(scratch).order,
                scratch.join_left == old(scratch).join_left,
                scratch.join_right == old(scratch).join_right,
                forall|q: int|
                    0 <= q < MAX_ROWS ==> #[trigger] scratch.derived@[q] == if q < g {
                        groups[q].sum
                    } else {
                        derived0[q]
                    },
            decreases len - g,
        {
            assert(scratch.groups@[g as int].sum == scratch.groups.sum@[g as int]);
            scratch.derived[g] = scratch.groups.sum[g];
            g += 1;
        }
        scratch.derived_name = ColName::from_bytes(name);
        scratch.has_derived = 1;
        proof {
            let want = Flow {
                has_derived: 1,
                derived_name: crate::storage::cut_name(name@),
                groups,
                ..f
            }.with_values(Seq::new(groups.len(), |g: int| groups[g].sum));
            assert(scratch.derived@ =~= want.derived);
            assert(cur.flow(*scratch, out) =~= want);
        }
        Ok(())
    }
}

/// Where a column of a result comes from.
#[derive(Copy, Clone, Debug, PartialEq, Eq, Structural)]
pub enum ColumnSource {
    Derived,
    Left(usize),
    Right(usize),
}

impl ColumnSource {
    pub open spec fn view(&self) -> Source {
        match *self {
            ColumnSource::Derived => Source::Derived,
            ColumnSource::Left(c) => Source::Left(c as int),
            ColumnSource::Right(c) => Source::Right(c as int),
        }
    }

    /// The column is one of the tables of a cursor.
    pub open spec fn exists_in(&self, cur: Cursor) -> bool {
        match *self {
            ColumnSource::Derived => true,
            ColumnSource::Left(c) => cur.left is Some && c < (cur.left->0).col_count,
            ColumnSource::Right(c) => cur.right is Some && c < (cur.right->0).col_count,
        }
    }
}

impl<'a> Engine<'a> {
    /// The column that a name of a column list stands for.
    fn resolve_source(
        &self,
        node: &AstNode,
        cur: &Cursor<'a>,
        scratch: &RuntimeScratch,
        Ghost(out): Ghost<OutView>,
    ) -> (r: Result<ColumnSource, EngineError>)
        requires
            cur.wf(*scratch),
            cur.left is Some,
        ensures
            match cur.flow(*scratch, out).source(self.src@, *node) {
                Ok(s) => r is Ok && r->Ok_0@ == s && r->Ok_0.exists_in(*cur),
                Err(f) => r is Err && r->Err_0.is_fault(f),
            },
    {
        let left = match cur.left {
            Some(t) => t,
            None => {
                return Err(EngineError::ParseFailed);
            },
        };
        if node.kind != NodeKind::Ident && node.kind != NodeKind::ColumnList {
            return Err(EngineError::ParseFailed);
        }
        let name = self.ident_bytes(node);
        if scratch.has_derived != 0 && scratch.derived_name.eq_bytes(name) {
            return Ok(ColumnSource::Derived);
        }
        if let Some(c) = left.find_column(name) {
            return Ok(ColumnSource::Left(c));
        }
        if let Some(rt) = cur.right {
            if let Some(c) = rt.find_column(name) {
                return Ok(ColumnSource::Right(c));
            }
        }
        Err(column_not_found(left.name.as_bytes(), name))
    }
}

/// The schema entry of a result column.
fn source_meta<'a>(
    source: ColumnSource,
    cur: &Cursor<'a>,
    scratch: &RuntimeScratch,
    Ghost(out): Ghost<OutView>,
) -> (r: ColumnMeta)
    requires
        cur.wf(*scratch),
        cur.left is Some,
        source.exists_in(*cur),
    ensures
        r.name.wf(),
        r@ == cur.flow(*scratch, out).meta(source@),
{
    match source {
        ColumnSource::Derived => derived_meta(scratch),
        ColumnSource::Left(c) => match cur.left {
            Some(t) => t.col_meta[c],
            None => derived_meta(scratch),
        },
        ColumnSource::Right(c) => match cur.right {
            Some(t) => t.col_meta[c],
            None => derived_meta(scratch),
        },
    }
}

/// The schema entry of the derived column.
fn derived_meta(scratch: &RuntimeScratch) -> (r: ColumnMeta)
    requires
        scratch.derived_name.is_padded(),
    ensures
        r.name == scratch.derived_name,
        r@ == crate::storage::meta_view(scratch.derived_name@, PhysType::Int64),
{
    ColumnMeta {
        name: scratch.derived_name,
        phys: PhysType::Int64,
        data_off: 0,
        offsets_off: 0,
    }
}

/// Writes the value that column `c` of `table` has in `row`, if it is of type `phys`, to row
/// `out_row` of the output column of that type.
fn write_table_cell(
    table: &Table,
    c: usize,
    row: usize,
    phys: PhysType,
    out_row: usize,
    ints: &mut Int64Column,
    texts: &mut Utf8Column,
)
    requires
        table.wf(),
        c < MAX_COLUMNS,
        row < MAX_ROWS,
        out_row < MAX_ROWS,
    ensures
        final(ints)@ == match table.int_column(c as int) {
            Some(v) => if phys == PhysType::Int64 {
                old(ints)@.with(out_row as int, v.values[row as int])
            } else {
                old(ints)@
            },
            None => old(ints)@,
        },
        old(texts).wf() ==> final(texts).wf(),
        final(texts)@ == match table.text_column(c as int) {
            Some(v) => match v.row(row as int) {
                Some(b) => if phys == PhysType::Utf8 && vstd::utf8::valid_utf8(b) {
                    old(texts)@.offered(out_row as int, b)
                } else {
                    old(texts)@
                },
                None => old(texts)@,
            },
            None => old(texts)@,
        },
{
    match phys {
        PhysType::Int64 => {
            if let Some(src) = table.int64(c) {
                ints.put(out_row, src.values[row]);
            }
        },
        PhysType::Utf8 => {
            if let Some(src) = table.utf8(c) {
                assert(table.columns@[c as int] is Utf8);
                if let Some(s) = src.get_row(row) {
                    texts.set_row(out_row, s.as_bytes());
                }
            }
        },
        _ => {},
    }
}

/// Writes the value of a result column for a slot to row `out_row`.
fn write_cell<'a>(
    source: ColumnSource,
    phys: PhysType,
    cur: &Cursor<'a>,
    scratch: &RuntimeScratch,
    slot: u16,
    out_row: usize,
    ints: &mut Int64Column,
    texts: &mut Utf8Column,
    Ghost(out): Ghost<OutView>,
)
    requires
        cur.wf(*scratch),
        source.exists_in(*cur),
        slot < cur.slots,
        out_row < MAX_ROWS,
        phys == cur.flow(*scratch, out).meta(source@).phys,
    ensures
        final(ints)@ == match cur.flow(*scratch, out).int_cell(source@, slot) {
            Some(v) => old(ints)@.with(out_row as int, v),
            None => old(ints)@,
        },
        old(texts).wf() ==> final(texts).wf(),
        final(texts)@ == match cur.flow(*scratch, out).text_cell(source@, slot) {
            Some(b) => old(texts)@.offered(out_row as int, b),
            None => old(texts)@,
        },
{
    match source {
        ColumnSource::Derived => {
            ints.put(out_row, scratch.derived[slot as usize]);
        },
        ColumnSource::Left(c) => {
            let row: usize = if cur.mapped {
                scratch.join_left[slot as usize] as usize
            } else {
                slot as usize
            };
            if let Some(t) = cur.left {
                write_table_cell(t, c, row, phys, out_row, ints, texts);
            }
        },
        ColumnSource::Right(c) => {
            let row: usize = if cur.mapped {
                scratch.join_right[slot as usize] as usize
            } else {
                slot as usize
            };
            if let Some(t) = cur.right {
                write_table_cell(t, c, row, phys, out_row, ints, texts);
            }
        },
    }
}

impl QueryResult {
    /// Fills in schema entry `c`.
    fn put_meta(&mut self, c: usize, meta: ColumnMeta)
        requires
            c < MAX_PROJECT,
        ensures
            final(self)@ == old(self)@.with_meta(c as int, meta@),
            final(self).schema@ == old(self).schema@.update(c as int, meta),
            final(self).int_out == old(self).int_out,
            final(self).utf8_out == old(self).utf8_out,
            final(self).col_count == old(self).col_count,
            final(self).row_count == old(self).row_count,
    {
        self.schema[c] = meta;
        self.types[c] = meta.phys;
        self.live[c] = 1;
        assert(self@ =~= old(self)@.with_meta(c as int, meta@));
    }
}

proof fn lemma_with_metas(f: Flow, sources: Seq<Source>, n: int)
    requires
        0 <= n <= sources.len(),
        n <= MAX_PROJECT,
        f.out.types.len() == MAX_PROJECT,
    ensures
        f.with_metas(sources, n).ints == f.out.ints,
        f.with_metas(sources, n).texts == f.out.texts,
        f.with_metas(sources, n).types.len() == MAX_PROJECT,
        f.with_metas(sources, n).col_count == f.out.col_count,
        f.with_metas(sources, n).row_count == f.out.row_count,
        forall|c: int|
            0 <= c < n ==> #[trigger] f.with_metas(sources, n).types[c] == f.meta(sources[c]).phys,
    decreases n,
{
    if n > 0 {
        lemma_with_metas(f, sources, n - 1);
    }
}

/// The schema entries of the first names do not depend on those behind.
proof fn lemma_with_metas_prefix(f: Flow, a: Seq<Source>, b: Seq<Source>, n: int)
    requires
        0 <= n <= a.len(),
        n <= b.len(),
        forall|c: int| 0 <= c < n ==> #[trigger] a[c] == b[c],
    ensures
        f.with_metas(a, n) == f.with_metas(b, n),
    decreases n,
{
    if n > 0 {
        lemma_with_metas_prefix(f, a, b, n - 1);
        assert(a[n - 1] == b[n - 1]);
    }
}

impl<'a> Engine<'a> {
    /// Runs `தேடு`.
    #[verifier::rlimit(60)]
    fn materialize_projection(
        &self,
        arena: &AstArena,
        st: &AstNode,
        cur: &Cursor<'a>,
        scratch: &RuntimeScratch,
        out: &mut QueryResult,
    ) -> (r: Result<(), EngineError>)
        requires
            arena.wf(),
            cur.wf(*scratch),
        ensures
            old(out).wf() ==> final(out).wf(),
            ran(
                r,
                cur.flow(*scratch, final(out)@),
                cur.flow(*scratch, old(out)@).project(self.src@, arena@, *st),
            ),
    {
        let ghost out0 = out@;
        let ghost f = cur.flow(*scratch, out0);
        if cur.left.is_none() {
            return Err(EngineError::ParseFailed);
        }
        let ghost all = f.columns(self.src@, arena@, st.left, MAX_PROJECT as nat);
        let ghost mut done = Seq::<Source>::empty();
        let mut cols: [ColumnSource; MAX_PROJECT] = [ColumnSource::Derived; MAX_PROJECT];
        let mut nproj: usize = 0;
        let mut id: u32 = st.left;
        assert(done + all.sources =~= all.sources);
        while nproj < MAX_PROJECT
            invariant_except_break
                ({
                    let rest = f.columns(self.src@, arena@, id, (MAX_PROJECT - nproj) as nat);
                    &&& all.sources == done + rest.sources
                    &&& all.fault == rest.fault
                }),
            invariant
                arena.wf(),
                cur.wf(*scratch),
                cur.left is Some,
                out0 == old(out)@,
                f == cur.flow(*scratch, out0),
                all == f.columns(self.src@, arena@, st.left, MAX_PROJECT as nat),
                nproj <= MAX_PROJECT,
                done.len() == nproj,
                forall|c: int|
                    0 <= c < nproj ==> (#[trigger] cols@[c])@ == done[c] && cols@[c].exists_in(*cur),
                out@ == f.with_metas(done, nproj as int),
                old(out).wf() ==> out.wf(),
                forall|c: int| 0 <= c < nproj ==> (#[trigger] out.schema@[c]).name.wf(),
            ensures
                all.sources == done,
                all.fault is None,
            decreases MAX_PROJECT - nproj,
        {
            let node = match arena.get(id) {
                Some(n) => n,
                None => {
                    assert(done + Seq::<Source>::empty() =~= done);
                    break ;
                },
            };
            let source = match self.resolve_source(node, cur, scratch, Ghost(out0)) {
                Ok(s) => s,
                Err(e) => {
                    proof {
                        assert(done + Seq::<Source>::empty() =~= done);
                        assert(cur.flow(*scratch, out@) =~= (Flow {
                            out: f.with_metas(done, nproj as int),
                            ..f
                        }));
                    }
                    return Err(e);
                },
            };
            let meta = source_meta(source, cur, scratch, Ghost(out0));
            out.put_meta(nproj, meta);
            cols[nproj] = source;
            proof {
                let grown = done.push(source@);
                let rest = f.columns(self.src@, arena@, node.next, (MAX_PROJECT - nproj - 1) as nat);
                assert(done + (seq![source@] + rest.sources) =~= grown + rest.sources);
                lemma_with_metas_prefix(f, done, grown, nproj as int);
                done = grown;
            }
            nproj += 1;
            id = node.next;
            proof {
                if nproj == MAX_PROJECT {
                    assert(done + Seq::<Source>::empty() =~= done);
                }
            }
        }
        let ghost metas = f.with_metas(done, nproj as int);
        proof {
            lemma_with_metas(f, done, nproj as int);
        }
        out.col_count = nproj as u16;
        let mut c0: usize = 0;
        while c0 < nproj
            invariant
                c0 <= nproj <= MAX_PROJECT,
                out@.schema == metas.schema,
                out@.types == metas.types,
                out@.live == metas.live,
                out@.ints == out0.ints,
                out.col_count == nproj,
                forall|c: int| 0 <= c < nproj ==> (#[trigger] out.schema@[c]).name.wf(),
                old(out).wf() ==> forall|c: int|
                    0 <= c < MAX_PROJECT ==> (#[trigger] out.utf8_out@[c]).wf(),
                forall|c: int|
                    0 <= c < MAX_PROJECT ==> (#[trigger] out.utf8_out@[c])@ == if c < c0 {
                        out0.texts[c].cleared()
                    } else {
                        out0.texts[c]
                    },
            decreases nproj - c0,
        {
            let ghost before = *out;
            out.utf8_out[c0].clear();
            proof {
                assert forall|c: int| 0 <= c < MAX_PROJECT implies (#[trigger] out.utf8_out@[c])@
                    == if c < c0 + 1 {
                    out0.texts[c].cleared()
                } else {
                    out0.texts[c]
                } by {
                    assert(before.utf8_out@[c]@ == if c < c0 {
                        out0.texts[c].cleared()
                    } else {
                        out0.texts[c]
                    });
                }
                assert(out@.ints =~= before@.ints);
                assert(out@.schema =~= before@.schema);
            }
            c0 += 1;
        }
        let n: usize = cur.order_len;
        let mut row: usize = 0;
        while row < n
            invariant
                row <= n == cur.order_len,
                nproj <= MAX_PROJECT,
                cur.wf(*scratch),
                f == cur.flow(*scratch, out0),
                done.len() == nproj,
                forall|c: int|
                    0 <= c < nproj ==> (#[trigger] cols@[c])@ == done[c] && cols@[c].exists_in(*cur),
                forall|c: int|
                    0 <= c < nproj ==> #[trigger] metas.types[c] == f.meta(done[c]).phys,
                out@.schema == metas.schema,
                out.types@ == metas.types,
                out.live@ == metas.live,
                out.col_count == nproj,
                forall|c: int| 0 <= c < nproj ==> (#[trigger] out.schema@[c]).name.wf(),
                old(out).wf() ==> forall|c: int|
                    0 <= c < MAX_PROJECT ==> (#[trigger] out.utf8_out@[c]).wf(),
                forall|c: int|
                    0 <= c < MAX_PROJECT ==> (#[trigger] out.int_out@[c])@ == if c < nproj {
                        f.int_rows(out0.ints[c], done[c], row as int)
                    } else {
                        out0.ints[c]
                    },
                forall|c: int|
                    0 <= c < MAX_PROJECT ==> (#[trigger] out.utf8_out@[c])@ == if c < nproj {
                        f.text_rows(out0.texts[c].cleared(), done[c], row as int)
                    } else {
                        out0.texts[c]
                    },
            decreases n - row,
        {
            let slot: u16 = scratch.order[row];
            assert(slot == f.order[row as int]);
            let mut c: usize = 0;
            while c < nproj
                invariant
                    c <= nproj <= MAX_PROJECT,
                    row < n == cur.order_len,
                    cur.wf(*scratch),
                    slot < cur.slots,
                    slot == f.order[row as int],
                    f == cur.flow(*scratch, out0),
                    done.len() == nproj,
                    forall|q: int|
                        0 <= q < nproj ==> (#[trigger] cols@[q])@ == done[q] && cols@[q].exists_in(
                            *cur,
                        ),
                    forall|q: int|
                        0 <= q < nproj ==> #[trigger] metas.types[q] == f.meta(done[q]).phys,
                    out@.schema == metas.schema,
                    out.types@ == metas.types,
                    out.live@ == metas.live,
                    out.col_count == nproj,
                    forall|q: int| 0 <= q < nproj ==> (#[trigger] out.schema@[q]).name.wf(),
                    old(out).wf() ==> forall|q: int|
                        0 <= q < MAX_PROJECT ==> (#[trigger] out.utf8_out@[q]).wf(),
                    forall|q: int|
                        0 <= q < MAX_PROJECT ==> (#[trigger] out.int_out@[q])@ == if q < c {
                            f.int_rows(out0.ints[q], done[q], row as int + 1)
                        } else if q < nproj {
                            f.int_rows(out0.ints[q], done[q], row as int)
                        } else {
                            out0.ints[q]
                        },
                    forall|q: int|
                        0 <= q < MAX_PROJECT ==> (#[trigger] out.utf8_out@[q])@ == if q < c {
                            f.text_rows(out0.texts[q].cleared(), done[q], row as int + 1)
                        } else if q < nproj {
                            f.text_rows(out0.texts[q].cleared(), done[q], row as int)
                        } else {
                            out0.texts[q]
                        },
                decreases nproj - c,
            {
                let phys = out.types[c];
                let source = cols[c];
                let ghost before = *out;
                assert(cols@[c as int]@ == done[c as int]);
                write_cell(
                    source,
                    phys,
                    cur,
                    scratch,
                    slot,
                    row,
                    &mut out.int_out[c],
                    &mut out.utf8_out[c],
                    Ghost(out0),
                );
                proof {
                    assert(before.int_out@[c as int]@ == f.int_rows(
                        out0.ints[c as int],
                        done[c as int],
                        row as int,
                    ));
                    assert(before.utf8_out@[c as int]@ == f.text_rows(
                        out0.texts[c as int].cleared(),
                        done[c as int],
                        row as int,
                    ));
                    assert forall|q: int| 0 <= q < MAX_PROJECT && q != c implies (
                    #[trigger] out.int_out@[q])@ == before.int_out@[q]@ by {}
                    assert forall|q: int| 0 <= q < MAX_PROJECT && q != c implies (
                    #[trigger] out.utf8_out@[q])@ == before.utf8_out@[q]@ by {}
                    assert(out@.schema =~= before@.schema);
                }
                c += 1;
            }
            row += 1;
        }
        out.row_count = n as u16;
        proof {
            let want = f.written(done);
            assert(out@.ints =~= want.ints);
            assert(out@.texts =~= want.texts);
            assert(out@ =~= want);
            assert(cur.flow(*scratch, out@) =~= (Flow { out: want, ..f }));
        }
        Ok(())
    }
}

impl RuntimeScratch {
    /// The flow before the first stage of a query.
    pub open spec fn idle(&self, out: OutView) -> Flow {
        Flow {
            left: None,
            right: None,
            mapped: false,
            lrow: Seq::empty(),
            rrow: Seq::empty(),
            keep: Seq::empty(),
            order: Seq::empty(),
            sorted: false,
            has_derived: self.has_derived,
            derived_name: self.derived_name@,
            derived: self.derived@,
            groups: self.groups@,
            out,
        }
    }

    /// The buffers hold what a query that ended in `f` leaves in them: the order, the row
    /// maps, the derived column and the groups, which can be read once a source relation was.
    /// The other buffers are working space.
    pub open spec fn holds(&self, f: Flow) -> bool {
        &&& f.order.len() <= MAX_ROWS
        &&& self.order@.take(f.order.len() as int) == f.order
        &&& f.mapped ==> self.join_left@.take(f.slots() as int) == f.lrow
        &&& f.mapped ==> self.join_right@.take(f.slots() as int) == f.rrow
        &&& self.has_derived == f.has_derived
        &&& self.derived_name@ == f.derived_name
        &&& self.derived@ == f.derived
        &&& self.groups@ == f.groups
        &&& f.left is Some ==> self.is_tidy()
    }
}

/// Writes the derived column out where a pipeline ended without projecting anything.
fn surface_derived<'a>(cur: &Cursor<'a>, scratch: &RuntimeScratch, out: &mut QueryResult)
    requires
        cur.wf(*scratch),
    ensures
        old(out).wf() ==> final(out).wf(),
        cur.flow(*scratch, final(out)@) == cur.flow(*scratch, old(out)@).surfaced(),
{
    let ghost out0 = out@;
    let ghost f = cur.flow(*scratch, out0);
    if out.col_count != 0 || scratch.has_derived == 0 || cur.order_len == 0 {
        return ;
    }
    out.put_meta(0, derived_meta(scratch));
    out.col_count = 1;
    let ghost named = out@;
    let n: usize = cur.order_len;
    let mut r: usize = 0;
    while r < n
        invariant
            r <= n == cur.order_len,
            cur.wf(*scratch),
            f == cur.flow(*scratch, out0),
            out@.schema == named.schema,
            out.types@ == named.types,
            out.live@ == named.live,
            out@.texts == named.texts,
            out.utf8_out == old(out).utf8_out,
            out.schema@[0].name.wf(),
            out.col_count == 1,
            forall|c: int|
                0 <= c < MAX_PROJECT ==> (#[trigger] out.int_out@[c])@ == if c == 0 {
                    f.int_rows(out0.ints[0], Source::Derived, r as int)
                } else {
                    out0.ints[c]
                },
        decreases n - r,
    {
        let slot: u16 = scratch.order[r];
        let ghost before = *out;
        assert(slot == f.order[r as int]);
        out.int_out[0].put(r, scratch.derived[slot as usize]);
        proof {
            assert(before.int_out@[0]@ == f.int_rows(out0.ints[0], Source::Derived, r as int));
            assert forall|c: int| 0 < c < MAX_PROJECT implies (#[trigger] out.int_out@[c])@
                == before.int_out@[c]@ by {}
            assert(out@.schema =~= before@.schema);
            assert(out@.texts =~= before@.texts);
        }
        r += 1;
    }
    out.row_count = n as u16;
    proof {
        let want = f.surfaced();
        assert(out@.ints =~= want.out.ints);
        assert(out@ =~= want.out);
        assert(cur.flow(*scratch, out@) =~= want);
    }
}

impl<'a> Engine<'a> {
    /// Runs one stage.
    fn run_stage(
        &self,
        arena: &AstArena,
        st: &AstNode,
        cur: &mut Cursor<'a>,
        scratch: &mut RuntimeScratch,
        out: &mut QueryResult,
    ) -> (r: Result<(), EngineError>)
        requires
            arena.wf(),
            self.catalog.wf(),
            old(cur).wf(*old(scratch)),
        ensures
            final(cur).wf(*final(scratch)),
            old(scratch).is_tidy() ==> final(scratch).is_tidy(),
            old(out).wf() ==> final(out).wf(),
            ran(
                r,
                final(cur).flow(*final(scratch), final(out)@),
                old(cur).flow(*old(scratch), old(out)@).stage(
                    *self.catalog,
                    self.src@,
                    arena@,
                    *st,
                ),
            ),
    {
        let ghost view = out@;
        match st.kind {
            NodeKind::From => self.run_from(arena, st, cur, scratch, Ghost(view)),
            NodeKind::Join => self.run_join(arena, st, cur, scratch, Ghost(view)),
            NodeKind::Filter => self.run_filter(arena, st, cur, scratch, Ghost(view)),
            NodeKind::Sort => self.run_sort(arena, st, cur, scratch, Ghost(view)),
            NodeKind::Take => {
                let ghost f = cur.flow(*scratch, view);
                Self::apply_take(&mut cur.order_len, st.value);
                proof {
                    let g = f.take(st.value);
                    assert(scratch.order@.take(cur.order_len as int) =~= g.order);
                    assert(cur.flow(*scratch, view) =~= g);
                }
                Ok(())
            },
            NodeKind::Project => self.materialize_projection(arena, st, cur, scratch, out),
            NodeKind::Derive => self.apply_derive(arena, st, cur, scratch, Ghost(view)),
            NodeKind::Group => self.run_group(arena, st, cur, scratch, Ghost(view)),
            NodeKind::Aggregate => self.run_aggregate(arena, st, cur, scratch, Ghost(view)),
            _ => Err(EngineError::ParseFailed),
        }
    }

    /// Runs the pipeline of an arena: writes its result to `out`, and leaves the order, the
    /// row maps, the derived column and the groups in `scratch`. The list of its stages has
    /// to end.
    pub fn execute(
        &self,
        arena: &AstArena,
        out: &mut QueryResult,
        scratch: &mut RuntimeScratch,
    ) -> (r: Result<(), EngineError>)
        requires
            arena.wf(),
            self.catalog.wf(),
            arena.at(arena.root) matches Some(n) ==> n.kind == NodeKind::Pipeline
                ==> crate::parser::list_ends(arena@, n.left, arena@.len()),
        ensures
            old(out).wf() ==> final(out).wf(),
            old(scratch).is_tidy() ==> final(scratch).is_tidy(),
            ({
                let step = old(scratch).idle(old(out)@).pipeline(
                    *self.catalog,
                    self.src@,
                    arena@,
                    arena.root,
                );
                &&& match step.fault {
                    None => r is Ok,
                    Some(f) => r is Err && r->Err_0.is_fault(f),
                }
                &&& final(out)@ == step.flow.out
                &&& final(scratch).holds(step.flow)
            }),
    {
        let ghost f0 = scratch.idle(out@);
        let mut cur = Cursor::start();
        proof {
            assert(cur.flow(*scratch, out@) =~= f0);
        }
        let root = match arena.get(arena.root) {
            Some(n) => n,
            None => {
                return Err(EngineError::ParseFailed);
            },
        };
        if root.kind != NodeKind::Pipeline {
            return Err(EngineError::ParseFailed);
        }
        let ghost whole = f0.stages(*self.catalog, self.src@, arena@, root.left, arena@.len());
        let ghost mut n = arena@.len();
        let mut stage_id: u32 = root.left;
        while stage_id != NIL
            invariant
                arena.wf(),
                self.catalog.wf(),
                cur.wf(*scratch),
                old(out).wf() ==> out.wf(),
                old(scratch).is_tidy() ==> scratch.is_tidy(),
                crate::parser::list_ends(arena@, stage_id, n),
                arena.at(arena.root) == Some(*root),
                root.kind == NodeKind::Pipeline,
                f0 == old(scratch).idle(old(out)@),
                whole == f0.stages(*self.catalog, self.src@, arena@, root.left, arena@.len()),
                whole == cur.flow(*scratch, out@).stages(
                    *self.catalog,
                    self.src@,
                    arena@,
                    stage_id,
                    n,
                ),
            decreases n,
        {
            let stage = match arena.get(stage_id) {
                Some(s) => s,
                None => {
                    return Err(EngineError::ParseFailed);
                },
            };
            match self.run_stage(arena, stage, &mut cur, scratch, out) {
                Ok(_) => {},
                Err(e) => {
                    return Err(e);
                },
            }
            proof {
                n = (n - 1) as nat;
            }
            stage_id = stage.next;
        }
        surface_derived(&cur, scratch, out);
        Ok(())
    }
}

/// Pages that a filter over a column file looked at, and pages that it did not have to.
#[derive(Copy, Clone, Debug, PartialEq, Eq, Structural)]
pub struct PushdownStats {
    pub pages_total: u32,
    pub pages_scanned: u32,
    pub pages_skipped: u32,
}

impl PushdownStats {
    /// The numbers of a query over tables in memory, which have no pages.
    pub fn in_memory_fallback() -> (r: Self)
        ensures
            r == (PushdownStats { pages_total: 0, pages_scanned: 0, pages_skipped: 0 }),
    {
        PushdownStats { pages_total: 0, pages_scanned: 0, pages_skipped: 0 }
    }
}

impl Default for PushdownStats {
    /// No pages.
    fn default() -> (r: Self)
        ensures
            r == (PushdownStats { pages_total: 0, pages_scanned: 0, pages_skipped: 0 }),
    {
        Self::in_memory_fallback()
    }
}

/// The tree of a query: its nodes, and which of them is the root.
pub struct Tree {
    pub nodes: Seq<AstNode>,
    pub root: u32,
}

/// The tree that a query is parsed into.
pub open spec fn parsed(src: Seq<u8>) -> Result<Tree, ParserError> {
    let run = crate::lexer::lex_source(src);
    match run.error {
        Some(e) => Err(ParserError::of_lexer(e)),
        None => match crate::parser::pipeline(run.tokens, 0, crate::parser::AST_CAP as int) {
            Err(h) => Err(h.error),
            Ok(stages) => Ok(
                Tree {
                    nodes: crate::parser::lay_pipeline(
                        run.tokens,
                        Seq::empty(),
                        stages.starts,
                    ).nodes,
                    root: crate::parser::root_index(run.tokens, Seq::empty(), 0) as u32,
                },
            ),
        },
    }
}

/// The nodes that a query which cannot be parsed leaves in its arena: those that were added
/// before the parse failed.
pub open spec fn unparsed_nodes(src: Seq<u8>) -> Seq<AstNode> {
    let run = crate::lexer::lex_source(src);
    match run.error {
        Some(_) => Seq::empty(),
        None => crate::parser::left_by_pipeline(
            run.tokens,
            Seq::empty(),
            0,
            crate::parser::AST_CAP as int,
        ),
    }
}

/// The error of a query that cannot be parsed.
pub open spec fn parse_error(e: ParserError) -> EngineError {
    if e == ParserError::NumberLiteralOverflow {
        EngineError::LiteralOverflow
    } else {
        EngineError::ParseFailed
    }
}

/// What running a query does: it is parsed, and its pipeline is run. Where it cannot be
/// parsed, the result and the buffers stay as they were.
pub open spec fn queried(
    src: Seq<u8>,
    catalog: Catalog,
    out: OutView,
    scratch: RuntimeScratch,
    r: Result<(), EngineError>,
    out_after: OutView,
    scratch_after: RuntimeScratch,
) -> bool {
    match parsed(src) {
        Err(e) => r == Err::<(), EngineError>(parse_error(e)) && out_after == out && scratch_after
            == scratch,
        Ok(tree) => {
            let step = scratch.idle(out).pipeline(catalog, src, tree.nodes, tree.root);
            &&& match step.fault {
                None => r is Ok,
                Some(f) => r is Err && r->Err_0.is_fault(f),
            }
            &&& out_after == step.flow.out
            &&& scratch_after.holds(step.flow)
        },
    }
}

/// No stage gives the source relation up.
proof fn lemma_stages_keep_the_source(
    f: Flow,
    cat: Catalog,
    src: Seq<u8>,
    nodes: Seq<AstNode>,
    id: u32,
    n: nat,
)
    requires
        f.left is Some,
    ensures
        f.stages(cat, src, nodes, id, n).flow.left is Some,
    decreases n,
{
    if id != NIL && n > 0 && id < nodes.len() {
        let st = nodes[id as int];
        let step = f.stage(cat, src, nodes, st);
        assert(step.flow.left is Some);
        if step.fault is None {
            lemma_stages_keep_the_source(step.flow, cat, src, nodes, st.next, (n - 1) as nat);
        }
    }
}

/// A parsed query that succeeds has read a source relation.
proof fn lemma_query_reads_a_source(f: Flow, cat: Catalog, src: Seq<u8>)
    requires
        parsed(src) matches Ok(tree) && tree.nodes.len() <= crate::parser::AST_CAP,
    ensures
        ({
            let tree = parsed(src)->Ok_0;
            let step = f.pipeline(cat, src, tree.nodes, tree.root);
            step.fault is None ==> step.flow.left is Some
        }),
{
    let toks = crate::lexer::lex_source(src).tokens;
    let starts = crate::parser::pipeline(toks, 0, crate::parser::AST_CAP as int)->Ok_0.starts;
    let tree = parsed(src)->Ok_0;
    assert(starts[0] == 0);
    crate::parser::law_stages_are_linked_in_order(toks, Seq::empty(), starts, 0);
    crate::parser::lemma_layout_places(toks, Seq::empty(), starts);
    let root = tree.nodes[tree.root as int];
    let first = tree.nodes[root.left as int];
    assert(first.kind == NodeKind::From);
    let step = f.stage(cat, src, tree.nodes, first);
    if step.fault is None {
        lemma_stages_keep_the_source(
            step.flow,
            cat,
            src,
            tree.nodes,
            first.next,
            (tree.nodes.len() - 1) as nat,
        );
    }
}

/// Parses and runs a query. `arena` is emptied and then holds its tree, or what there is of it
/// where it cannot be parsed; `tokens` holds its tokens.
pub fn run_query(
    src: &str,
    catalog: &Catalog,
    arena: &mut AstArena,
    out: &mut QueryResult,
    scratch: &mut RuntimeScratch,
    tokens: &mut [Token; MAX_TOKENS],
) -> (r: Result<(), EngineError>)
    requires
        catalog.wf(),
    ensures
        ({
            let bytes = vstd::utf8::encode_utf8(src@);
            let run = crate::lexer::lex_source(bytes);
            &&& queried(bytes, *catalog, old(out)@, *old(scratch), r, final(out)@, *final(scratch))
            &&& final(tokens)@ == run.tokens + old(tokens)@.skip(run.tokens.len() as int)
            &&& match parsed(bytes) {
                Ok(tree) => final(arena)@ == tree.nodes && final(arena).root == tree.root,
                Err(_) => final(arena).root == NIL && final(arena)@ == unparsed_nodes(bytes),
            }
            &&& final(arena).wf()
        }),
        r is Ok ==> final(scratch).is_tidy(),
        old(scratch).is_tidy() ==> final(scratch).is_tidy(),
        old(out).wf() ==> final(out).wf(),
{
    arena.len = 0;
    arena.root = NIL;
    let bytes = src.as_bytes();
    assert(arena@ =~= Seq::<AstNode>::empty());
    match parse_query(bytes, arena, tokens) {
        Ok(_) => {},
        Err(ParserError::NumberLiteralOverflow) => {
            return Err(EngineError::LiteralOverflow);
        },
        Err(_) => {
            return Err(EngineError::ParseFailed);
        },
    }
    proof {
        let run = crate::lexer::lex_source(bytes@);
        let stages = crate::parser::pipeline(run.tokens, 0, crate::parser::AST_CAP as int)->Ok_0;
        crate::parser::law_parsed_links_point_forward(run.tokens, Seq::empty(), stages.starts);
        if let Some(n) = arena.at(arena.root) {
            crate::parser::lemma_forward_lists_end(arena@, n.left);
        }
        lemma_query_reads_a_source(scratch.idle(out@), *catalog, bytes@);
    }
    let engine = Engine::new(catalog, bytes);
    engine.execute(arena, out, scratch)
}

/// Parses and runs a query as [`run_query`] does, and says how many pages of column files it
/// looked at.
pub fn run_query_checked(
    src: &str,
    catalog: &Catalog,
    arena: &mut AstArena,
    out: &mut QueryResult,
    scratch: &mut RuntimeScratch,
    tokens: &mut [Token; MAX_TOKENS],
) -> (r: Result<PushdownStats, EngineError>)
    requires
        catalog.wf(),
    ensures
        ({
            let bytes = vstd::utf8::encode_utf8(src@);
            let run = crate::lexer::lex_source(bytes);
            let ran = match r {
                Ok(_) => Ok::<(), EngineError>(()),
                Err(e) => Err::<(), EngineError>(e),
            };
            &&& queried(
                bytes,
                *catalog,
                old(out)@,
                *old(scratch),
                ran,
                final(out)@,
                *final(scratch),
            )
            &&& r matches Ok(s) ==> s == (PushdownStats {
                pages_total: 0,
                pages_scanned: 0,
                pages_skipped: 0,
            })
            &&& final(tokens)@ == run.tokens + old(tokens)@.skip(run.tokens.len() as int)
            &&& match parsed(bytes) {
                Ok(tree) => final(arena)@ == tree.nodes && final(arena).root == tree.root,
                Err(_) => final(arena).root == NIL && final(arena)@ == unparsed_nodes(bytes),
            }
            &&& final(arena).wf()
        }),
        r is Ok ==> final(scratch).is_tidy(),
        old(scratch).is_tidy() ==> final(scratch).is_tidy(),
        old(out).wf() ==> final(out).wf(),
{
    match run_query(src, catalog, arena, out, scratch, tokens) {
        Ok(_) => Ok(PushdownStats::in_memory_fallback()),
        Err(e) => Err(e),
    }
}

} // verus!
