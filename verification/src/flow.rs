//! What a pipeline means.
//!
//! A [`Flow`] is the state between two stages: which rows of which tables are in the
//! pipeline, in what order, and what has been derived, grouped and written out so far. Each
//! stage is a function from flow to flow.

use vstd::prelude::*;
use crate::kernels::{ArithOp, CompareOp};
use crate::lexer::TokenKind;
use crate::parser::{AstNode, NodeKind, NIL};
use crate::storage::{Catalog, IntView, MetaView, PhysType, Table, Utf8View, MAX_ROWS};

verus! {

/// Columns a result can have.
pub const MAX_PROJECT: usize = 8;

/// Why a pipeline fails. Names are as they stand in their fixed buffers.
pub enum Fault {
    /// A node is missing, of the wrong kind, or comes before the source relation.
    Shape,
    /// There is no such table, or no such column in it.
    NotFound { table: Seq<u8>, column: Seq<u8> },
}

/// What a result holds.
#[verifier::ext_equal]
pub struct OutView {
    pub schema: Seq<MetaView>,
    pub types: Seq<PhysType>,
    pub live: Seq<u8>,
    pub ints: Seq<IntView>,
    pub texts: Seq<Utf8View>,
    pub col_count: nat,
    pub row_count: nat,
}

impl OutView {
    /// The result with schema entry `c` filled in.
    pub open spec fn with_meta(self, c: int, m: MetaView) -> OutView {
        OutView {
            schema: self.schema.update(c, m),
            types: self.types.update(c, m.phys),
            live: self.live.update(c, 1u8),
            ..self
        }
    }
}

/// Rows of equal key: the key, the table rows, and what an aggregate says of them.
#[verifier::ext_equal]
pub struct Group {
    pub key: i64,
    pub members: Seq<(u16, u16)>,
    pub sum: i64,
    pub min: i64,
    pub max: i64,
}

/// The state between two stages.
#[verifier::ext_equal]
pub struct Flow {
    /// The source relation.
    pub left: Option<Table>,
    /// The relation joined last.
    pub right: Option<Table>,
    /// Whether slots stand for something else than the rows of the source relation.
    pub mapped: bool,
    /// The source row of each slot.
    pub lrow: Seq<u16>,
    /// The joined row of each slot.
    pub rrow: Seq<u16>,
    /// Which slots the filters have kept.
    pub keep: Seq<bool>,
    /// The slots in the pipeline, in order.
    pub order: Seq<u16>,
    /// Whether the order comes from a sort.
    pub sorted: bool,
    /// `1` if there is a derived column, `0` if there is none.
    pub has_derived: u8,
    /// Its name.
    pub derived_name: Seq<u8>,
    /// Its value for each slot.
    pub derived: Seq<i64>,
    /// The groups of the last grouping.
    pub groups: Seq<Group>,
    /// What has been written out.
    pub out: OutView,
}

/// A flow after a stage, and why the stage failed if it did.
pub struct Step {
    pub flow: Flow,
    pub fault: Option<Fault>,
}

/// The text of a node in the source; none where its span does not lie in it.
pub open spec fn name_of(src: Seq<u8>, n: AstNode) -> Seq<u8> {
    if n.start <= n.end <= src.len() {
        src.subrange(n.start as int, n.end as int)
    } else {
        Seq::empty()
    }
}

/// Node `id` of an arena.
pub open spec fn node_at(nodes: Seq<AstNode>, id: u32) -> Option<AstNode> {
    if id != NIL && id < nodes.len() {
        Some(nodes[id as int])
    } else {
        None
    }
}

/// The name that node `id` gives, if it is the node of a name.
pub open spec fn name_at(src: Seq<u8>, nodes: Seq<AstNode>, id: u32) -> Option<Seq<u8>> {
    match node_at(nodes, id) {
        Some(n) => if n.kind == NodeKind::Ident {
            Some(name_of(src, n))
        } else {
            None
        },
        None => None,
    }
}

/// The error of a table or column that is not there.
pub open spec fn not_found(table: Seq<u8>, column: Seq<u8>) -> Fault {
    Fault::NotFound {
        table: crate::storage::padded_name(table),
        column: crate::storage::padded_name(column),
    }
}

/// The name of the column that joins relations.
pub open spec fn key_name() -> Seq<u8> {
    vstd::utf8::encode_utf8("அடையாளம்"@)
}

/// The name of the column that counts the rows of a group.
pub open spec fn count_name() -> Seq<u8> {
    vstd::utf8::encode_utf8("எண்ணிக்கை"@)
}

/// The comparison that a token stands for.
pub open spec fn comparison_of(k: TokenKind) -> Option<CompareOp> {
    match k {
        TokenKind::Gt => Some(CompareOp::Gt),
        TokenKind::Lt => Some(CompareOp::Lt),
        TokenKind::Eq => Some(CompareOp::Eq),
        _ => None,
    }
}

/// The arithmetic that a token stands for.
pub open spec fn arithmetic_of(k: TokenKind) -> Option<ArithOp> {
    match k {
        TokenKind::Star => Some(ArithOp::Mul),
        TokenKind::Plus => Some(ArithOp::Add),
        TokenKind::Minus => Some(ArithOp::Sub),
        _ => None,
    }
}

/// The elements of `s` that `keep` keeps, in order.
pub open spec fn kept(s: Seq<u16>, keep: Seq<bool>) -> Seq<u16>
    decreases s.len(),
{
    if s.len() == 0 {
        s
    } else if keep[s.last() as int] {
        kept(s.drop_last(), keep).push(s.last())
    } else {
        kept(s.drop_last(), keep)
    }
}

/// `s` cut into runs of neighbours of equal key.
pub open spec fn runs(key: spec_fn(u16) -> int, s: Seq<u16>) -> Seq<Seq<u16>>
    decreases s.len(),
{
    if s.len() == 0 {
        Seq::empty()
    } else {
        let before = runs(key, s.drop_last());
        if before.len() > 0 && key(before.last()[0]) == key(s.last()) {
            before.drop_last().push(before.last().push(s.last()))
        } else {
            before.push(seq![s.last()])
        }
    }
}

/// The sum of values, wrapping at the ends of the 64-bit range.
pub open spec fn wrapping_sum(v: Seq<i64>) -> i64
    decreases v.len(),
{
    if v.len() == 0 {
        0
    } else {
        wrapping_sum(v.drop_last()).wrapping_add(v.last())
    }
}

/// The smallest of values, of which there is at least one.
pub open spec fn least(v: Seq<i64>) -> i64
    decreases v.len(),
{
    if v.len() <= 1 {
        v[0]
    } else if v.last() < least(v.drop_last()) {
        v.last()
    } else {
        least(v.drop_last())
    }
}

/// The greatest of values, of which there is at least one.
pub open spec fn greatest(v: Seq<i64>) -> i64
    decreases v.len(),
{
    if v.len() <= 1 {
        v[0]
    } else if v.last() > greatest(v.drop_last()) {
        v.last()
    } else {
        greatest(v.drop_last())
    }
}

impl Group {
    /// The group with the aggregates of `v`, a value for each member.
    pub open spec fn aggregated(self, v: Seq<i64>) -> Group {
        Group { sum: wrapping_sum(v), min: least(v), max: greatest(v), ..self }
    }
}

/// Where a column of a result comes from.
pub enum Source {
    Derived,
    Left(int),
    Right(int),
}

/// The columns that a list of names stands for, up to the first name that is not found.
pub struct Columns {
    pub sources: Seq<Source>,
    pub fault: Option<Fault>,
}

impl Flow {
    /// The number of slots.
    pub open spec fn slots(self) -> nat {
        self.keep.len()
    }

    /// The flow with every one of `n` slots in the pipeline.
    pub open spec fn with_slots(self, n: nat) -> Flow {
        Flow {
            keep: Seq::new(n, |i: int| true),
            order: crate::order::iota(n),
            sorted: false,
            ..self
        }
    }

    /// The value for each slot of the integer column `name`: of the source relation if that
    /// has one, else of the joined relation.
    pub open spec fn column(self, name: Seq<u8>) -> Option<Seq<i64>> {
        match self.left_column(name) {
            Some(v) => Some(v),
            None => match self.right {
                Some(t) => match t.int_values(name) {
                    Some(v) => Some(Seq::new(self.slots(), |i: int| v[self.rrow[i] as int])),
                    None => None,
                },
                None => None,
            },
        }
    }

    /// The value for each slot of the integer column `name` of the source relation.
    pub open spec fn left_column(self, name: Seq<u8>) -> Option<Seq<i64>> {
        match self.left {
            Some(t) => match t.int_values(name) {
                Some(v) => Some(Seq::new(self.slots(), |i: int| v[self.lrow[i] as int])),
                None => None,
            },
            None => None,
        }
    }

    /// The error of a column that the source relation does not have.
    pub open spec fn missing(self, name: Seq<u8>) -> Fault {
        not_found(self.left->0.name@, name)
    }

    pub open spec fn ok(self) -> Step {
        Step { flow: self, fault: None }
    }

    pub open spec fn fails(self, e: Fault) -> Step {
        Step { flow: self, fault: Some(e) }
    }

    /// `இருந்து`: every row of a table.
    pub open spec fn from(
        self,
        cat: Catalog,
        src: Seq<u8>,
        nodes: Seq<AstNode>,
        st: AstNode,
    ) -> Step {
        match name_at(src, nodes, st.left) {
            None => self.fails(Fault::Shape),
            Some(name) => match cat.lookup(name) {
                None => self.fails(not_found(name, Seq::empty())),
                Some(t) => Flow {
                    left: Some(t),
                    right: None,
                    mapped: false,
                    lrow: crate::order::iota(t.live_rows()),
                    rrow: crate::order::iota(t.live_rows()),
                    has_derived: 0,
                    derived_name: Seq::empty(),
                    groups: Seq::empty(),
                    ..self
                }.with_slots(t.live_rows()).ok(),
            },
        }
    }

    /// The flow after the kept slots were joined with `t` on `lkeys` (by slot) and `rkeys`
    /// (by row).
    pub open spec fn joined_with(self, t: Table, lkeys: Seq<i64>, rkeys: Seq<i64>) -> Flow {
        let ls = crate::order::selected(self.keep, self.slots() as int);
        let dense = Seq::new(ls.len(), |i: int| lkeys[ls[i] as int]);
        let pairs = crate::order::first_of(
            crate::kernels::equi_join(dense, ls.len(), rkeys, t.live_rows()),
            MAX_ROWS as int,
        );
        Flow {
            right: Some(t),
            mapped: true,
            lrow: Seq::new(pairs.len(), |i: int| self.lrow[ls[pairs[i].0 as int] as int]),
            rrow: Seq::new(pairs.len(), |i: int| pairs[i].1),
            groups: Seq::empty(),
            ..self
        }.with_slots(pairs.len())
    }

    /// `இணை`: the kept slots, joined with a table on the key column of both.
    pub open spec fn join(
        self,
        cat: Catalog,
        src: Seq<u8>,
        nodes: Seq<AstNode>,
        st: AstNode,
    ) -> Step {
        if self.left is None {
            self.fails(Fault::Shape)
        } else {
            match name_at(src, nodes, st.left) {
                None => self.fails(Fault::Shape),
                Some(name) => match cat.lookup(name) {
                    None => self.fails(not_found(name, Seq::empty())),
                    Some(t) => match (self.left_column(key_name()), t.int_values(key_name())) {
                        (None, _) => self.fails(self.missing(key_name())),
                        (_, None) => self.fails(not_found(t.name@, key_name())),
                        (Some(lkeys), Some(rkeys)) => self.joined_with(t, lkeys, rkeys).ok(),
                    },
                },
            }
        }
    }

    /// The flow after a filter by `pass`. The order of a sort is kept if `stay`; else the
    /// slots come in their own order.
    pub open spec fn filtered(self, pass: spec_fn(int) -> bool, stay: bool) -> Flow {
        let keep = Seq::new(self.slots(), |i: int| self.keep[i] && pass(i));
        Flow {
            keep,
            order: if stay {
                kept(self.order, keep)
            } else {
                crate::order::selected(keep, self.slots() as int)
            },
            ..self
        }
    }

    /// `வடி`: the slots whose value in a column compares to a literal. The derived column
    /// comes before one of a table. An operator that does not compare keeps no slot, but for
    /// a column of a source relation that was not joined it is an error.
    pub open spec fn filter(self, src: Seq<u8>, nodes: Seq<AstNode>, st: AstNode) -> Step {
        match node_at(nodes, st.left) {
            None => self.fails(Fault::Shape),
            Some(bin) => if self.left is None || bin.kind != NodeKind::BinOp {
                self.fails(Fault::Shape)
            } else {
                match (name_at(src, nodes, bin.left), node_at(nodes, bin.right)) {
                    (Some(name), Some(lit)) => {
                        let op = comparison_of(bin.op);
                        let pass = |v: i64| op is Some && op->0.holds(v, lit.value);
                        if self.has_derived != 0 && self.derived_name == name {
                            self.filtered(|i: int| pass(self.derived[i]), false).ok()
                        } else {
                            match self.column(name) {
                                None => self.fails(self.missing(name)),
                                Some(v) => if !self.mapped && op is None {
                                    self.fails(Fault::Shape)
                                } else {
                                    self.filtered(
                                        |i: int| pass(v[i]),
                                        self.sorted && !self.mapped,
                                    ).ok()
                                },
                            }
                        }
                    },
                    _ => self.fails(Fault::Shape),
                }
            },
        }
    }

    /// `அடுக்கு`: the kept slots, sorted stably by a column of the source relation.
    pub open spec fn sort(self, src: Seq<u8>, nodes: Seq<AstNode>, st: AstNode) -> Step {
        if self.left is None {
            self.fails(Fault::Shape)
        } else {
            match name_at(src, nodes, st.left) {
                None => self.fails(Fault::Shape),
                Some(name) => match self.left_column(name) {
                    None => self.fails(self.missing(name)),
                    Some(v) => Flow {
                        order: crate::order::stable_sort(
                            crate::order::by_value(v),
                            crate::order::selected(self.keep, self.slots() as int),
                        ),
                        sorted: true,
                        ..self
                    }.ok(),
                },
            }
        }
    }

    /// `எடு`: the first `n` slots of the order.
    pub open spec fn take(self, n: i64) -> Flow {
        Flow {
            order: crate::order::first_of(
                self.order,
                if n < 0 {
                    0
                } else {
                    n as int
                },
            ),
            ..self
        }
    }

    /// The value of an operand for each slot.
    pub open spec fn operand(self, src: Seq<u8>, n: AstNode) -> Result<Seq<i64>, Fault> {
        match n.kind {
            NodeKind::Literal => Ok(Seq::new(self.slots(), |i: int| n.value)),
            NodeKind::Ident => if self.left is None {
                Err(Fault::Shape)
            } else {
                match self.column(name_of(src, n)) {
                    Some(v) => Ok(v),
                    None => Err(self.missing(name_of(src, n))),
                }
            },
            _ => Err(Fault::Shape),
        }
    }

    /// The value of an expression for each slot.
    pub open spec fn expression(self, src: Seq<u8>, nodes: Seq<AstNode>, e: AstNode) -> Result<
        Seq<i64>,
        Fault,
    > {
        if e.kind == NodeKind::BinOp {
            match (arithmetic_of(e.op), node_at(nodes, e.left), node_at(nodes, e.right)) {
                (Some(op), Some(a), Some(b)) => match (self.operand(src, a), self.operand(src, b)) {
                    (Ok(x), Ok(y)) => Ok(Seq::new(self.slots(), |i: int| op.apply(x[i], y[i]))),
                    (Err(f), _) => Err(f),
                    (_, Err(f)) => Err(f),
                },
                _ => Err(Fault::Shape),
            }
        } else {
            self.operand(src, e)
        }
    }

    /// The derived column with the values `v` for its first slots.
    pub open spec fn with_values(self, v: Seq<i64>) -> Flow {
        Flow {
            derived: Seq::new(
                self.derived.len(),
                |i: int|
                    if i < v.len() {
                        v[i]
                    } else {
                        self.derived[i]
                    },
            ),
            ..self
        }
    }

    /// `கணி`: a derived column. Its name is taken over even where the expression fails.
    pub open spec fn derive(self, src: Seq<u8>, nodes: Seq<AstNode>, st: AstNode) -> Step {
        match (name_at(src, nodes, st.left), node_at(nodes, st.right)) {
            (Some(name), Some(e)) => {
                let named = Flow {
                    has_derived: 1,
                    derived_name: crate::storage::cut_name(name),
                    ..self
                };
                match self.expression(src, nodes, e) {
                    Ok(v) => named.with_values(v).ok(),
                    Err(f) => named.fails(f),
                }
            },
            _ => self.fails(Fault::Shape),
        }
    }

    /// The groups that the slots of the order make by their `keys`.
    pub open spec fn groups_by(self, keys: Seq<i64>) -> Seq<Group> {
        let key = crate::order::by_value(keys);
        let cut = runs(key, crate::order::stable_sort(key, self.order));
        Seq::new(
            cut.len(),
            |g: int|
                Group {
                    key: keys[cut[g][0] as int],
                    members: cut[g].map_values(
                        |s: u16| (self.lrow[s as int], self.rrow[s as int]),
                    ),
                    sum: 0,
                    min: 0,
                    max: 0,
                }.aggregated(cut[g].map_values(|s: u16| keys[s as int])),
        )
    }

    /// The flow whose slots are groups, each standing for its first row, with the group
    /// sizes as the derived column.
    pub open spec fn grouped(self, groups: Seq<Group>) -> Flow {
        Flow {
            mapped: true,
            lrow: Seq::new(groups.len(), |g: int| groups[g].members[0].0),
            rrow: Seq::new(groups.len(), |g: int| groups[g].members[0].1),
            has_derived: 1,
            derived_name: count_name(),
            groups,
            ..self
        }.with_slots(groups.len()).with_values(
            Seq::new(groups.len(), |g: int| groups[g].members.len() as i64),
        )
    }

    /// `தொகுப்பு`: one slot for each value of a column, in ascending order.
    pub open spec fn group(self, src: Seq<u8>, nodes: Seq<AstNode>, st: AstNode) -> Step {
        if self.left is None {
            self.fails(Fault::Shape)
        } else {
            match name_at(src, nodes, st.left) {
                None => self.fails(Fault::Shape),
                Some(name) => match self.column(name) {
                    None => self.fails(self.missing(name)),
                    Some(keys) => self.grouped(self.groups_by(keys)).ok(),
                },
            }
        }
    }

    /// The values of the integer column `name` for the members of a group.
    pub open spec fn member_values(self, name: Seq<u8>, g: Group) -> Option<Seq<i64>> {
        match self.left {
            None => None,
            Some(t) => match t.int_values(name) {
                Some(v) => Some(g.members.map_values(|m: (u16, u16)| v[m.0 as int])),
                None => match self.right {
                    None => None,
                    Some(u) => match u.int_values(name) {
                        Some(v) => Some(g.members.map_values(|m: (u16, u16)| v[m.1 as int])),
                        None => None,
                    },
                },
            },
        }
    }

    /// Whether there is an integer column `name`.
    pub open spec fn has_column(self, name: Seq<u8>) -> bool {
        self.column(name) is Some
    }

    /// `சுருக்கு`: the sum of a column over each group, as a derived column of that name.
    /// Without groups there is nothing to sum up, and nothing happens.
    pub open spec fn aggregate(self, src: Seq<u8>, nodes: Seq<AstNode>, st: AstNode) -> Step {
        if self.groups.len() == 0 {
            self.ok()
        } else if self.left is None {
            self.fails(Fault::Shape)
        } else {
            match name_at(src, nodes, st.left) {
                None => self.fails(Fault::Shape),
                Some(name) => if !self.has_column(name) {
                    self.fails(self.missing(name))
                } else {
                    let groups = Seq::new(
                        self.groups.len(),
                        |g: int|
                            self.groups[g].aggregated(
                                self.member_values(name, self.groups[g])->0,
                            ),
                    );
                    Flow {
                        has_derived: 1,
                        derived_name: crate::storage::cut_name(name),
                        groups,
                        ..self
                    }.with_values(Seq::new(groups.len(), |g: int| groups[g].sum)).ok()
                },
            }
        }
    }

    /// The columns that the list of names at `id` stands for, at most `room` of them.
    pub open spec fn columns(
        self,
        src: Seq<u8>,
        nodes: Seq<AstNode>,
        id: u32,
        room: nat,
    ) -> Columns
        decreases room,
    {
        let none = Columns { sources: Seq::empty(), fault: None };
        if room == 0 {
            none
        } else {
            match node_at(nodes, id) {
                None => none,
                Some(n) => match self.source(src, n) {
                    Err(f) => Columns { sources: Seq::empty(), fault: Some(f) },
                    Ok(s) => {
                        let rest = self.columns(src, nodes, n.next, (room - 1) as nat);
                        Columns { sources: seq![s] + rest.sources, fault: rest.fault }
                    },
                },
            }
        }
    }

    /// The column that the name at node `n` stands for: the derived one, one of the source
    /// relation, or one of the joined relation.
    pub open spec fn source(self, src: Seq<u8>, n: AstNode) -> Result<Source, Fault> {
        let name = name_of(src, n);
        if n.kind != NodeKind::Ident && n.kind != NodeKind::ColumnList {
            Err(Fault::Shape)
        } else if self.has_derived != 0 && self.derived_name == name {
            Ok(Source::Derived)
        } else {
            match self.left->0.column_index(name) {
                Some(c) => Ok(Source::Left(c)),
                None => match self.right {
                    None => Err(self.missing(name)),
                    Some(t) => match t.column_index(name) {
                        Some(c) => Ok(Source::Right(c)),
                        None => Err(self.missing(name)),
                    },
                },
            }
        }
    }

    /// The schema entry of a column.
    pub open spec fn meta(self, s: Source) -> MetaView {
        match s {
            Source::Derived => crate::storage::meta_view(self.derived_name, PhysType::Int64),
            Source::Left(c) => self.left->0.col_meta@[c]@,
            Source::Right(c) => self.right->0.col_meta@[c]@,
        }
    }

    /// The number in a column for a slot, if it is a column of numbers.
    pub open spec fn int_cell(self, s: Source, slot: u16) -> Option<i64> {
        match s {
            Source::Derived => Some(self.derived[slot as int]),
            Source::Left(c) => if self.meta(s).phys != PhysType::Int64 {
                None
            } else {
                match self.left->0.int_column(c) {
                    Some(v) => Some(v.values[self.lrow[slot as int] as int]),
                    None => None,
                }
            },
            Source::Right(c) => if self.meta(s).phys != PhysType::Int64 {
                None
            } else {
                match self.right->0.int_column(c) {
                    Some(v) => Some(v.values[self.rrow[slot as int] as int]),
                    None => None,
                }
            },
        }
    }

    /// The text in a column for a slot, if it is a column of texts that has one there.
    pub open spec fn text_cell(self, s: Source, slot: u16) -> Option<Seq<u8>> {
        let cell = match s {
            Source::Derived => None,
            Source::Left(c) => match self.left->0.text_column(c) {
                Some(v) => v.row(self.lrow[slot as int] as int),
                None => None,
            },
            Source::Right(c) => match self.right->0.text_column(c) {
                Some(v) => v.row(self.rrow[slot as int] as int),
                None => None,
            },
        };
        match cell {
            Some(b) => if self.meta(s).phys == PhysType::Utf8 && vstd::utf8::valid_utf8(b) {
                Some(b)
            } else {
                None
            },
            None => None,
        }
    }

    /// A result column of numbers after the first `n` slots of the order were written.
    pub open spec fn int_rows(self, col: IntView, s: Source, n: int) -> IntView
        decreases n,
    {
        if n <= 0 {
            col
        } else {
            match self.int_cell(s, self.order[n - 1]) {
                Some(v) => self.int_rows(col, s, n - 1).with(n - 1, v),
                None => self.int_rows(col, s, n - 1),
            }
        }
    }

    /// A result column of texts after the first `n` slots of the order were written. A text
    /// for which the slab has no room leaves its row empty.
    pub open spec fn text_rows(self, col: Utf8View, s: Source, n: int) -> Utf8View
        decreases n,
    {
        if n <= 0 {
            col
        } else {
            match self.text_cell(s, self.order[n - 1]) {
                Some(b) => self.text_rows(col, s, n - 1).offered(n - 1, b),
                None => self.text_rows(col, s, n - 1),
            }
        }
    }

    /// A result with the schema entries of the first `n` columns filled in.
    pub open spec fn with_metas(self, sources: Seq<Source>, n: int) -> OutView
        decreases n,
    {
        if n <= 0 {
            self.out
        } else {
            self.with_metas(sources, n - 1).with_meta(n - 1, self.meta(sources[n - 1]))
        }
    }

    /// The result of writing the slots of the order to the given columns.
    pub open spec fn written(self, sources: Seq<Source>) -> OutView {
        let k = sources.len();
        let n = self.order.len() as int;
        OutView {
            ints: Seq::new(
                self.out.ints.len(),
                |c: int|
                    if c < k {
                        self.int_rows(self.out.ints[c], sources[c], n)
                    } else {
                        self.out.ints[c]
                    },
            ),
            texts: Seq::new(
                self.out.texts.len(),
                |c: int|
                    if c < k {
                        self.text_rows(self.out.texts[c].cleared(), sources[c], n)
                    } else {
                        self.out.texts[c]
                    },
            ),
            col_count: k,
            row_count: self.order.len(),
            ..self.with_metas(sources, k as int)
        }
    }

    /// `தேடு`: the slots of the order, written out column by column. Where a name is not
    /// found, the schema entries of the names before it have been filled in.
    pub open spec fn project(self, src: Seq<u8>, nodes: Seq<AstNode>, st: AstNode) -> Step {
        if self.left is None {
            self.fails(Fault::Shape)
        } else {
            let cols = self.columns(src, nodes, st.left, MAX_PROJECT as nat);
            let k = cols.sources.len() as int;
            match cols.fault {
                Some(f) => Flow { out: self.with_metas(cols.sources, k), ..self }.fails(f),
                None => Flow { out: self.written(cols.sources), ..self }.ok(),
            }
        }
    }

    /// One stage.
    pub open spec fn stage(
        self,
        cat: Catalog,
        src: Seq<u8>,
        nodes: Seq<AstNode>,
        st: AstNode,
    ) -> Step {
        match st.kind {
            NodeKind::From => self.from(cat, src, nodes, st),
            NodeKind::Join => self.join(cat, src, nodes, st),
            NodeKind::Filter => self.filter(src, nodes, st),
            NodeKind::Sort => self.sort(src, nodes, st),
            NodeKind::Take => self.take(st.value).ok(),
            NodeKind::Project => self.project(src, nodes, st),
            NodeKind::Derive => self.derive(src, nodes, st),
            NodeKind::Group => self.group(src, nodes, st),
            NodeKind::Aggregate => self.aggregate(src, nodes, st),
            _ => self.fails(Fault::Shape),
        }
    }

    /// The stages of the list at `id`, one after the other, up to the first that fails. The
    /// list is at most `n` links long.
    pub open spec fn stages(
        self,
        cat: Catalog,
        src: Seq<u8>,
        nodes: Seq<AstNode>,
        id: u32,
        n: nat,
    ) -> Step
        decreases n,
    {
        if id == NIL {
            self.ok()
        } else if n == 0 || id >= nodes.len() {
            self.fails(Fault::Shape)
        } else {
            let st = nodes[id as int];
            let step = self.stage(cat, src, nodes, st);
            if step.fault is Some {
                step
            } else {
                step.flow.stages(cat, src, nodes, st.next, (n - 1) as nat)
            }
        }
    }

    /// The end of a pipeline: where nothing was projected, a derived column is written out.
    pub open spec fn surfaced(self) -> Flow {
        if self.out.col_count == 0 && self.has_derived != 0 && self.order.len() > 0 {
            let n = self.order.len() as int;
            Flow {
                out: OutView {
                    ints: self.out.ints.update(
                        0,
                        self.int_rows(self.out.ints[0], Source::Derived, n),
                    ),
                    col_count: 1,
                    row_count: self.order.len(),
                    ..self.out.with_meta(0, self.meta(Source::Derived))
                },
                ..self
            }
        } else {
            self
        }
    }

    /// A whole pipeline, given the node of its root.
    pub open spec fn pipeline(
        self,
        cat: Catalog,
        src: Seq<u8>,
        nodes: Seq<AstNode>,
        root: u32,
    ) -> Step {
        match node_at(nodes, root) {
            None => self.fails(Fault::Shape),
            Some(n) => if n.kind != NodeKind::Pipeline {
                self.fails(Fault::Shape)
            } else {
                let step = self.stages(cat, src, nodes, n.left, nodes.len());
                if step.fault is Some {
                    step
                } else {
                    step.flow.surfaced().ok()
                }
            },
        }
    }
}

} // verus!
