//! What each stage does, told by the tables, their rows and the numbers and texts in them.
//!
//! [`crate::flow`] computes what a stage makes of a flow. The laws here say what that has to be,
//! in words of their own: which column a name stands for, what stands in a row of it, which rows
//! come through, and in what order.

use crate::flow::{Fault, Flow, OutView, Source, MAX_PROJECT};
use crate::laws::sound;
use crate::lexer::TokenKind;
use crate::parser::{AstNode, NodeKind, NIL};
use crate::storage::{Catalog, IntView, MetaView, Table, Utf8View, MAX_ROWS, UTF8_SLAB_CAP};
use vstd::prelude::*;

verus! {

// ---------------------------------------------------------------------------
// Names, columns and numbers
// ---------------------------------------------------------------------------
/// The text of a node is `name`.
pub open spec fn spells(src: Seq<u8>, n: AstNode, name: Seq<u8>) -> bool {
    if n.start <= n.end && n.end <= src.len() {
        name == src.subrange(n.start as int, n.end as int)
    } else {
        name.len() == 0
    }
}

/// Node `id` is in use.
pub open spec fn is_node(nodes: Seq<AstNode>, id: u32) -> bool {
    id != NIL && id < nodes.len()
}

/// Node `id` is the node of the name `name`.
pub open spec fn is_name(src: Seq<u8>, nodes: Seq<AstNode>, id: u32, name: Seq<u8>) -> bool {
    &&& is_node(nodes, id)
    &&& nodes[id as int].kind == NodeKind::Ident
    &&& spells(src, nodes[id as int], name)
}

/// Column `c` is the one that `name` stands for in `t`: the first of that name.
pub open spec fn is_column(t: Table, name: Seq<u8>, c: int) -> bool {
    &&& 0 <= c < t.col_count
    &&& t.col_meta@[c].name@ == name
    &&& forall|j: int| 0 <= j < c ==> (#[trigger] t.col_meta@[j]).name@ != name
}

/// Whether `name` stands for a column of numbers in `t`.
pub open spec fn has_numbers(t: Table, name: Seq<u8>) -> bool {
    exists|c: int| #[trigger] is_column(t, name, c) && t.columns@[c] is Int64
}

/// `x` is the number in row `row` of the column that `name` stands for in `t`.
pub open spec fn number_in(t: Table, name: Seq<u8>, row: int, x: i64) -> bool {
    exists|c: int| #[trigger]
        is_column(t, name, c) && t.columns@[c] is Int64 && t.columns@[c]->Int64_0.values@[row] == x
}

/// `x` is the number of `name` in slot `i`: that of the source row if `name` stands for numbers in
/// the source table, else that of the joined row.
pub open spec fn slot_number(f: Flow, name: Seq<u8>, i: int, x: i64) -> bool {
    &&& f.left is Some
    &&& if has_numbers(f.left->0, name) {
        number_in(f.left->0, name, f.lrow[i] as int, x)
    } else {
        f.right is Some && number_in(f.right->0, name, f.rrow[i] as int, x)
    }
}

/// Whether `name` stands for numbers in one of the tables of a flow.
pub open spec fn flow_has_numbers(f: Flow, name: Seq<u8>) -> bool {
    &&& f.left is Some
    &&& has_numbers(f.left->0, name) || (f.right is Some && has_numbers(f.right->0, name))
}

/// Whether `name` is that of the derived column.
pub open spec fn is_derived(f: Flow, name: Seq<u8>) -> bool {
    f.has_derived != 0 && f.derived_name == name
}

/// Whether `x op lit` holds; an operator that does not compare never holds.
pub open spec fn compares(op: TokenKind, x: i64, lit: i64) -> bool {
    ||| op == TokenKind::Gt && x > lit
    ||| op == TokenKind::Lt && x < lit
    ||| op == TokenKind::Eq && x == lit
}

/// The fault of the column `name`, which neither table has as numbers: the source table and the
/// name, each cut to its buffer and filled up with zeros.
pub open spec fn names_missing(e: Fault, table: Seq<u8>, name: Seq<u8>) -> bool {
    &&& e is NotFound
    &&& e->table.len() == crate::storage::NAME_CAP
    &&& e->column.len() == crate::storage::NAME_CAP
    &&& forall|i: int|
        0 <= i < crate::storage::NAME_CAP ==> #[trigger] e->table[i] == if i < table.len() {
            table[i]
        } else {
            0
        }
    &&& forall|i: int|
        0 <= i < crate::storage::NAME_CAP ==> #[trigger] e->column[i] == if i < name.len() {
            name[i]
        } else {
            0
        }
}

/// Only what a stage is for has changed: the tables, the rows of the slots and the result are the
/// same.
pub open spec fn same_rows(f: Flow, g: Flow) -> bool {
    &&& g.left == f.left
    &&& g.right == f.right
    &&& g.mapped == f.mapped
    &&& g.lrow == f.lrow
    &&& g.rrow == f.rrow
    &&& g.out == f.out
}

/// The derived column and the groups are the same.
pub open spec fn same_derived(f: Flow, g: Flow) -> bool {
    &&& g.has_derived == f.has_derived
    &&& g.derived_name == f.derived_name
    &&& g.derived == f.derived
    &&& g.groups == f.groups
}

proof fn lemma_meta_index(t: Table, name: Seq<u8>, from: int)
    requires
        0 <= from,
        forall|j: int| 0 <= j < from ==> (#[trigger] t.col_meta@[j]).name@ != name,
    ensures
        match crate::storage::meta_index(t.col_meta@, t.col_count as int, name, from) {
            Some(c) => is_column(t, name, c),
            None => forall|c: int| !#[trigger] is_column(t, name, c),
        },
    decreases t.col_count - from,
{
    if from < t.col_count {
        if t.col_meta@[from].name@ != name {
            lemma_meta_index(t, name, from + 1);
        }
    }
}

/// A name stands for at most one column.
proof fn lemma_one_column(t: Table, name: Seq<u8>, a: int, b: int)
    requires
        is_column(t, name, a),
        is_column(t, name, b),
    ensures
        a == b,
{
    if a < b {
        assert(t.col_meta@[a].name@ != name);
    } else if b < a {
        assert(t.col_meta@[b].name@ != name);
    }
}

/// What a table says of a name is what its first column of that name says.
pub proof fn law_a_name_stands_for_the_first_column(t: Table, name: Seq<u8>)
    ensures
        t.column_index(name) matches Some(c) ==> is_column(t, name, c),
        t.column_index(name) is None ==> forall|c: int| !#[trigger] is_column(t, name, c),
        t.int_values(name) is Some <==> has_numbers(t, name),
        t.int_values(name) matches Some(v) ==> forall|row: int, x: i64| #[trigger]
            number_in(t, name, row, x) <==> v[row] == x,
{
    lemma_meta_index(t, name, 0);
    if let Some(c) = t.column_index(name) {
        assert forall|d: int| #[trigger] is_column(t, name, d) implies d == c by {
            lemma_one_column(t, name, c, d);
        }
        assert(is_column(t, name, c));
    }
}

proof fn lemma_column(f: Flow, name: Seq<u8>)
    requires
        f.left is Some,
    ensures
        f.column(name) is Some <==> flow_has_numbers(f, name),
        f.column(name) matches Some(v) ==> v.len() == f.slots() && forall|i: int, x: i64|
            0 <= i < f.slots() ==> (#[trigger] slot_number(f, name, i, x) <==> v[i] == x),
        f.left_column(name) is Some <==> has_numbers(f.left->0, name),
        f.left_column(name) matches Some(v) ==> v.len() == f.slots() && forall|i: int, x: i64|
            0 <= i < f.slots() ==> (#[trigger] number_in(f.left->0, name, f.lrow[i] as int, x)
                <==> v[i] == x),
{
    law_a_name_stands_for_the_first_column(f.left->0, name);
    if f.right is Some {
        law_a_name_stands_for_the_first_column(f.right->0, name);
    }
}

proof fn lemma_name(src: Seq<u8>, nodes: Seq<AstNode>, id: u32)
    ensures
        match crate::flow::name_at(src, nodes, id) {
            Some(name) => is_name(src, nodes, id, name) && forall|n: Seq<u8>| #[trigger]
                is_name(src, nodes, id, n) ==> n == name,
            None => forall|n: Seq<u8>| !#[trigger] is_name(src, nodes, id, n),
        },
{
    match crate::flow::name_at(src, nodes, id) {
        Some(name) => {
            assert forall|n: Seq<u8>| #[trigger] is_name(src, nodes, id, n) implies n == name by {
                assert(n =~= name);
            }
        },
        None => {
            if is_node(nodes, id) && nodes[id as int].kind == NodeKind::Ident {
                assert(false);
            }
        },
    }
}

// ---------------------------------------------------------------------------
// Filter
// ---------------------------------------------------------------------------
/// A filter `name op literal` hangs off the stage node `st`.
pub open spec fn is_filter(
    src: Seq<u8>,
    nodes: Seq<AstNode>,
    st: AstNode,
    name: Seq<u8>,
    op: TokenKind,
    lit: i64,
) -> bool {
    &&& st.kind == NodeKind::Filter
    &&& is_node(nodes, st.left)
    &&& nodes[st.left as int].kind == NodeKind::BinOp
    &&& nodes[st.left as int].op == op
    &&& is_name(src, nodes, nodes[st.left as int].left, name)
    &&& is_node(nodes, nodes[st.left as int].right)
    &&& nodes[nodes[st.left as int].right as int].value == lit
}

/// What a filter by `name` looks at in slot `i`: the derived column if it has that name, else the
/// numbers of the row.
pub open spec fn filtered_number(f: Flow, name: Seq<u8>, i: int, x: i64) -> bool {
    if is_derived(f, name) {
        x == f.derived[i]
    } else {
        slot_number(f, name, i, x)
    }
}

/// The number that a filter by `name` looks at in slot `i` compares to `lit`.
pub open spec fn passes(f: Flow, name: Seq<u8>, i: int, op: TokenKind, lit: i64) -> bool {
    exists|x: i64| #[trigger] filtered_number(f, name, i, x) && compares(op, x, lit)
}

/// A filter keeps exactly the slots that were kept and whose number compares to the literal: the
/// derived number, or else that of the source row, or else that of the joined row.
pub proof fn law_a_filter_keeps_the_rows_that_compare(
    f: Flow,
    cat: Catalog,
    src: Seq<u8>,
    nodes: Seq<AstNode>,
    st: AstNode,
    name: Seq<u8>,
    op: TokenKind,
    lit: i64,
)
    requires
        is_filter(src, nodes, st, name, op, lit),
        f.stage(cat, src, nodes, st).fault is None,
    ensures
        ({
            let g = f.stage(cat, src, nodes, st).flow;
            &&& same_rows(f, g)
            &&& same_derived(f, g)
            &&& g.sorted == f.sorted
            &&& g.slots() == f.slots()
            &&& forall|i: int|
                0 <= i < f.slots() ==> (#[trigger] g.keep[i] <==> f.keep[i] && passes(
                    f,
                    name,
                    i,
                    op,
                    lit,
                ))
        }),
{
    let g = f.stage(cat, src, nodes, st).flow;
    let bin = nodes[st.left as int];
    lemma_name(src, nodes, bin.left);
    assert(crate::flow::name_at(src, nodes, bin.left) == Some(name));
    lemma_column(f, name);
    assert forall|i: int| 0 <= i < f.slots() implies (#[trigger] g.keep[i] <==> f.keep[i] && passes(
        f,
        name,
        i,
        op,
        lit,
    )) by {
        let x = if is_derived(f, name) {
            f.derived[i]
        } else {
            f.column(name)->0[i]
        };
        assert(is_derived(f, name) || slot_number(f, name, i, x));
        assert(filtered_number(f, name, i, x));
        if passes(f, name, i, op, lit) {
            let y = choose|y: i64| #[trigger]
                filtered_number(f, name, i, y) && compares(op, y, lit);
            assert(is_derived(f, name) || slot_number(f, name, i, y));
            assert(x == y);
        }
    }
}

/// A filter succeeds if and only if there is a source table and its name is that of the derived
/// column or of numbers. Over rows that were not joined or grouped its operator has to compare,
/// unless it filters the derived column. Where it fails, nothing has changed.
pub proof fn law_a_filter_needs_a_column_and_a_comparison(
    f: Flow,
    cat: Catalog,
    src: Seq<u8>,
    nodes: Seq<AstNode>,
    st: AstNode,
    name: Seq<u8>,
    op: TokenKind,
    lit: i64,
)
    requires
        is_filter(src, nodes, st, name, op, lit),
    ensures
        ({
            let step = f.stage(cat, src, nodes, st);
            let is_op = op == TokenKind::Gt || op == TokenKind::Lt || op == TokenKind::Eq;
            &&& step.fault is None <==> f.left is Some && (is_derived(f, name) || (flow_has_numbers(
                f,
                name,
            ) && (f.mapped || is_op)))
            &&& step.fault is Some ==> step.flow == f
            &&& f.left is Some && !is_derived(f, name) && !flow_has_numbers(f, name)
                ==> names_missing(step.fault->0, f.left->0.name@, name)
        }),
{
    lemma_name(src, nodes, nodes[st.left as int].left);
    assert(crate::flow::name_at(src, nodes, nodes[st.left as int].left) == Some(name));
    if f.left is Some {
        lemma_column(f, name);
    }
}

/// `a` stands somewhere before `b` in a list.
pub open spec fn stands_before(s: Seq<u16>, a: u16, b: u16) -> bool {
    exists|p: int, q: int|
        0 <= p < q < s.len() && #[trigger] s[p] == a && #[trigger] s[q] == b
}

proof fn lemma_kept_positions(s: Seq<u16>, keep: Seq<bool>, i: int, j: int)
    requires
        0 <= i < j < crate::flow::kept(s, keep).len(),
    ensures
        stands_before(s, crate::flow::kept(s, keep)[i], crate::flow::kept(s, keep)[j]),
    decreases s.len(),
{
    let u = s.drop_last();
    let w = crate::flow::kept(u, keep);
    let all = crate::flow::kept(s, keep);
    if j < w.len() {
        lemma_kept_positions(u, keep, i, j);
        let (p, q) = choose|p: int, q: int|
            0 <= p < q < u.len() && #[trigger] u[p] == w[i] && #[trigger] u[q] == w[j];
        assert(s[p] == all[i] && s[q] == all[j]);
    } else {
        assert(w.contains(w[i]));
        crate::laws::lemma_kept_elements(u, keep, w[i]);
        let p = choose|p: int| 0 <= p < u.len() && u[p] == w[i];
        assert(s[p] == all[i]);
        assert(s[s.len() - 1] == all[j]);
    }
}

/// The slots that a filter brings are the kept ones, in the order of the rows. Only behind a sort
/// of rows that were not joined or grouped, and not for the derived column, the order is that of
/// the sort, and what a take left out stays out.
pub proof fn law_a_filter_keeps_the_order_of_a_sort(
    f: Flow,
    cat: Catalog,
    src: Seq<u8>,
    nodes: Seq<AstNode>,
    st: AstNode,
    name: Seq<u8>,
    op: TokenKind,
    lit: i64,
)
    requires
        sound(f),
        is_filter(src, nodes, st, name, op, lit),
        f.stage(cat, src, nodes, st).fault is None,
    ensures
        ({
            let g = f.stage(cat, src, nodes, st).flow;
            let stays = f.sorted && !f.mapped && !is_derived(f, name);
            &&& forall|s: u16| #[trigger]
                g.order.contains(s) <==> s < f.slots() && g.keep[s as int] && (stays
                    ==> f.order.contains(s))
            &&& !stays ==> forall|i: int, j: int|
                0 <= i < j < g.order.len() ==> #[trigger] g.order[i] < #[trigger] g.order[j]
            &&& stays ==> forall|i: int, j: int|
                #![trigger g.order[i], g.order[j]]
                0 <= i < j < g.order.len() ==> stands_before(f.order, g.order[i], g.order[j])
        }),
{
    let g = f.stage(cat, src, nodes, st).flow;
    let bin = nodes[st.left as int];
    lemma_name(src, nodes, bin.left);
    assert(crate::flow::name_at(src, nodes, bin.left) == Some(name));
    let stays = f.sorted && !f.mapped && !is_derived(f, name);
    let n = f.slots() as int;
    let test = crate::flow::comparison_of(op);
    let pass = |v: i64| test is Some && test->0.holds(v, lit);
    crate::order::law_selection_is_the_mask(g.keep, n);
    crate::order::lemma_selected_range(g.keep, n);
    if is_derived(f, name) {
        let by = |i: int| pass(f.derived[i]);
        assert(g == f.filtered(by, false));
        crate::laws::law_filter_keeps_what_passes(f, by, false);
    } else {
        let v = f.column(name)->0;
        let by = |i: int| pass(v[i]);
        assert(g == f.filtered(by, stays));
        crate::laws::law_filter_keeps_what_passes(f, by, stays);
    }
    if stays {
        assert forall|i: int, j: int|
            #![trigger g.order[i], g.order[j]]
            0 <= i < j < g.order.len() implies stands_before(
            f.order,
            g.order[i],
            g.order[j],
        ) by {
            lemma_kept_positions(f.order, g.keep, i, j);
        }
    }
}

// ---------------------------------------------------------------------------
// Sort
// ---------------------------------------------------------------------------
/// A sort brings every kept slot once, by ascending number of the column in the source row that
/// the slot stands for, and slots of equal number in the order of the slots.
pub proof fn law_a_sort_ascends_by_the_source_rows(
    f: Flow,
    cat: Catalog,
    src: Seq<u8>,
    nodes: Seq<AstNode>,
    st: AstNode,
    name: Seq<u8>,
)
    requires
        f.slots() <= MAX_ROWS,
        st.kind == NodeKind::Sort,
        is_name(src, nodes, st.left, name),
        f.stage(cat, src, nodes, st).fault is None,
    ensures
        ({
            let g = f.stage(cat, src, nodes, st).flow;
            let t = f.left->0;
            &&& same_rows(f, g)
            &&& same_derived(f, g)
            &&& g.keep == f.keep
            &&& g.sorted
            &&& has_numbers(t, name)
            &&& forall|s: u16| #[trigger] g.order.contains(s) <==> s < f.slots() && f.keep[s as int]
            &&& forall|i: int, j: int, x: i64, y: i64|
                #![trigger
                    number_in(t, name, f.lrow[g.order[i] as int] as int, x),
                    number_in(t, name, f.lrow[g.order[j] as int] as int, y)]
                0 <= i < j < g.order.len() && number_in(
                    t,
                    name,
                    f.lrow[g.order[i] as int] as int,
                    x,
                ) && number_in(t, name, f.lrow[g.order[j] as int] as int, y) ==> x < y || (x == y
                    && g.order[i] < g.order[j])
            &&& forall|i: int, j: int|
                0 <= i < j < g.order.len() ==> #[trigger] g.order[i] != #[trigger] g.order[j]
        }),
{
    let g = f.stage(cat, src, nodes, st).flow;
    let t = f.left->0;
    let n = f.slots() as int;
    lemma_name(src, nodes, st.left);
    assert(crate::flow::name_at(src, nodes, st.left) == Some(name));
    lemma_column(f, name);
    let v = f.left_column(name)->0;
    let kept = crate::order::selected(f.keep, n);
    crate::laws::law_sort_orders_the_kept_slots(f, v);
    crate::laws::lemma_sorted_sound(f, v);
    assert(sound(g));
    assert forall|s: u16| #[trigger] g.order.contains(s) <==> s < f.slots() && f.keep[s as int] by {
        if g.order.contains(s) {
            let i = choose|i: int| 0 <= i < g.order.len() && g.order[i] == s;
            assert(g.order[i] < f.slots());
        }
    }
    assert forall|i: int, j: int, x: i64, y: i64|
        #![trigger
            number_in(t, name, f.lrow[g.order[i] as int] as int, x),
            number_in(t, name, f.lrow[g.order[j] as int] as int, y)]
        0 <= i < j < g.order.len() && number_in(t, name, f.lrow[g.order[i] as int] as int, x)
            && number_in(t, name, f.lrow[g.order[j] as int] as int, y) implies x < y || (x == y
        && g.order[i] < g.order[j]) by {
        let a = g.order[i];
        let b = g.order[j];
        assert(a < f.slots() && b < f.slots());
        assert(v[a as int] == x);
        assert(v[b as int] == y);
    }
}

/// A sort succeeds if and only if there is a source table and it has numbers of that name. Where
/// it fails, nothing has changed.
pub proof fn law_a_sort_needs_numbers_of_the_source(
    f: Flow,
    cat: Catalog,
    src: Seq<u8>,
    nodes: Seq<AstNode>,
    st: AstNode,
    name: Seq<u8>,
)
    requires
        st.kind == NodeKind::Sort,
        is_name(src, nodes, st.left, name),
    ensures
        ({
            let step = f.stage(cat, src, nodes, st);
            &&& step.fault is None <==> f.left is Some && has_numbers(f.left->0, name)
            &&& step.fault is Some ==> step.flow == f
            &&& f.left is Some && step.fault is Some ==> names_missing(
                step.fault->0,
                f.left->0.name@,
                name,
            )
        }),
{
    lemma_name(src, nodes, st.left);
    assert(crate::flow::name_at(src, nodes, st.left) == Some(name));
    if f.left is Some {
        lemma_column(f, name);
    }
}

// ---------------------------------------------------------------------------
// Take
// ---------------------------------------------------------------------------
/// A take brings the first slots of the order, as many as it asks for or as there are, and changes
/// nothing else. A negative number counts as zero.
pub proof fn law_a_take_brings_the_first_slots(
    f: Flow,
    cat: Catalog,
    src: Seq<u8>,
    nodes: Seq<AstNode>,
    st: AstNode,
)
    requires
        st.kind == NodeKind::Take,
    ensures
        ({
            let step = f.stage(cat, src, nodes, st);
            let g = step.flow;
            &&& step.fault is None
            &&& same_rows(f, g)
            &&& same_derived(f, g)
            &&& g.keep == f.keep
            &&& g.sorted == f.sorted
            &&& g.order.len() <= f.order.len()
            &&& forall|i: int| 0 <= i < g.order.len() ==> #[trigger] g.order[i] == f.order[i]
            &&& st.value <= 0 ==> g.order.len() == 0
            &&& st.value > 0 && st.value <= f.order.len() ==> g.order.len() == st.value
            &&& st.value > f.order.len() ==> g.order.len() == f.order.len()
        }),
{
}

// ---------------------------------------------------------------------------
// Derive
// ---------------------------------------------------------------------------
/// `x` is the number of the operand `n` in slot `i`: its literal, or the number of its name.
pub open spec fn operand_number(f: Flow, src: Seq<u8>, n: AstNode, i: int, x: i64) -> bool {
    ||| n.kind == NodeKind::Literal && x == n.value
    ||| n.kind == NodeKind::Ident && exists|name: Seq<u8>| #[trigger]
        spells(src, n, name) && slot_number(f, name, i, x)
}

/// Whether the node `n` is an operand that has numbers: a literal, or a name of numbers.
pub open spec fn is_operand(f: Flow, src: Seq<u8>, n: AstNode) -> bool {
    ||| n.kind == NodeKind::Literal
    ||| n.kind == NodeKind::Ident && exists|name: Seq<u8>| #[trigger]
        spells(src, n, name) && flow_has_numbers(f, name)
}

/// `z` is `x op y`, wrapping at the ends of the 64-bit range.
pub open spec fn computes(op: TokenKind, x: i64, y: i64, z: i64) -> bool {
    ||| op == TokenKind::Plus && z == x.wrapping_add(y)
    ||| op == TokenKind::Minus && z == x.wrapping_sub(y)
    ||| op == TokenKind::Star && z == x.wrapping_mul(y)
}

/// `name = expression` hangs off the stage node `st`.
pub open spec fn is_derive(
    src: Seq<u8>,
    nodes: Seq<AstNode>,
    st: AstNode,
    name: Seq<u8>,
) -> bool {
    &&& st.kind == NodeKind::Derive
    &&& is_name(src, nodes, st.left, name)
    &&& is_node(nodes, st.right)
}

proof fn lemma_operand(f: Flow, src: Seq<u8>, n: AstNode)
    ensures
        f.operand(src, n) is Ok <==> is_operand(f, src, n),
        f.operand(src, n) matches Ok(v) ==> v.len() == f.slots() && forall|i: int, x: i64|
            0 <= i < f.slots() ==> (#[trigger] operand_number(f, src, n, i, x) <==> v[i] == x),
{
    let name = crate::flow::name_of(src, n);
    assert(spells(src, n, name));
    assert forall|m: Seq<u8>| #[trigger] spells(src, n, m) implies m == name by {
        assert(m =~= name);
    }
    if f.left is Some {
        lemma_column(f, name);
    }
}

/// A derived column holds, for every slot, what the expression computes from the numbers of that
/// slot: the left operand, the operator and the right operand, in that order. Slots behind keep
/// what they had.
pub proof fn law_a_derived_column_is_computed_slot_by_slot(
    f: Flow,
    cat: Catalog,
    src: Seq<u8>,
    nodes: Seq<AstNode>,
    st: AstNode,
    name: Seq<u8>,
)
    requires
        is_derive(src, nodes, st, name),
        f.slots() <= f.derived.len(),
        f.stage(cat, src, nodes, st).fault is None,
    ensures
        ({
            let g = f.stage(cat, src, nodes, st).flow;
            let e = nodes[st.right as int];
            let a = nodes[e.left as int];
            let b = nodes[e.right as int];
            &&& e.kind == NodeKind::BinOp ==> {
                &&& is_node(nodes, e.left)
                &&& is_node(nodes, e.right)
                &&& is_operand(f, src, a)
                &&& is_operand(f, src, b)
                &&& forall|i: int, x: i64, y: i64|
                    0 <= i < f.slots() && #[trigger] operand_number(f, src, a, i, x)
                        && #[trigger] operand_number(f, src, b, i, y) ==> computes(
                        e.op,
                        x,
                        y,
                        g.derived[i],
                    )
            }
            &&& e.kind != NodeKind::BinOp ==> is_operand(f, src, e) && forall|i: int, x: i64|
                0 <= i < f.slots() && #[trigger] operand_number(f, src, e, i, x) ==> g.derived[i]
                    == x
            &&& g.derived.len() == f.derived.len()
            &&& forall|i: int|
                f.slots() <= i < f.derived.len() ==> #[trigger] g.derived[i] == f.derived[i]
        }),
{
    let e = nodes[st.right as int];
    lemma_name(src, nodes, st.left);
    assert(crate::flow::name_at(src, nodes, st.left) == Some(name));
    lemma_operand(f, src, e);
    lemma_operand(f, src, nodes[e.left as int]);
    lemma_operand(f, src, nodes[e.right as int]);
}

/// A difference plus what was taken away is what there was.
pub proof fn law_a_derived_difference_adds_back(
    f: Flow,
    cat: Catalog,
    src: Seq<u8>,
    nodes: Seq<AstNode>,
    st: AstNode,
    name: Seq<u8>,
    i: int,
    x: i64,
    y: i64,
)
    requires
        is_derive(src, nodes, st, name),
        f.slots() <= f.derived.len(),
        f.stage(cat, src, nodes, st).fault is None,
        nodes[st.right as int].kind == NodeKind::BinOp,
        nodes[st.right as int].op == TokenKind::Minus,
        0 <= i < f.slots(),
        operand_number(f, src, nodes[nodes[st.right as int].left as int], i, x),
        operand_number(f, src, nodes[nodes[st.right as int].right as int], i, y),
    ensures
        f.stage(cat, src, nodes, st).flow.derived[i].wrapping_add(y) == x,
{
    law_a_derived_column_is_computed_slot_by_slot(f, cat, src, nodes, st, name);
}

/// A derive names its column, also where the expression fails, and leaves the rows, their order
/// and the groups alone. It succeeds if and only if its operands have numbers and its operator
/// computes.
pub proof fn law_a_derive_names_its_column(
    f: Flow,
    cat: Catalog,
    src: Seq<u8>,
    nodes: Seq<AstNode>,
    st: AstNode,
    name: Seq<u8>,
)
    requires
        is_derive(src, nodes, st, name),
    ensures
        ({
            let step = f.stage(cat, src, nodes, st);
            let g = step.flow;
            let e = nodes[st.right as int];
            &&& same_rows(f, g)
            &&& g.keep == f.keep
            &&& g.order == f.order
            &&& g.sorted == f.sorted
            &&& g.groups == f.groups
            &&& g.has_derived == 1
            &&& name.len() <= crate::storage::NAME_CAP ==> g.derived_name == name
            &&& name.len() > crate::storage::NAME_CAP ==> g.derived_name == name.take(
                crate::storage::NAME_CAP as int,
            )
            &&& step.fault is Some ==> g.derived == f.derived
            &&& e.kind == NodeKind::BinOp ==> (step.fault is None <==> (e.op == TokenKind::Plus
                || e.op == TokenKind::Minus || e.op == TokenKind::Star) && is_node(nodes, e.left)
                && is_node(nodes, e.right) && is_operand(f, src, nodes[e.left as int])
                && is_operand(f, src, nodes[e.right as int]))
            &&& e.kind != NodeKind::BinOp ==> (step.fault is None <==> is_operand(f, src, e))
        }),
{
    let e = nodes[st.right as int];
    lemma_name(src, nodes, st.left);
    assert(crate::flow::name_at(src, nodes, st.left) == Some(name));
    lemma_operand(f, src, e);
    lemma_operand(f, src, nodes[e.left as int]);
    lemma_operand(f, src, nodes[e.right as int]);
}

// ---------------------------------------------------------------------------
// From and join
// ---------------------------------------------------------------------------
/// Slot `k` of a catalog holds the table that `name` stands for: the first of that name.
pub open spec fn is_table(cat: Catalog, name: Seq<u8>, k: int) -> bool {
    &&& 0 <= k < cat.len
    &&& cat.tables@[k] is Some
    &&& cat.tables@[k]->0.name@ == name
    &&& forall|j: int|
        0 <= j < k ==> !((#[trigger] cat.tables@[j]) is Some && cat.tables@[j]->0.name@ == name)
}

/// Row `r` is one that a query sees in `t`.
pub open spec fn is_row(t: Table, r: int) -> bool {
    0 <= r < t.row_count && r < MAX_ROWS
}

/// Every slot is kept, and the order is that of the slots.
pub open spec fn all_in_order(g: Flow) -> bool {
    &&& forall|i: int| 0 <= i < g.keep.len() ==> #[trigger] g.keep[i]
    &&& g.order.len() == g.keep.len()
    &&& forall|i: int| 0 <= i < g.order.len() ==> #[trigger] g.order[i] == i
    &&& !g.sorted
}

proof fn lemma_lookup(cat: Catalog, name: Seq<u8>, from: int)
    requires
        0 <= from,
        forall|j: int|
            0 <= j < from ==> !((#[trigger] cat.tables@[j]) is Some && cat.tables@[j]->0.name@
                == name),
    ensures
        match crate::storage::table_index(cat.tables@, cat.len as int, name, from) {
            Some(k) => is_table(cat, name, k),
            None => forall|k: int| !#[trigger] is_table(cat, name, k),
        },
    decreases cat.len - from,
{
    if from < cat.len {
        if !(cat.tables@[from] is Some && cat.tables@[from]->0.name@ == name) {
            lemma_lookup(cat, name, from + 1);
        }
    }
}

proof fn lemma_one_table(cat: Catalog, name: Seq<u8>, a: int, b: int)
    requires
        is_table(cat, name, a),
        is_table(cat, name, b),
    ensures
        a == b,
{
    if a < b {
        assert(!(cat.tables@[a] is Some && cat.tables@[a]->0.name@ == name));
    } else if b < a {
        assert(!(cat.tables@[b] is Some && cat.tables@[b]->0.name@ == name));
    }
}

/// A catalog gives the first table of a name, and none where there is none.
pub proof fn law_a_name_stands_for_the_first_table(cat: Catalog, name: Seq<u8>)
    ensures
        forall|k: int| #[trigger]
            is_table(cat, name, k) ==> cat.lookup(name) == Some(*cat.tables@[k]->0),
        (forall|k: int| !#[trigger] is_table(cat, name, k)) ==> cat.lookup(name) is None,
{
    lemma_lookup(cat, name, 0);
    if let Some(k) = crate::storage::table_index(cat.tables@, cat.len as int, name, 0) {
        assert forall|j: int| #[trigger] is_table(cat, name, j) implies j == k by {
            lemma_one_table(cat, name, j, k);
        }
    }
}

/// A source brings every row of the table that its name stands for, in order, and forgets the
/// tables, the derived column and the groups from before.
pub proof fn law_a_source_brings_every_row(
    f: Flow,
    cat: Catalog,
    src: Seq<u8>,
    nodes: Seq<AstNode>,
    st: AstNode,
    name: Seq<u8>,
    k: int,
)
    requires
        st.kind == NodeKind::From,
        is_name(src, nodes, st.left, name),
        is_table(cat, name, k),
    ensures
        ({
            let step = f.stage(cat, src, nodes, st);
            let g = step.flow;
            let t = *cat.tables@[k]->0;
            &&& step.fault is None
            &&& g.left == Some(t)
            &&& g.right is None
            &&& !g.mapped
            &&& all_in_order(g)
            &&& forall|i: int| #[trigger] is_row(t, i) <==> 0 <= i < g.slots()
            &&& g.lrow.len() == g.slots()
            &&& forall|i: int| 0 <= i < g.slots() ==> #[trigger] g.lrow[i] == i
            &&& g.rrow == g.lrow
            &&& g.has_derived == 0
            &&& g.derived_name.len() == 0
            &&& g.derived == f.derived
            &&& g.groups.len() == 0
            &&& g.out == f.out
        }),
{
    lemma_name(src, nodes, st.left);
    assert(crate::flow::name_at(src, nodes, st.left) == Some(name));
    law_a_name_stands_for_the_first_table(cat, name);
}

/// A source that the catalog does not have is an error that names it and changes nothing.
pub proof fn law_a_missing_table_is_named(
    f: Flow,
    cat: Catalog,
    src: Seq<u8>,
    nodes: Seq<AstNode>,
    st: AstNode,
    name: Seq<u8>,
)
    requires
        st.kind == NodeKind::From || (st.kind == NodeKind::Join && f.left is Some),
        is_name(src, nodes, st.left, name),
        forall|k: int| !#[trigger] is_table(cat, name, k),
    ensures
        f.stage(cat, src, nodes, st).flow == f,
        f.stage(cat, src, nodes, st).fault is Some,
        names_missing(f.stage(cat, src, nodes, st).fault->0, name, Seq::empty()),
{
    lemma_name(src, nodes, st.left);
    assert(crate::flow::name_at(src, nodes, st.left) == Some(name));
    law_a_name_stands_for_the_first_table(cat, name);
}

/// The name of the column that a join compares.
pub open spec fn join_column() -> Seq<u8> {
    vstd::utf8::encode_utf8("அடையாளம்"@)
}

/// A kept slot and a row of the joined table whose numbers in the joining column are both `x`.
pub open spec fn meet_at(f: Flow, t: Table, s: int, r: int, x: i64) -> bool {
    &&& 0 <= s < f.slots()
    &&& f.keep[s]
    &&& is_row(t, r)
    &&& number_in(f.left->0, join_column(), f.lrow[s] as int, x)
    &&& number_in(t, join_column(), r, x)
}

/// The pair of slot and row `(s, r)` comes before `(u, q)` in a join: by the number of the joining
/// column, then by slot, then by row.
pub open spec fn joins_before(f: Flow, t: Table, s: int, r: int, u: int, q: int) -> bool {
    exists|x: i64, y: i64| #[trigger]
        meet_at(f, t, s, r, x) && #[trigger] meet_at(f, t, u, q, y) && (x < y || (x == y && (s < u
            || (s == u && r < q))))
}

/// `p` are the pairs of slot and row that the slots of `g` stand for.
pub open spec fn is_join(f: Flow, t: Table, g: Flow, p: Seq<(int, int)>) -> bool {
    &&& p.len() == g.slots()
    &&& g.lrow.len() == p.len()
    &&& g.rrow.len() == p.len()
    &&& forall|i: int|
        #![trigger p[i]]
        0 <= i < p.len() ==> g.lrow[i] == f.lrow[p[i].0] && g.rrow[i] == p[i].1 && exists|x: i64|
            meet_at(f, t, p[i].0, p[i].1, x)
    &&& forall|i: int, j: int|
        #![trigger p[i], p[j]]
        0 <= i < j < p.len() ==> joins_before(f, t, p[i].0, p[i].1, p[j].0, p[j].1)
    &&& forall|s: int, r: int, x: i64| #[trigger]
        meet_at(f, t, s, r, x) ==> p.contains((s, r)) || (p.len() == MAX_ROWS && forall|i: int|
            #![trigger p[i]]
            0 <= i < p.len() ==> joins_before(f, t, p[i].0, p[i].1, s, r))
}

proof fn lemma_with_key_ascends(key: spec_fn(u16) -> int, s: Seq<u16>, k: int)
    requires
        forall|i: int, j: int| 0 <= i < j < s.len() ==> #[trigger] s[i] < #[trigger] s[j],
    ensures
        ({
            let w = crate::order::with_key(key, s, k);
            &&& forall|i: int, j: int| 0 <= i < j < w.len() ==> #[trigger] w[i] < #[trigger] w[j]
            &&& forall|i: int| 0 <= i < w.len() ==> s.contains(#[trigger] w[i])
        }),
    decreases s.len(),
{
    if s.len() > 0 {
        let u = s.drop_last();
        assert forall|i: int, j: int| 0 <= i < j < u.len() implies #[trigger] u[i]
            < #[trigger] u[j] by {
            assert(u[i] == s[i] && u[j] == s[j]);
        }
        lemma_with_key_ascends(key, u, k);
        let v = crate::order::with_key(key, u, k);
        let w = crate::order::with_key(key, s, k);
        assert(s[s.len() - 1] == s.last());
        assert forall|i: int| 0 <= i < v.len() implies (#[trigger] v[i]) < s.last()
            && s.contains(v[i]) by {
            let a = choose|a: int| 0 <= a < u.len() && u[a] == v[i];
            assert(s[a] == v[i]);
        }
        assert forall|i: int| 0 <= i < w.len() implies s.contains(#[trigger] w[i]) by {
            if i < v.len() {
                assert(w[i] == v[i]);
            }
        }
    }
}

/// The pairs of a join come by ascending key, then by left row, then by right row.
pub proof fn lemma_join_ascends(
    keys: Seq<i64>,
    ls: Seq<u16>,
    rkey: spec_fn(u16) -> int,
    rs: Seq<u16>,
    i: int,
    j: int,
)
    requires
        crate::laws::sorted_by(keys, ls),
        forall|a: int, b: int| 0 <= a < b < rs.len() ==> #[trigger] rs[a] < #[trigger] rs[b],
        0 <= i < j < crate::order::join_pairs(crate::order::by_value(keys), ls, rkey, rs).len(),
    ensures
        ({
            let p = crate::order::join_pairs(crate::order::by_value(keys), ls, rkey, rs);
            let (l, r) = p[i];
            let (m, q) = p[j];
            keys[l as int] < keys[m as int] || (keys[l as int] == keys[m as int] && (l < m || (l
                == m && r < q)))
        }),
    decreases ls.len(),
{
    let lkey = crate::order::by_value(keys);
    let u = ls.drop_last();
    let last = ls.last();
    let before = crate::order::join_pairs(lkey, u, rkey, rs);
    let run = crate::order::with_key(rkey, rs, lkey(last));
    let p = crate::order::join_pairs(lkey, ls, rkey, rs);
    assert forall|a: int, b: int| 0 <= a < b < u.len() implies {
        let x = #[trigger] u[a];
        let y = #[trigger] u[b];
        keys[x as int] < keys[y as int] || (keys[x as int] == keys[y as int] && x < y)
    } by {
        assert(u[a] == ls[a] && u[b] == ls[b]);
    }
    if j < before.len() {
        lemma_join_ascends(keys, u, rkey, rs, i, j);
        assert(p[i] == before[i] && p[j] == before[j]);
    } else {
        lemma_with_key_ascends(rkey, rs, lkey(last));
        assert(p[j] == (last, run[j - before.len()]));
        if i >= before.len() {
            assert(p[i] == (last, run[i - before.len()]));
        } else {
            assert(p[i] == before[i]);
            assert(before.contains(before[i]));
            crate::order::law_join_is_equal_keys(lkey, u, rkey, rs, p[i].0, p[i].1);
            let a = choose|a: int| 0 <= a < u.len() && u[a] == p[i].0;
            assert(ls[a] == p[i].0);
            assert(ls[ls.len() - 1] == last);
        }
    }
}

pub proof fn lemma_sorted_rows(keys: Seq<i64>, n: nat)
    requires
        n <= MAX_ROWS,
    ensures
        crate::laws::sorted_by(keys, crate::kernels::sorted_rows(keys, n)),
        forall|l: u16| #[trigger] crate::kernels::sorted_rows(keys, n).contains(l) <==> l < n,
{
    let rows = crate::order::iota(n);
    let key = crate::order::by_value(keys);
    crate::laws::lemma_sort_of_ascending(keys, rows);
    assert forall|l: u16| #[trigger] crate::kernels::sorted_rows(keys, n).contains(l) <==> l
        < n by {
        let sorted = crate::kernels::sorted_rows(keys, n);
        if sorted.contains(l) {
            let a = choose|a: int| 0 <= a < sorted.len() && sorted[a] == l;
            assert(rows.contains(sorted[a]));
        }
        if l < n {
            assert(rows[l as int] == l);
            crate::laws::lemma_sort_contains(key, rows, l);
        }
    }
}

/// A join pairs every kept slot with every row of the joined table that has the same number in the
/// joining column, each pair once: by that number, then by slot, then by row. Where there are more
/// pairs than slots, the last ones are left out. Every pair is a new slot, kept, in order.
pub proof fn law_a_join_pairs_kept_slots_with_equal_rows(
    f: Flow,
    cat: Catalog,
    src: Seq<u8>,
    nodes: Seq<AstNode>,
    st: AstNode,
    name: Seq<u8>,
    k: int,
)
    requires
        f.slots() <= MAX_ROWS,
        st.kind == NodeKind::Join,
        is_name(src, nodes, st.left, name),
        is_table(cat, name, k),
        f.stage(cat, src, nodes, st).fault is None,
    ensures
        ({
            let g = f.stage(cat, src, nodes, st).flow;
            let t = *cat.tables@[k]->0;
            &&& exists|p: Seq<(int, int)>| is_join(f, t, g, p)
            &&& f.left is Some
            &&& g.left == f.left
            &&& g.right == Some(t)
            &&& g.mapped
            &&& g.slots() <= MAX_ROWS
            &&& all_in_order(g)
            &&& g.has_derived == f.has_derived
            &&& g.derived_name == f.derived_name
            &&& g.derived == f.derived
            &&& g.groups.len() == 0
            &&& g.out == f.out
        }),
{
    let g = f.stage(cat, src, nodes, st).flow;
    let t = *cat.tables@[k]->0;
    let key = join_column();
    let n = f.slots() as int;
    lemma_name(src, nodes, st.left);
    assert(crate::flow::name_at(src, nodes, st.left) == Some(name));
    law_a_name_stands_for_the_first_table(cat, name);
    lemma_column(f, key);
    law_a_name_stands_for_the_first_column(t, key);
    let lkeys = f.left_column(key)->0;
    let rkeys = t.int_values(key)->0;
    let ls = crate::order::selected(f.keep, n);
    let dense = Seq::new(ls.len(), |i: int| lkeys[ls[i] as int]);
    let lrows = crate::kernels::sorted_rows(dense, ls.len());
    let rrows = crate::order::iota(t.live_rows());
    let lkey = crate::order::by_value(dense);
    let rkey = crate::order::by_value(rkeys);
    let all = crate::kernels::equi_join(dense, ls.len(), rkeys, t.live_rows());
    let pairs = crate::order::first_of(all, MAX_ROWS as int);
    assert(g == f.joined_with(t, lkeys, rkeys));
    crate::order::lemma_selected_range(f.keep, n);
    crate::order::law_selection_is_the_mask(f.keep, n);
    lemma_sorted_rows(dense, ls.len());
    let p = Seq::new(pairs.len(), |i: int| (ls[pairs[i].0 as int] as int, pairs[i].1 as int));
    assert forall|s: int, r: int, x: i64| #[trigger] meet_at(f, t, s, r, x) <==> 0 <= s < n
        && f.keep[s] && 0 <= r < t.live_rows() && lkeys[s] == x && rkeys[r] == x by {
        if 0 <= s < n {
            assert(number_in(f.left->0, key, f.lrow[s] as int, x) <==> lkeys[s] == x);
        }
        assert(number_in(t, key, r, x) <==> rkeys[r] == x);
    }
    assert forall|i: int| 0 <= i < all.len() implies (#[trigger] all[i]).0 < ls.len() && all[i].1
        < t.live_rows() && dense[all[i].0 as int] == rkeys[all[i].1 as int] by {
        assert(all.contains(all[i]));
        crate::order::law_join_is_equal_keys(lkey, lrows, rkey, rrows, all[i].0, all[i].1);
        let b = choose|b: int| 0 <= b < rrows.len() && rrows[b] == all[i].1;
        assert(rrows[b] == b);
    }
    assert forall|i: int| #![trigger p[i]] 0 <= i < p.len() implies meet_at(
        f,
        t,
        p[i].0,
        p[i].1,
        rkeys[p[i].1],
    ) && g.lrow[i] == f.lrow[p[i].0] && g.rrow[i] == p[i].1 by {
        assert(pairs[i] == all[i]);
        let s = ls[pairs[i].0 as int];
        assert(s < n && f.keep[s as int]);
    }
    assert forall|i: int, j: int|
        #![trigger p[i], p[j]]
        0 <= i < j < p.len() implies joins_before(f, t, p[i].0, p[i].1, p[j].0, p[j].1) by {
        assert(pairs[i] == all[i] && pairs[j] == all[j]);
        lemma_join_ascends(dense, lrows, rkey, rrows, i, j);
        assert(meet_at(f, t, p[i].0, p[i].1, rkeys[p[i].1]));
        assert(meet_at(f, t, p[j].0, p[j].1, rkeys[p[j].1]));
        let l = pairs[i].0;
        let m = pairs[j].0;
        if l < m {
            assert(ls[l as int] < ls[m as int]);
        } else if m < l {
            assert(ls[m as int] < ls[l as int]);
        }
    }
    assert forall|s: int, r: int, x: i64| #[trigger] meet_at(f, t, s, r, x) implies p.contains(
        (s, r),
    ) || (p.len() == MAX_ROWS && forall|i: int|
        #![trigger p[i]]
        0 <= i < p.len() ==> joins_before(f, t, p[i].0, p[i].1, s, r)) by {
        assert(ls.contains(s as u16));
        let l = choose|l: int| 0 <= l < ls.len() && ls[l] == s as u16;
        assert(rrows[r] == r as u16);
        assert(rrows.contains(r as u16));
        assert(lrows.contains(l as u16));
        crate::order::law_join_is_equal_keys(lkey, lrows, rkey, rrows, l as u16, r as u16);
        let a = choose|a: int| 0 <= a < all.len() && all[a] == (l as u16, r as u16);
        if a < p.len() {
            assert(pairs[a] == all[a]);
            assert(p[a] == (s, r));
        } else {
            assert forall|i: int| #![trigger p[i]] 0 <= i < p.len() implies joins_before(
                f,
                t,
                p[i].0,
                p[i].1,
                s,
                r,
            ) by {
                assert(pairs[i] == all[i]);
                lemma_join_ascends(dense, lrows, rkey, rrows, i, a);
                assert(meet_at(f, t, p[i].0, p[i].1, rkeys[p[i].1]));
                let m = pairs[i].0 as int;
                if l < m {
                    assert(ls[l] < ls[m]);
                } else if m < l {
                    assert(ls[m] < ls[l]);
                }
            }
        }
    }
    assert(is_join(f, t, g, p));
}

/// A join succeeds if and only if both tables have numbers in the joining column. Where it fails,
/// nothing has changed, and the table that lacks them is named, the source table first.
pub proof fn law_a_join_needs_the_joining_column(
    f: Flow,
    cat: Catalog,
    src: Seq<u8>,
    nodes: Seq<AstNode>,
    st: AstNode,
    name: Seq<u8>,
    k: int,
)
    requires
        st.kind == NodeKind::Join,
        is_name(src, nodes, st.left, name),
        is_table(cat, name, k),
    ensures
        ({
            let step = f.stage(cat, src, nodes, st);
            let t = *cat.tables@[k]->0;
            &&& step.fault is None <==> f.left is Some && has_numbers(f.left->0, join_column())
                && has_numbers(t, join_column())
            &&& step.fault is Some ==> step.flow == f
            &&& f.left is Some && !has_numbers(f.left->0, join_column()) ==> names_missing(
                step.fault->0,
                f.left->0.name@,
                join_column(),
            )
            &&& f.left is Some && has_numbers(f.left->0, join_column()) && !has_numbers(
                t,
                join_column(),
            ) ==> names_missing(step.fault->0, name, join_column())
        }),
{
    let t = *cat.tables@[k]->0;
    lemma_name(src, nodes, st.left);
    assert(crate::flow::name_at(src, nodes, st.left) == Some(name));
    law_a_name_stands_for_the_first_table(cat, name);
    law_a_name_stands_for_the_first_column(t, join_column());
    if f.left is Some {
        lemma_column(f, join_column());
    }
}

// ---------------------------------------------------------------------------
// Project
// ---------------------------------------------------------------------------
/// The node `k` links behind node `id`.
pub open spec fn nth(nodes: Seq<AstNode>, id: u32, k: nat) -> u32
    decreases k,
{
    if k == 0 {
        id
    } else if is_node(nodes, id) {
        nth(nodes, nodes[id as int].next, (k - 1) as nat)
    } else {
        NIL
    }
}

/// Whether `name` stands for a column of `t`.
pub open spec fn has_column(t: Table, name: Seq<u8>) -> bool {
    exists|c: int| is_column(t, name, c)
}

/// What a projected name stands for.
pub enum Side {
    Derived,
    Left,
    Right,
}

/// Where a projected name is looked up: the derived column comes first, then the source table,
/// then the joined table.
pub open spec fn found_on(f: Flow, name: Seq<u8>, side: Side) -> bool {
    match side {
        Side::Derived => is_derived(f, name),
        Side::Left => !is_derived(f, name) && has_column(f.left->0, name),
        Side::Right => !is_derived(f, name) && !has_column(f.left->0, name) && f.right is Some
            && has_column(f.right->0, name),
    }
}

/// The column `c` of `t` says that it holds numbers, it does, and `x` stands in row `row`.
pub open spec fn holds_number(t: Table, c: int, row: int, x: i64) -> bool {
    &&& t.col_meta@[c].phys == crate::storage::PhysType::Int64
    &&& t.columns@[c] is Int64
    &&& t.columns@[c]->Int64_0.values@[row] == x
}

/// The column `c` of `t` says that it holds texts, it does, and the valid text `b` stands in row
/// `row`.
pub open spec fn holds_text(t: Table, c: int, row: int, b: Seq<u8>) -> bool {
    &&& t.col_meta@[c].phys == crate::storage::PhysType::Utf8
    &&& t.columns@[c] is Utf8
    &&& t.columns@[c]->Utf8_0@.row(row) == Some(b)
    &&& vstd::utf8::valid_utf8(b)
}

/// `x` is the number that a projection of `name` has for slot `s`.
pub open spec fn shows_number(f: Flow, name: Seq<u8>, s: int, x: i64) -> bool {
    ||| found_on(f, name, Side::Derived) && x == f.derived[s]
    ||| found_on(f, name, Side::Left) && exists|c: int| #[trigger]
        is_column(f.left->0, name, c) && holds_number(f.left->0, c, f.lrow[s] as int, x)
    ||| found_on(f, name, Side::Right) && exists|c: int| #[trigger]
        is_column(f.right->0, name, c) && holds_number(f.right->0, c, f.rrow[s] as int, x)
}

/// `b` is the text that a projection of `name` has for slot `s`.
pub open spec fn shows_text(f: Flow, name: Seq<u8>, s: int, b: Seq<u8>) -> bool {
    ||| found_on(f, name, Side::Left) && exists|c: int| #[trigger]
        is_column(f.left->0, name, c) && holds_text(f.left->0, c, f.lrow[s] as int, b)
    ||| found_on(f, name, Side::Right) && exists|c: int| #[trigger]
        is_column(f.right->0, name, c) && holds_text(f.right->0, c, f.rrow[s] as int, b)
}

/// How many bytes the texts of `name` take in the first `n` slots of the order.
pub open spec fn shown_bytes(f: Flow, name: Seq<u8>, n: nat) -> nat
    decreases n,
{
    if n == 0 {
        0
    } else {
        let s = f.order[n - 1] as int;
        shown_bytes(f, name, (n - 1) as nat) + if exists|b: Seq<u8>| shows_text(f, name, s, b) {
            (choose|b: Seq<u8>| shows_text(f, name, s, b)).len()
        } else {
            0
        }
    }
}

/// Node `id` may stand in a column list and its text is `name`.
pub open spec fn is_listed(src: Seq<u8>, nodes: Seq<AstNode>, id: u32, name: Seq<u8>) -> bool {
    &&& is_node(nodes, id)
    &&& nodes[id as int].kind == NodeKind::Ident || nodes[id as int].kind == NodeKind::ColumnList
    &&& spells(src, nodes[id as int], name)
}

proof fn lemma_source(f: Flow, src: Seq<u8>, n: AstNode, name: Seq<u8>)
    requires
        f.left is Some,
        spells(src, n, name),
    ensures
        crate::flow::name_of(src, n) == name,
        f.source(src, n) is Ok <==> (n.kind == NodeKind::Ident || n.kind == NodeKind::ColumnList)
            && (is_derived(f, name) || has_column(f.left->0, name) || (f.right is Some && has_column(
            f.right->0,
            name,
        ))),
        f.source(src, n) matches Ok(s) ==> match s {
            Source::Derived => found_on(f, name, Side::Derived),
            Source::Left(c) => found_on(f, name, Side::Left) && is_column(f.left->0, name, c),
            Source::Right(c) => found_on(f, name, Side::Right) && is_column(f.right->0, name, c),
        },
        f.source(src, n) matches Err(e) ==> (n.kind == NodeKind::Ident || n.kind
            == NodeKind::ColumnList) ==> names_missing(e, f.left->0.name@, name),
{
    assert(crate::flow::name_of(src, n) =~= name);
    law_a_name_stands_for_the_first_column(f.left->0, name);
    if f.right is Some {
        law_a_name_stands_for_the_first_column(f.right->0, name);
    }
}

proof fn lemma_cells(f: Flow, name: Seq<u8>, s: Source, slot: u16)
    requires
        match s {
            Source::Derived => found_on(f, name, Side::Derived),
            Source::Left(c) => found_on(f, name, Side::Left) && is_column(f.left->0, name, c),
            Source::Right(c) => found_on(f, name, Side::Right) && is_column(f.right->0, name, c),
        },
    ensures
        forall|x: i64| #[trigger]
            shows_number(f, name, slot as int, x) <==> f.int_cell(s, slot) == Some(x),
        forall|b: Seq<u8>| #[trigger]
            shows_text(f, name, slot as int, b) <==> f.text_cell(s, slot) == Some(b),
{
    match s {
        Source::Derived => {},
        Source::Left(c) => {
            assert forall|d: int| #[trigger] is_column(f.left->0, name, d) implies d == c by {
                lemma_one_column(f.left->0, name, c, d);
            }
        },
        Source::Right(c) => {
            assert forall|d: int| #[trigger] is_column(f.right->0, name, d) implies d == c by {
                lemma_one_column(f.right->0, name, c, d);
            }
        },
    }
}

proof fn lemma_shown_bytes(f: Flow, name: Seq<u8>, s: Source, n: nat)
    requires
        n <= f.order.len(),
        match s {
            Source::Derived => found_on(f, name, Side::Derived),
            Source::Left(c) => found_on(f, name, Side::Left) && is_column(f.left->0, name, c),
            Source::Right(c) => found_on(f, name, Side::Right) && is_column(f.right->0, name, c),
        },
    ensures
        shown_bytes(f, name, n) == crate::laws::text_bytes(f, s, n as int),
    decreases n,
{
    if n > 0 {
        lemma_shown_bytes(f, name, s, (n - 1) as nat);
        let slot = f.order[n - 1];
        lemma_cells(f, name, s, slot);
        if let Some(b) = f.text_cell(s, slot) {
            assert(shows_text(f, name, slot as int, b));
            let d = choose|d: Seq<u8>| shows_text(f, name, slot as int, d);
            assert(shows_text(f, name, slot as int, d));
        }
    }
}

proof fn lemma_columns(f: Flow, src: Seq<u8>, nodes: Seq<AstNode>, id: u32, room: nat)
    ensures
        ({
            let cols = f.columns(src, nodes, id, room);
            let k = cols.sources.len();
            &&& k <= room
            &&& forall|j: nat|
                #![trigger nth(nodes, id, j)]
                j < k ==> is_node(nodes, nth(nodes, id, j)) && f.source(
                    src,
                    nodes[nth(nodes, id, j) as int],
                ) == Ok::<Source, Fault>(cols.sources[j as int])
            &&& cols.fault is None ==> k == room || !is_node(nodes, nth(nodes, id, k))
            &&& cols.fault matches Some(e) ==> k < room && is_node(nodes, nth(nodes, id, k))
                && f.source(src, nodes[nth(nodes, id, k) as int]) == Err::<Source, Fault>(e)
        }),
    decreases room,
{
    let cols = f.columns(src, nodes, id, room);
    let k = cols.sources.len();
    reveal_with_fuel(nth, 2);
    if room > 0 && is_node(nodes, id) {
        let n = nodes[id as int];
        if let Ok(s) = f.source(src, n) {
            let rest = f.columns(src, nodes, n.next, (room - 1) as nat);
            lemma_columns(f, src, nodes, n.next, (room - 1) as nat);
            assert(cols.sources =~= seq![s] + rest.sources);
            assert forall|j: nat| #![trigger nth(nodes, id, j)] j < k implies is_node(
                nodes,
                nth(nodes, id, j),
            ) && f.source(src, nodes[nth(nodes, id, j) as int]) == Ok::<Source, Fault>(
                cols.sources[j as int],
            ) by {
                if j > 0 {
                    assert(nth(nodes, id, j) == nth(nodes, n.next, (j - 1) as nat));
                    assert(cols.sources[j as int] == rest.sources[j - 1]);
                }
            }
            assert(nth(nodes, id, k) == nth(nodes, n.next, (k - 1) as nat));
        }
    }
}

proof fn lemma_metas(f: Flow, sources: Seq<Source>, n: int)
    requires
        0 <= n <= sources.len(),
        n <= MAX_PROJECT,
        f.out.schema.len() == MAX_PROJECT,
        f.out.types.len() == MAX_PROJECT,
        f.out.live.len() == MAX_PROJECT,
    ensures
        ({
            let o = f.with_metas(sources, n);
            &&& o.schema.len() == MAX_PROJECT
            &&& o.types.len() == MAX_PROJECT
            &&& o.live.len() == MAX_PROJECT
            &&& o.ints == f.out.ints
            &&& o.texts == f.out.texts
            &&& o.col_count == f.out.col_count
            &&& o.row_count == f.out.row_count
            &&& forall|c: int|
                0 <= c < MAX_PROJECT ==> #[trigger] o.schema[c] == if c < n {
                    f.meta(sources[c])
                } else {
                    f.out.schema[c]
                }
            &&& forall|c: int|
                0 <= c < MAX_PROJECT ==> #[trigger] o.types[c] == if c < n {
                    f.meta(sources[c]).phys
                } else {
                    f.out.types[c]
                }
            &&& forall|c: int|
                0 <= c < MAX_PROJECT ==> #[trigger] o.live[c] == if c < n {
                    1u8
                } else {
                    f.out.live[c]
                }
        }),
    decreases n,
{
    if n > 0 {
        lemma_metas(f, sources, n - 1);
    }
}

proof fn lemma_text_rows(f: Flow, col: Utf8View, s: Source, n: int)
    requires
        col.wf(),
        0 <= n <= f.order.len(),
        n <= MAX_ROWS,
    ensures
        ({
            let t = f.text_rows(col.cleared(), s, n);
            &&& t.wf()
            &&& t.data_len <= crate::laws::text_bytes(f, s, n)
            &&& forall|i: int|
                0 <= i < n && #[trigger] t.valid[i] ==> f.text_cell(s, f.order[i]) is Some
                    && t.row(i) == f.text_cell(s, f.order[i])
            &&& n > 0 && t.valid[n - 1] ==> t.offsets[n] == t.data_len
            &&& forall|i: int| n <= i < MAX_ROWS ==> !#[trigger] t.valid[i]
            &&& crate::laws::text_bytes(f, s, n) <= UTF8_SLAB_CAP ==> forall|i: int|
                0 <= i < n ==> #[trigger] t.valid[i] == (f.text_cell(s, f.order[i]) is Some)
        }),
    decreases n,
{
    if n > 0 {
        lemma_text_rows(f, col, s, n - 1);
        let before = f.text_rows(col.cleared(), s, n - 1);
        let after = f.text_rows(col.cleared(), s, n);
        assert(!before.valid[n - 1]);
        if let Some(b) = f.text_cell(s, f.order[n - 1]) {
            if before.fits(n - 1, b) {
                crate::storage::law_appended_row_reads_back(before, n - 1, b);
                assert forall|i: int| 0 <= i < n && #[trigger] after.valid[i] implies f.text_cell(
                    s,
                    f.order[i],
                ) is Some && after.row(i) == f.text_cell(s, f.order[i]) by {
                    if i < n - 1 {
                        assert(after.valid[i] == before.valid[i]);
                        assert(before.row(i) == f.text_cell(s, f.order[i]));
                        let lo = before.offsets[i] as int;
                        let hi = before.offsets[i + 1] as int;
                        assert(after.offsets[i] == before.offsets[i]);
                        assert(after.offsets[i + 1] == hi);
                        assert(after.data.subrange(lo, hi) =~= before.data.subrange(lo, hi));
                    }
                }
            }
        }
    } else {
        assert(col.cleared().wf());
    }
}

/// A result has room for what a query can write.
pub open spec fn result_fits(o: OutView) -> bool {
    &&& o.schema.len() == MAX_PROJECT
    &&& o.types.len() == MAX_PROJECT
    &&& o.live.len() == MAX_PROJECT
    &&& o.ints.len() == MAX_PROJECT
    &&& o.texts.len() == MAX_PROJECT
    &&& forall|c: int|
        0 <= c < MAX_PROJECT ==> (#[trigger] o.ints[c]).values.len() == MAX_ROWS
            && o.ints[c].valid.len() == MAX_ROWS
    &&& forall|c: int|
        0 <= c < MAX_PROJECT ==> (#[trigger] o.texts[c]).offsets.len()
            == crate::storage::OFFSETS_CAP && o.texts[c].data.len() == UTF8_SLAB_CAP
            && o.texts[c].valid.len() == MAX_ROWS && o.texts[c].data_len <= UTF8_SLAB_CAP
}

/// The schema entry of the projected `name` is that of its column.
pub open spec fn shows_meta(f: Flow, name: Seq<u8>, m: MetaView) -> bool {
    ||| found_on(f, name, Side::Derived) && m.name == f.derived_name && m.phys
        == crate::storage::PhysType::Int64 && m.data_off == 0 && m.offsets_off == 0
    ||| found_on(f, name, Side::Left) && exists|c: int| #[trigger]
        is_column(f.left->0, name, c) && m == f.left->0.col_meta@[c]@
    ||| found_on(f, name, Side::Right) && exists|c: int| #[trigger]
        is_column(f.right->0, name, c) && m == f.right->0.col_meta@[c]@
}

/// A projection writes, row by row of the order and name by name of its list, the numbers and the
/// texts that the names have for the slot of the row: those of the source table from its source
/// row, those of the joined table from its joined row. A row shows no other text than that, and
/// all of them where the slab has room.
pub proof fn law_a_projection_writes_what_the_names_stand_for(
    f: Flow,
    cat: Catalog,
    src: Seq<u8>,
    nodes: Seq<AstNode>,
    st: AstNode,
    c: nat,
    name: Seq<u8>,
)
    requires
        sound(f),
        result_fits(f.out),
        st.kind == NodeKind::Project,
        f.stage(cat, src, nodes, st).fault is None,
        c < f.stage(cat, src, nodes, st).flow.out.col_count,
        spells(src, nodes[nth(nodes, st.left, c) as int], name),
    ensures
        ({
            let o = f.stage(cat, src, nodes, st).flow.out;
            let col = c as int;
            &&& is_listed(src, nodes, nth(nodes, st.left, c), name)
            &&& shows_meta(f, name, o.schema[col])
            &&& o.types[col] == o.schema[col].phys
            &&& o.live[col] == 1
            &&& forall|i: int, x: i64|
                0 <= i < f.order.len() && #[trigger] shows_number(f, name, f.order[i] as int, x)
                    ==> o.ints[col].values[i] == x && o.ints[col].valid[i]
            &&& forall|i: int|
                0 <= i < f.order.len() ==> (#[trigger] o.texts[col].row(i) matches Some(b)
                    ==> shows_text(f, name, f.order[i] as int, b))
            &&& shown_bytes(f, name, f.order.len()) <= UTF8_SLAB_CAP ==> forall|i: int, b: Seq<u8>|
                0 <= i < f.order.len() && #[trigger] shows_text(f, name, f.order[i] as int, b)
                    ==> o.texts[col].row(i) == Some(b)
            &&& forall|i: int| f.order.len() <= i ==> #[trigger] o.texts[col].row(i) is None
        }),
{
    let o = f.stage(cat, src, nodes, st).flow.out;
    let col = c as int;
    let cols = f.columns(src, nodes, st.left, MAX_PROJECT as nat);
    let n = f.order.len() as int;
    lemma_columns(f, src, nodes, st.left, MAX_PROJECT as nat);
    lemma_metas(f, cols.sources, cols.sources.len() as int);
    let node = nodes[nth(nodes, st.left, c) as int];
    let s = cols.sources[col];
    assert(f.source(src, node) == Ok::<Source, Fault>(s));
    lemma_source(f, src, node, name);
    assert(o.ints[col] == f.int_rows(f.out.ints[col], s, n));
    assert(o.texts[col] == f.text_rows(f.out.texts[col].cleared(), s, n));
    assert(o.schema[col] == f.meta(s));
    assert forall|i: int, x: i64|
        0 <= i < f.order.len() && #[trigger] shows_number(f, name, f.order[i] as int, x) implies
        o.ints[col].values[i] == x && o.ints[col].valid[i] by {
        lemma_cells(f, name, s, f.order[i]);
        assert(f.out.ints[col].values.len() == MAX_ROWS);
        crate::laws::law_written_numbers_read_back(f, f.out.ints[col], s, n, i);
    }
    assert(f.out.texts[col].wf());
    lemma_text_rows(f, f.out.texts[col], s, n);
    lemma_shown_bytes(f, name, s, f.order.len());
    assert forall|i: int| 0 <= i < f.order.len() implies (#[trigger] o.texts[col].row(i) matches Some(
        b,
    ) ==> shows_text(f, name, f.order[i] as int, b)) by {
        lemma_cells(f, name, s, f.order[i]);
        if o.texts[col].row(i) is Some {
            assert(o.texts[col].valid[i]);
        }
    }
    if shown_bytes(f, name, f.order.len()) <= UTF8_SLAB_CAP {
        assert forall|i: int, b: Seq<u8>|
            0 <= i < f.order.len() && #[trigger] shows_text(f, name, f.order[i] as int, b) implies
            o.texts[col].row(i) == Some(b) by {
            lemma_cells(f, name, s, f.order[i]);
            assert(o.texts[col].valid[i]);
        }
    }
}

/// A projection has a column for every name of its list, up to as many as a result has room for,
/// and a row for every slot of the order. It leaves the pipeline as it is, and the columns of the
/// result that it does not need.
pub proof fn law_a_projection_has_a_column_for_every_name(
    f: Flow,
    cat: Catalog,
    src: Seq<u8>,
    nodes: Seq<AstNode>,
    st: AstNode,
)
    requires
        result_fits(f.out),
        st.kind == NodeKind::Project,
        f.stage(cat, src, nodes, st).fault is None,
    ensures
        ({
            let g = f.stage(cat, src, nodes, st).flow;
            let k = g.out.col_count;
            &&& f.left is Some
            &&& g == (Flow { out: g.out, ..f })
            &&& k <= MAX_PROJECT
            &&& forall|j: nat|
                #![trigger nth(nodes, st.left, j)]
                j < k ==> is_node(nodes, nth(nodes, st.left, j))
            &&& k < MAX_PROJECT ==> !is_node(nodes, nth(nodes, st.left, k))
            &&& g.out.row_count == f.order.len()
            &&& forall|c: int|
                k <= c < MAX_PROJECT ==> #[trigger] g.out.ints[c] == f.out.ints[c]
                    && g.out.texts[c] == f.out.texts[c] && g.out.schema[c] == f.out.schema[c]
                    && g.out.types[c] == f.out.types[c] && g.out.live[c] == f.out.live[c]
        }),
{
    let cols = f.columns(src, nodes, st.left, MAX_PROJECT as nat);
    lemma_columns(f, src, nodes, st.left, MAX_PROJECT as nat);
    lemma_metas(f, cols.sources, cols.sources.len() as int);
}

/// A projection fails without a source table, or at the first name of its list that stands for
/// nothing, which it names; else it succeeds. Where it fails, no number, text or count has
/// changed.
pub proof fn law_a_projection_needs_every_name(
    f: Flow,
    cat: Catalog,
    src: Seq<u8>,
    nodes: Seq<AstNode>,
    st: AstNode,
)
    requires
        result_fits(f.out),
        st.kind == NodeKind::Project,
    ensures
        ({
            let step = f.stage(cat, src, nodes, st);
            let g = step.flow;
            &&& f.left is None ==> step.fault is Some && g == f
            &&& f.left is Some && step.fault is None ==> forall|j: nat, name: Seq<u8>|
                #![trigger nth(nodes, st.left, j), spells(src, nodes[nth(nodes, st.left, j) as int], name)]
                j < g.out.col_count && spells(src, nodes[nth(nodes, st.left, j) as int], name)
                    ==> is_derived(f, name) || has_column(f.left->0, name) || (f.right is Some
                    && has_column(f.right->0, name))
            &&& f.left is Some && step.fault is Some ==> {
                &&& g == (Flow { out: g.out, ..f })
                &&& g.out.ints == f.out.ints
                &&& g.out.texts == f.out.texts
                &&& g.out.col_count == f.out.col_count
                &&& g.out.row_count == f.out.row_count
                &&& exists|j: nat, name: Seq<u8>| #[trigger]
                    is_stranger(f, src, nodes, nth(nodes, st.left, j), name) && j < MAX_PROJECT && (
                    is_listed(src, nodes, nth(nodes, st.left, j), name) ==> names_missing(
                        step.fault->0,
                        f.left->0.name@,
                        name,
                    ))
            }
        }),
{
    let step = f.stage(cat, src, nodes, st);
    let cols = f.columns(src, nodes, st.left, MAX_PROJECT as nat);
    let k = cols.sources.len();
    lemma_columns(f, src, nodes, st.left, MAX_PROJECT as nat);
    lemma_metas(f, cols.sources, k as int);
    if f.left is Some {
        if step.fault is None {
            assert forall|j: nat, name: Seq<u8>|
                #![trigger nth(nodes, st.left, j), spells(src, nodes[nth(nodes, st.left, j) as int], name)]
                j < step.flow.out.col_count && spells(
                    src,
                    nodes[nth(nodes, st.left, j) as int],
                    name,
                ) implies is_derived(f, name) || has_column(f.left->0, name) || (f.right is Some
                && has_column(f.right->0, name)) by {
                lemma_source(f, src, nodes[nth(nodes, st.left, j) as int], name);
            }
        } else {
            let n = nodes[nth(nodes, st.left, k) as int];
            let name = crate::flow::name_of(src, n);
            assert(spells(src, n, name));
            lemma_source(f, src, n, name);
            assert(is_stranger(f, src, nodes, nth(nodes, st.left, k), name));
        }
    }
}

/// The node `id` is no name, or its name `name` stands for nothing in the flow.
pub open spec fn is_stranger(
    f: Flow,
    src: Seq<u8>,
    nodes: Seq<AstNode>,
    id: u32,
    name: Seq<u8>,
) -> bool {
    &&& is_node(nodes, id)
    &&& spells(src, nodes[id as int], name)
    &&& is_listed(src, nodes, id, name) ==> !is_derived(f, name) && !has_column(f.left->0, name)
        && !(f.right is Some && has_column(f.right->0, name))
}

/// How many bytes the texts in the first `n` rows of `t` take.
pub open spec fn row_bytes(t: Utf8View, n: nat) -> nat
    decreases n,
{
    if n == 0 {
        0
    } else {
        row_bytes(t, (n - 1) as nat) + match t.row(n - 1) {
            Some(b) => b.len(),
            None => 0,
        }
    }
}

proof fn lemma_row_bytes(a: Utf8View, b: Utf8View, n: nat)
    requires
        forall|i: int| 0 <= i < n ==> #[trigger] a.row(i) == b.row(i),
    ensures
        row_bytes(a, n) == row_bytes(b, n),
    decreases n,
{
    if n > 0 {
        lemma_row_bytes(a, b, (n - 1) as nat);
        assert(a.row(n - 1) == b.row(n - 1));
    }
}

proof fn lemma_texts_fit(f: Flow, col: Utf8View, s: Source, n: nat)
    requires
        col.wf(),
        n <= f.order.len(),
        n <= MAX_ROWS,
    ensures
        ({
            let t = f.text_rows(col.cleared(), s, n as int);
            &&& t.data_len == row_bytes(t, n)
            &&& forall|i: int|
                0 <= i < n && #[trigger] f.text_cell(s, f.order[i]) is Some ==> (t.valid[i]
                    <==> row_bytes(t, i as nat) + f.text_cell(s, f.order[i])->0.len()
                    <= UTF8_SLAB_CAP)
        }),
    decreases n,
{
    lemma_text_rows(f, col, s, n as int);
    if n > 0 {
        let m = (n - 1) as nat;
        lemma_texts_fit(f, col, s, m);
        lemma_text_rows(f, col, s, m as int);
        let before = f.text_rows(col.cleared(), s, m as int);
        let after = f.text_rows(col.cleared(), s, n as int);
        assert forall|i: int| 0 <= i < m implies #[trigger] after.row(i) == before.row(i) by {
            assert(after.valid[i] == before.valid[i]);
            if before.valid[i] {
                assert(before.row(i) == f.text_cell(s, f.order[i]));
                assert(after.row(i) == f.text_cell(s, f.order[i]));
            }
        }
        lemma_row_bytes(after, before, m);
        assert forall|i: int|
            0 <= i < n && #[trigger] f.text_cell(s, f.order[i]) is Some implies (after.valid[i]
            <==> row_bytes(after, i as nat) + f.text_cell(s, f.order[i])->0.len()
            <= UTF8_SLAB_CAP) by {
            if i < m {
                lemma_row_bytes(after, before, i as nat);
                assert(after.valid[i] == before.valid[i]);
            }
        }
        if after.valid[m as int] {
            assert(after.row(m as int) == f.text_cell(s, f.order[m as int]));
        }
    }
}

proof fn lemma_numbers_left_alone(f: Flow, col: IntView, s: Source, n: int, i: int)
    requires
        0 <= n <= f.order.len(),
        n <= col.values.len(),
        n <= col.valid.len(),
        0 <= i < col.values.len(),
        i < col.valid.len(),
        i < n ==> f.int_cell(s, f.order[i]) is None,
    ensures
        f.int_rows(col, s, n).values.len() == col.values.len(),
        f.int_rows(col, s, n).valid.len() == col.valid.len(),
        f.int_rows(col, s, n).values[i] == col.values[i],
        f.int_rows(col, s, n).valid[i] == col.valid[i],
    decreases n,
{
    if n > 0 {
        lemma_numbers_left_alone(f, col, s, n - 1, i);
    }
}

/// A projection writes a text if and only if there is room for it behind those that it wrote
/// before, and leaves numbers alone in the rows for which a name has none and behind the last
/// row.
pub proof fn law_a_projection_writes_a_text_where_it_fits(
    f: Flow,
    cat: Catalog,
    src: Seq<u8>,
    nodes: Seq<AstNode>,
    st: AstNode,
    c: nat,
    name: Seq<u8>,
)
    requires
        sound(f),
        result_fits(f.out),
        st.kind == NodeKind::Project,
        f.stage(cat, src, nodes, st).fault is None,
        c < f.stage(cat, src, nodes, st).flow.out.col_count,
        spells(src, nodes[nth(nodes, st.left, c) as int], name),
    ensures
        ({
            let o = f.stage(cat, src, nodes, st).flow.out;
            let col = c as int;
            &&& forall|i: int, b: Seq<u8>|
                0 <= i < f.order.len() && #[trigger] shows_text(f, name, f.order[i] as int, b)
                    ==> o.texts[col].row(i) == if row_bytes(o.texts[col], i as nat) + b.len()
                    <= UTF8_SLAB_CAP {
                    Some(b)
                } else {
                    None
                }
            &&& forall|i: int|
                0 <= i < MAX_ROWS && (i < f.order.len() ==> forall|x: i64|
                    !#[trigger] shows_number(f, name, f.order[i] as int, x))
                    ==> #[trigger] o.ints[col].values[i] == f.out.ints[col].values[i]
                    && o.ints[col].valid[i] == f.out.ints[col].valid[i]
        }),
{
    let o = f.stage(cat, src, nodes, st).flow.out;
    let col = c as int;
    let cols = f.columns(src, nodes, st.left, MAX_PROJECT as nat);
    let n = f.order.len();
    lemma_columns(f, src, nodes, st.left, MAX_PROJECT as nat);
    lemma_metas(f, cols.sources, cols.sources.len() as int);
    let node = nodes[nth(nodes, st.left, c) as int];
    let s = cols.sources[col];
    assert(f.source(src, node) == Ok::<Source, Fault>(s));
    lemma_source(f, src, node, name);
    assert(o.ints[col] == f.int_rows(f.out.ints[col], s, n as int));
    assert(o.texts[col] == f.text_rows(f.out.texts[col].cleared(), s, n as int));
    assert(f.out.texts[col].wf());
    lemma_text_rows(f, f.out.texts[col], s, n as int);
    lemma_texts_fit(f, f.out.texts[col], s, n);
    assert forall|i: int, b: Seq<u8>|
        0 <= i < f.order.len() && #[trigger] shows_text(
            f,
            name,
            f.order[i] as int,
            b,
        ) implies o.texts[col].row(i) == if row_bytes(o.texts[col], i as nat) + b.len()
        <= UTF8_SLAB_CAP {
        Some(b)
    } else {
        None
    } by {
        lemma_cells(f, name, s, f.order[i]);
        assert(f.text_cell(s, f.order[i]) == Some(b));
        if o.texts[col].valid[i] {
            assert(o.texts[col].row(i) == Some(b));
        }
    }
    assert forall|i: int|
        0 <= i < MAX_ROWS && (i < f.order.len() ==> forall|x: i64|
            !#[trigger] shows_number(f, name, f.order[i] as int, x)) implies #[trigger] o.ints[
        col].values[i] == f.out.ints[col].values[i] && o.ints[col].valid[i]
        == f.out.ints[col].valid[i] by {
        assert(f.out.ints[col].values.len() == MAX_ROWS);
        if i < f.order.len() {
            lemma_cells(f, name, s, f.order[i]);
            if let Some(x) = f.int_cell(s, f.order[i]) {
                assert(shows_number(f, name, f.order[i] as int, x));
            }
        }
        lemma_numbers_left_alone(f, f.out.ints[col], s, n as int, i);
    }
}

/// Where a projection fails at name `k` of its list, the schema entries of the names before it
/// are those of their columns, and the others are as they were.
pub open spec fn has_entries_up_to(
    f: Flow,
    src: Seq<u8>,
    nodes: Seq<AstNode>,
    st: AstNode,
    o: OutView,
    k: nat,
) -> bool {
    &&& forall|c: nat, name: Seq<u8>|
        #![trigger nth(nodes, st.left, c), spells(src, nodes[nth(nodes, st.left, c) as int], name)]
        c < k && spells(src, nodes[nth(nodes, st.left, c) as int], name) ==> shows_meta(
            f,
            name,
            o.schema[c as int],
        ) && o.types[c as int] == o.schema[c as int].phys && o.live[c as int] == 1
    &&& forall|c: int|
        k <= c < MAX_PROJECT ==> #[trigger] o.schema[c] == f.out.schema[c] && o.types[c]
            == f.out.types[c] && o.live[c] == f.out.live[c]
}

/// A projection that fails has filled in the schema entries of the names before the one that
/// stands for nothing, and no others.
pub proof fn law_a_failed_projection_has_named_what_it_found(
    f: Flow,
    cat: Catalog,
    src: Seq<u8>,
    nodes: Seq<AstNode>,
    st: AstNode,
)
    requires
        result_fits(f.out),
        st.kind == NodeKind::Project,
        f.left is Some,
        f.stage(cat, src, nodes, st).fault is Some,
    ensures
        exists|k: nat, name: Seq<u8>|
            k < MAX_PROJECT && #[trigger] is_stranger(
                f,
                src,
                nodes,
                nth(nodes, st.left, k),
                name,
            ) && has_entries_up_to(
                f,
                src,
                nodes,
                st,
                f.stage(cat, src, nodes, st).flow.out,
                k,
            ),
{
    let o = f.stage(cat, src, nodes, st).flow.out;
    let cols = f.columns(src, nodes, st.left, MAX_PROJECT as nat);
    let k = cols.sources.len();
    lemma_columns(f, src, nodes, st.left, MAX_PROJECT as nat);
    lemma_metas(f, cols.sources, k as int);
    assert forall|c: nat, name: Seq<u8>|
        #![trigger nth(nodes, st.left, c), spells(src, nodes[nth(nodes, st.left, c) as int], name)]
        c < k && spells(src, nodes[nth(nodes, st.left, c) as int], name) implies shows_meta(
        f,
        name,
        o.schema[c as int],
    ) && o.types[c as int] == o.schema[c as int].phys && o.live[c as int] == 1 by {
        lemma_source(f, src, nodes[nth(nodes, st.left, c) as int], name);
        assert(o.schema[c as int] == f.meta(cols.sources[c as int]));
    }
    assert(has_entries_up_to(f, src, nodes, st, o, k));
    let n = nodes[nth(nodes, st.left, k) as int];
    let name = crate::flow::name_of(src, n);
    assert(spells(src, n, name));
    lemma_source(f, src, n, name);
    assert(is_stranger(f, src, nodes, nth(nodes, st.left, k), name));
}

// ---------------------------------------------------------------------------
// Group and aggregate
// ---------------------------------------------------------------------------
/// The sum of numbers.
pub open spec fn total(v: Seq<i64>) -> int
    decreases v.len(),
{
    if v.len() == 0 {
        0
    } else {
        total(v.drop_last()) + v.last()
    }
}

/// `z` is the sum of `v`, wrapping at the ends of the 64-bit range.
pub open spec fn wraps_to(v: Seq<i64>, z: i64) -> bool {
    exists|k: int| total(v) == #[trigger] (z + k * 0x1_0000_0000_0000_0000)
}

/// `lo` and `hi` are the least and the greatest of `v`.
pub open spec fn are_bounds(v: Seq<i64>, lo: i64, hi: i64) -> bool {
    &&& v.contains(lo)
    &&& v.contains(hi)
    &&& forall|i: int| 0 <= i < v.len() ==> lo <= #[trigger] v[i] <= hi
}

proof fn lemma_total(v: Seq<i64>)
    ensures
        wraps_to(v, crate::flow::wrapping_sum(v)),
    decreases v.len(),
{
    let z = crate::flow::wrapping_sum(v);
    if v.len() == 0 {
        assert(total(v) == z + 0 * 0x1_0000_0000_0000_0000);
    } else {
        let u = v.drop_last();
        lemma_total(u);
        let y = crate::flow::wrapping_sum(u);
        let k = choose|k: int| total(u) == #[trigger] (y + k * 0x1_0000_0000_0000_0000);
        let x = v.last();
        if y + x > i64::MAX {
            assert(total(v) == z + (k + 1) * 0x1_0000_0000_0000_0000);
        } else if y + x < i64::MIN {
            assert(total(v) == z + (k - 1) * 0x1_0000_0000_0000_0000);
        } else {
            assert(total(v) == z + k * 0x1_0000_0000_0000_0000);
        }
    }
}

proof fn lemma_bounds(v: Seq<i64>)
    requires
        v.len() > 0,
    ensures
        are_bounds(v, crate::flow::least(v), crate::flow::greatest(v)),
{
    crate::zonemap::law_zone_bounds_every_row(v);
}

proof fn lemma_with_key_none(key: spec_fn(u16) -> int, s: Seq<u16>, k: int)
    requires
        forall|i: int| 0 <= i < s.len() ==> key(#[trigger] s[i]) != k,
    ensures
        crate::order::with_key(key, s, k).len() == 0,
    decreases s.len(),
{
    if s.len() > 0 {
        let u = s.drop_last();
        assert forall|i: int| 0 <= i < u.len() implies key(#[trigger] u[i]) != k by {
            assert(u[i] == s[i]);
        }
        assert(key(s[s.len() - 1]) != k);
        lemma_with_key_none(key, u, k);
    }
}

/// The runs of a sorted list are the elements of each key, and every element is in one.
proof fn lemma_runs_are_keys(key: spec_fn(u16) -> int, s: Seq<u16>)
    requires
        forall|i: int, j: int|
            0 <= i <= j < s.len() ==> key(#[trigger] s[i]) <= key(#[trigger] s[j]),
    ensures
        ({
            let r = crate::flow::runs(key, s);
            &&& forall|q: int|
                0 <= q < r.len() ==> #[trigger] r[q] == crate::order::with_key(
                    key,
                    s,
                    key(r[q][0]),
                ) && r[q].len() > 0
            &&& forall|i: int|
                0 <= i < s.len() ==> exists|q: int|
                    0 <= q < r.len() && #[trigger] key(r[q][0]) == key(#[trigger] s[i])
        }),
    decreases s.len(),
{
    let r = crate::flow::runs(key, s);
    if s.len() > 0 {
        let u = s.drop_last();
        let x = s.last();
        let before = crate::flow::runs(key, u);
        assert forall|i: int, j: int| 0 <= i <= j < u.len() implies key(#[trigger] u[i]) <= key(
            #[trigger] u[j],
        ) by {
            assert(u[i] == s[i] && u[j] == s[j]);
        }
        lemma_runs_are_keys(key, u);
        crate::laws::lemma_runs(key, u);
        crate::laws::lemma_runs_ascend(key, u);
        assert(s[s.len() - 1] == x);
        if before.len() > 0 && key(before.last()[0]) == key(x) {
            let last = before.len() - 1;
            assert(before.last() == before[last]);
            assert forall|q: int| 0 <= q < r.len() implies #[trigger] r[q]
                == crate::order::with_key(key, s, key(r[q][0])) && r[q].len() > 0 by {
                if q < last {
                    assert(r[q] == before[q]);
                    assert(key(before[q][0]) < key(before[last][0]));
                } else {
                    assert(r[q] == before[last].push(x));
                    assert(r[q][0] == before[last][0]);
                }
            }
            assert forall|i: int| 0 <= i < s.len() implies exists|q: int|
                0 <= q < r.len() && #[trigger] key(r[q][0]) == key(#[trigger] s[i]) by {
                if i < u.len() {
                    assert(u[i] == s[i]);
                    let q = choose|q: int|
                        0 <= q < before.len() && #[trigger] key(before[q][0]) == key(u[i]);
                    assert(r[q][0] == before[q][0]);
                    assert(key(r[q][0]) == key(s[i]));
                } else {
                    assert(r[last][0] == before[last][0]);
                    assert(key(r[last][0]) == key(s[i]));
                }
            }
        } else {
            if u.len() > 0 {
                assert(u.last() == s[s.len() - 2]);
                assert(before.last() == before[before.len() - 1]);
            } else {
                assert(before.len() == 0);
            }
            assert forall|i: int| 0 <= i < u.len() implies key(#[trigger] u[i]) != key(x) by {
                assert(key(u[i]) <= key(u[u.len() - 1]));
                assert(s[i] == u[i]);
                assert(key(s[s.len() - 2]) <= key(s[s.len() - 1]));
            }
            lemma_with_key_none(key, u, key(x));
            assert forall|q: int| 0 <= q < r.len() implies #[trigger] r[q]
                == crate::order::with_key(key, s, key(r[q][0])) && r[q].len() > 0 by {
                if q < before.len() {
                    assert(r[q] == before[q]);
                    let w = before[q];
                    crate::order::lemma_with_key_elements(key, u, key(w[0]), w[0]);
                    assert(w.contains(w[0]));
                    let i = choose|i: int| 0 <= i < u.len() && u[i] == w[0];
                    assert(key(u[i]) != key(x));
                } else {
                    assert(r[q] == seq![x]);
                    assert(crate::order::with_key(key, s, key(x)) =~= seq![x]);
                }
            }
            assert forall|i: int| 0 <= i < s.len() implies exists|q: int|
                0 <= q < r.len() && #[trigger] key(r[q][0]) == key(#[trigger] s[i]) by {
                if i < u.len() {
                    assert(u[i] == s[i]);
                    let q = choose|q: int|
                        0 <= q < before.len() && #[trigger] key(before[q][0]) == key(u[i]);
                    assert(r[q] == before[q]);
                    assert(key(r[q][0]) == key(s[i]));
                } else {
                    assert(r[before.len() as int] == seq![x]);
                    assert(key(r[before.len() as int][0]) == key(s[i]));
                }
            }
        }
    }
}

proof fn lemma_with_key_positions(key: spec_fn(u16) -> int, s: Seq<u16>, k: int, i: int, j: int)
    requires
        0 <= i < j < crate::order::with_key(key, s, k).len(),
    ensures
        stands_before(
            s,
            crate::order::with_key(key, s, k)[i],
            crate::order::with_key(key, s, k)[j],
        ),
    decreases s.len(),
{
    let u = s.drop_last();
    let w = crate::order::with_key(key, u, k);
    let all = crate::order::with_key(key, s, k);
    if j < w.len() {
        lemma_with_key_positions(key, u, k, i, j);
        let (p, q) = choose|p: int, q: int|
            0 <= p < q < u.len() && #[trigger] u[p] == w[i] && #[trigger] u[q] == w[j];
        assert(s[p] == all[i] && s[q] == all[j]);
    } else {
        assert(w.contains(w[i]));
        crate::order::lemma_with_key_elements(key, u, k, w[i]);
        let p = choose|p: int| 0 <= p < u.len() && u[p] == w[i];
        assert(s[p] == all[i]);
        assert(s[s.len() - 1] == all[j]);
    }
}

/// `cut` are the slots of each group: those of the order whose number of `name` is the key of the
/// group, in the order in which they came. Groups come by ascending key, and every slot of the
/// order is in one. A group stands for its first row, and the derived column counts its rows.
pub open spec fn is_grouping(f: Flow, name: Seq<u8>, g: Flow, cut: Seq<Seq<u16>>) -> bool {
    &&& cut.len() == g.groups.len()
    &&& g.slots() == cut.len()
    &&& forall|a: int, b: int|
        0 <= a < b < cut.len() ==> (#[trigger] g.groups[a]).key < (#[trigger] g.groups[b]).key
    &&& forall|q: int|
        0 <= q < cut.len() ==> (#[trigger] cut[q]).len() > 0 && g.groups[q].members.len()
            == cut[q].len() && g.derived[q] == cut[q].len() && g.lrow[q] == f.lrow[cut[q][0] as int]
            && g.rrow[q] == f.rrow[cut[q][0] as int]
    &&& forall|q: int, j: int|
        0 <= q < cut.len() && 0 <= j < cut[q].len() ==> g.groups[q].members[j] == (
            f.lrow[#[trigger] cut[q][j] as int],
            f.rrow[cut[q][j] as int],
        )
    &&& forall|q: int, s: u16|
        0 <= q < cut.len() ==> (#[trigger] cut[q].contains(s) <==> f.order.contains(s)
            && slot_number(f, name, s as int, g.groups[q].key))
    &&& forall|q: int, i: int, j: int|
        #![trigger cut[q][i], cut[q][j]]
        0 <= q < cut.len() && 0 <= i < j < cut[q].len() ==> stands_before(
            f.order,
            cut[q][i],
            cut[q][j],
        )
    &&& forall|s: u16| #[trigger]
        f.order.contains(s) ==> exists|q: int| 0 <= q < cut.len() && #[trigger] cut[q].contains(s)
}

/// A grouping makes one slot of all slots of the order that have the same number, by ascending
/// number, and counts them in a derived column.
pub proof fn law_a_grouping_gathers_equal_numbers(
    f: Flow,
    cat: Catalog,
    src: Seq<u8>,
    nodes: Seq<AstNode>,
    st: AstNode,
    name: Seq<u8>,
)
    requires
        sound(f),
        f.derived.len() == MAX_ROWS,
        st.kind == NodeKind::Group,
        is_name(src, nodes, st.left, name),
        f.stage(cat, src, nodes, st).fault is None,
    ensures
        ({
            let g = f.stage(cat, src, nodes, st).flow;
            &&& exists|cut: Seq<Seq<u16>>| is_grouping(f, name, g, cut)
            &&& forall|q: int|
                0 <= q < g.groups.len() ==> are_bounds(
                    seq![(#[trigger] g.groups[q]).key],
                    g.groups[q].min,
                    g.groups[q].max,
                ) && wraps_to(
                    Seq::new(g.groups[q].members.len(), |j: int| g.groups[q].key),
                    g.groups[q].sum,
                )
            &&& g.left == f.left
            &&& g.right == f.right
            &&& g.mapped
            &&& g.lrow.len() == g.slots()
            &&& g.rrow.len() == g.slots()
            &&& all_in_order(g)
            &&& g.has_derived == 1
            &&& g.derived_name == vstd::utf8::encode_utf8("எண்ணிக்கை"@)
            &&& g.derived.len() == f.derived.len()
            &&& forall|i: int|
                g.slots() <= i < f.derived.len() ==> #[trigger] g.derived[i] == f.derived[i]
            &&& g.out == f.out
        }),
{
    let g = f.stage(cat, src, nodes, st).flow;
    lemma_name(src, nodes, st.left);
    assert(crate::flow::name_at(src, nodes, st.left) == Some(name));
    lemma_column(f, name);
    let keys = f.column(name)->0;
    let key = crate::order::by_value(keys);
    let sorted = crate::order::stable_sort(key, f.order);
    let cut = crate::flow::runs(key, sorted);
    assert(g == f.grouped(f.groups_by(keys)));
    crate::order::law_stable_sort_permutes(key, f.order);
    crate::order::law_stable_sort_ascends(key, f.order);
    crate::laws::lemma_runs(key, sorted);
    crate::laws::lemma_runs_ascend(key, sorted);
    crate::laws::lemma_groups_len(f, keys);
    lemma_runs_are_keys(key, sorted);
    assert forall|q: int| 0 <= q < cut.len() implies #[trigger] cut[q] == crate::order::with_key(
        key,
        f.order,
        key(cut[q][0]),
    ) by {
        crate::order::law_stable_sort_is_stable(key, f.order, key(cut[q][0]));
    }
    assert forall|q: int, s: u16| 0 <= q < cut.len() implies (#[trigger] cut[q].contains(s)
        <==> f.order.contains(s) && slot_number(f, name, s as int, g.groups[q].key)) by {
        crate::order::lemma_with_key_elements(key, f.order, key(cut[q][0]), s);
        assert(cut[q].contains(cut[q][0]));
        crate::order::lemma_with_key_elements(key, f.order, key(cut[q][0]), cut[q][0]);
        if f.order.contains(s) {
            let i = choose|i: int| 0 <= i < f.order.len() && f.order[i] == s;
            assert(f.order[i] < f.slots());
            assert(slot_number(f, name, s as int, g.groups[q].key) <==> keys[s as int]
                == g.groups[q].key);
        }
    }
    assert forall|q: int, j: int| 0 <= q < cut.len() && 0 <= j < cut[q].len() implies key(
        #[trigger] cut[q][j],
    ) == g.groups[q].key && g.groups[q].members[j] == (
        f.lrow[cut[q][j] as int],
        f.rrow[cut[q][j] as int],
    ) by {
        assert(key(cut[q][j]) == key(cut[q][0]));
    }
    assert forall|a: int, b: int| 0 <= a < b < cut.len() implies (#[trigger] g.groups[a]).key < (
    #[trigger] g.groups[b]).key by {
        assert(key(cut[a][0]) < key(cut[b][0]));
    }
    assert forall|q: int| 0 <= q < cut.len() implies (#[trigger] cut[q]).len() > 0
        && g.groups[q].members.len() == cut[q].len() && g.derived[q] == cut[q].len() && g.lrow[q]
        == f.lrow[cut[q][0] as int] && g.rrow[q] == f.rrow[cut[q][0] as int] by {
        crate::laws::lemma_part_len(cut, q);
    }
    assert forall|q: int, i: int, j: int|
        #![trigger cut[q][i], cut[q][j]]
        0 <= q < cut.len() && 0 <= i < j < cut[q].len() implies stands_before(
        f.order,
        cut[q][i],
        cut[q][j],
    ) by {
        lemma_with_key_positions(key, f.order, key(cut[q][0]), i, j);
    }
    assert forall|s: u16| #[trigger] f.order.contains(s) implies exists|q: int|
        0 <= q < cut.len() && #[trigger] cut[q].contains(s) by {
        crate::laws::lemma_sort_contains(key, f.order, s);
        let i = choose|i: int| 0 <= i < sorted.len() && sorted[i] == s;
        let q = choose|q: int| 0 <= q < cut.len() && #[trigger] key(cut[q][0]) == key(sorted[i]);
        crate::order::lemma_with_key_elements(key, f.order, key(cut[q][0]), s);
        assert(cut[q].contains(s));
    }
    assert(is_grouping(f, name, g, cut));
    assert forall|q: int| 0 <= q < g.groups.len() implies are_bounds(
        seq![(#[trigger] g.groups[q]).key],
        g.groups[q].min,
        g.groups[q].max,
    ) && wraps_to(
        Seq::new(g.groups[q].members.len(), |j: int| g.groups[q].key),
        g.groups[q].sum,
    ) by {
        let v = cut[q].map_values(|s: u16| keys[s as int]);
        assert forall|j: int| 0 <= j < v.len() implies #[trigger] v[j] == g.groups[q].key by {
            assert(key(cut[q][j]) == g.groups[q].key);
        }
        assert(v =~= Seq::new(g.groups[q].members.len(), |j: int| g.groups[q].key));
        lemma_total(v);
        lemma_bounds(v);
        assert(g.groups[q].min == g.groups[q].key && g.groups[q].max == g.groups[q].key);
        assert(seq![g.groups[q].key][0] == g.groups[q].key);
    }
}

/// `x` is the number of `name` in the rows `m` of a group member: of the source row if the source
/// table has numbers of that name, else of the joined row.
pub open spec fn member_number(f: Flow, name: Seq<u8>, m: (u16, u16), x: i64) -> bool {
    &&& f.left is Some
    &&& if has_numbers(f.left->0, name) {
        number_in(f.left->0, name, m.0 as int, x)
    } else {
        f.right is Some && number_in(f.right->0, name, m.1 as int, x)
    }
}

/// `v` are the numbers of `name` in the rows of a group.
pub open spec fn are_member_numbers(
    f: Flow,
    name: Seq<u8>,
    members: Seq<(u16, u16)>,
    v: Seq<i64>,
) -> bool {
    &&& v.len() == members.len()
    &&& forall|j: int| 0 <= j < v.len() ==> member_number(f, name, members[j], #[trigger] v[j])
}

/// An aggregate sums up, for every group, the numbers of its rows, and finds the least and the
/// greatest of them. The sums become the derived column, under the name of the column.
pub proof fn law_an_aggregate_sums_up_the_rows_of_each_group(
    f: Flow,
    cat: Catalog,
    src: Seq<u8>,
    nodes: Seq<AstNode>,
    st: AstNode,
    name: Seq<u8>,
)
    requires
        f.groups.len() <= f.derived.len(),
        0 < f.groups.len(),
        st.kind == NodeKind::Aggregate,
        is_name(src, nodes, st.left, name),
        f.stage(cat, src, nodes, st).fault is None,
    ensures
        ({
            let g = f.stage(cat, src, nodes, st).flow;
            &&& g.groups.len() == f.groups.len()
            &&& forall|q: int|
                0 <= q < f.groups.len() ==> (#[trigger] g.groups[q]).key == f.groups[q].key
                    && g.groups[q].members == f.groups[q].members && g.derived[q]
                    == g.groups[q].sum
            &&& forall|q: int, v: Seq<i64>|
                0 <= q < f.groups.len() && #[trigger] are_member_numbers(
                    f,
                    name,
                    f.groups[q].members,
                    v,
                ) ==> wraps_to(v, g.groups[q].sum) && (v.len() > 0 ==> are_bounds(
                    v,
                    g.groups[q].min,
                    g.groups[q].max,
                ))
            &&& same_rows(f, g)
            &&& g.keep == f.keep
            &&& g.order == f.order
            &&& g.sorted == f.sorted
            &&& g.has_derived == 1
            &&& name.len() <= crate::storage::NAME_CAP ==> g.derived_name == name
            &&& name.len() > crate::storage::NAME_CAP ==> g.derived_name == name.take(
                crate::storage::NAME_CAP as int,
            )
            &&& g.derived.len() == f.derived.len()
            &&& forall|i: int|
                f.groups.len() <= i < f.derived.len() ==> #[trigger] g.derived[i] == f.derived[i]
        }),
{
    let g = f.stage(cat, src, nodes, st).flow;
    lemma_name(src, nodes, st.left);
    assert(crate::flow::name_at(src, nodes, st.left) == Some(name));
    lemma_column(f, name);
    law_a_name_stands_for_the_first_column(f.left->0, name);
    if f.right is Some {
        law_a_name_stands_for_the_first_column(f.right->0, name);
    }
    assert forall|q: int, v: Seq<i64>|
        0 <= q < f.groups.len() && #[trigger] are_member_numbers(
            f,
            name,
            f.groups[q].members,
            v,
        ) implies wraps_to(v, g.groups[q].sum) && (v.len() > 0 ==> are_bounds(
        v,
        g.groups[q].min,
        g.groups[q].max,
    )) by {
        let w = f.member_values(name, f.groups[q])->0;
        assert forall|j: int| 0 <= j < v.len() implies #[trigger] v[j] == w[j] by {
            assert(member_number(f, name, f.groups[q].members[j], v[j]));
        }
        assert(v =~= w);
        lemma_total(w);
        if v.len() > 0 {
            lemma_bounds(w);
        }
    }
}

/// An aggregate without groups changes nothing. A grouping, and an aggregate over groups, succeed
/// if and only if their name stands for numbers of one of the tables; where they fail, nothing has
/// changed.
pub proof fn law_groupings_and_aggregates_need_numbers(
    f: Flow,
    cat: Catalog,
    src: Seq<u8>,
    nodes: Seq<AstNode>,
    st: AstNode,
    name: Seq<u8>,
)
    requires
        st.kind == NodeKind::Group || st.kind == NodeKind::Aggregate,
        is_name(src, nodes, st.left, name),
    ensures
        ({
            let step = f.stage(cat, src, nodes, st);
            let idle = st.kind == NodeKind::Aggregate && f.groups.len() == 0;
            &&& idle ==> step.fault is None && step.flow == f
            &&& !idle ==> (step.fault is None <==> flow_has_numbers(f, name))
            &&& step.fault is Some ==> step.flow == f
            &&& f.left is Some && step.fault is Some ==> names_missing(
                step.fault->0,
                f.left->0.name@,
                name,
            )
        }),
{
    lemma_name(src, nodes, st.left);
    assert(crate::flow::name_at(src, nodes, st.left) == Some(name));
    if f.left is Some {
        lemma_column(f, name);
    }
}

// ---------------------------------------------------------------------------
// Whole pipelines
// ---------------------------------------------------------------------------
/// `fl` are the flows before, between and behind the first stages of the list at `id`, none of
/// which fails.
pub open spec fn is_trace(
    cat: Catalog,
    src: Seq<u8>,
    nodes: Seq<AstNode>,
    id: u32,
    fl: Seq<Flow>,
) -> bool {
    &&& fl.len() > 0
    &&& forall|k: nat|
        #![trigger nth(nodes, id, k)]
        k + 1 < fl.len() ==> is_node(nodes, nth(nodes, id, k)) && ({
            let step = fl[k as int].stage(cat, src, nodes, nodes[nth(nodes, id, k) as int]);
            step.fault is None && step.flow == fl[k as int + 1]
        })
}

pub proof fn lemma_trace(
    cat: Catalog,
    src: Seq<u8>,
    nodes: Seq<AstNode>,
    id: u32,
    fl: Seq<Flow>,
    n: nat,
)
    requires
        is_trace(cat, src, nodes, id, fl),
        fl.len() - 1 <= n,
    ensures
        fl[0].stages(cat, src, nodes, id, n) == fl.last().stages(
            cat,
            src,
            nodes,
            nth(nodes, id, (fl.len() - 1) as nat),
            (n - (fl.len() - 1)) as nat,
        ),
    decreases fl.len(),
{
    reveal_with_fuel(nth, 2);
    if fl.len() > 1 {
        assert(nth(nodes, id, 0) == id);
        let next = nodes[id as int].next;
        let rest = fl.drop_first();
        assert forall|k: nat| #![trigger nth(nodes, next, k)] k + 1 < rest.len() implies is_node(
            nodes,
            nth(nodes, next, k),
        ) && ({
            let step = rest[k as int].stage(cat, src, nodes, nodes[nth(nodes, next, k) as int]);
            step.fault is None && step.flow == rest[k as int + 1]
        }) by {
            assert(nth(nodes, id, k + 1) == nth(nodes, next, k));
            assert(rest[k as int] == fl[k as int + 1]);
        }
        lemma_trace(cat, src, nodes, next, rest, (n - 1) as nat);
        assert(nth(nodes, id, (fl.len() - 1) as nat) == nth(
            nodes,
            next,
            (rest.len() - 1) as nat,
        ));
        assert(rest.last() == fl.last());
    } else {
        assert(nth(nodes, id, 0) == id);
    }
}

/// The node `root` is the root of a pipeline whose stages are the list at `id`.
pub open spec fn is_root(nodes: Seq<AstNode>, root: u32, id: u32) -> bool {
    &&& is_node(nodes, root)
    &&& nodes[root as int].kind == NodeKind::Pipeline
    &&& nodes[root as int].left == id
}

/// A pipeline runs its stages one after the other, each on what the one before it left, and
/// succeeds if all of them do. If it then has written nothing out but has a derived column and
/// rows, it writes that column out, in the order of the rows; else nothing more happens.
pub proof fn law_a_pipeline_runs_its_stages_in_order(
    cat: Catalog,
    src: Seq<u8>,
    nodes: Seq<AstNode>,
    root: u32,
    id: u32,
    fl: Seq<Flow>,
)
    requires
        is_root(nodes, root, id),
        is_trace(cat, src, nodes, id, fl),
        nth(nodes, id, (fl.len() - 1) as nat) == NIL,
        fl.len() - 1 <= nodes.len(),
        fl.last().order.len() <= MAX_ROWS,
        result_fits(fl.last().out),
    ensures
        ({
            let step = fl[0].pipeline(cat, src, nodes, root);
            let f = fl.last();
            let o = step.flow.out;
            let shows = f.out.col_count == 0 && f.has_derived != 0 && f.order.len() > 0;
            &&& step.fault is None
            &&& step.flow == (Flow { out: o, ..f })
            &&& !shows ==> o == f.out
            &&& shows ==> {
                &&& o.col_count == 1
                &&& o.row_count == f.order.len()
                &&& o.schema[0].name == f.derived_name
                &&& o.schema[0].phys == crate::storage::PhysType::Int64
                &&& o.types[0] == crate::storage::PhysType::Int64
                &&& o.live[0] == 1
                &&& forall|i: int|
                    0 <= i < f.order.len() ==> #[trigger] o.ints[0].values[i]
                        == f.derived[f.order[i] as int] && o.ints[0].valid[i]
                &&& o.texts == f.out.texts
                &&& forall|c: int|
                    1 <= c < MAX_PROJECT ==> #[trigger] o.ints[c] == f.out.ints[c] && o.schema[c]
                        == f.out.schema[c] && o.types[c] == f.out.types[c] && o.live[c]
                        == f.out.live[c]
            }
        }),
{
    let f = fl.last();
    lemma_trace(cat, src, nodes, id, fl, nodes.len());
    let o = fl[0].pipeline(cat, src, nodes, root).flow.out;
    if f.out.col_count == 0 && f.has_derived != 0 && f.order.len() > 0 {
        let n = f.order.len() as int;
        assert(f.out.ints[0].values.len() == MAX_ROWS);
        assert forall|i: int| 0 <= i < f.order.len() implies #[trigger] o.ints[0].values[i]
            == f.derived[f.order[i] as int] && o.ints[0].valid[i] by {
            crate::laws::law_written_numbers_read_back(f, f.out.ints[0], Source::Derived, n, i);
        }
    }
}

/// A pipeline stops at the first stage that fails, with the fault of that stage and what it left.
pub proof fn law_a_pipeline_stops_at_the_first_fault(
    cat: Catalog,
    src: Seq<u8>,
    nodes: Seq<AstNode>,
    root: u32,
    id: u32,
    fl: Seq<Flow>,
)
    requires
        is_root(nodes, root, id),
        is_trace(cat, src, nodes, id, fl),
        fl.len() <= nodes.len(),
        is_node(nodes, nth(nodes, id, (fl.len() - 1) as nat)),
        fl.last().stage(
            cat,
            src,
            nodes,
            nodes[nth(nodes, id, (fl.len() - 1) as nat) as int],
        ).fault is Some,
    ensures
        fl[0].pipeline(cat, src, nodes, root) == fl.last().stage(
            cat,
            src,
            nodes,
            nodes[nth(nodes, id, (fl.len() - 1) as nat) as int],
        ),
{
    lemma_trace(cat, src, nodes, id, fl, nodes.len());
}

// ---------------------------------------------------------------------------
// Nodes that make no stage
// ---------------------------------------------------------------------------
/// A node whose kind is none of a stage, or that lacks what its stage is made of, fails as no
/// stage, and so does a stage that needs a source table where there is none. Nothing has changed
/// then.
pub proof fn law_a_node_that_makes_no_stage_fails(
    f: Flow,
    cat: Catalog,
    src: Seq<u8>,
    nodes: Seq<AstNode>,
    st: AstNode,
)
    ensures
        ({
            let step = f.stage(cat, src, nodes, st);
            let refused = step.fault == Some(Fault::Shape) && step.flow == f;
            let named = exists|name: Seq<u8>| is_name(src, nodes, st.left, name);
            let k = st.kind;
            &&& k != NodeKind::From && k != NodeKind::Join && k != NodeKind::Filter && k
                != NodeKind::Sort && k != NodeKind::Take && k != NodeKind::Project && k
                != NodeKind::Derive && k != NodeKind::Group && k != NodeKind::Aggregate ==> refused
            &&& k == NodeKind::From && !named ==> refused
            &&& (k == NodeKind::Join || k == NodeKind::Sort || k == NodeKind::Group) && (!named
                || f.left is None) ==> refused
            &&& k == NodeKind::Aggregate && f.groups.len() > 0 && (!named || f.left is None)
                ==> refused
            &&& k == NodeKind::Aggregate && f.groups.len() == 0 ==> step.fault is None && step.flow
                == f
            &&& k == NodeKind::Project && f.left is None ==> refused
            &&& k == NodeKind::Derive && (!named || !is_node(nodes, st.right)) ==> refused
            &&& k == NodeKind::Filter && (f.left is None || forall|
                name: Seq<u8>,
                op: TokenKind,
                lit: i64,
            | !#[trigger] is_filter(src, nodes, st, name, op, lit)) ==> refused
        }),
{
    lemma_name(src, nodes, st.left);
    if let Some(name) = crate::flow::name_at(src, nodes, st.left) {
        assert(is_name(src, nodes, st.left, name));
    }
    if st.kind == NodeKind::Filter && is_node(nodes, st.left) {
        let bin = nodes[st.left as int];
        lemma_name(src, nodes, bin.left);
        if let Some(name) = crate::flow::name_at(src, nodes, bin.left) {
            if bin.kind == NodeKind::BinOp && is_node(nodes, bin.right) {
                assert(is_filter(src, nodes, st, name, bin.op, nodes[bin.right as int].value));
            }
        }
    }
}

/// The fault of an operand without numbers: the missing name where it is one, else its shape.
pub open spec fn is_operand_fault(f: Flow, src: Seq<u8>, n: AstNode, e: Fault) -> bool {
    if n.kind == NodeKind::Ident && f.left is Some {
        exists|name: Seq<u8>|
            spells(src, n, name) && #[trigger] names_missing(e, f.left->0.name@, name)
    } else {
        e == Fault::Shape
    }
}

proof fn lemma_operand_fault(f: Flow, src: Seq<u8>, n: AstNode)
    ensures
        f.operand(src, n) matches Err(e) ==> is_operand_fault(f, src, n, e),
{
    if let Err(e) = f.operand(src, n) {
        let name = crate::flow::name_of(src, n);
        assert(spells(src, n, name));
        if n.kind == NodeKind::Ident && f.left is Some {
            assert(names_missing(e, f.left->0.name@, name));
        }
    }
}

/// A derive that fails names what its left operand misses, or else its right one; where it has no
/// operands, or its operator does not compute, it fails as no stage.
pub proof fn law_a_derive_fails_for_its_first_operand(
    f: Flow,
    cat: Catalog,
    src: Seq<u8>,
    nodes: Seq<AstNode>,
    st: AstNode,
    name: Seq<u8>,
)
    requires
        is_derive(src, nodes, st, name),
        f.stage(cat, src, nodes, st).fault is Some,
    ensures
        ({
            let x = f.stage(cat, src, nodes, st).fault->0;
            let e = nodes[st.right as int];
            if e.kind != NodeKind::BinOp {
                is_operand_fault(f, src, e, x)
            } else if !is_node(nodes, e.left) || !is_node(nodes, e.right) || (e.op
                != TokenKind::Plus && e.op != TokenKind::Minus && e.op != TokenKind::Star) {
                x == Fault::Shape
            } else if !is_operand(f, src, nodes[e.left as int]) {
                is_operand_fault(f, src, nodes[e.left as int], x)
            } else {
                is_operand_fault(f, src, nodes[e.right as int], x)
            }
        }),
{
    let e = nodes[st.right as int];
    lemma_name(src, nodes, st.left);
    assert(crate::flow::name_at(src, nodes, st.left) == Some(name));
    lemma_operand(f, src, e);
    lemma_operand(f, src, nodes[e.left as int]);
    lemma_operand_fault(f, src, e);
    lemma_operand_fault(f, src, nodes[e.left as int]);
    lemma_operand_fault(f, src, nodes[e.right as int]);
}

} // verus!
