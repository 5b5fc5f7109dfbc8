//! What a query comes to, told by its words and by the stages of its tree.

use crate::flow::{Fault, Flow};
use crate::lexer::LexerError;
use crate::parser::{ParserError, AST_CAP, NIL};
use crate::readings::{is_query, sum, tells};
use crate::runtime::{parsed, EngineError};
use crate::stages::{is_node, is_root, is_trace, nth};
use crate::storage::{Catalog, NAME_CAP};
use vstd::prelude::*;

verus! {

/// A source whose tokens are a query with nodes to spare is parsed into a tree with one stage for
/// every stage that was written, in that order and no more, and off each hangs what its words
/// say.
pub proof fn law_a_query_is_parsed_as_it_reads(
    src: Seq<u8>,
    starts: Seq<int>,
    words: Seq<int>,
    taken: Seq<int>,
    end: int,
)
    requires
        src.len() <= u32::MAX,
        crate::lexer::lex_source(src).error is None,
        is_query(crate::lexer::lex_source(src).tokens, 0, starts, words, taken, end),
        sum(taken) + 1 <= AST_CAP,
    ensures
        parsed(src) matches Ok(tree) && ({
            let first = tree.nodes[tree.root as int].left;
            let toks = crate::lexer::lex_source(src).tokens;
            &&& tree.nodes.len() == sum(taken) + 1
            &&& is_root(tree.nodes, tree.root, first)
            &&& forall|i: nat|
                #![trigger nth(tree.nodes, first, i)]
                i < starts.len() ==> is_node(tree.nodes, nth(tree.nodes, first, i)) && tells(
                    toks,
                    starts[i as int],
                    tree.nodes,
                    tree.nodes[nth(tree.nodes, first, i) as int],
                )
            &&& nth(tree.nodes, first, starts.len()) == NIL
        }),
{
    let toks = crate::lexer::lex_source(src).tokens;
    crate::readings::law_a_query_is_read(toks, 0, starts, words, taken, end, AST_CAP as int);
    crate::readings::lemma_tree_len(toks, 0, Seq::empty(), starts, words, taken, end);
    crate::readings::law_a_tree_tells_what_the_query_says(
        toks,
        0,
        Seq::empty(),
        starts,
        words,
        taken,
        end,
    );
}

/// A source is parsed only if it is scanned and its tokens are a query whose nodes fit.
pub proof fn law_only_a_query_is_parsed(src: Seq<u8>)
    requires
        src.len() <= u32::MAX,
        parsed(src) is Ok,
    ensures
        crate::lexer::lex_source(src).error is None,
        exists|starts: Seq<int>, words: Seq<int>, taken: Seq<int>, end: int|
            sum(taken) + 1 <= AST_CAP && #[trigger] is_query(
                crate::lexer::lex_source(src).tokens,
                0,
                starts,
                words,
                taken,
                end,
            ),
{
    let toks = crate::lexer::lex_source(src).tokens;
    let (words, taken) = crate::readings::law_what_is_read_is_a_query(toks, 0, AST_CAP as int);
    let s = crate::parser::pipeline(toks, 0, AST_CAP as int)->Ok_0;
    assert(is_query(toks, 0, s.starts, words, taken, s.end));
}

/// A source that cannot be scanned is refused for that: as malformed, or for too many tokens. A
/// number that does not fit is an error of its own, and whatever else stops a parse is one and
/// the same.
pub proof fn law_what_cannot_be_parsed_is_refused(src: Seq<u8>)
    ensures
        crate::lexer::lex_source(src).error matches Some(e) ==> parsed(src) == Err::<
            crate::runtime::Tree,
            _,
        >(
            if e == LexerError::TokenBufferFull {
                ParserError::LexTokenBufferFull
            } else {
                ParserError::LexMalformedUtf8
            },
        ),
        forall|e: ParserError| #[trigger]
            crate::runtime::parse_error(e) == EngineError::LiteralOverflow <==> e
                == ParserError::NumberLiteralOverflow,
        forall|e: ParserError| #[trigger]
            crate::runtime::parse_error(e) == EngineError::ParseFailed <==> e
                != ParserError::NumberLiteralOverflow,
{
}

/// The error of a stage says what its fault says: a missing table or column by both names, and
/// anything else that fails as a parse that failed.
pub proof fn law_an_error_says_what_its_fault_says(
    table: [u8; NAME_CAP],
    column: [u8; NAME_CAP],
    f: Fault,
)
    ensures
        EngineError::ParseFailed.is_fault(f) <==> f == Fault::Shape,
        (EngineError::ColumnNotFound { table, column }).is_fault(f) <==> f == (Fault::NotFound {
            table: table@,
            column: column@,
        }),
        !EngineError::LiteralOverflow.is_fault(f),
        !EngineError::IoError.is_fault(f),
{
}

/// A query that was parsed and whose stages all succeed leaves the result of the last of them,
/// and one of which a stage fails leaves what that stage left and returns its fault.
pub proof fn law_a_query_runs_its_stages(
    f: Flow,
    cat: Catalog,
    src: Seq<u8>,
    fl: Seq<Flow>,
)
    requires
        src.len() <= u32::MAX,
        parsed(src) is Ok,
        fl.len() > 0,
        fl[0] == f,
        ({
            let tree = parsed(src)->Ok_0;
            let first = tree.nodes[tree.root as int].left;
            is_trace(cat, src, tree.nodes, first, fl)
        }),
    ensures
        ({
            let tree = parsed(src)->Ok_0;
            let first = tree.nodes[tree.root as int].left;
            let next = nth(tree.nodes, first, (fl.len() - 1) as nat);
            let step = f.pipeline(cat, src, tree.nodes, tree.root);
            &&& fl.len() <= tree.nodes.len()
            &&& next == NIL || is_node(tree.nodes, next)
            &&& next == NIL ==> step.fault is None && step.flow.order == fl.last().order
                && step.flow.keep == fl.last().keep && (fl.last().out.col_count > 0
                ==> step.flow == fl.last())
            &&& next != NIL ==> ({
                let last = fl.last().stage(cat, src, tree.nodes, tree.nodes[next as int]);
                last.fault is Some ==> step == last
            })
        }),
{
    let toks = crate::lexer::lex_source(src).tokens;
    let (words, taken) = crate::readings::law_what_is_read_is_a_query(toks, 0, AST_CAP as int);
    let s = crate::parser::pipeline(toks, 0, AST_CAP as int)->Ok_0;
    law_a_query_is_parsed_as_it_reads(src, s.starts, words, taken, s.end);
    let tree = parsed(src)->Ok_0;
    let first = tree.nodes[tree.root as int].left;
    let m = (fl.len() - 1) as nat;
    crate::readings::lemma_stages_take_nodes(toks, 0, s.starts, words, taken, s.end);
    if m > s.starts.len() {
        assert(nth(tree.nodes, first, s.starts.len()) == NIL);
        assert(is_node(tree.nodes, nth(tree.nodes, first, s.starts.len())));
    }
    if m == s.starts.len() {
        crate::stages::lemma_trace(cat, src, tree.nodes, first, fl, tree.nodes.len());
    } else {
        assert(is_node(tree.nodes, nth(tree.nodes, first, m)));
        crate::stages::lemma_trace(cat, src, tree.nodes, first, fl, tree.nodes.len());
    }
}

} // verus!
