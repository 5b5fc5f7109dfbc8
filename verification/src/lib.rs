//! A columnar query engine for a pipeline language written in Tamil.
//!
//! - [`lexer`] and [`parser`] turn a query into a flat tree,
//! - [`storage`] holds tables in columns of fixed size,
//! - [`kernels`] filter, sort, join and compute over such columns,
//! - [`runtime`] runs the tree of a query over a catalog of tables,
//! - [`ingest`] reads comma-separated text into columns,
//! - [`columnar`] and [`zonemap`] lay columns out in files and read them back by pages, and
//!   [`scan`] filters them there,
//! - [`order`] and [`flow`] say what sorting, joining and a whole pipeline mean.
//!
//! Laws that are told by what goes in and comes out stand in modules of their own:
//!
//! - [`readings`] and [`queries`]: what a query says, and what it comes to,
//! - [`stages`] and [`laws`]: what each stage does to the rows of its tables, and what holds of
//!   every pipeline,
//! - [`rows`]: what kernels and scans do to columns of numbers,
//! - [`records`]: what a comma-separated text holds,
//! - [`layouts`]: what stands where in the files of columns,
//! - [`stores`]: what tables, catalogs and selections keep.

use vstd::prelude::*;

pub mod bytes;
pub mod columnar;
pub mod flow;
pub mod ingest;
pub mod kernels;
pub mod laws;
pub mod layouts;
pub mod lexer;
pub mod mutation;
pub mod order;
pub mod parser;
pub mod queries;
pub mod readings;
pub mod records;
pub mod rows;
pub mod runtime;
pub mod scan;
pub mod seed;
pub mod stages;
pub mod storage;
pub mod stores;
pub mod text;
pub mod utf8;
pub mod zonemap;

pub use columnar::{
    write_i64_column_bin, write_stage4_columnar_demo, write_utf8_column_files, ColumnarChunk,
    ColumnarFileStream, ColumnarTablePage, ColumnarTableStream, Int64ColumnFile, Int64ColumnMeta,
    StorageError, Utf8ColumnFile, Utf8ColumnMeta, Utf8OffsetEntry,
};
pub use kernels::{
    execute_chunk_parallel, lsd_radix_sort_ages, lsd_radix_sort_ages_tls, vector_merge_join,
    ArithOp, ChunkScratch, EngineScratchPad, RadixScratchPad,
};
pub use lexer::{Lexer, LexerError, Token, TokenKind, MAX_TOKENS};
pub use parser::{
    alloc_token_window, parse_query, AstArena, AstNode, NodeKind, OpKind, ParseError, Parser,
    ParserError, AST_CAP, NIL,
};
pub use runtime::{
    run_query, run_query_checked, Engine, EngineError, GroupedAgg, PushdownStats, QueryResult,
    RuntimeScratch,
};
pub use scan::{
    execute_int64_filter_pushdown, execute_mmap_age_filter_stream,
    execute_mmap_i64_filter_stream_pushdown, execute_mmap_table_filter_project_stream,
    MmapStreamStats,
};
pub use seed::{
    demo_catalog, dup_price_orders_catalog, seed_dup_price_orders_table, seed_orders_database,
    seed_orders_table, seed_users_table,
};
pub use storage::{
    Catalog, ColName, ColumnData, FixedOrdersDatabase, Int64Column, PhysType, SelectionVector,
    Table, Utf8Column, BATCH_ROWS, MAX_ROWS, NAME_CAP,
};
pub use zonemap::{
    write_zonemap_for_column, ZoneMap, ZoneMapError, ZonePage, ZonePredicate, MAX_ZONE_PAGES,
};

verus! {

/// A query over the demonstration relations: the ten youngest users above twenty-one.
pub const DEMO_QUERY: &'static str =
    "இருந்து பயனர்கள் | வடி வயது > 21 | அடுக்கு வயது | எடு 10 | தேடு பெயர், வயது;";

} // verus!
