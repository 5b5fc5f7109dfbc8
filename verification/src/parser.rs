//! Parser of the pipeline language.
//!
//! Reads tokens from left to right and stores the tree in a flat arena of nodes that refer to
//! each other by index. A full arena is reported, never overrun.

use vstd::prelude::*;
use crate::lexer::{Lexer, LexerError, Token, TokenKind, MAX_TOKENS};

verus! {

/// Nodes an arena can hold.
pub const AST_CAP: usize = 1024;

/// The index that stands for no node.
pub const NIL: u32 = 0xFFFF_FFFF;

/// Why a parse fails.
#[derive(Copy, Clone, Debug, PartialEq, Eq, Structural)]
pub enum ParserError {
    /// The arena is full.
    ArenaOverflow,
    /// A token that the grammar does not allow here.
    UnexpectedToken,
    /// The source is no UTF-8, or breaks off inside a character or syllable.
    LexMalformedUtf8,
    /// The source has more tokens than the window holds.
    LexTokenBufferFull,
    /// Nothing to parse.
    EmptyInput,
    /// The pipeline does not start with a source relation.
    MissingSourceContext,
    /// A number literal does not fit into 64 bits.
    NumberLiteralOverflow,
}

/// Kind of a pipeline operator.
pub type OpKind = NodeKind;

/// Another name of [`ParserError`].
pub type ParseError = ParserError;

/// The error of a full arena.
pub const ARENA_FULL: ParserError = ParserError::ArenaOverflow;

impl ParserError {
    /// The parse error that a scan error becomes.
    pub open spec fn of_lexer(err: LexerError) -> ParserError {
        match err {
            LexerError::MalformedUtf8(_) => ParserError::LexMalformedUtf8,
            LexerError::TokenBufferFull => ParserError::LexTokenBufferFull,
        }
    }

    /// The parse error that a scan error becomes.
    pub fn from_lexer(err: LexerError) -> (r: Self)
        ensures
            r == Self::of_lexer(err),
    {
        match err {
            LexerError::MalformedUtf8(_) => ParserError::LexMalformedUtf8,
            LexerError::TokenBufferFull => ParserError::LexTokenBufferFull,
        }
    }
}

/// Kind of a node.
#[derive(Copy, Clone, Debug, PartialEq, Eq, Structural)]
pub enum NodeKind {
    /// Root of a pipeline
    Pipeline,
    /// இருந்து relation
    From,
    /// வடி column operator literal
    Filter,
    /// கணி column = expression
    Derive,
    /// அடுக்கு column
    Sort,
    /// எடு number
    Take,
    /// தொகுப்பு column
    Group,
    /// சுருக்கு column
    Aggregate,
    /// இணை relation எங்கே condition
    Join,
    /// தேடு columns
    Project,
    /// Name of a column or relation
    Ident,
    /// Integer literal
    Literal,
    /// Comparison or arithmetic
    BinOp,
    /// First name of a column list
    ColumnList,
    /// No node
    Empty,
}

/// A node of the tree.
#[derive(Copy, Clone, Debug)]
pub struct AstNode {
    pub kind: NodeKind,
    pub op: TokenKind,
    /// Where the source text of the node starts.
    pub start: u32,
    /// Where it ends.
    pub end: u32,
    /// First child.
    pub left: u32,
    /// Second child.
    pub right: u32,
    /// Next in a list of stages or columns.
    pub next: u32,
    /// Value of a literal or limit.
    pub value: i64,
}

impl AstNode {
    /// The node that is none.
    pub fn empty() -> (r: Self)
        ensures
            r == node(NodeKind::Empty, TokenKind::Eof, 0, 0, NIL, NIL, 0),
    {
        AstNode {
            kind: NodeKind::Empty,
            op: TokenKind::Eof,
            start: 0,
            end: 0,
            left: NIL,
            right: NIL,
            next: NIL,
            value: 0,
        }
    }
}

/// A node at the end of its list.
pub open spec fn node(
    kind: NodeKind,
    op: TokenKind,
    start: u32,
    end: u32,
    left: u32,
    right: u32,
    value: i64,
) -> AstNode {
    AstNode { kind, op, start, end, left, right, next: NIL, value }
}

/// A fixed arena of nodes.
pub struct AstArena {
    pub nodes: [AstNode; AST_CAP],
    pub len: u32,
    pub root: u32,
}

/// Whether the list that starts at `id` runs off the nodes in use within `n` links.
pub open spec fn list_ends(nodes: Seq<AstNode>, id: u32, n: nat) -> bool
    decreases n,
{
    id == NIL || id >= nodes.len() || (n > 0 && list_ends(
        nodes,
        nodes[id as int].next,
        (n - 1) as nat,
    ))
}

/// Every list link points further on in the arena.
pub open spec fn links_forward(nodes: Seq<AstNode>) -> bool {
    forall|i: int|
        0 <= i < nodes.len() ==> (#[trigger] nodes[i]).next == NIL || i < nodes[i].next
            < nodes.len()
}

/// Where links point forward, every list ends.
pub proof fn lemma_forward_lists_end(nodes: Seq<AstNode>, id: u32)
    requires
        links_forward(nodes),
    ensures
        list_ends(nodes, id, nodes.len()),
{
    lemma_forward_list_ends_within(nodes, id, nodes.len());
}

proof fn lemma_forward_list_ends_within(nodes: Seq<AstNode>, id: u32, n: nat)
    requires
        links_forward(nodes),
        id < nodes.len() ==> nodes.len() - id <= n,
    ensures
        list_ends(nodes, id, n),
    decreases n,
{
    if id != NIL && id < nodes.len() {
        let next = nodes[id as int].next;
        assert(next == NIL || id < next < nodes.len());
        lemma_forward_list_ends_within(nodes, next, (n - 1) as nat);
    }
}

impl AstArena {
    /// The nodes in use lie in the array.
    pub open spec fn wf(&self) -> bool {
        self.len <= AST_CAP
    }

    /// The nodes in use.
    pub open spec fn view(&self) -> Seq<AstNode> {
        self.nodes@.take(self.len as int)
    }

    /// How many more nodes fit.
    pub open spec fn room(&self) -> int {
        if self.len < AST_CAP {
            AST_CAP - self.len
        } else {
            0
        }
    }

    /// The node `id`, if it is in use.
    pub open spec fn at(&self, id: u32) -> Option<AstNode> {
        if id != NIL && id < self.len {
            Some(self.nodes@[id as int])
        } else {
            None
        }
    }

    /// An arena without nodes.
    pub fn new() -> (r: Self)
        ensures
            r.wf(),
            r.len == 0,
            r.root == NIL,
            forall|i: int|
                0 <= i < AST_CAP ==> #[trigger] r.nodes@[i] == node(
                    NodeKind::Empty,
                    TokenKind::Eof,
                    0,
                    0,
                    NIL,
                    NIL,
                    0,
                ),
    {
        let n = AstNode::empty();
        AstArena { nodes: [n; AST_CAP], len: 0, root: NIL }
    }

    /// Puts `node` into the next slot and returns its index.
    pub fn try_alloc(&mut self, node: AstNode) -> (r: Result<u32, ParserError>)
        ensures
            final(self).root == old(self).root,
            if old(self).len < AST_CAP {
                &&& r == Ok::<u32, ParserError>(old(self).len)
                &&& final(self).len == old(self).len + 1
                &&& final(self).nodes@ == old(self).nodes@.update(old(self).len as int, node)
                &&& final(self)@ == old(self)@.push(node)
            } else {
                &&& r == Err::<u32, ParserError>(ParserError::ArenaOverflow)
                &&& *final(self) == *old(self)
            },
    {
        let i: usize = self.len as usize;
        if i >= AST_CAP {
            return Err(ParserError::ArenaOverflow);
        }
        self.nodes[i] = node;
        self.len = self.len + 1;
        assert(self@ =~= old(self)@.push(node));
        Ok(i as u32)
    }

    /// Puts `node` into the next slot and returns its index, if there is room.
    pub fn alloc_node(&mut self, node: AstNode) -> (r: Option<u32>)
        ensures
            final(self).root == old(self).root,
            if old(self).len < AST_CAP {
                &&& r == Some(old(self).len)
                &&& final(self).len == old(self).len + 1
                &&& final(self)@ == old(self)@.push(node)
            } else {
                &&& r is None
                &&& *final(self) == *old(self)
            },
    {
        match self.try_alloc(node) {
            Ok(id) => Some(id),
            Err(_) => None,
        }
    }

    /// The node `id`.
    pub fn get(&self, id: u32) -> (r: Option<&AstNode>)
        requires
            self.wf(),
        ensures
            match self.at(id) {
                Some(n) => r == Some(&n),
                None => r is None,
            },
    {
        if id != NIL && id < self.len {
            Some(&self.nodes[id as usize])
        } else {
            None
        }
    }

    /// The node `id`, to be written to.
    pub fn get_mut(&mut self, id: u32) -> (r: Option<&mut AstNode>)
        requires
            old(self).wf(),
        ensures
            final(self).len == old(self).len,
            final(self).root == old(self).root,
            match old(self).at(id) {
                Some(n) => r is Some && *r->0 == n && final(self).nodes@ == old(
                    self,
                ).nodes@.update(id as int, *final(r->0)) && final(self)@ == old(self)@.update(
                    id as int,
                    *final(r->0),
                ),
                None => r is None && final(self).nodes@ == old(self).nodes@,
            },
    {
        if id != NIL && id < self.len {
            Some(&mut self.nodes[id as usize])
        } else {
            None
        }
    }

    /// Whether there is no room left.
    pub fn is_full(&self) -> (r: bool)
        ensures
            r == (self.len >= AST_CAP),
    {
        self.len as usize >= AST_CAP
    }
}

// ---------------------------------------------------------------------------
// The grammar
// ---------------------------------------------------------------------------
/// The token at `at`; behind the last one, the end of input.
pub open spec fn peek_at(toks: Seq<Token>, at: int) -> Token {
    if 0 <= at < toks.len() {
        toks[at]
    } else {
        Token { kind: TokenKind::Eof, start: 0, end: 0, number: 0 }
    }
}

/// How far a parse has come: the next token, and the nodes that still fit.
pub struct Progress {
    pub at: int,
    pub room: int,
}

/// Why and where a parse stops: the error, the next token, and the nodes that still fit.
pub struct Halt {
    pub error: ParserError,
    pub at: int,
    pub room: int,
}

impl Progress {
    /// The parse stops here.
    pub open spec fn halt(self, error: ParserError) -> Halt {
        Halt { error, at: self.at, room: self.room }
    }

    /// The parse stops behind the next token, if there is one.
    pub open spec fn halt_behind(self, toks: Seq<Token>, error: ParserError) -> Halt {
        Halt {
            error,
            at: if peek_at(toks, self.at).kind == TokenKind::Eof {
                self.at
            } else {
                self.at + 1
            },
            room: self.room,
        }
    }
}

/// Reads a token of kind `kind`.
pub open spec fn word(
    toks: Seq<Token>,
    s: Result<Progress, Halt>,
    kind: TokenKind,
) -> Result<Progress, Halt> {
    match s {
        Err(e) => Err(e),
        Ok(p) => if peek_at(toks, p.at).kind == kind {
            Ok(Progress { at: p.at + 1, room: p.room })
        } else {
            Err(p.halt(ParserError::UnexpectedToken))
        },
    }
}

/// Reads a number literal that fits into 64 bits.
pub open spec fn literal(toks: Seq<Token>, s: Result<Progress, Halt>) -> Result<
    Progress,
    Halt,
> {
    match s {
        Err(e) => Err(e),
        Ok(p) => if peek_at(toks, p.at).kind != TokenKind::Number {
            Err(p.halt(ParserError::UnexpectedToken))
        } else if peek_at(toks, p.at).number == i64::MIN {
            Err(p.halt_behind(toks, ParserError::NumberLiteralOverflow))
        } else {
            Ok(Progress { at: p.at + 1, room: p.room })
        },
    }
}

/// Reads a column name or a number literal.
pub open spec fn operand(toks: Seq<Token>, s: Result<Progress, Halt>) -> Result<
    Progress,
    Halt,
> {
    match s {
        Err(e) => Err(e),
        Ok(p) => if peek_at(toks, p.at).kind == TokenKind::Ident {
            Ok(Progress { at: p.at + 1, room: p.room })
        } else {
            literal(toks, s)
        },
    }
}

/// Whether `k` compares.
pub open spec fn is_comparison(k: TokenKind) -> bool {
    k == TokenKind::Gt || k == TokenKind::Lt || k == TokenKind::Eq
}

/// Whether `k` computes.
pub open spec fn is_arithmetic(k: TokenKind) -> bool {
    k == TokenKind::Star || k == TokenKind::Plus || k == TokenKind::Minus
}

/// Reads a comparison.
pub open spec fn comparison(toks: Seq<Token>, s: Result<Progress, Halt>) -> Result<
    Progress,
    Halt,
> {
    match s {
        Err(e) => Err(e),
        Ok(p) => if is_comparison(peek_at(toks, p.at).kind) {
            Ok(Progress { at: p.at + 1, room: p.room })
        } else {
            Err(p.halt_behind(toks, ParserError::UnexpectedToken))
        },
    }
}

/// Reads any token but the end of input.
pub open spec fn anything(toks: Seq<Token>, s: Result<Progress, Halt>) -> Result<
    Progress,
    Halt,
> {
    match s {
        Err(e) => Err(e),
        Ok(p) => if peek_at(toks, p.at).kind == TokenKind::Eof {
            Err(p.halt(ParserError::UnexpectedToken))
        } else {
            Ok(Progress { at: p.at + 1, room: p.room })
        },
    }
}

/// Takes a node of the arena.
pub open spec fn take_node(s: Result<Progress, Halt>) -> Result<Progress, Halt> {
    match s {
        Err(e) => Err(e),
        Ok(p) => if p.room > 0 {
            Ok(Progress { at: p.at, room: p.room - 1 })
        } else {
            Err(p.halt(ParserError::ArenaOverflow))
        },
    }
}

/// Reads the names that follow the first one of a column list.
pub open spec fn more_columns(toks: Seq<Token>, at: int, room: int) -> Result<Progress, Halt>
    decreases toks.len() - at,
{
    if peek_at(toks, at).kind == TokenKind::Comma {
        match take_node(
            word(toks, Ok(Progress { at: at + 1, room }), TokenKind::Ident),
        ) {
            Ok(p) => more_columns(toks, at + 2, room - 1),
            Err(e) => Err(e),
        }
    } else {
        Ok(Progress { at, room })
    }
}

/// `keyword name`, a node for the name and one for the stage.
pub open spec fn named_stage(toks: Seq<Token>, at: int, room: int) -> Result<
    Progress,
    Halt,
> {
    let s = Ok(Progress { at: at + 1, room });
    let s = take_node(word(toks, s, TokenKind::Ident));
    take_node(s)
}

/// `வடி column comparison literal`
pub open spec fn filter_stage(toks: Seq<Token>, at: int, room: int) -> Result<
    Progress,
    Halt,
> {
    let s = Ok(Progress { at: at + 1, room });
    let s = take_node(word(toks, s, TokenKind::Ident));
    let s = comparison(toks, s);
    let s = take_node(literal(toks, s));
    take_node(take_node(s))
}

/// `கணி column = operand`, or `கணி column = operand operator operand`
pub open spec fn derive_stage(toks: Seq<Token>, at: int, room: int) -> Result<
    Progress,
    Halt,
> {
    let s = Ok(Progress { at: at + 1, room });
    let s = take_node(word(toks, s, TokenKind::Ident));
    let s = word(toks, s, TokenKind::Eq);
    let s = take_node(operand(toks, s));
    let s = match s {
        Ok(p) => if is_arithmetic(peek_at(toks, p.at).kind) {
            take_node(take_node(operand(toks, Ok(Progress { at: p.at + 1, room: p.room }))))
        } else {
            s
        },
        Err(e) => s,
    };
    take_node(s)
}

/// `எடு literal`
pub open spec fn take_stage(toks: Seq<Token>, at: int, room: int) -> Result<
    Progress,
    Halt,
> {
    take_node(literal(toks, Ok(Progress { at: at + 1, room })))
}

/// `இணை relation`, or `இணை relation எங்கே column operator column`
pub open spec fn join_stage(toks: Seq<Token>, at: int, room: int) -> Result<
    Progress,
    Halt,
> {
    let s = Ok(Progress { at: at + 1, room });
    let s = take_node(word(toks, s, TokenKind::Ident));
    let s = match s {
        Ok(p) => if peek_at(toks, p.at).kind == TokenKind::Enge {
            let c = Ok(Progress { at: p.at + 1, room: p.room });
            let c = take_node(word(toks, c, TokenKind::Ident));
            let c = anything(toks, c);
            let c = take_node(word(toks, c, TokenKind::Ident));
            take_node(c)
        } else {
            s
        },
        Err(e) => s,
    };
    take_node(s)
}

/// `தேடு column, column, ...`
pub open spec fn project_stage(toks: Seq<Token>, at: int, room: int) -> Result<
    Progress,
    Halt,
> {
    let s = Ok(Progress { at: at + 1, room });
    match take_node(word(toks, s, TokenKind::Ident)) {
        Ok(p) => take_node(more_columns(toks, p.at, p.room)),
        Err(e) => Err(e),
    }
}

/// Reads the stage at `at`.
#[verifier::opaque]
pub open spec fn stage(toks: Seq<Token>, at: int, room: int) -> Result<Progress, Halt> {
    match peek_at(toks, at).kind {
        TokenKind::Irundu => named_stage(toks, at, room),
        TokenKind::Vadi => filter_stage(toks, at, room),
        TokenKind::Kani => derive_stage(toks, at, room),
        TokenKind::Adukku => named_stage(toks, at, room),
        TokenKind::Edu => take_stage(toks, at, room),
        TokenKind::Thoguppu => named_stage(toks, at, room),
        TokenKind::Surukku => named_stage(toks, at, room),
        TokenKind::Inai => join_stage(toks, at, room),
        TokenKind::Thedu => project_stage(toks, at, room),
        TokenKind::Eof => Err(Progress { at, room }.halt(ParserError::EmptyInput)),
        _ => Err(Progress { at, room }.halt(ParserError::UnexpectedToken)),
    }
}

/// The stages behind the first one: where each starts, and where the pipeline ends.
pub struct Stages {
    pub starts: Seq<int>,
    pub end: int,
}

/// Reads `| stage` as often as it comes, up to `;` or the end of input.
pub open spec fn more_stages(toks: Seq<Token>, at: int, room: int) -> Result<Stages, Halt>
    decreases toks.len() - at,
{
    let k = peek_at(toks, at).kind;
    if k == TokenKind::Pipe {
        if peek_at(toks, at + 1).kind == TokenKind::Eof {
            Err(Progress { at: at + 1, room }.halt(ParserError::UnexpectedToken))
        } else {
            match stage(toks, at + 1, room) {
                Ok(p) => {
                    proof {
                        lemma_stage_moves(toks, at + 1, room);
                    }
                    match more_stages(toks, p.at, p.room) {
                        Ok(rest) => Ok(
                            Stages { starts: seq![at + 1] + rest.starts, end: rest.end },
                        ),
                        Err(e) => Err(e),
                    }
                },
                Err(e) => Err(e),
            }
        }
    } else if k == TokenKind::Semi {
        Ok(Stages { starts: Seq::empty(), end: at + 1 })
    } else if k == TokenKind::Eof {
        Ok(Stages { starts: Seq::empty(), end: at })
    } else {
        Err(Progress { at, room }.halt(ParserError::UnexpectedToken))
    }
}

/// Reads a whole pipeline: a source relation, a node for the root, and the stages behind.
pub open spec fn pipeline(toks: Seq<Token>, at: int, room: int) -> Result<Stages, Halt> {
    let k = peek_at(toks, at).kind;
    if k == TokenKind::Eof {
        Err(Progress { at, room }.halt(ParserError::EmptyInput))
    } else if k != TokenKind::Irundu {
        Err(Progress { at, room }.halt(ParserError::MissingSourceContext))
    } else {
        match take_node(stage(toks, at, room)) {
            Ok(p) => match more_stages(toks, p.at, p.room) {
                Ok(rest) => Ok(Stages { starts: seq![at] + rest.starts, end: rest.end }),
                Err(e) => Err(e),
            },
            Err(e) => Err(e),
        }
    }
}

proof fn lemma_more_columns_moves(toks: Seq<Token>, at: int, room: int)
    ensures
        more_columns(toks, at, room) matches Ok(p) ==> at <= p.at && p.room <= room && p.at - at
            == 2 * comma_count(toks, at) && room - p.room == comma_count(toks, at) && (at
            <= toks.len() ==> p.at <= toks.len()),
    decreases toks.len() - at,
{
    if peek_at(toks, at).kind == TokenKind::Comma {
        if take_node(word(toks, Ok(Progress { at: at + 1, room }), TokenKind::Ident)) is Ok {
            lemma_more_columns_moves(toks, at + 2, room - 1);
        }
    }
}

pub proof fn lemma_stage_moves(toks: Seq<Token>, at: int, room: int)
    ensures
        stage(toks, at, room) matches Ok(p) ==> at < p.at <= toks.len() && p.room < room,
{
    reveal(stage);
    lemma_more_columns_moves(toks, at + 2, room - 1);
}

proof fn lemma_more_columns_errors(toks: Seq<Token>, at: int, room: int)
    ensures
        more_columns(toks, at, room) matches Err(h) ==> h.error == ParserError::UnexpectedToken
            || h.error == ParserError::ArenaOverflow,
    decreases toks.len() - at,
{
    if peek_at(toks, at).kind == TokenKind::Comma {
        if take_node(word(toks, Ok(Progress { at: at + 1, room }), TokenKind::Ident)) is Ok {
            lemma_more_columns_errors(toks, at + 2, room - 1);
        }
    }
}

proof fn lemma_stage_errors(toks: Seq<Token>, at: int, room: int)
    requires
        peek_at(toks, at).kind != TokenKind::Eof,
    ensures
        stage(toks, at, room) matches Err(h) ==> h.error != ParserError::EmptyInput
            && h.error != ParserError::MissingSourceContext,
{
    reveal(stage);
    lemma_more_columns_errors(toks, at + 2, room - 1);
}

proof fn lemma_more_stages_errors(toks: Seq<Token>, at: int, room: int)
    ensures
        more_stages(toks, at, room) matches Err(h) ==> h.error != ParserError::EmptyInput
            && h.error != ParserError::MissingSourceContext,
    decreases toks.len() - at,
{
    if peek_at(toks, at).kind == TokenKind::Pipe && peek_at(toks, at + 1).kind != TokenKind::Eof {
        lemma_stage_errors(toks, at + 1, room);
        lemma_stage_moves(toks, at + 1, room);
        if let Ok(p) = stage(toks, at + 1, room) {
            lemma_more_stages_errors(toks, p.at, p.room);
        }
    }
}

/// The tokens of a source; only the end of input where it cannot be scanned.
pub open spec fn scanned_or_empty(src: Seq<u8>) -> Seq<Token> {
    let run = crate::lexer::lex_source(src);
    match run.error {
        None => run.tokens,
        Some(_) => seq![Token { kind: TokenKind::Eof, start: 0, end: 0, number: 0 }],
    }
}

/// A source that cannot be scanned parses as no input does.
pub proof fn law_unscannable_source_is_empty_input(src: Seq<u8>, room: int)
    requires
        crate::lexer::lex_source(src).error is Some,
    ensures
        pipeline(scanned_or_empty(src), 0, room) matches Err(h) && h.error
            == ParserError::EmptyInput,
{
}

/// A pipeline is empty if and only if its input is, and misses its source relation if and only
/// if it starts with anything else.
pub proof fn law_pipelines_start_with_a_source(toks: Seq<Token>, at: int, room: int)
    ensures
        (pipeline(toks, at, room) matches Err(h) && h.error == ParserError::EmptyInput)
            <==> peek_at(toks, at).kind == TokenKind::Eof,
        (pipeline(toks, at, room) matches Err(h) && h.error == ParserError::MissingSourceContext)
            <==> peek_at(toks, at).kind != TokenKind::Eof && peek_at(toks, at).kind
            != TokenKind::Irundu,
{
    if peek_at(toks, at).kind == TokenKind::Irundu {
        lemma_stage_errors(toks, at, room);
        if let Ok(p) = take_node(stage(toks, at, room)) {
            lemma_more_stages_errors(toks, p.at, p.room);
        }
    }
}

// ---------------------------------------------------------------------------
// The nodes
// ---------------------------------------------------------------------------
/// The node of a name.
pub open spec fn ident_node(t: Token) -> AstNode {
    node(NodeKind::Ident, TokenKind::Ident, t.start, t.end, NIL, NIL, 0)
}

/// The node of a number literal.
pub open spec fn literal_node(t: Token) -> AstNode {
    node(NodeKind::Literal, TokenKind::Number, t.start, t.end, NIL, NIL, t.number)
}

/// The node of a name or a number literal.
pub open spec fn operand_node(t: Token) -> AstNode {
    if t.kind == TokenKind::Ident {
        ident_node(t)
    } else {
        literal_node(t)
    }
}

/// The node of an operator over two children.
pub open spec fn operator_node(t: Token, left: int, right: int) -> AstNode {
    node(NodeKind::BinOp, t.kind, t.start, t.end, left as u32, right as u32, 0)
}

/// The node of a stage.
pub open spec fn stage_node(kind: NodeKind, op: TokenKind, left: int, right: int) -> AstNode {
    node(kind, op, 0, 0, left as u32, right as u32, 0)
}

/// How many commas follow each other, a name apart, from `at` on.
pub open spec fn comma_count(toks: Seq<Token>, at: int) -> nat
    decreases toks.len() + 1 - at,
{
    if peek_at(toks, at).kind == TokenKind::Comma {
        1 + comma_count(toks, at + 2)
    } else {
        0
    }
}

/// The node of name `i` of `k` in a column list that starts at node `base`.
pub open spec fn column_node(t: Token, base: int, i: int, k: int) -> AstNode {
    AstNode {
        kind: if i == 0 {
            NodeKind::ColumnList
        } else {
            NodeKind::Ident
        },
        next: if i + 1 < k {
            (base + i + 1) as u32
        } else {
            NIL
        },
        ..ident_node(t)
    }
}

/// The nodes of the stage at `at`, when node `base` is the next free one. The last of them is
/// the node of the stage itself.
#[verifier::opaque]
pub open spec fn stage_nodes(toks: Seq<Token>, at: int, base: int) -> Seq<AstNode> {
    let nil = NIL as int;
    let name = ident_node(peek_at(toks, at + 1));
    match peek_at(toks, at).kind {
        TokenKind::Irundu => seq![
            name,
            AstNode {
                start: name.start,
                end: name.end,
                ..stage_node(NodeKind::From, TokenKind::Irundu, base, nil)
            },
        ],
        TokenKind::Vadi => seq![
            name,
            literal_node(peek_at(toks, at + 3)),
            operator_node(peek_at(toks, at + 2), base, base + 1),
            stage_node(NodeKind::Filter, TokenKind::Vadi, base + 2, nil),
        ],
        TokenKind::Kani => if is_arithmetic(peek_at(toks, at + 4).kind) {
            seq![
                name,
                operand_node(peek_at(toks, at + 3)),
                operand_node(peek_at(toks, at + 5)),
                operator_node(peek_at(toks, at + 4), base + 1, base + 2),
                stage_node(NodeKind::Derive, TokenKind::Kani, base, base + 3),
            ]
        } else {
            seq![
                name,
                operand_node(peek_at(toks, at + 3)),
                stage_node(NodeKind::Derive, TokenKind::Kani, base, base + 1),
            ]
        },
        TokenKind::Adukku => seq![
            name,
            stage_node(NodeKind::Sort, TokenKind::Adukku, base, nil),
        ],
        TokenKind::Edu => seq![
            node(
                NodeKind::Take,
                TokenKind::Edu,
                peek_at(toks, at + 1).start,
                peek_at(toks, at + 1).end,
                NIL,
                NIL,
                peek_at(toks, at + 1).number,
            ),
        ],
        TokenKind::Thoguppu => seq![
            name,
            stage_node(NodeKind::Group, TokenKind::Thoguppu, base, nil),
        ],
        TokenKind::Surukku => seq![
            name,
            stage_node(NodeKind::Aggregate, TokenKind::Surukku, base, nil),
        ],
        TokenKind::Inai => if peek_at(toks, at + 2).kind == TokenKind::Enge {
            seq![
                name,
                ident_node(peek_at(toks, at + 3)),
                ident_node(peek_at(toks, at + 5)),
                operator_node(peek_at(toks, at + 4), base + 1, base + 2),
                stage_node(NodeKind::Join, TokenKind::Inai, base, base + 3),
            ]
        } else {
            seq![name, stage_node(NodeKind::Join, TokenKind::Inai, base, nil)]
        },
        _ => {
            let k = 1 + comma_count(toks, at + 2) as int;
            Seq::new(
                k as nat,
                |i: int| column_node(peek_at(toks, at + 1 + 2 * i), base, i, k),
            ).push(stage_node(NodeKind::Project, TokenKind::Thedu, base, nil))
        },
    }
}

/// The nodes that the stage at `at` has once `n` of them were added and it could not go on. The
/// names of a column list are linked one by one; only a whole list has its first name marked.
pub open spec fn partial_nodes(toks: Seq<Token>, at: int, base: int, n: int) -> Seq<AstNode> {
    if peek_at(toks, at).kind == TokenKind::Thedu && n <= comma_count(toks, at + 2) {
        Seq::new(
            n as nat,
            |i: int|
                AstNode {
                    kind: NodeKind::Ident,
                    ..column_node(peek_at(toks, at + 1 + 2 * i), base, i, n)
                },
        )
    } else {
        stage_nodes(toks, at, base).take(n)
    }
}

/// Nodes laid out so far, and the stage that was laid out last.
pub struct Layout {
    pub nodes: Seq<AstNode>,
    pub last: int,
}

/// The stage at `at` laid out behind `l` and linked to the stage before it.
pub open spec fn lay_stage(toks: Seq<Token>, l: Layout, at: int) -> Layout {
    let grown = l.nodes + stage_nodes(toks, at, l.nodes.len() as int);
    let id = grown.len() - 1;
    Layout {
        nodes: grown.update(l.last, AstNode { next: id as u32, ..grown[l.last] }),
        last: id,
    }
}

/// The source stage at `at` and the root node that leads to it, behind the nodes `old`.
pub open spec fn lay_source(toks: Seq<Token>, old_nodes: Seq<AstNode>, at: int) -> Layout {
    let grown = old_nodes + stage_nodes(toks, at, old_nodes.len() as int);
    Layout {
        nodes: grown.push(
            stage_node(NodeKind::Pipeline, TokenKind::Eof, grown.len() - 1, NIL as int),
        ),
        last: grown.len() - 1,
    }
}

/// A pipeline whose stages start at `starts`, laid out behind the nodes `old`.
pub open spec fn lay_pipeline(
    toks: Seq<Token>,
    old_nodes: Seq<AstNode>,
    starts: Seq<int>,
) -> Layout
    decreases starts.len(),
{
    if starts.len() <= 1 {
        lay_source(toks, old_nodes, starts[0])
    } else {
        lay_stage(toks, lay_pipeline(toks, old_nodes, starts.drop_last()), starts.last())
    }
}

/// The root node of a pipeline that starts at `at` and is laid out behind the nodes `old`.
pub open spec fn root_index(toks: Seq<Token>, old_nodes: Seq<AstNode>, at: int) -> int {
    (old_nodes.len() + stage_nodes(toks, at, old_nodes.len() as int).len()) as int
}

/// The nodes in an arena after the stages behind the layout `l` were read from `at` on, up to
/// where that fails.
pub open spec fn left_by_stages(toks: Seq<Token>, l: Layout, at: int, room: int) -> Seq<AstNode>
    decreases toks.len() - at,
{
    if peek_at(toks, at).kind == TokenKind::Pipe && peek_at(toks, at + 1).kind != TokenKind::Eof {
        match stage(toks, at + 1, room) {
            Ok(p) => {
                proof {
                    lemma_stage_moves(toks, at + 1, room);
                }
                left_by_stages(toks, lay_stage(toks, l, at + 1), p.at, p.room)
            },
            Err(h) => l.nodes + partial_nodes(
                toks,
                at + 1,
                l.nodes.len() as int,
                room - h.room,
            ),
        }
    } else {
        l.nodes
    }
}

/// The nodes in an arena that held `old_nodes` after a pipeline was read from `at` on, up to
/// where that fails.
pub open spec fn left_by_pipeline(
    toks: Seq<Token>,
    old_nodes: Seq<AstNode>,
    at: int,
    room: int,
) -> Seq<AstNode> {
    let base = old_nodes.len() as int;
    if peek_at(toks, at).kind != TokenKind::Irundu {
        old_nodes
    } else {
        match stage(toks, at, room) {
            Err(h) => old_nodes + partial_nodes(toks, at, base, room - h.room),
            Ok(p) => if p.room <= 0 {
                old_nodes + stage_nodes(toks, at, base)
            } else {
                left_by_stages(toks, lay_source(toks, old_nodes, at), p.at, p.room - 1)
            },
        }
    }
}

// ---------------------------------------------------------------------------
// The parser
// ---------------------------------------------------------------------------
/// A parser over a fixed window of tokens.
pub struct Parser<'a> {
    pub src: &'a [u8],
    pub tokens: [Token; MAX_TOKENS],
    pub tok_len: usize,
    /// The next token to read.
    pub cursor: usize,
}

/// A window of tokens, each the end of input.
pub fn alloc_token_window() -> (r: Box<[Token; MAX_TOKENS]>)
    ensures
        r@ == Seq::new(
            MAX_TOKENS as nat,
            |i: int| Token { kind: TokenKind::Eof, start: 0, end: 0, number: 0 },
        ),
{
    let t = Token::eof();
    let r = Box::new([t; MAX_TOKENS]);
    assert(r@ =~= Seq::new(
        MAX_TOKENS as nat,
        |i: int| Token { kind: TokenKind::Eof, start: 0, end: 0, number: 0 },
    ));
    r
}

/// Nothing that stood in the arena before has changed.
pub open spec fn arena_kept(before: AstArena, after: AstArena) -> bool {
    &&& after.root == before.root
    &&& before.wf() ==> after.wf() && before.len <= after.len && forall|i: int|
        0 <= i < before.len ==> #[trigger] after@[i] == before@[i]
    &&& !before.wf() ==> after == before
}

impl<'a> Parser<'a> {
    /// The tokens lie in the window.
    pub open spec fn wf(&self) -> bool {
        self.tok_len <= MAX_TOKENS
    }

    /// The tokens of the source.
    pub open spec fn toks(&self) -> Seq<Token> {
        self.tokens@.take(self.tok_len as int)
    }

    /// Only the position may have moved.
    pub open spec fn same_tokens(&self, other: &Parser<'a>) -> bool {
        self.src == other.src && self.tokens == other.tokens && self.tok_len == other.tok_len
    }

    /// Scans `src` and stands at its first token.
    pub fn try_from_source(src: &'a [u8]) -> (r: Result<Self, ParserError>)
        ensures
            match crate::lexer::lex_source(src@).error {
                Some(e) => r is Err && r->Err_0 == ParserError::of_lexer(e),
                None => {
                    &&& r is Ok
                    &&& r->Ok_0.wf()
                    &&& r->Ok_0.src@ == src@
                    &&& r->Ok_0.toks() == crate::lexer::lex_source(src@).tokens
                    &&& r->Ok_0.cursor == 0
                },
            },
    {
        let mut lexer = Lexer::new(src);
        let t = Token::eof();
        let mut tokens: [Token; MAX_TOKENS] = [t; MAX_TOKENS];
        match lexer.tokenize_into(&mut tokens) {
            Ok(tok_len) => {
                let p = Parser { src, tokens, tok_len, cursor: 0 };
                assert(p.toks() =~= crate::lexer::lex_source(src@).tokens);
                Ok(p)
            },
            Err(e) => Err(ParserError::from_lexer(e)),
        }
    }

    /// Scans `src`; where that fails, a parser that sees the end of input at once.
    pub fn from_source(src: &'a [u8]) -> (r: Self)
        ensures
            r.wf(),
            r.src@ == src@,
            r.cursor == 0,
            r.toks() == scanned_or_empty(src@),
    {
        match Self::try_from_source(src) {
            Ok(p) => p,
            Err(_) => {
                let t = Token::eof();
                let p = Parser { src, tokens: [t; MAX_TOKENS], tok_len: 1, cursor: 0 };
                assert(p.toks() =~= seq![
                    Token { kind: TokenKind::Eof, start: 0, end: 0, number: 0 },
                ]);
                p
            },
        }
    }

    /// The bytes that are parsed.
    pub fn source(&self) -> (r: &'a [u8])
        ensures
            r@ == self.src@,
    {
        self.src
    }
}

/// A position in a window of tokens.
struct Reader<'a> {
    window: &'a [Token],
    /// The next token to read.
    cursor: usize,
}

impl<'a> Reader<'a> {
    /// What reading a production does, given the `outcome` the grammar has for it and the
    /// `nodes` it adds: on success they are added and the last one's index is returned; on
    /// failure the error is returned, and the nodes that were added before it stay.
    spec fn read(
        before: Reader<'a>,
        after: Reader<'a>,
        arena: AstArena,
        grown: AstArena,
        r: Result<u32, ParserError>,
        outcome: Result<Progress, Halt>,
        nodes: Seq<AstNode>,
    ) -> bool {
        &&& after.window == before.window
        &&& match outcome {
            Ok(p) => {
                &&& r is Ok
                &&& r->Ok_0 == arena.len + nodes.len() - 1
                &&& nodes.len() > 0
                &&& after.cursor == p.at
                &&& grown.len == arena.len + nodes.len()
                &&& grown.wf()
                &&& grown@ == arena@ + nodes
                &&& grown.root == arena.root
                &&& grown.room() == p.room
            },
            Err(h) => {
                &&& r == Err::<u32, ParserError>(h.error)
                &&& after.cursor == h.at
                &&& grown.room() == h.room
                &&& arena_kept(arena, grown)
                &&& grown@ =~= arena@ + partial_nodes(
                    before.window@,
                    before.cursor as int,
                    arena.len as int,
                    arena.room() - h.room,
                )
            },
        }
    }

    /// The next token.
    fn peek(&self) -> (t: Token)
        ensures
            t == peek_at(self.window@, self.cursor as int),
    {
        if self.cursor < self.window.len() {
            self.window[self.cursor]
        } else {
            Token::eof()
        }
    }

    /// The next token, read unless it is the end of input.
    fn bump(&mut self) -> (t: Token)
        ensures
            final(self).window == old(self).window,
            t == peek_at(old(self).window@, old(self).cursor as int),
            final(self).cursor == if t.kind == TokenKind::Eof {
                old(self).cursor as int
            } else {
                old(self).cursor + 1
            },
    {
        let t = self.peek();
        if t.kind != TokenKind::Eof {
            assert(self.cursor < self.window.len());
            self.cursor = self.cursor + 1;
        }
        t
    }

    /// Reads a token of kind `kind`.
    fn expect(&mut self, kind: TokenKind) -> (r: Result<Token, ParserError>)
        requires
            kind != TokenKind::Eof,
        ensures
            final(self).window == old(self).window,
            ({
                let t = peek_at(old(self).window@, old(self).cursor as int);
                if t.kind == kind {
                    r == Ok::<Token, ParserError>(t) && final(self).cursor == old(self).cursor + 1
                } else {
                    r == Err::<Token, ParserError>(ParserError::UnexpectedToken)
                        && final(self).cursor == old(self).cursor
                }
            }),
    {
        let t = self.peek();
        if t.kind == kind {
            Ok(self.bump())
        } else {
            Err(ParserError::UnexpectedToken)
        }
    }

    /// Reads a number literal that fits into 64 bits.
    fn expect_number(&mut self) -> (r: Result<Token, ParserError>)
        ensures
            final(self).window == old(self).window,
            ({
                let t = peek_at(old(self).window@, old(self).cursor as int);
                if t.kind != TokenKind::Number {
                    r == Err::<Token, ParserError>(ParserError::UnexpectedToken)
                        && final(self).cursor == old(self).cursor
                } else if t.number == i64::MIN {
                    r == Err::<Token, ParserError>(ParserError::NumberLiteralOverflow)
                        && final(self).cursor == old(self).cursor + 1
                } else {
                    r == Ok::<Token, ParserError>(t) && final(self).cursor == old(self).cursor + 1
                }
            }),
    {
        let t = match self.expect(TokenKind::Number) {
            Ok(v) => v,
            Err(e) => {
                return Err(e);
            },
        };
        if t.number == i64::MIN {
            return Err(ParserError::NumberLiteralOverflow);
        }
        Ok(t)
    }

    fn alloc_ident(&mut self, arena: &mut AstArena, tok: Token) -> (r: Result<u32, ParserError>)
        ensures
            *final(self) == *old(self),
            final(arena).root == old(arena).root,
            if old(arena).len < AST_CAP {
                &&& r == Ok::<u32, ParserError>(old(arena).len)
                &&& final(arena).len == old(arena).len + 1
                &&& final(arena)@ == old(arena)@.push(ident_node(tok))
            } else {
                &&& r == Err::<u32, ParserError>(ParserError::ArenaOverflow)
                &&& *final(arena) == *old(arena)
            },
    {
        arena.try_alloc(
            AstNode {
                kind: NodeKind::Ident,
                op: TokenKind::Ident,
                start: tok.start,
                end: tok.end,
                left: NIL,
                right: NIL,
                next: NIL,
                value: 0,
            },
        )
    }

    fn alloc_literal(&mut self, arena: &mut AstArena, tok: Token) -> (r: Result<u32, ParserError>)
        ensures
            *final(self) == *old(self),
            final(arena).root == old(arena).root,
            if old(arena).len < AST_CAP {
                &&& r == Ok::<u32, ParserError>(old(arena).len)
                &&& final(arena).len == old(arena).len + 1
                &&& final(arena)@ == old(arena)@.push(literal_node(tok))
            } else {
                &&& r == Err::<u32, ParserError>(ParserError::ArenaOverflow)
                &&& *final(arena) == *old(arena)
            },
    {
        arena.try_alloc(
            AstNode {
                kind: NodeKind::Literal,
                op: TokenKind::Number,
                start: tok.start,
                end: tok.end,
                left: NIL,
                right: NIL,
                next: NIL,
                value: tok.number,
            },
        )
    }

    /// Adds the node of a stage without a span or a value.
    fn alloc_stage(
        arena: &mut AstArena,
        kind: NodeKind,
        op: TokenKind,
        left: u32,
        right: u32,
    ) -> (r: Result<u32, ParserError>)
        ensures
            final(arena).root == old(arena).root,
            if old(arena).len < AST_CAP {
                &&& r == Ok::<u32, ParserError>(old(arena).len)
                &&& final(arena).len == old(arena).len + 1
                &&& final(arena)@ == old(arena)@.push(node(kind, op, 0, 0, left, right, 0))
            } else {
                &&& r == Err::<u32, ParserError>(ParserError::ArenaOverflow)
                &&& *final(arena) == *old(arena)
            },
    {
        arena.try_alloc(
            AstNode { kind, op, start: 0, end: 0, left, right, next: NIL, value: 0 },
        )
    }

    /// `keyword name`
    fn parse_named(&mut self, arena: &mut AstArena, kind: NodeKind) -> (r: Result<u32, ParserError>)
        requires
            ({
                let k = peek_at(old(self).window@, old(self).cursor as int).kind;
                ||| k == TokenKind::Adukku && kind == NodeKind::Sort
                ||| k == TokenKind::Thoguppu && kind == NodeKind::Group
                ||| k == TokenKind::Surukku && kind == NodeKind::Aggregate
            }),
        ensures
            Self::read(
                *old(self),
                *final(self),
                *old(arena),
                *final(arena),
                r,
                named_stage(old(self).window@, old(self).cursor as int, old(arena).room()),
                stage_nodes(old(self).window@, old(self).cursor as int, old(arena).len as int),
            ),
    {
        proof {
            reveal(stage_nodes);
        }
        let key = self.bump();
        let col_tok = match self.expect(TokenKind::Ident) {
            Ok(v) => v,
            Err(e) => {
                return Err(e);
            },
        };
        let col: u32 = match self.alloc_ident(arena, col_tok) {
            Ok(v) => v,
            Err(e) => {
                return Err(e);
            },
        };
        let r = Self::alloc_stage(arena, kind, key.kind, col, NIL);
        proof {
            if r is Ok {
                assert(arena@ =~= old(arena)@ + stage_nodes(
                    old(self).window@,
                    old(self).cursor as int,
                    old(arena).len as int,
                ));
            }
        }
        r
    }

    fn parse_from(&mut self, arena: &mut AstArena) -> (r: Result<u32, ParserError>)
        requires
            peek_at(old(self).window@, old(self).cursor as int).kind == TokenKind::Irundu,
        ensures
            Self::read(
                *old(self),
                *final(self),
                *old(arena),
                *final(arena),
                r,
                named_stage(old(self).window@, old(self).cursor as int, old(arena).room()),
                stage_nodes(old(self).window@, old(self).cursor as int, old(arena).len as int),
            ),
    {
        proof {
            reveal(stage_nodes);
        }
        match self.expect(TokenKind::Irundu) {
            Ok(_) => {},
            Err(e) => {
                return Err(e);
            },
        }
        let rel_tok = match self.expect(TokenKind::Ident) {
            Ok(v) => v,
            Err(e) => {
                return Err(e);
            },
        };
        let rel: u32 = match self.alloc_ident(arena, rel_tok) {
            Ok(v) => v,
            Err(e) => {
                return Err(e);
            },
        };
        let r = arena.try_alloc(
            AstNode {
                kind: NodeKind::From,
                op: TokenKind::Irundu,
                start: rel_tok.start,
                end: rel_tok.end,
                left: rel,
                right: NIL,
                next: NIL,
                value: 0,
            },
        );
        proof {
            if r is Ok {
                assert(arena@ =~= old(arena)@ + stage_nodes(
                    old(self).window@,
                    old(self).cursor as int,
                    old(arena).len as int,
                ));
            }
        }
        r
    }

    fn parse_filter(&mut self, arena: &mut AstArena) -> (r: Result<u32, ParserError>)
        requires
            peek_at(old(self).window@, old(self).cursor as int).kind == TokenKind::Vadi,
        ensures
            Self::read(
                *old(self),
                *final(self),
                *old(arena),
                *final(arena),
                r,
                filter_stage(old(self).window@, old(self).cursor as int, old(arena).room()),
                stage_nodes(old(self).window@, old(self).cursor as int, old(arena).len as int),
            ),
    {
        proof {
            reveal(stage_nodes);
        }
        match self.expect(TokenKind::Vadi) {
            Ok(_) => {},
            Err(e) => {
                return Err(e);
            },
        }
        let col_tok = match self.expect(TokenKind::Ident) {
            Ok(v) => v,
            Err(e) => {
                return Err(e);
            },
        };
        let col: u32 = match self.alloc_ident(arena, col_tok) {
            Ok(v) => v,
            Err(e) => {
                return Err(e);
            },
        };
        let op_tok = self.bump();
        let op_ok = match op_tok.kind {
            TokenKind::Gt | TokenKind::Lt | TokenKind::Eq => true,
            _ => false,
        };
        if !op_ok {
            return Err(ParserError::UnexpectedToken);
        }
        let lit_tok = match self.expect_number() {
            Ok(v) => v,
            Err(e) => {
                return Err(e);
            },
        };
        let lit: u32 = match self.alloc_literal(arena, lit_tok) {
            Ok(v) => v,
            Err(e) => {
                return Err(e);
            },
        };
        let bin: u32 = match arena.try_alloc(
            AstNode {
                kind: NodeKind::BinOp,
                op: op_tok.kind,
                start: op_tok.start,
                end: op_tok.end,
                left: col,
                right: lit,
                next: NIL,
                value: 0,
            },
        ) {
            Ok(v) => v,
            Err(e) => {
                return Err(e);
            },
        };
        let r = Self::alloc_stage(arena, NodeKind::Filter, TokenKind::Vadi, bin, NIL);
        proof {
            if r is Ok {
                assert(arena@ =~= old(arena)@ + stage_nodes(
                    old(self).window@,
                    old(self).cursor as int,
                    old(arena).len as int,
                ));
            }
        }
        r
    }

    fn parse_sort(&mut self, arena: &mut AstArena) -> (r: Result<u32, ParserError>)
        requires
            peek_at(old(self).window@, old(self).cursor as int).kind == TokenKind::Adukku,
        ensures
            Self::read(
                *old(self),
                *final(self),
                *old(arena),
                *final(arena),
                r,
                named_stage(old(self).window@, old(self).cursor as int, old(arena).room()),
                stage_nodes(old(self).window@, old(self).cursor as int, old(arena).len as int),
            ),
    {
        self.parse_named(arena, NodeKind::Sort)
    }

    fn parse_group(&mut self, arena: &mut AstArena) -> (r: Result<u32, ParserError>)
        requires
            peek_at(old(self).window@, old(self).cursor as int).kind == TokenKind::Thoguppu,
        ensures
            Self::read(
                *old(self),
                *final(self),
                *old(arena),
                *final(arena),
                r,
                named_stage(old(self).window@, old(self).cursor as int, old(arena).room()),
                stage_nodes(old(self).window@, old(self).cursor as int, old(arena).len as int),
            ),
    {
        self.parse_named(arena, NodeKind::Group)
    }

    fn parse_aggregate(&mut self, arena: &mut AstArena) -> (r: Result<u32, ParserError>)
        requires
            peek_at(old(self).window@, old(self).cursor as int).kind == TokenKind::Surukku,
        ensures
            Self::read(
                *old(self),
                *final(self),
                *old(arena),
                *final(arena),
                r,
                named_stage(old(self).window@, old(self).cursor as int, old(arena).room()),
                stage_nodes(old(self).window@, old(self).cursor as int, old(arena).len as int),
            ),
    {
        self.parse_named(arena, NodeKind::Aggregate)
    }

    fn parse_take(&mut self, arena: &mut AstArena) -> (r: Result<u32, ParserError>)
        requires
            peek_at(old(self).window@, old(self).cursor as int).kind == TokenKind::Edu,
        ensures
            Self::read(
                *old(self),
                *final(self),
                *old(arena),
                *final(arena),
                r,
                take_stage(old(self).window@, old(self).cursor as int, old(arena).room()),
                stage_nodes(old(self).window@, old(self).cursor as int, old(arena).len as int),
            ),
    {
        proof {
            reveal(stage_nodes);
        }
        match self.expect(TokenKind::Edu) {
            Ok(_) => {},
            Err(e) => {
                return Err(e);
            },
        }
        let n_tok = match self.expect_number() {
            Ok(v) => v,
            Err(e) => {
                return Err(e);
            },
        };
        let r = arena.try_alloc(
            AstNode {
                kind: NodeKind::Take,
                op: TokenKind::Edu,
                start: n_tok.start,
                end: n_tok.end,
                left: NIL,
                right: NIL,
                next: NIL,
                value: n_tok.number,
            },
        );
        proof {
            if r is Ok {
                assert(arena@ =~= old(arena)@ + stage_nodes(
                    old(self).window@,
                    old(self).cursor as int,
                    old(arena).len as int,
                ));
            }
        }
        r
    }

    /// A column name or a number literal.
    fn parse_operand(&mut self, arena: &mut AstArena) -> (r: Result<u32, ParserError>)
        ensures
            final(self).window == old(self).window,
            final(arena).root == old(arena).root,
            ({
                let toks = old(self).window@;
                let at = old(self).cursor as int;
                let s = Ok(Progress { at, room: old(arena).room() });
                match take_node(operand(toks, s)) {
                    Ok(p) => {
                        &&& r == Ok::<u32, ParserError>(old(arena).len)
                        &&& final(self).cursor == p.at
                        &&& final(arena).len == old(arena).len + 1
                        &&& final(arena).wf()
                        &&& final(arena)@ == old(arena)@.push(operand_node(peek_at(toks, at)))
                    },
                    Err(h) => {
                        &&& r == Err::<u32, ParserError>(h.error)
                        &&& final(self).cursor == h.at
                        &&& *final(arena) == *old(arena)
                    },
                }
            }),
    {
        if self.peek().kind == TokenKind::Ident {
            let tok = match self.expect(TokenKind::Ident) {
                Ok(v) => v,
                Err(e) => {
                    return Err(e);
                },
            };
            self.alloc_ident(arena, tok)
        } else {
            let tok = match self.expect_number() {
                Ok(v) => v,
                Err(e) => {
                    return Err(e);
                },
            };
            self.alloc_literal(arena, tok)
        }
    }

    fn parse_derive(&mut self, arena: &mut AstArena) -> (r: Result<u32, ParserError>)
        requires
            peek_at(old(self).window@, old(self).cursor as int).kind == TokenKind::Kani,
        ensures
            Self::read(
                *old(self),
                *final(self),
                *old(arena),
                *final(arena),
                r,
                derive_stage(old(self).window@, old(self).cursor as int, old(arena).room()),
                stage_nodes(old(self).window@, old(self).cursor as int, old(arena).len as int),
            ),
    {
        proof {
            reveal(stage_nodes);
        }
        match self.expect(TokenKind::Kani) {
            Ok(_) => {},
            Err(e) => {
                return Err(e);
            },
        }
        let col_tok = match self.expect(TokenKind::Ident) {
            Ok(v) => v,
            Err(e) => {
                return Err(e);
            },
        };
        let col: u32 = match self.alloc_ident(arena, col_tok) {
            Ok(v) => v,
            Err(e) => {
                return Err(e);
            },
        };
        match self.expect(TokenKind::Eq) {
            Ok(_) => {},
            Err(e) => {
                return Err(e);
            },
        }
        let lhs: u32 = match self.parse_operand(arena) {
            Ok(v) => v,
            Err(e) => {
                return Err(e);
            },
        };
        let mut expr: u32 = lhs;
        let op_tok = self.peek();
        let is_arith = match op_tok.kind {
            TokenKind::Star | TokenKind::Plus | TokenKind::Minus => true,
            _ => false,
        };
        if is_arith {
            self.bump();
            let rhs: u32 = match self.parse_operand(arena) {
                Ok(v) => v,
                Err(e) => {
                    return Err(e);
                },
            };
            expr = match arena.try_alloc(
                AstNode {
                    kind: NodeKind::BinOp,
                    op: op_tok.kind,
                    start: op_tok.start,
                    end: op_tok.end,
                    left: lhs,
                    right: rhs,
                    next: NIL,
                    value: 0,
                },
            ) {
                Ok(v) => v,
                Err(e) => {
                    return Err(e);
                },
            };
        }
        let r = Self::alloc_stage(arena, NodeKind::Derive, TokenKind::Kani, col, expr);
        proof {
            if r is Ok {
                assert(arena@ =~= old(arena)@ + stage_nodes(
                    old(self).window@,
                    old(self).cursor as int,
                    old(arena).len as int,
                ));
            }
        }
        r
    }

    fn parse_join(&mut self, arena: &mut AstArena) -> (r: Result<u32, ParserError>)
        requires
            peek_at(old(self).window@, old(self).cursor as int).kind == TokenKind::Inai,
        ensures
            Self::read(
                *old(self),
                *final(self),
                *old(arena),
                *final(arena),
                r,
                join_stage(old(self).window@, old(self).cursor as int, old(arena).room()),
                stage_nodes(old(self).window@, old(self).cursor as int, old(arena).len as int),
            ),
    {
        proof {
            reveal(stage_nodes);
        }
        match self.expect(TokenKind::Inai) {
            Ok(_) => {},
            Err(e) => {
                return Err(e);
            },
        }
        let rel_tok = match self.expect(TokenKind::Ident) {
            Ok(v) => v,
            Err(e) => {
                return Err(e);
            },
        };
        let rel: u32 = match self.alloc_ident(arena, rel_tok) {
            Ok(v) => v,
            Err(e) => {
                return Err(e);
            },
        };
        let mut pred: u32 = NIL;
        if self.peek().kind == TokenKind::Enge {
            self.bump();
            let left_tok = match self.expect(TokenKind::Ident) {
                Ok(v) => v,
                Err(e) => {
                    return Err(e);
                },
            };
            let left: u32 = match self.alloc_ident(arena, left_tok) {
                Ok(v) => v,
                Err(e) => {
                    return Err(e);
                },
            };
            let op_tok = self.bump();
            let right_tok = match self.expect(TokenKind::Ident) {
                Ok(v) => v,
                Err(e) => {
                    return Err(e);
                },
            };
            let right: u32 = match self.alloc_ident(arena, right_tok) {
                Ok(v) => v,
                Err(e) => {
                    return Err(e);
                },
            };
            pred = match arena.try_alloc(
                AstNode {
                    kind: NodeKind::BinOp,
                    op: op_tok.kind,
                    start: op_tok.start,
                    end: op_tok.end,
                    left,
                    right,
                    next: NIL,
                    value: 0,
                },
            ) {
                Ok(v) => v,
                Err(e) => {
                    return Err(e);
                },
            };
        }
        let r = Self::alloc_stage(arena, NodeKind::Join, TokenKind::Inai, rel, pred);
        proof {
            if r is Ok {
                assert(arena@ =~= old(arena)@ + stage_nodes(
                    old(self).window@,
                    old(self).cursor as int,
                    old(arena).len as int,
                ));
            }
        }
        r
    }

    fn parse_column_list(&mut self, arena: &mut AstArena) -> (r: Result<u32, ParserError>)
        ensures
            final(self).window == old(self).window,
            ({
                let toks = old(self).window@;
                let at = old(self).cursor as int;
                let base = old(arena).len as int;
                let k = 1 + comma_count(toks, at + 1) as int;
                let s = Ok(Progress { at, room: old(arena).room() });
                let outcome = match take_node(word(toks, s, TokenKind::Ident)) {
                    Ok(p) => more_columns(toks, p.at, p.room),
                    Err(e) => Err(e),
                };
                match outcome {
                    Ok(p) => {
                        &&& r == Ok::<u32, ParserError>(old(arena).len)
                        &&& final(self).cursor == p.at
                        &&& final(arena).len == base + k
                        &&& final(arena).wf()
                        &&& final(arena).root == old(arena).root
                        &&& final(arena).room() == p.room
                        &&& final(arena)@ == old(arena)@ + Seq::new(
                            k as nat,
                            |i: int| column_node(peek_at(toks, at + 2 * i), base, i, k),
                        )
                    },
                    Err(h) => {
                        let n = old(arena).room() - h.room;
                        &&& r == Err::<u32, ParserError>(h.error)
                        &&& final(self).cursor == h.at
                        &&& final(arena).room() == h.room
                        &&& arena_kept(*old(arena), *final(arena))
                        &&& 0 <= n < k
                        &&& final(arena)@ == old(arena)@ + Seq::new(
                            n as nat,
                            |i: int|
                                AstNode {
                                    kind: NodeKind::Ident,
                                    ..column_node(peek_at(toks, at + 2 * i), base, i, n)
                                },
                        )
                    },
                }
            }),
    {
        let ghost toks = self.window@;
        let ghost at = self.cursor as int;
        let ghost base = arena.len as int;
        let first_tok = match self.expect(TokenKind::Ident) {
            Ok(v) => v,
            Err(e) => {
                return Err(e);
            },
        };
        let head: u32 = match self.alloc_ident(arena, first_tok) {
            Ok(v) => v,
            Err(e) => {
                return Err(e);
            },
        };
        let mut tail: u32 = head;
        let ghost mut n: int = 1;
        let ghost room1 = arena.room();
        while self.peek().kind == TokenKind::Comma
            invariant
                self.window == old(self).window,
                toks == self.window@,
                at == old(self).cursor,
                base == old(arena).len == head,
                base < AST_CAP,
                n >= 1,
                tail == base + n - 1,
                self.cursor == at + 2 * n - 1,
                arena.wf(),
                arena.len == base + n,
                arena.root == old(arena).root,
                room1 == AST_CAP - base - 1,
                old(arena).room() == AST_CAP - base,
                peek_at(toks, at).kind == TokenKind::Ident,
                more_columns(toks, at + 1, room1) == more_columns(
                    toks,
                    self.cursor as int,
                    arena.room(),
                ),
                comma_count(toks, at + 1) == n - 1 + comma_count(toks, self.cursor as int),
                arena@ == old(arena)@ + Seq::new(
                    n as nat,
                    |i: int|
                        AstNode {
                            next: if i + 1 < n {
                                (base + i + 1) as u32
                            } else {
                                NIL
                            },
                            ..ident_node(peek_at(toks, at + 2 * i))
                        },
                ),
            decreases toks.len() - self.cursor,
        {
            self.bump();
            let tok = match self.expect(TokenKind::Ident) {
                Ok(v) => v,
                Err(e) => {
                    return Err(e);
                },
            };
            let ghost before = arena@;
            let id: u32 = match self.alloc_ident(arena, tok) {
                Ok(v) => v,
                Err(e) => {
                    return Err(e);
                },
            };
            let ghost grown = arena@;
            assert(grown == before.push(ident_node(tok)));
            if let Some(node) = arena.get_mut(tail) {
                node.next = id;
            }
            proof {
                assert(arena@ == grown.update(tail as int, AstNode { next: id, ..grown[tail as int] }));
                let want = old(arena)@ + Seq::new(
                    (n + 1) as nat,
                    |i: int|
                        AstNode {
                            next: if i + 1 < n + 1 {
                                (base + i + 1) as u32
                            } else {
                                NIL
                            },
                            ..ident_node(peek_at(toks, at + 2 * i))
                        },
                );
                assert(arena@ =~= before.push(ident_node(tok)).update(
                    tail as int,
                    AstNode { next: id, ..before[tail as int] },
                ));
                assert(arena@ =~= want);
                n = n + 1;
            }
            tail = id;
        }
        let ghost before = arena@;
        if let Some(node) = arena.get_mut(head) {
            node.kind = NodeKind::ColumnList;
        }
        proof {
            assert(arena@ =~= before.update(
                base,
                AstNode { kind: NodeKind::ColumnList, ..before[base] },
            ));
            assert(arena@ =~= old(arena)@ + Seq::new(
                n as nat,
                |i: int| column_node(peek_at(toks, at + 2 * i), base, i, n),
            ));
        }
        Ok(head)
    }

    fn parse_project(&mut self, arena: &mut AstArena) -> (r: Result<u32, ParserError>)
        requires
            peek_at(old(self).window@, old(self).cursor as int).kind == TokenKind::Thedu,
        ensures
            Self::read(
                *old(self),
                *final(self),
                *old(arena),
                *final(arena),
                r,
                project_stage(old(self).window@, old(self).cursor as int, old(arena).room()),
                stage_nodes(old(self).window@, old(self).cursor as int, old(arena).len as int),
            ),
    {
        proof {
            reveal(stage_nodes);
        }
        let ghost toks = self.window@;
        let ghost at = self.cursor as int;
        match self.expect(TokenKind::Thedu) {
            Ok(_) => {},
            Err(e) => {
                return Err(e);
            },
        }
        let cols: u32 = match self.parse_column_list(arena) {
            Ok(v) => v,
            Err(e) => {
                return Err(e);
            },
        };
        let ghost listed = arena@;
        let r = Self::alloc_stage(arena, NodeKind::Project, TokenKind::Thedu, cols, NIL);
        proof {
            let base = old(arena).len as int;
            let k = 1 + comma_count(toks, at + 2) as int;
            let list = Seq::new(
                k as nat,
                |i: int| column_node(peek_at(toks, at + 1 + 2 * i), base, i, k),
            );
            assert(listed =~= old(arena)@ + list);
            if r is Ok {
                assert(arena@ =~= old(arena)@ + stage_nodes(toks, at, base));
            }
        }
        r
    }

    fn parse_stage(&mut self, arena: &mut AstArena) -> (r: Result<u32, ParserError>)
        ensures
            Self::read(
                *old(self),
                *final(self),
                *old(arena),
                *final(arena),
                r,
                stage(old(self).window@, old(self).cursor as int, old(arena).room()),
                stage_nodes(old(self).window@, old(self).cursor as int, old(arena).len as int),
            ),
    {
        proof {
            reveal(stage);
        }
        match self.peek().kind {
            TokenKind::Irundu => self.parse_from(arena),
            TokenKind::Vadi => self.parse_filter(arena),
            TokenKind::Kani => self.parse_derive(arena),
            TokenKind::Adukku => self.parse_sort(arena),
            TokenKind::Edu => self.parse_take(arena),
            TokenKind::Thoguppu => self.parse_group(arena),
            TokenKind::Surukku => self.parse_aggregate(arena),
            TokenKind::Inai => self.parse_join(arena),
            TokenKind::Thedu => self.parse_project(arena),
            TokenKind::Eof => Err(ParserError::EmptyInput),
            _ => Err(ParserError::UnexpectedToken),
        }
    }

    /// Parses a pipeline into `arena` and returns its root node.
    fn parse_pipeline(&mut self, arena: &mut AstArena) -> (r: Result<u32, ParserError>)
        ensures
            final(self).window == old(self).window,
            match pipeline(old(self).window@, old(self).cursor as int, old(arena).room()) {
                Ok(stages) => {
                    &&& r is Ok
                    &&& r->Ok_0 == root_index(
                        old(self).window@,
                        old(arena)@,
                        old(self).cursor as int,
                    )
                    &&& final(self).cursor == stages.end
                    &&& final(arena).wf()
                    &&& final(arena).root == r->Ok_0
                    &&& final(arena)@ == lay_pipeline(
                        old(self).window@,
                        old(arena)@,
                        stages.starts,
                    ).nodes
                },
                Err(h) => {
                    &&& r == Err::<u32, ParserError>(h.error)
                    &&& final(self).cursor == h.at
                    &&& arena_kept(*old(arena), *final(arena))
                    &&& final(arena)@ == left_by_pipeline(
                        old(self).window@,
                        old(arena)@,
                        old(self).cursor as int,
                        old(arena).room(),
                    )
                    &&& h.error == ParserError::EmptyInput || h.error
                        == ParserError::MissingSourceContext ==> *final(arena) == *old(arena)
                },
            },
    {
        let ghost toks = self.window@;
        let ghost at = self.cursor as int;
        let ghost base = arena@;
        proof {
            law_pipelines_start_with_a_source(toks, at, arena.room());
        }
        match self.peek().kind {
            TokenKind::Irundu => {},
            TokenKind::Eof => {
                return Err(ParserError::EmptyInput);
            },
            _ => {
                return Err(ParserError::MissingSourceContext);
            },
        }
        let first: u32 = match self.parse_stage(arena) {
            Ok(v) => v,
            Err(e) => {
                return Err(e);
            },
        };
        let root: u32 = match Self::alloc_stage(
            arena,
            NodeKind::Pipeline,
            TokenKind::Eof,
            first,
            NIL,
        ) {
            Ok(v) => v,
            Err(e) => {
                return Err(e);
            },
        };
        let mut prev: u32 = first;
        let ghost mut starts = seq![at];
        proof {
            assert(starts.drop_last() =~= Seq::<int>::empty());
            assert(arena@ =~= lay_source(toks, base, at).nodes);
            lemma_stage_moves(toks, at, old(arena).room());
            assert(seq![at] + Seq::<int>::empty() =~= seq![at]);
        }
        loop
            invariant_except_break
                pipeline(toks, at, old(arena).room()) == match more_stages(
                    toks,
                    self.cursor as int,
                    arena.room(),
                ) {
                    Ok(rest) => Ok::<Stages, Halt>(
                        Stages { starts: starts + rest.starts, end: rest.end },
                    ),
                    Err(h) => Err::<Stages, Halt>(h),
                },
                left_by_pipeline(toks, base, at, old(arena).room()) == left_by_stages(
                    toks,
                    lay_pipeline(toks, base, starts),
                    self.cursor as int,
                    arena.room(),
                ),
            invariant
                self.window == old(self).window,
                toks == self.window@,
                at == old(self).cursor,
                pipeline(toks, at, old(arena).room()) matches Err(h) ==> h.error
                    != ParserError::EmptyInput && h.error != ParserError::MissingSourceContext,
                base == old(arena)@,
                base.len() == old(arena).len,
                old(arena).wf(),
                arena.wf(),
                arena.len >= old(arena).len,
                arena.root == old(arena).root,
                starts.len() >= 1,
                starts[0] == at,
                self.cursor <= toks.len(),
                root == root_index(toks, base, at),
                root >= old(arena).len,
                prev >= old(arena).len,
                prev < arena.len,
                arena@ == lay_pipeline(toks, base, starts).nodes,
                prev == lay_pipeline(toks, base, starts).last,
                forall|i: int| 0 <= i < base.len() ==> #[trigger] arena@[i] == base[i],
            ensures
                pipeline(toks, at, old(arena).room()) == Ok::<Stages, Halt>(
                    Stages { starts, end: self.cursor as int },
                ),
            decreases toks.len() - self.cursor,
        {
            let kind = self.peek().kind;
            if kind == TokenKind::Pipe {
                self.bump();
                if self.peek().kind == TokenKind::Eof {
                    return Err(ParserError::UnexpectedToken);
                }
                let ghost here = self.cursor as int;
                let ghost room = arena.room();
                let ghost before = lay_pipeline(toks, base, starts);
                let stage: u32 = match self.parse_stage(arena) {
                    Ok(v) => v,
                    Err(e) => {
                        return Err(e);
                    },
                };
                let ghost grown = arena@;
                if let Some(node) = arena.get_mut(prev) {
                    node.next = stage;
                }
                proof {
                    lemma_stage_moves(toks, here, room);
                    let longer = starts.push(here);
                    assert(longer.drop_last() =~= starts);
                    assert(arena@ =~= grown.update(
                        prev as int,
                        AstNode { next: stage, ..grown[prev as int] },
                    ));
                    assert(arena@ =~= lay_stage(toks, before, here).nodes);
                    if let Ok(rest) = more_stages(toks, self.cursor as int, arena.room()) {
                        assert(starts + (seq![here] + rest.starts) =~= longer + rest.starts);
                    }
                    starts = longer;
                }
                prev = stage;
            } else if kind == TokenKind::Semi {
                self.bump();
                proof {
                    assert(starts + Seq::<int>::empty() =~= starts);
                }
                break ;
            } else if kind == TokenKind::Eof {
                proof {
                    assert(starts + Seq::<int>::empty() =~= starts);
                }
                break ;
            } else {
                return Err(ParserError::UnexpectedToken);
            }
        }
        arena.root = root;
        Ok(root)
    }
}

impl<'a> Parser<'a> {
    /// Reads a number literal that fits into 64 bits.
    pub fn expect_number(&mut self) -> (r: Result<Token, ParserError>)
        requires
            old(self).wf(),
        ensures
            final(self).same_tokens(old(self)),
            ({
                let t = peek_at(old(self).toks(), old(self).cursor as int);
                if t.kind != TokenKind::Number {
                    r == Err::<Token, ParserError>(ParserError::UnexpectedToken)
                        && final(self).cursor == old(self).cursor
                } else if t.number == i64::MIN {
                    r == Err::<Token, ParserError>(ParserError::NumberLiteralOverflow)
                        && final(self).cursor == old(self).cursor + 1
                } else {
                    r == Ok::<Token, ParserError>(t) && final(self).cursor == old(self).cursor + 1
                }
            }),
    {
        let mut reader = Reader {
            window: vstd::slice::slice_subrange(&self.tokens, 0, self.tok_len),
            cursor: self.cursor,
        };
        let r = reader.expect_number();
        self.cursor = reader.cursor;
        r
    }

    /// Parses a pipeline into `arena` and returns its root node. What stood in the arena is
    /// kept, and after a failure so is its root; the nodes that were added before the failure
    /// stay. Where there is no input, or none that starts with a source relation, none was.
    pub fn parse_pipeline(&mut self, arena: &mut AstArena) -> (r: Result<u32, ParserError>)
        requires
            old(self).wf(),
        ensures
            final(self).same_tokens(old(self)),
            match pipeline(old(self).toks(), old(self).cursor as int, old(arena).room()) {
                Ok(stages) => {
                    &&& r is Ok
                    &&& r->Ok_0 == root_index(
                        old(self).toks(),
                        old(arena)@,
                        old(self).cursor as int,
                    )
                    &&& final(self).cursor == stages.end
                    &&& final(arena).wf()
                    &&& final(arena).root == r->Ok_0
                    &&& final(arena)@ == lay_pipeline(
                        old(self).toks(),
                        old(arena)@,
                        stages.starts,
                    ).nodes
                },
                Err(h) => {
                    &&& r == Err::<u32, ParserError>(h.error)
                    &&& final(self).cursor == h.at
                    &&& arena_kept(*old(arena), *final(arena))
                    &&& final(arena)@ == left_by_pipeline(
                        old(self).toks(),
                        old(arena)@,
                        old(self).cursor as int,
                        old(arena).room(),
                    )
                    &&& h.error == ParserError::EmptyInput || h.error
                        == ParserError::MissingSourceContext ==> *final(arena) == *old(arena)
                },
            },
    {
        let mut reader = Reader {
            window: vstd::slice::slice_subrange(&self.tokens, 0, self.tok_len),
            cursor: self.cursor,
        };
        let r = reader.parse_pipeline(arena);
        self.cursor = reader.cursor;
        r
    }
}

/// Scans and parses a query into `arena`, with `tokens` as the window for its tokens.
pub fn parse_query(src: &[u8], arena: &mut AstArena, tokens: &mut [Token; MAX_TOKENS]) -> (r: Result<
    u32,
    ParserError,
>)
    ensures
        ({
            let run = crate::lexer::lex_source(src@);
            &&& final(tokens)@ == run.tokens + old(tokens)@.skip(run.tokens.len() as int)
            &&& match run.error {
                Some(e) => r == Err::<u32, ParserError>(ParserError::of_lexer(e)) && *final(arena)
                    == *old(arena),
                None => match pipeline(run.tokens, 0, old(arena).room()) {
                    Ok(stages) => {
                        &&& r is Ok
                        &&& r->Ok_0 == root_index(run.tokens, old(arena)@, 0)
                        &&& final(arena).wf()
                        &&& final(arena).root == r->Ok_0
                        &&& final(arena)@ == lay_pipeline(
                            run.tokens,
                            old(arena)@,
                            stages.starts,
                        ).nodes
                    },
                    Err(h) => {
                        &&& r == Err::<u32, ParserError>(h.error)
                        &&& arena_kept(*old(arena), *final(arena))
                        &&& final(arena)@ == left_by_pipeline(
                            run.tokens,
                            old(arena)@,
                            0,
                            old(arena).room(),
                        )
                        &&& h.error == ParserError::EmptyInput || h.error
                            == ParserError::MissingSourceContext ==> *final(arena) == *old(arena)
                    },
                },
            }
        }),
{
    let mut lexer = Lexer::new(src);
    let tok_len: usize = match lexer.tokenize_into(tokens) {
        Ok(n) => n,
        Err(e) => {
            return Err(ParserError::from_lexer(e));
        },
    };
    let window = vstd::slice::slice_subrange(tokens, 0, tok_len);
    assert(window@ =~= crate::lexer::lex_source(src@).tokens);
    let mut reader = Reader { window, cursor: 0 };
    reader.parse_pipeline(arena)
}

/// The kind of node that the stage of a keyword becomes.
pub open spec fn stage_kind(k: TokenKind) -> NodeKind {
    match k {
        TokenKind::Irundu => NodeKind::From,
        TokenKind::Vadi => NodeKind::Filter,
        TokenKind::Kani => NodeKind::Derive,
        TokenKind::Adukku => NodeKind::Sort,
        TokenKind::Edu => NodeKind::Take,
        TokenKind::Thoguppu => NodeKind::Group,
        TokenKind::Surukku => NodeKind::Aggregate,
        TokenKind::Inai => NodeKind::Join,
        _ => NodeKind::Project,
    }
}

/// The nodes of a stage end with that of the stage itself, and only names of a column list
/// have a link, each to the name behind it.
pub proof fn lemma_stage_nodes(toks: Seq<Token>, at: int, base: int)
    requires
        0 <= base,
    ensures
        stage_nodes(toks, at, base).len() >= 1,
        stage_nodes(toks, at, base).last().kind == stage_kind(peek_at(toks, at).kind),
        stage_nodes(toks, at, base).last().next == NIL,
        base + stage_nodes(toks, at, base).len() < NIL ==> forall|i: int|
            0 <= i < stage_nodes(toks, at, base).len() ==> (#[trigger] stage_nodes(
                toks,
                at,
                base,
            )[i]).next == NIL || (stage_nodes(toks, at, base)[i].next == base + i + 1 && i + 1
                < stage_nodes(toks, at, base).len()),
{
    reveal(stage_nodes);
}

/// The stage node that stage `i` of a pipeline becomes.
pub open spec fn stage_index(
    toks: Seq<Token>,
    old_nodes: Seq<AstNode>,
    starts: Seq<int>,
    i: int,
) -> int {
    lay_pipeline(toks, old_nodes, starts.take(i + 1)).last
}

pub proof fn lemma_layout_last(toks: Seq<Token>, old_nodes: Seq<AstNode>, starts: Seq<int>)
    ensures
        old_nodes.len() <= lay_pipeline(toks, old_nodes, starts).last < lay_pipeline(
            toks,
            old_nodes,
            starts,
        ).nodes.len(),
    decreases starts.len(),
{
    if starts.len() <= 1 {
        lemma_stage_nodes(toks, starts[0], old_nodes.len() as int);
    } else {
        let l1 = lay_pipeline(toks, old_nodes, starts.drop_last());
        lemma_layout_last(toks, old_nodes, starts.drop_last());
        lemma_stage_nodes(toks, starts.last(), l1.nodes.len() as int);
    }
}

proof fn lemma_layout(toks: Seq<Token>, old_nodes: Seq<AstNode>, starts: Seq<int>)
    requires
        starts.len() >= 1,
        lay_pipeline(toks, old_nodes, starts).nodes.len() < NIL,
    ensures
        ({
            let l = lay_pipeline(toks, old_nodes, starts);
            let root = root_index(toks, old_nodes, starts[0]);
            &&& old_nodes.len() <= l.last < l.nodes.len()
            &&& l.last != root
            &&& old_nodes.len() <= root < l.nodes.len()
            &&& l.nodes[l.last].next == NIL
            &&& l.nodes[root] == stage_node(
                NodeKind::Pipeline,
                TokenKind::Eof,
                stage_index(toks, old_nodes, starts, 0),
                NIL as int,
            )
            &&& l.nodes[l.last].kind == stage_kind(peek_at(toks, starts.last()).kind)
            &&& links_forward(old_nodes) ==> links_forward(l.nodes)
        }),
    decreases starts.len(),
{
    let l = lay_pipeline(toks, old_nodes, starts);
    if starts.len() == 1 {
        let base = old_nodes.len() as int;
        lemma_stage_nodes(toks, starts[0], base);
        assert(starts.take(1) =~= starts);
        let ns = stage_nodes(toks, starts[0], base);
        let grown = old_nodes + ns;
        assert(grown[grown.len() - 1] == ns[ns.len() - 1]);
        if links_forward(old_nodes) {
            assert forall|i: int| 0 <= i < l.nodes.len() implies (#[trigger] l.nodes[i]).next == NIL
                || i < l.nodes[i].next < l.nodes.len() by {
                if i < base {
                    assert(l.nodes[i] == old_nodes[i]);
                } else if i < grown.len() {
                    assert(l.nodes[i] == ns[i - base]);
                }
            }
        }
    } else {
        let s1 = starts.drop_last();
        let l1 = lay_pipeline(toks, old_nodes, s1);
        let base = l1.nodes.len() as int;
        lemma_layout_last(toks, old_nodes, s1);
        lemma_stage_nodes(toks, starts.last(), base);
        let ns = stage_nodes(toks, starts.last(), base);
        lemma_layout(toks, old_nodes, s1);
        assert(s1.take(1) =~= starts.take(1));
        let grown = l1.nodes + ns;
        assert(l.nodes[l.last] == ns[ns.len() - 1]);
        if links_forward(old_nodes) {
            assert forall|i: int| 0 <= i < l.nodes.len() implies (#[trigger] l.nodes[i]).next == NIL
                || i < l.nodes[i].next < l.nodes.len() by {
                if i == l1.last {
                } else if i < base {
                    assert(l.nodes[i] == l1.nodes[i]);
                } else {
                    assert(l.nodes[i] == ns[i - base]);
                }
            }
        }
    }
}

/// The root of a parsed pipeline and its first stage are nodes of the layout.
pub proof fn lemma_layout_places(toks: Seq<Token>, old_nodes: Seq<AstNode>, starts: Seq<int>)
    requires
        starts.len() >= 1,
        lay_pipeline(toks, old_nodes, starts).nodes.len() <= AST_CAP,
    ensures
        ({
            let nodes = lay_pipeline(toks, old_nodes, starts).nodes;
            &&& 0 <= root_index(toks, old_nodes, starts[0]) < nodes.len()
            &&& 0 <= stage_index(toks, old_nodes, starts, 0) < nodes.len()
        }),
{
    lemma_layout(toks, old_nodes, starts);
    lemma_layout_shrinks(toks, old_nodes, starts, 1);
    lemma_layout_last(toks, old_nodes, starts.take(1));
}

/// The list links of a parsed pipeline point forward, so every list in it ends.
pub proof fn law_parsed_links_point_forward(
    toks: Seq<Token>,
    old_nodes: Seq<AstNode>,
    starts: Seq<int>,
)
    requires
        starts.len() >= 1,
        links_forward(old_nodes),
        lay_pipeline(toks, old_nodes, starts).nodes.len() <= AST_CAP,
    ensures
        links_forward(lay_pipeline(toks, old_nodes, starts).nodes),
{
    lemma_layout(toks, old_nodes, starts);
}

/// The stages of a parsed pipeline are linked in the order in which they were written: the
/// root leads to the first, each stage to the next, the last to none, and each is of the
/// kind of its keyword.
pub proof fn law_stages_are_linked_in_order(
    toks: Seq<Token>,
    old_nodes: Seq<AstNode>,
    starts: Seq<int>,
    i: int,
)
    requires
        0 <= i < starts.len(),
        lay_pipeline(toks, old_nodes, starts).nodes.len() <= AST_CAP,
    ensures
        ({
            let nodes = lay_pipeline(toks, old_nodes, starts).nodes;
            let root = nodes[root_index(toks, old_nodes, starts[0])];
            let here = nodes[stage_index(toks, old_nodes, starts, i)];
            &&& root.kind == NodeKind::Pipeline
            &&& root.left == stage_index(toks, old_nodes, starts, 0)
            &&& here.kind == stage_kind(peek_at(toks, starts[i]).kind)
            &&& here.next == if i + 1 < starts.len() {
                stage_index(toks, old_nodes, starts, i + 1)
            } else {
                NIL as int
            }
        }),
    decreases starts.len(),
{
    lemma_layout(toks, old_nodes, starts);
    lemma_layout_shrinks(toks, old_nodes, starts, 1);
    lemma_layout(toks, old_nodes, starts.take(1));
    assert(starts.take(starts.len() as int) =~= starts);
    if i + 1 < starts.len() {
        let s1 = starts.drop_last();
        let l1 = lay_pipeline(toks, old_nodes, s1);
        assert(s1 =~= starts.take(starts.len() - 1));
        lemma_layout_shrinks(toks, old_nodes, starts, starts.len() - 1);
        law_stages_are_linked_in_order(toks, old_nodes, s1, i);
        lemma_layout(toks, old_nodes, s1);
        assert(s1.take(i + 1) =~= starts.take(i + 1));
        let id = stage_index(toks, old_nodes, starts, i);
        lemma_layout_shrinks(toks, old_nodes, s1, i + 1);
        lemma_layout(toks, old_nodes, s1.take(i + 1));
        let base = l1.nodes.len() as int;
        let l = lay_pipeline(toks, old_nodes, starts);
        assert(id < base);
        if i + 2 < starts.len() {
            assert(s1.take(i + 2) =~= starts.take(i + 2));
            assert(l1.nodes[id].next != NIL) by {
                lemma_layout_shrinks(toks, old_nodes, starts, i + 2);
                lemma_layout(toks, old_nodes, starts.take(i + 2));
            }
            assert(id != l1.last);
            assert(l.nodes[id] == l1.nodes[id]);
        } else {
            assert(s1.take(i + 1) =~= s1);
            assert(starts.take(i + 2) =~= starts);
            assert(id == l1.last);
        }
    }
}

/// A shorter pipeline takes no more nodes.
proof fn lemma_layout_shrinks(
    toks: Seq<Token>,
    old_nodes: Seq<AstNode>,
    starts: Seq<int>,
    k: int,
)
    requires
        1 <= k <= starts.len(),
    ensures
        lay_pipeline(toks, old_nodes, starts.take(k)).nodes.len() <= lay_pipeline(
            toks,
            old_nodes,
            starts,
        ).nodes.len(),
    decreases starts.len(),
{
    if k == starts.len() {
        assert(starts.take(k) =~= starts);
    } else {
        let s1 = starts.drop_last();
        assert(s1.take(k) =~= starts.take(k));
        lemma_layout_last(toks, old_nodes, s1);
        lemma_layout_shrinks(toks, old_nodes, s1, k);
    }
}

} // verus!
