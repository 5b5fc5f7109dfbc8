//! Trees, their links, and what the grammar refuses.

use tamil_query_engine::{
    alloc_token_window, parse_query, AstArena, AstNode, NodeKind, Parser, ParserError, TokenKind,
    AST_CAP, NIL,
};

#[test]
fn parses_demo_pipeline() {
    let q = "இருந்து பயனர்கள் | வடி வயது > 21 | அடுக்கு வயது | எடு 10 | தேடு பெயர், வயது;";
    let mut arena = AstArena::new();
    let mut window = alloc_token_window();
    let root = parse_query(q.as_bytes(), &mut arena, &mut window).expect("parse");
    let pipe = arena.get(root).unwrap();
    assert_eq!(pipe.kind, NodeKind::Pipeline);
    let mut stage = pipe.left;
    let mut kinds = [NodeKind::Empty; 8];
    let mut n = 0usize;
    while stage != NIL && n < 8 {
        kinds[n] = arena.get(stage).unwrap().kind;
        stage = arena.get(stage).unwrap().next;
        n += 1;
    }
    assert_eq!(kinds[0], NodeKind::From);
    assert_eq!(kinds[1], NodeKind::Filter);
    assert_eq!(kinds[2], NodeKind::Sort);
    assert_eq!(kinds[3], NodeKind::Take);
    assert_eq!(kinds[4], NodeKind::Project);
    assert_eq!(n, 5);
}

#[test]
fn arena_overflow_returns_defensive_error() {
    let q = "இருந்து பயனர்கள் | வடி வயது > 21 | அடுக்கு வயது | எடு 10 | தேடு பெயர், வயது;";
    let mut arena = AstArena::new();
    arena.len = AST_CAP as u32;
    let mut window = alloc_token_window();
    let err = parse_query(q.as_bytes(), &mut arena, &mut window).expect_err("must overflow");
    assert_eq!(err, ParserError::ArenaOverflow);
    assert!(arena.is_full());
}

#[test]
fn missing_source_context_without_irundu() {
    let q = "வடி வயது > 21 | எடு 10;";
    let mut arena = AstArena::new();
    let mut window = alloc_token_window();
    let err = parse_query(q.as_bytes(), &mut arena, &mut window).expect_err("need source");
    assert_eq!(err, ParserError::MissingSourceContext);
}

fn parse(q: &str) -> Result<(Box<AstArena>, u32), ParserError> {
    let mut arena = Box::new(AstArena::new());
    let mut window = alloc_token_window();
    let root = parse_query(q.as_bytes(), &mut arena, &mut window)?;
    Ok((arena, root))
}

#[test]
fn refused_pipelines_name_their_error() {
    let cases = [
        ("", ParserError::EmptyInput),
        ("இருந்து", ParserError::UnexpectedToken),
        ("இருந்து a |", ParserError::UnexpectedToken),
        ("இருந்து a | ;", ParserError::UnexpectedToken),
        ("இருந்து a b", ParserError::UnexpectedToken),
        ("இருந்து a | வடி b * 3", ParserError::UnexpectedToken),
        ("இருந்து a | வடி b > c", ParserError::UnexpectedToken),
        ("இருந்து a | எடு 99999999999999999999", ParserError::NumberLiteralOverflow),
        ("இருந்து a | கணி b = 99999999999999999999", ParserError::NumberLiteralOverflow),
        ("இருந்து a | கணி b 3", ParserError::UnexpectedToken),
        ("இருந்து a | தேடு b,", ParserError::UnexpectedToken),
        ("இருந்து a | இணை b எங்கே c", ParserError::UnexpectedToken),
    ];
    for (q, want) in cases {
        match parse(q) {
            Ok(_) => panic!("{q} must be refused"),
            Err(e) => assert_eq!(e, want, "{q}"),
        }
    }
    let long = ";".repeat(9000);
    assert_eq!(parse(&long).map(|_| ()), Err(ParserError::LexTokenBufferFull));
}

#[test]
fn derive_takes_an_operator_or_a_bare_operand() {
    let (arena, root) = parse("இருந்து a | கணி b = c - 4 | கணி d = e").unwrap();
    let from = arena.get(arena.get(root).unwrap().left).unwrap();
    let first = arena.get(from.next).unwrap();
    assert_eq!(first.kind, NodeKind::Derive);
    let expr = arena.get(first.right).unwrap();
    assert_eq!((expr.kind, expr.op), (NodeKind::BinOp, TokenKind::Minus));
    assert_eq!(arena.get(expr.left).unwrap().kind, NodeKind::Ident);
    let lit = arena.get(expr.right).unwrap();
    assert_eq!((lit.kind, lit.value), (NodeKind::Literal, 4));
    let second = arena.get(first.next).unwrap();
    assert_eq!(arena.get(second.right).unwrap().kind, NodeKind::Ident);
    assert_eq!(second.next, NIL);
}

#[test]
fn a_join_keeps_its_condition() {
    let (arena, root) = parse("இருந்து a | இணை b எங்கே c = d | எடு 3;").unwrap();
    let from = arena.get(arena.get(root).unwrap().left).unwrap();
    let join = arena.get(from.next).unwrap();
    assert_eq!(join.kind, NodeKind::Join);
    let cond = arena.get(join.right).unwrap();
    assert_eq!((cond.kind, cond.op), (NodeKind::BinOp, TokenKind::Eq));
    assert_eq!(arena.get(join.next).unwrap().value, 3);
}

#[test]
fn column_lists_are_linked_in_order() {
    let src = "இருந்து a | தேடு x, y, z;";
    let (arena, root) = parse(src).unwrap();
    let from = arena.get(arena.get(root).unwrap().left).unwrap();
    let project = arena.get(from.next).unwrap();
    let mut id = project.left;
    let mut names = Vec::new();
    let mut kinds = Vec::new();
    while let Some(n) = arena.get(id) {
        names.push(&src[n.start as usize..n.end as usize]);
        kinds.push(n.kind);
        id = n.next;
    }
    assert_eq!(names, ["x", "y", "z"]);
    assert_eq!(kinds, [NodeKind::ColumnList, NodeKind::Ident, NodeKind::Ident]);
}

#[test]
fn nodes_are_added_behind_those_already_there() {
    let mut arena = AstArena::new();
    assert_eq!(arena.alloc_node(AstNode::empty()), Some(0));
    let mut window = alloc_token_window();
    let root = parse_query("இருந்து a".as_bytes(), &mut arena, &mut window).unwrap();
    assert_eq!(root, 3);
    assert_eq!(arena.get(0).unwrap().kind, NodeKind::Empty);
    assert_eq!(arena.get(3).unwrap().left, 2);
    arena.get_mut(0).unwrap().value = 7;
    assert_eq!(arena.get(0).unwrap().value, 7);
    assert!(arena.get(NIL).is_none());
    assert!(arena.get_mut(4).is_none());
}

#[test]
fn a_parser_can_be_made_from_source() {
    let mut parser = Parser::from_source("இருந்து a".as_bytes());
    let mut arena = Box::new(AstArena::new());
    assert_eq!(parser.parse_pipeline(&mut arena), Ok(2));
    assert_eq!(parser.source(), "இருந்து a".as_bytes());
    let mut broken = Parser::from_source(&[0xFF]);
    assert_eq!(broken.parse_pipeline(&mut arena), Err(ParserError::EmptyInput));
    assert!(Parser::try_from_source(&[0xFF]).is_err());
}

#[test]
fn a_pipeline_without_a_source_leaves_the_arena_alone() {
    let mut arena = Box::new(AstArena::new());
    let mut window = alloc_token_window();
    assert_eq!(parse_query("இருந்து a".as_bytes(), &mut arena, &mut window), Ok(2));
    let before = (arena.len, arena.root);
    let cases = [
        ("", ParserError::EmptyInput),
        ("வடி வயது > 21", ParserError::MissingSourceContext),
        ("; இருந்து a", ParserError::MissingSourceContext),
    ];
    for (q, want) in cases {
        assert_eq!(parse_query(q.as_bytes(), &mut arena, &mut window), Err(want), "{q}");
        assert_eq!((arena.len, arena.root), before, "{q}");
        assert_eq!(Parser::from_source(q.as_bytes()).parse_pipeline(&mut arena), Err(want));
        assert_eq!((arena.len, arena.root), before, "{q}");
    }
    let mut broken = Parser::from_source(&[0xFF]);
    assert_eq!(broken.source(), &[0xFF]);
    assert_eq!(broken.parse_pipeline(&mut arena), Err(ParserError::EmptyInput));
    assert_eq!((arena.len, arena.root), before);
}

#[test]
fn a_refused_stage_leaves_the_nodes_before_the_failure() {
    let left = |q: &str| {
        let mut arena = Box::new(AstArena::new());
        let mut window = alloc_token_window();
        assert!(parse_query(q.as_bytes(), &mut arena, &mut window).is_err(), "{q}");
        assert_eq!(arena.root, NIL);
        (0..arena.len)
            .map(|i| (arena.get(i).unwrap().kind, arena.get(i).unwrap().next))
            .collect::<Vec<_>>()
    };
    let source = [(NodeKind::Ident, NIL), (NodeKind::From, NIL), (NodeKind::Pipeline, NIL)];
    let with = |more: &[(NodeKind, u32)]| [&source[..], more].concat();
    assert_eq!(left("இருந்து"), vec![]);
    assert_eq!(left("இருந்து a b"), with(&[]));
    assert_eq!(left("இருந்து a |"), with(&[]));
    assert_eq!(left("இருந்து a | வடி b * 3"), with(&[(NodeKind::Ident, NIL)]));
    assert_eq!(
        left("இருந்து a | கணி b = 1 +"),
        with(&[(NodeKind::Ident, NIL), (NodeKind::Literal, NIL)])
    );
    // The names of a list that breaks off are linked, and the first is not yet marked.
    assert_eq!(
        left("இருந்து a | தேடு b, c, 3"),
        with(&[(NodeKind::Ident, 4), (NodeKind::Ident, NIL)])
    );
    // Stages before the one that fails are linked.
    let two = left("இருந்து a | எடு 3 | எடு x");
    assert_eq!(two.len(), 4);
    assert_eq!((two[1], two[3]), ((NodeKind::From, 3), (NodeKind::Take, NIL)));
}

#[test]
fn a_parser_stands_where_it_failed() {
    let mut parser = Parser::from_source("இருந்து a | வடி b * 3".as_bytes());
    let mut arena = Box::new(AstArena::new());
    assert_eq!(parser.parse_pipeline(&mut arena), Err(ParserError::UnexpectedToken));
    // Behind the operator that does not compare.
    assert_eq!(parser.cursor, 6);
    assert_eq!(parser.expect_number().map(|t| t.number), Ok(3));
    assert_eq!(parser.expect_number().map(|t| t.number), Err(ParserError::UnexpectedToken));
    let mut over = Parser::from_source("99999999999999999999 7".as_bytes());
    assert_eq!(over.expect_number().map(|t| t.number), Err(ParserError::NumberLiteralOverflow));
    assert_eq!(over.expect_number().map(|t| t.number), Ok(7));
}
