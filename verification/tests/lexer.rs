//! Tokens, keywords and torn syllables.

use tamil_query_engine::{alloc_token_window, Lexer, LexerError, TokenKind};

#[test]
fn lexes_pipeline_keywords() {
    let q = "இருந்து பயனர்கள் | வடி வயது > 21 | அடுக்கு வயது | எடு 10 | தேடு பெயர், வயது;";
    let mut lex = Lexer::new(q.as_bytes());
    let mut buf = alloc_token_window();
    let n = lex.tokenize_into(&mut buf).expect("tokenize");
    assert!(n > 10);
    assert_eq!(buf[0].kind, TokenKind::Irundu);
    assert_eq!(buf[1].kind, TokenKind::Ident);
    assert_eq!(buf[1].text(q.as_bytes()), Some("பயனர்கள்"));
    assert_eq!(buf[2].kind, TokenKind::Pipe);
    assert_eq!(buf[3].kind, TokenKind::Vadi);
    let thedu = buf.iter().find(|t| t.kind == TokenKind::Thedu).unwrap();
    assert_eq!(thedu.text(q.as_bytes()), Some("தேடு"));
}

#[test]
fn mid_syllable_the_cut_returns_malformed_utf8_with_cursor() {
    let full = "தே".as_bytes();
    assert_eq!(full.len(), 6);
    let truncated = &full[..4];
    let mut lex = Lexer::new(truncated);
    let err = lex.next_token().expect_err("must reject torn தே");
    assert_eq!(err, LexerError::MalformedUtf8(0));
}

#[test]
fn maximal_munch_keeps_vadivamaippu_as_ident() {
    let s = "வடிவமைப்பு";
    let mut lex = Lexer::new(s.as_bytes());
    let tok = lex.next_token().expect("lex");
    assert_eq!(tok.kind, TokenKind::Ident);
    assert_eq!(tok.text(s.as_bytes()), Some("வடிவமைப்பு"));
    let mut lex2 = Lexer::new("வடி".as_bytes());
    assert_eq!(lex2.next_token().unwrap().kind, TokenKind::Vadi);
}

#[test]
fn every_keyword_is_recognised() {
    let words = [
        ("இருந்து", TokenKind::Irundu),
        ("வடி", TokenKind::Vadi),
        ("கணி", TokenKind::Kani),
        ("அடுக்கு", TokenKind::Adukku),
        ("எடு", TokenKind::Edu),
        ("தொகுப்பு", TokenKind::Thoguppu),
        ("சுருக்கு", TokenKind::Surukku),
        ("இணை", TokenKind::Inai),
        ("எங்கே", TokenKind::Enge),
        ("தேடு", TokenKind::Thedu),
    ];
    let mut code = 0u8;
    for (word, kind) in words {
        let mut lex = Lexer::new(word.as_bytes());
        let tok = lex.next_token().unwrap();
        assert_eq!(tok.kind, kind, "{word}");
        assert_eq!(tok.kind.as_u8(), code);
        assert_eq!(tok.text(word.as_bytes()), Some(word));
        code += 1;
    }
}

#[test]
fn numbers_that_do_not_fit_carry_the_overflow_mark() {
    let mut lex = Lexer::new(b"9223372036854775807 9223372036854775808 0012 99999999999999999999999");
    assert_eq!(lex.next_token().unwrap().number, i64::MAX);
    assert_eq!(lex.next_token().unwrap().number, i64::MIN);
    assert_eq!(lex.next_token().unwrap().number, 12);
    assert_eq!(lex.next_token().unwrap().number, i64::MIN);
}

#[test]
fn a_fault_stays() {
    let torn = &"வயது தேடு".as_bytes()[..17];
    let mut lex = Lexer::new(torn);
    assert_eq!(lex.next_token().unwrap().kind, TokenKind::Ident);
    assert_eq!(lex.next_token(), Err(LexerError::MalformedUtf8(13)));
    assert_eq!(lex.next_token(), Err(LexerError::MalformedUtf8(13)));
    assert_eq!(lex.last_error(), Some(LexerError::MalformedUtf8(13)));
}

#[test]
fn overlong_encodings_are_malformed() {
    let mut lex = Lexer::new(&[0xC0, 0x80]);
    assert_eq!(lex.next_token(), Err(LexerError::MalformedUtf8(0)));
    assert_eq!(lex.position(), 2);
    let mut surrogate = Lexer::new(&[0xED, 0xA0, 0x80]);
    assert_eq!(surrogate.next_token(), Err(LexerError::MalformedUtf8(0)));
}

#[test]
fn a_full_window_is_reported() {
    let src = vec![b';'; 9000];
    let mut lex = Lexer::new(&src);
    let mut window = alloc_token_window();
    assert_eq!(lex.tokenize_into(&mut window), Err(LexerError::TokenBufferFull));
    assert_eq!(window[8190].kind, TokenKind::Semi);
    assert_eq!(window[8191].kind, TokenKind::Eof);
    assert_eq!(lex.last_error(), None);
}

#[test]
fn an_error_token_covers_one_byte() {
    let mut lex = Lexer::new(&[b'a', b' ', 0xFF, b'b']);
    assert_eq!(lex.next().unwrap().kind, TokenKind::Ident);
    let bad = lex.next().unwrap();
    assert_eq!((bad.kind, bad.start, bad.end), (TokenKind::Error, 2, 3));
    let more = lex.next().unwrap();
    assert_eq!((more.kind, more.start, more.end), (TokenKind::Error, 3, 4));
    let last = lex.next().unwrap();
    assert_eq!((last.kind, last.start, last.end), (TokenKind::Error, 4, 4));
}
