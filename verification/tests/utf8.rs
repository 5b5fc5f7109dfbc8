//! Bytes of Tamil text: characters, signs and words.

use tamil_query_engine::utf8::{
    checked_char_end, decode_tamil_cp, extend_grapheme_cluster, extend_grapheme_cluster_checked,
    is_continuation, is_digit, is_op, is_tamil_combining, is_tamil_consonant, is_tamil_lead, is_ws,
    next_char_boundary, scan_ident_end, scan_ident_end_checked, str_from_parent, utf8_len,
    Utf8ScanStatus,
};

#[test]
fn bytes_are_classified() {
    let lens: Vec<usize> = [0x00u8, 0x7F, 0x80, 0xBF, 0xC0, 0xDF, 0xE0, 0xEF, 0xF0, 0xF7, 0xF8, 0xFF]
        .iter()
        .map(|&b| utf8_len(b))
        .collect();
    assert_eq!(lens, [1, 1, 0, 0, 2, 2, 3, 3, 4, 4, 0, 0]);
    for b in 0..=255u8 {
        assert_eq!(is_ws(b), b" \t\n\r\x0b\x0c".contains(&b));
        assert_eq!(is_digit(b), b.is_ascii_digit());
        assert_eq!(is_op(b), b"|=><,;*+-".contains(&b));
        assert_eq!(is_continuation(b), b & 0xC0 == 0x80);
    }
}

#[test]
fn tamil_letters_and_signs_are_told_apart() {
    let ka = "க".as_bytes();
    assert!(is_tamil_lead(ka[0], ka[1]));
    let cp = decode_tamil_cp(ka[0], ka[1], ka[2]);
    assert_eq!(cp, 0x0B95);
    assert!(is_tamil_consonant(cp) && !is_tamil_combining(cp));
    let virama = "்".as_bytes();
    let cp = decode_tamil_cp(virama[0], virama[1], virama[2]);
    assert_eq!(cp, 0x0BCD);
    assert!(is_tamil_combining(cp) && !is_tamil_consonant(cp));
    assert!(is_tamil_combining(0x0BD7) && !is_tamil_combining(0x0BD8));
    assert!(!is_tamil_lead(0xE0, 0xA4));
}

#[test]
fn characters_end_where_they_should() {
    let s = "aதே".as_bytes();
    assert_eq!(checked_char_end(s, 0), Ok(1));
    assert_eq!(checked_char_end(s, 1), Ok(4));
    assert_eq!(checked_char_end(s, 2), Err(Utf8ScanStatus::Malformed));
    assert_eq!(checked_char_end(&s[..3], 1), Err(Utf8ScanStatus::Malformed));
    assert_eq!(checked_char_end(s, 99), Err(Utf8ScanStatus::Malformed));
    assert_eq!(next_char_boundary(s, 1), 4);
    assert_eq!(next_char_boundary(s, 2), 3);
    assert_eq!(next_char_boundary(s, 7), 7);
    assert_eq!(next_char_boundary(s, 40), 7);
}

#[test]
fn syllables_keep_their_signs() {
    let s = "தேடு".as_bytes();
    assert_eq!(extend_grapheme_cluster_checked(s, 3), Ok(6));
    assert_eq!(extend_grapheme_cluster(s, 3), 6);
    assert_eq!(extend_grapheme_cluster_checked(s, 12), Ok(12));
    assert_eq!(extend_grapheme_cluster_checked(&s[..5], 3), Err(Utf8ScanStatus::Malformed));
    let words = "தேடு வயது".as_bytes();
    assert_eq!(scan_ident_end_checked(words, 0), Ok(12));
    assert_eq!(scan_ident_end(words, 13), words.len());
    assert_eq!(scan_ident_end_checked(&words[..4], 0), Err(Utf8ScanStatus::Malformed));
    assert_eq!(scan_ident_end(&words[..4], 0), 0);
    assert_eq!(scan_ident_end_checked("ab|c".as_bytes(), 0), Ok(2));
}

#[test]
fn text_is_cut_out_only_where_it_is_text() {
    let s = "aதே".as_bytes();
    assert_eq!(str_from_parent(s, 1, 7), Some("தே"));
    assert_eq!(str_from_parent(s, 0, 0), Some(""));
    assert_eq!(str_from_parent(s, 2, 7), None);
    assert_eq!(str_from_parent(s, 3, 1), None);
    assert_eq!(str_from_parent(s, 0, 8), None);
}
