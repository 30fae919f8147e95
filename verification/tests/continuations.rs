use wut_cursor::{Cursor, Kind};

#[test]
fn string_continuation_round_trip() {
    let source = "\"ab\\\"c\"";
    let mut cursor = Cursor::new(source);
    let token = cursor.next();
    assert_eq!(token.kind, Kind::Quote);
    assert_eq!(token.len, 1);
    let str = cursor.parse_str_continue();
    assert!(str.terminated);
    assert_eq!(str.len as usize, source.len());
    assert!(cursor.next().is_eof());
}

#[test]
fn unterminated_string() {
    let mut cursor = Cursor::new("\"abc");
    assert_eq!(cursor.next().kind, Kind::Quote);
    let str = cursor.parse_str_continue();
    assert!(!str.terminated);
    assert_eq!(str.len, 4);
    assert!(cursor.is_eof());
}

#[test]
fn string_with_newline() {
    let source = "\"a\nb\"x";
    let mut cursor = Cursor::new(source);
    assert_eq!(cursor.next().kind, Kind::Quote);
    let str = cursor.parse_str_continue();
    assert!(str.terminated);
    assert_eq!(str.len, 5);
    assert_eq!(cursor.next().kind, Kind::Ident);
}

#[test]
fn escape_at_end_of_input() {
    let mut cursor = Cursor::new("\"a\\");
    assert_eq!(cursor.next().kind, Kind::Quote);
    let str = cursor.parse_str_continue();
    assert!(!str.terminated);
    assert_eq!(str.len, 3);
}

#[test]
fn one_symbol_char() {
    let source = "'a'";
    let mut cursor = Cursor::new(source);
    let token = cursor.next();
    assert_eq!(token.kind, Kind::Apostrophe);
    assert_eq!(token.len, 1);
    let char = cursor.parse_char_continue();
    assert!(char.terminated);
    assert!(char.is_one_symbol);
    assert_eq!(char.len as usize, source.len());
}

#[test]
fn multi_symbol_char() {
    let mut cursor = Cursor::new("'ab'");
    assert_eq!(cursor.next().kind, Kind::Apostrophe);
    let char = cursor.parse_char_continue();
    assert!(char.terminated);
    assert!(!char.is_one_symbol);
    assert_eq!(char.len, 4);
}

#[test]
fn char_aborts_at_newline() {
    let mut cursor = Cursor::new("'a\n");
    assert_eq!(cursor.next().kind, Kind::Apostrophe);
    let char = cursor.parse_char_continue();
    assert!(!char.terminated);
    assert!(!char.is_one_symbol);
    assert_eq!(char.len, 2);
    assert_eq!(cursor.next().kind, Kind::Space { newline: true });
}

#[test]
fn escaped_char() {
    let source = "'\\n'";
    let mut cursor = Cursor::new(source);
    assert_eq!(cursor.next().kind, Kind::Apostrophe);
    let char = cursor.parse_char_continue();
    assert!(char.terminated);
    assert!(char.is_one_symbol);
    assert_eq!(char.len as usize, source.len());
}

#[test]
fn unterminated_char_at_eof() {
    let mut cursor = Cursor::new("'ab");
    assert_eq!(cursor.next().kind, Kind::Apostrophe);
    let char = cursor.parse_char_continue();
    assert!(!char.terminated);
    assert!(!char.is_one_symbol);
    assert_eq!(char.len, 3);
}

#[test]
fn parse_space_reports_newline_and_length() {
    let mut cursor = Cursor::new("  \n x");
    let space = cursor.parse_space();
    assert!(space.newline);
    assert_eq!(space.len, 4);
    assert_eq!(cursor.next().kind, Kind::Ident);
}

#[test]
fn parse_space_on_non_space() {
    let mut cursor = Cursor::new("x");
    let space = cursor.parse_space();
    assert!(!space.newline);
    assert_eq!(space.len, 0);
    assert_eq!(cursor.next().kind, Kind::Ident);
}
