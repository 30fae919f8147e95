use wut_cursor::{Cursor, Kind};

#[test]
fn first_agrees_with_next() {
    let mut cursor = Cursor::new("ab 12");
    let ahead = cursor.first();
    let token = cursor.next();
    assert_eq!(ahead, token);
    let ahead = cursor.first();
    let token = cursor.next();
    assert_eq!(ahead, token);
}

#[test]
fn peek_does_not_move_the_cursor() {
    let cursor = Cursor::new("a b");
    let len_before = cursor.len();
    let p0 = cursor.peek(0);
    let p1 = cursor.peek(1);
    let p2 = cursor.peek(2);
    let p3 = cursor.peek(3);
    assert_eq!(cursor.len(), len_before);
    assert_eq!(p0.kind, Kind::Ident);
    assert_eq!(p1.kind, Kind::Space { newline: false });
    assert_eq!(p2.kind, Kind::Ident);
    assert_eq!(p3.kind, Kind::Eof);
}

#[test]
fn second_skips_one_token() {
    let cursor = Cursor::new("a b");
    assert_eq!(cursor.second().kind, Kind::Space { newline: false });
    let mut moved = cursor.clone();
    moved.skip();
    assert_eq!(moved.next(), cursor.second());
}

#[test]
fn tokens_returns_the_next_n() {
    let cursor = Cursor::new("a b");
    let tokens: [_; 4] = cursor.tokens();
    assert_eq!(tokens[0].kind, Kind::Ident);
    assert_eq!(tokens[1].kind, Kind::Space { newline: false });
    assert_eq!(tokens[2].kind, Kind::Ident);
    assert_eq!(tokens[3].kind, Kind::Eof);
    assert_eq!(cursor.len(), 3);
}

#[test]
fn skip_discards_one_token() {
    let mut cursor = Cursor::new("ab;");
    cursor.skip();
    assert_eq!(cursor.next().kind, Kind::Semi);
}

#[test]
fn skip_while_skips_matching_tokens() {
    let mut cursor = Cursor::new("  \t abc");
    cursor.skip_while(|token| token.is_space());
    let token = cursor.next();
    assert_eq!(token.kind, Kind::Ident);
    assert_eq!(token.len, 3);
}

#[test]
fn skip_while_stops_at_eof() {
    let mut cursor = Cursor::new("a b");
    cursor.skip_while(|_| true);
    assert!(cursor.is_eof());
    assert!(cursor.next().is_eof());
}

#[test]
fn skip_until_stops_on_match() {
    let mut cursor = Cursor::new("ab cd;x");
    cursor.skip_until(|token| token.kind == Kind::Semi);
    assert_eq!(cursor.next().kind, Kind::Semi);
    assert_eq!(cursor.next().kind, Kind::Ident);
}

#[test]
fn skip_while_char_consumes_matching_chars() {
    let mut cursor = Cursor::new("aaab");
    cursor.skip_while_char(|c| c == 'a');
    assert_eq!(cursor.len(), 1);
    assert_eq!(cursor.first_char(), 'b');
}

#[test]
fn char_primitives() {
    let mut cursor = Cursor::new("xy");
    assert_eq!(cursor.len(), 2);
    assert!(!cursor.is_eof());
    assert_eq!(cursor.first_char(), 'x');
    assert_eq!(cursor.second_char(), 'y');
    assert_eq!(cursor.two_chars(), ['x', 'y']);
    assert_eq!(cursor.next_char(), Some('x'));
    assert_eq!(cursor.first_char(), 'y');
    assert_eq!(cursor.second_char(), '\0');
    assert_eq!(cursor.two_chars(), ['y', '\0']);
    cursor.skip_char();
    assert!(cursor.is_eof());
    assert_eq!(cursor.next_char(), None);
    assert_eq!(cursor.first_char(), '\0');
}

#[test]
fn multibyte_char_lengths() {
    let mut cursor = Cursor::new("é€");
    assert_eq!(cursor.len(), 5);
    assert_eq!(cursor.next_char(), Some('é'));
    assert_eq!(cursor.len(), 3);
    assert_eq!(cursor.next_char(), Some('€'));
    assert_eq!(cursor.len(), 0);
}

#[test]
fn clone_scans_independently() {
    let mut cursor = Cursor::new("a b");
    let mut copy = cursor.clone();
    assert_eq!(cursor.next(), copy.next());
    cursor.skip();
    assert_eq!(copy.len(), 2);
}
