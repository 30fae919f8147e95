use wut_cursor::{Base, Cursor, Kind, LiteralKind, Token};

#[test]
fn test() {
    let source = r#"
#export main
#extern std::print

#def str "hello world!"
#def char '\n'

main:
    mov  r0, 1
    mov  r1, 0b11
    mov  r2, %len[str]
    mov  r3, str
    call std::print
    halt
    "#
    .trim_start();
    let mut cursor = Cursor::new(source);
    let mut index = 0;
    let mut count = 1;
    loop {
        let token = cursor.next();
        let mut end = index + token.len as usize;

        match token.kind {
            // ready-made string parsing
            Kind::Quote => {
                let str = cursor.parse_str_continue();
                end = index + str.len as usize;
            }
            // ready-made character parsing
            Kind::Apostrophe => {
                let char = cursor.parse_char_continue();
                end = index + char.len as usize;
            }
            _ => (),
        };

        let lexeme = &source[index..end];
        println!("{:>3}: {:?}", count, token.kind);
        println!("   |  lexeme: {:?}", lexeme);

        if token.is_eof() {
            break;
        }
        index = end;
        count += 1;
    }
}

#[test]
fn space_with_newline() {
    let mut cursor = Cursor::new(" \t\n ");
    let token = cursor.next();
    assert_eq!(token.kind, Kind::Space { newline: true });
    assert_eq!(token.len, 4);
    assert!(cursor.next().is_eof());
}

#[test]
fn space_without_newline() {
    let mut cursor = Cursor::new("  ");
    let token = cursor.next();
    assert_eq!(token.kind, Kind::Space { newline: false });
    assert_eq!(token.len, 2);
}

#[test]
fn bare_zero() {
    let mut cursor = Cursor::new("0");
    let token = cursor.next();
    assert_eq!(
        token.kind,
        Kind::Literal(LiteralKind::Int { base: Base::Decimal, empty: false })
    );
    assert_eq!(token.len, 1);
}

#[test]
fn empty_hex_prefix() {
    let mut cursor = Cursor::new("0x");
    let token = cursor.next();
    assert_eq!(
        token.kind,
        Kind::Literal(LiteralKind::Int { base: Base::Decimal, empty: true })
    );
    assert_eq!(token.len, 2);
}

#[test]
fn binary_literal() {
    let mut cursor = Cursor::new("0b101");
    let token = cursor.next();
    assert_eq!(
        token.kind,
        Kind::Literal(LiteralKind::Int { base: Base::Binary, empty: false })
    );
    assert_eq!(token.len, 5);
}

#[test]
fn decimal_float() {
    let mut cursor = Cursor::new("3.14");
    let token = cursor.next();
    assert_eq!(token.kind, Kind::Literal(LiteralKind::Float { base: Base::Decimal }));
    assert_eq!(token.len, 4);
}

#[test]
fn trailing_dot_is_not_a_float() {
    let mut cursor = Cursor::new("3.");
    let token = cursor.next();
    assert_eq!(
        token.kind,
        Kind::Literal(LiteralKind::Int { base: Base::Decimal, empty: false })
    );
    assert_eq!(token.len, 1);
    let dot = cursor.next();
    assert_eq!(dot.kind, Kind::Dot);
    assert_eq!(dot.len, 1);
    assert!(cursor.next().is_eof());
}

#[test]
fn hexadecimal_float() {
    let mut cursor = Cursor::new("0x1.f");
    let token = cursor.next();
    assert_eq!(token.kind, Kind::Literal(LiteralKind::Float { base: Base::Hexadecimal }));
    assert_eq!(token.len, 5);
}

#[test]
fn octal_literal() {
    let mut cursor = Cursor::new("0o17");
    let token = cursor.next();
    assert_eq!(
        token.kind,
        Kind::Literal(LiteralKind::Int { base: Base::Octal, empty: false })
    );
    assert_eq!(token.len, 4);
}

#[test]
fn underscore_separators() {
    let mut cursor = Cursor::new("1_000");
    let token = cursor.next();
    assert_eq!(
        token.kind,
        Kind::Literal(LiteralKind::Int { base: Base::Decimal, empty: false })
    );
    assert_eq!(token.len, 5);
}

#[test]
fn underscores_only_prefix_is_empty() {
    let mut cursor = Cursor::new("0x__");
    let token = cursor.next();
    assert_eq!(
        token.kind,
        Kind::Literal(LiteralKind::Int { base: Base::Decimal, empty: true })
    );
    assert_eq!(token.len, 4);
}

#[test]
fn binary_literal_consumes_hex_digits() {
    let mut cursor = Cursor::new("0b12.5");
    let token = cursor.next();
    assert_eq!(token.kind, Kind::Literal(LiteralKind::Float { base: Base::Binary }));
    assert_eq!(token.len, 6);
}

#[test]
fn zero_dot_is_split() {
    let mut cursor = Cursor::new("0.5");
    let zero = cursor.next();
    assert_eq!(
        zero.kind,
        Kind::Literal(LiteralKind::Int { base: Base::Decimal, empty: false })
    );
    assert_eq!(zero.len, 1);
    assert_eq!(cursor.next().kind, Kind::Dot);
    let five = cursor.next();
    assert_eq!(
        five.kind,
        Kind::Literal(LiteralKind::Int { base: Base::Decimal, empty: false })
    );
    assert_eq!(five.len, 1);
}

#[test]
fn zero_followed_by_digits() {
    let mut cursor = Cursor::new("09");
    let token = cursor.next();
    assert_eq!(
        token.kind,
        Kind::Literal(LiteralKind::Int { base: Base::Decimal, empty: false })
    );
    assert_eq!(token.len, 2);
}

#[test]
fn plain_identifier() {
    let mut cursor = Cursor::new("hello");
    let token = cursor.next();
    assert_eq!(token.kind, Kind::Ident);
    assert_eq!(token.len, 5);
}

#[test]
fn underscore_identifier() {
    let mut cursor = Cursor::new("_a1");
    let token = cursor.next();
    assert_eq!(token.kind, Kind::Ident);
    assert_eq!(token.len, 3);
}

#[test]
fn non_ascii_reclassifies_identifier() {
    let mut cursor = Cursor::new("héllo");
    let token = cursor.next();
    assert_eq!(token.kind, Kind::InvalidIdent);
    assert_eq!(token.len, 6);
    assert!(cursor.next().is_eof());
}

#[test]
fn reclassified_run_stops_at_underscore() {
    let mut cursor = Cursor::new("a_é_b");
    let token = cursor.next();
    assert_eq!(token.kind, Kind::InvalidIdent);
    assert_eq!(token.len, 4);
    let tail = cursor.next();
    assert_eq!(tail.kind, Kind::Ident);
    assert_eq!(tail.len, 2);
}

#[test]
fn non_ascii_leading_char() {
    let mut cursor = Cursor::new("€");
    let token = cursor.next();
    assert_eq!(token.kind, Kind::InvalidIdent);
    assert_eq!(token.len, 3);
}

#[test]
fn unknown_char() {
    let mut cursor = Cursor::new("`");
    let token = cursor.next();
    assert_eq!(token.kind, Kind::Unknown);
    assert_eq!(token.len, 1);
}

#[test]
fn unknown_char_absorbs_non_ascii_tail() {
    let mut cursor = Cursor::new("`é");
    let token = cursor.next();
    assert_eq!(token.kind, Kind::Unknown);
    assert_eq!(token.len, 3);
}

#[test]
fn punctuation_kinds() {
    let cases: Vec<(&str, Kind)> = vec![
        ("\"", Kind::Quote),
        ("'", Kind::Apostrophe),
        (";", Kind::Semi),
        (":", Kind::Colon),
        (",", Kind::Comma),
        (".", Kind::Dot),
        ("@", Kind::At),
        ("#", Kind::Pound),
        ("~", Kind::Tilde),
        ("?", Kind::Question),
        ("$", Kind::Dollar),
        ("=", Kind::Eq),
        ("!", Kind::Bang),
        ("<", Kind::Lt),
        (">", Kind::Gt),
        ("&", Kind::And),
        ("|", Kind::Or),
        ("+", Kind::Plus),
        ("-", Kind::Minus),
        ("*", Kind::Star),
        ("/", Kind::Slash),
        ("^", Kind::Caret),
        ("%", Kind::Percent),
        ("(", Kind::OpenParen),
        (")", Kind::CloseParen),
        ("{", Kind::OpenBrace),
        ("}", Kind::CloseBrace),
        ("[", Kind::OpenBracket),
        ("]", Kind::CloseBracket),
    ];
    for (text, expected) in cases {
        let mut cursor = Cursor::new(text);
        let token = cursor.next();
        assert_eq!(token.kind, expected);
        assert_eq!(token.len, 1);
        assert!(cursor.next().is_eof());
    }
}

#[test]
fn token_lengths_cover_the_input() {
    let source = "let x = 0x2a; // résultat\nprint(x)";
    let mut cursor = Cursor::new(source);
    let mut total: usize = 0;
    let mut rounds = 0;
    loop {
        let token = cursor.next();
        if token.is_eof() {
            assert_eq!(token.len, 0);
            break;
        }
        total += token.len as usize;
        rounds += 1;
        assert!(rounds <= source.len());
    }
    assert_eq!(total, source.len());
}

#[test]
fn eof_is_idempotent() {
    let mut cursor = Cursor::new("a");
    assert_eq!(cursor.next().kind, Kind::Ident);
    for _ in 0..3 {
        let token = cursor.next();
        assert_eq!(token.kind, Kind::Eof);
        assert_eq!(token.len, 0);
    }
    assert!(cursor.is_eof());
    assert_eq!(cursor.len(), 0);
}

#[test]
fn token_predicates() {
    let eof = Token::new(Kind::Eof, 0);
    assert!(eof.is_eof());
    assert!(!eof.is_space());
    assert!(!eof.like_ident());
    let ident = Token::new(Kind::Ident, 3);
    assert!(ident.like_ident());
    assert!(!ident.is_eof());
    let invalid = Token::new(Kind::InvalidIdent, 2);
    assert!(invalid.like_ident());
    let nl = Token::new(Kind::Space { newline: true }, 1);
    assert!(nl.is_space());
    assert!(nl.is_newline());
    let sp = Token::new(Kind::Space { newline: false }, 1);
    assert!(sp.is_space());
    assert!(!sp.is_newline());
    assert!(Kind::Eof.is_eof());
    assert!(Kind::Ident.like_ident());
    assert!(Kind::Space { newline: false }.is_space());
    assert!(Kind::Space { newline: true }.is_newline());
    assert!(!Kind::Dot.is_newline());
}

#[test]
fn nul_byte_scans_as_unknown() {
    let mut cursor = Cursor::new("\0");
    let token = cursor.next();
    assert_eq!(token.kind, Kind::Unknown);
    assert_eq!(token.len, 1);
    assert!(cursor.next().is_eof());
}

#[test]
fn base_order() {
    assert!(Base::Binary < Base::Octal);
    assert!(Base::Octal < Base::Decimal);
    assert!(Base::Decimal < Base::Hexadecimal);
}
