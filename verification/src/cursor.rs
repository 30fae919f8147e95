//! The cursor: a forward-only scanner over a character sequence. It
//! classifies the text into tokens (see [`crate::scan::next_token`] for the
//! exact classification), exposes character-level primitives and token
//! lookahead, and offers opt-in continuation scanners for quoted string and
//! character literals.

use vstd::prelude::*;

use crate::scan::bytes_len;
use crate::scan::char_bytes;
use crate::scan::char_continue;
use crate::scan::char_continue_from;
use crate::scan::char_utf8_bytes;
use crate::scan::class_holds;
use crate::scan::class_run;
use crate::scan::class_test;
use crate::scan::float_extra;
use crate::scan::has_char;
use crate::scan::has_dec_digit;
use crate::scan::has_hex_digit;
use crate::scan::lemma_has_dec_digit_snoc;
use crate::scan::ident_continue_scan;
use crate::scan::is_ascii;
use crate::scan::is_dec_digit;
use crate::scan::is_dec_digit_char;
use crate::scan::is_hex_digit;
use crate::scan::is_ident_start;
use crate::scan::is_whitespace;
use crate::scan::lemma_bytes_len_encode;
use crate::scan::lemma_bytes_len_split;
use crate::scan::lemma_class_run_is;
use crate::scan::lemma_has_char_cons;
use crate::scan::lemma_has_char_snoc;
use crate::scan::lemma_has_hex_digit_snoc;
use crate::scan::lemma_next_token_progress;
use crate::scan::next_token;
use crate::scan::next_token_chars;
use crate::scan::next_token_kind;
use crate::scan::rest_after;
use crate::scan::rest_after_n;
use crate::scan::space_continue;
use crate::scan::spec_token;
use crate::scan::str_continue;
use crate::scan::with_base_scan;
use crate::scan::CharClass;
use crate::token::Base;
use crate::token::Kind;
use crate::token::LiteralKind;
use crate::token::Token;

verus! {

broadcast use vstd::string::group_string_axioms;

/// A lightweight forward-only scanner over a character sequence. Its view
/// is the sequence of characters not yet consumed; it advances
/// monotonically and never looks backward.
pub struct Cursor {
    chars: Vec<char>,
    pos: usize,
    bytes_left: usize,
}

impl View for Cursor {
    type V = Seq<char>;

    /// The characters not yet consumed.
    closed spec fn view(&self) -> Seq<char> {
        self.chars@.skip(self.pos as int)
    }
}

impl Cursor {
    /// Well-formedness: the position stays inside the buffer, the byte
    /// count tracks the remaining characters exactly, and the remaining
    /// text is small enough for every token length to fit in `u32`.
    pub closed spec fn wf(&self) -> bool {
        &&& self.pos <= self.chars@.len()
        &&& self.bytes_left == bytes_len(self@)
        &&& bytes_len(self@) < u32::MAX
    }

    /// Wraps the full source text; accepts any content. The length bound
    /// is forced by the `u32` token lengths the scanner reports.
    pub fn new(source: &str) -> (cursor: Cursor)
        requires
            bytes_len(source@) < u32::MAX,
        ensures
            cursor.wf(),
            cursor@ == source@,
    {
        let bytes_left = source.len();
        proof {
            lemma_bytes_len_encode(source@);
        }
        let mut chars: Vec<char> = Vec::new();
        for c in it: source.chars()
            invariant
                chars@ == it.seq().take(it.index() as int),
        {
            chars.push(c);
        }
        proof {
            assert(chars@ =~= source@);
        }
        let cursor = Cursor { chars, pos: 0, bytes_left };
        proof {
            assert(cursor@ =~= source@);
        }
        cursor
    }

    /// The number of bytes left in the remaining input.
    pub fn len(&self) -> (n: usize)
        requires
            self.wf(),
        ensures
            n == bytes_len(self@),
    {
        self.bytes_left
    }

    /// Whether the remaining input is empty.
    pub fn is_eof(&self) -> (r: bool)
        requires
            self.wf(),
        ensures
            r == (self@.len() == 0),
    {
        self.pos >= self.chars.len()
    }
}

impl Clone for Cursor {
    /// A cursor copy scans the same remaining input; lookahead works on
    /// throwaway copies.
    fn clone(&self) -> (r: Self)
        ensures
            r@ == self@,
            self.wf() ==> r.wf(),
    {
        let r = Cursor { chars: self.chars.clone(), pos: self.pos, bytes_left: self.bytes_left };
        proof {
            assert(r.chars@ =~= self.chars@);
            assert(r@ =~= self@);
        }
        r
    }
}

impl Cursor {
    /// Decodes and consumes one character; `None` at end of input.
    pub fn next_char(&mut self) -> (c: Option<char>)
        requires
            old(self).wf(),
        ensures
            final(self).wf(),
            old(self)@.len() == 0 ==> c is None && *final(self) == *old(self),
            old(self)@.len() > 0 ==> c == Some(old(self)@[0]) && final(self)@ == old(self)@.skip(
                1,
            ),
    {
        if self.pos < self.chars.len() {
            let c = self.chars[self.pos];
            let cb = char_utf8_bytes(c);
            proof {
                assert(self@[0] == c);
                assert(self@.drop_first() =~= self.chars@.skip(self.pos + 1));
                assert(bytes_len(self@) == char_bytes(c) + bytes_len(self@.drop_first()));
            }
            self.bytes_left = self.bytes_left - (cb as usize);
            self.pos = self.pos + 1;
            Some(c)
        } else {
            proof {
                assert(self@.len() == 0);
            }
            None
        }
    }

    /// Consumes one character, discarding it.
    pub fn skip_char(&mut self)
        requires
            old(self).wf(),
        ensures
            final(self).wf(),
            old(self)@.len() == 0 ==> *final(self) == *old(self),
            old(self)@.len() > 0 ==> final(self)@ == old(self)@.skip(1),
    {
        self.next_char();
    }

    /// One character of lookahead; the NUL sentinel stands for "no
    /// character" at end of input.
    pub fn first_char(&self) -> (c: char)
        requires
            self.wf(),
        ensures
            c == (if self@.len() > 0 {
                self@[0]
            } else {
                '\0'
            }),
    {
        if self.pos < self.chars.len() {
            self.chars[self.pos]
        } else {
            '\0'
        }
    }

    /// Two characters of lookahead; the NUL sentinel stands for "no
    /// character" past the end of input.
    pub fn second_char(&self) -> (c: char)
        requires
            self.wf(),
        ensures
            c == (if self@.len() > 1 {
                self@[1]
            } else {
                '\0'
            }),
    {
        if self.pos < self.chars.len() && self.pos + 1 < self.chars.len() {
            self.chars[self.pos + 1]
        } else {
            '\0'
        }
    }

    /// Consumes the maximal run of characters of class `cl`, reporting
    /// whether a newline was among them.
    fn skip_class_run(&mut self, cl: CharClass) -> (nl: bool)
        requires
            old(self).wf(),
        ensures
            final(self).wf(),
            final(self)@ == old(self)@.skip(class_run(cl, old(self)@) as int),
            nl == has_char(old(self)@.take(class_run(cl, old(self)@) as int), '\n'),
    {
        let ghost start = self@;
        let ghost mut j: int = 0;
        let mut nl = false;
        loop
            invariant
                self.wf(),
                0 <= j <= start.len(),
                self@ == start.skip(j),
                forall|i: int| 0 <= i < j ==> class_holds(cl, #[trigger] start[i]),
                nl == has_char(start.take(j), '\n'),
            ensures
                self.wf(),
                0 <= j <= start.len(),
                self@ == start.skip(j),
                forall|i: int| 0 <= i < j ==> class_holds(cl, #[trigger] start[i]),
                j < start.len() ==> !class_holds(cl, start[j]),
                nl == has_char(start.take(j), '\n'),
            decreases start.len() - j,
        {
            if self.is_eof() {
                break ;
            }
            let c = self.first_char();
            proof {
                assert(start.skip(j)[0] == start[j]);
            }
            if !class_test(cl, c) {
                break ;
            }
            if c == '\n' {
                nl = true;
            }
            self.skip_char();
            proof {
                lemma_has_char_snoc(start, j, '\n');
                assert(start.skip(j).skip(1) =~= start.skip(j + 1));
                j = j + 1;
            }
        }
        proof {
            lemma_class_run_is(cl, start, j as nat);
        }
        nl
    }

    /// Consumes the maximal run of hexadecimal digits and `_` separators,
    /// reporting whether the run held an actual digit.
    fn skip_hex(&mut self) -> (has: bool)
        requires
            old(self).wf(),
        ensures
            final(self).wf(),
            final(self)@ == old(self)@.skip(class_run(CharClass::HexRun, old(self)@) as int),
            has == has_hex_digit(
                old(self)@.take(class_run(CharClass::HexRun, old(self)@) as int),
            ),
    {
        let ghost start = self@;
        let ghost mut j: int = 0;
        let mut has = false;
        loop
            invariant
                self.wf(),
                0 <= j <= start.len(),
                self@ == start.skip(j),
                forall|i: int|
                    0 <= i < j ==> class_holds(CharClass::HexRun, #[trigger] start[i]),
                has == has_hex_digit(start.take(j)),
            ensures
                self.wf(),
                0 <= j <= start.len(),
                self@ == start.skip(j),
                forall|i: int|
                    0 <= i < j ==> class_holds(CharClass::HexRun, #[trigger] start[i]),
                j < start.len() ==> !class_holds(CharClass::HexRun, start[j]),
                has == has_hex_digit(start.take(j)),
            decreases start.len() - j,
        {
            if self.is_eof() {
                break ;
            }
            let c = self.first_char();
            proof {
                assert(start.skip(j)[0] == start[j]);
            }
            if is_hex_digit(c) {
                has = true;
            } else if c != '_' {
                break ;
            }
            self.skip_char();
            proof {
                lemma_has_hex_digit_snoc(start, j);
                assert(start.skip(j).skip(1) =~= start.skip(j + 1));
                j = j + 1;
            }
        }
        proof {
            lemma_class_run_is(CharClass::HexRun, start, j as nat);
        }
        has
    }

    /// Consumes the maximal run of decimal digits and `_` separators,
    /// reporting whether the run held an actual digit.
    fn skip_decimal(&mut self) -> (has: bool)
        requires
            old(self).wf(),
        ensures
            final(self).wf(),
            final(self)@ == old(self)@.skip(class_run(CharClass::DecRun, old(self)@) as int),
            has == has_dec_digit(
                old(self)@.take(class_run(CharClass::DecRun, old(self)@) as int),
            ),
    {
        let ghost start = self@;
        let ghost mut j: int = 0;
        let mut has = false;
        loop
            invariant
                self.wf(),
                0 <= j <= start.len(),
                self@ == start.skip(j),
                forall|i: int|
                    0 <= i < j ==> class_holds(CharClass::DecRun, #[trigger] start[i]),
                has == has_dec_digit(start.take(j)),
            ensures
                self.wf(),
                0 <= j <= start.len(),
                self@ == start.skip(j),
                forall|i: int|
                    0 <= i < j ==> class_holds(CharClass::DecRun, #[trigger] start[i]),
                j < start.len() ==> !class_holds(CharClass::DecRun, start[j]),
                has == has_dec_digit(start.take(j)),
            decreases start.len() - j,
        {
            if self.is_eof() {
                break ;
            }
            let c = self.first_char();
            proof {
                assert(start.skip(j)[0] == start[j]);
            }
            if is_dec_digit(c) {
                has = true;
            } else if c != '_' {
                break ;
            }
            self.skip_char();
            proof {
                lemma_has_dec_digit_snoc(start, j);
                assert(start.skip(j).skip(1) =~= start.skip(j + 1));
                j = j + 1;
            }
        }
        proof {
            lemma_class_run_is(CharClass::DecRun, start, j as nat);
        }
        has
    }

    /// Both lookahead characters at once.
    pub fn two_chars(&self) -> (r: [char; 2])
        requires
            self.wf(),
        ensures
            r[0] == (if self@.len() > 0 {
                self@[0]
            } else {
                '\0'
            }),
            r[1] == (if self@.len() > 1 {
                self@[1]
            } else {
                '\0'
            }),
    {
        [self.first_char(), self.second_char()]
    }
}

/// The marker `base` returns for a bare `0`: no base prefix and no
/// continuing digit followed the zero.
struct JustZero;

impl Cursor {
    /// The whitespace token, after its first character has been consumed.
    fn space(&mut self, first: char) -> (k: Kind)
        requires
            old(self).wf(),
        ensures
            final(self).wf(),
            k == (Kind::Space { newline: first == '\n' || space_continue(old(self)@).0 }),
            final(self)@ == old(self)@.skip(space_continue(old(self)@).1 as int),
    {
        let nl = self.skip_class_run(CharClass::Whitespace);
        let newline = first == '\n' || nl;
        Kind::Space { newline }
    }

    /// The identifier token, after its starting character has been
    /// consumed: a maximal identifier run, reclassified when followed
    /// directly by a non-ASCII character.
    fn ident(&mut self) -> (k: Kind)
        requires
            old(self).wf(),
        ensures
            final(self).wf(),
            k == ident_continue_scan(old(self)@).0,
            final(self)@ == old(self)@.skip(ident_continue_scan(old(self)@).1 as int),
    {
        let ghost t = self@;
        self.skip_class_run(CharClass::IdentContinue);
        let ghost n = class_run(CharClass::IdentContinue, t);
        if !is_ascii(self.first_char()) {
            let k = self.invalid_ident();
            proof {
                crate::scan::lemma_class_run_le(CharClass::IdentContinue, t);
                crate::scan::lemma_class_run_le(CharClass::Alnum, t.skip(n as int));
                crate::scan::lemma_skip_skip(
                    t,
                    n as int,
                    class_run(CharClass::Alnum, t.skip(n as int)) as int,
                );
            }
            k
        } else {
            Kind::Ident
        }
    }

    /// The non-ASCII identifier-shaped token: a maximal run of Unicode
    /// alphanumerics.
    fn invalid_ident(&mut self) -> (k: Kind)
        requires
            old(self).wf(),
        ensures
            final(self).wf(),
            k == Kind::InvalidIdent,
            final(self)@ == old(self)@.skip(class_run(CharClass::Alnum, old(self)@) as int),
    {
        self.skip_class_run(CharClass::Alnum);
        Kind::InvalidIdent
    }

    /// The token of unknown kind: its unrecognized character has been
    /// consumed, and a trailing run of non-ASCII alphanumerics is
    /// absorbed.
    fn unknown(&mut self) -> (k: Kind)
        requires
            old(self).wf(),
        ensures
            final(self).wf(),
            k == Kind::Unknown,
            final(self)@ == old(self)@.skip(
                class_run(CharClass::UnknownTail, old(self)@) as int,
            ),
    {
        self.skip_class_run(CharClass::UnknownTail);
        Kind::Unknown
    }

    /// The base of a literal that started with `0`: a `b`/`o`/`x` prefix
    /// is consumed, a continuing decimal digit selects a decimal literal
    /// without consuming anything, and anything else marks a bare zero.
    fn base(&mut self) -> (r: Result<Base, JustZero>)
        requires
            old(self).wf(),
        ensures
            final(self).wf(),
            ({
                let t = old(self)@;
                if t.len() > 0 && t[0] == 'b' {
                    r matches Ok(b) && b == Base::Binary && final(self)@ == t.skip(1)
                } else if t.len() > 0 && t[0] == 'o' {
                    r matches Ok(b) && b == Base::Octal && final(self)@ == t.skip(1)
                } else if t.len() > 0 && t[0] == 'x' {
                    r matches Ok(b) && b == Base::Hexadecimal && final(self)@ == t.skip(1)
                } else if t.len() > 0 && is_dec_digit_char(t[0]) {
                    r matches Ok(b) && b == Base::Decimal && *final(self) == *old(self)
                } else {
                    r is Err && *final(self) == *old(self)
                }
            }),
    {
        let c = self.first_char();
        let base = match c {
            'b' => Base::Binary,
            'o' => Base::Octal,
            'x' => Base::Hexadecimal,
            _ => {
                if is_dec_digit(c) {
                    return Ok(Base::Decimal);
                }
                return Err(JustZero);
            },
        };
        self.skip_char();
        Ok(base)
    }

    /// The digit run and float-suffix check of a literal whose base is
    /// known, positioned right after the base prefix (or after the first
    /// digit, for a decimal literal).
    fn number_with_base(&mut self, base: Base) -> (lk: LiteralKind)
        requires
            old(self).wf(),
        ensures
            final(self).wf(),
            lk == with_base_scan(old(self)@, base).0,
            final(self)@ == old(self)@.skip(with_base_scan(old(self)@, base).1 as int),
    {
        let ghost t = self@;
        match base {
            Base::Decimal => {
                self.skip_decimal();
                let ghost n = class_run(CharClass::DecRun, t);
                let lk = self.maybe_float(base);
                proof {
                    let fx = float_extra(t.skip(n as int), base);
                    crate::scan::lemma_class_run_le(CharClass::DecRun, t);
                    crate::scan::lemma_float_extra_le(t.skip(n as int), base);
                    crate::scan::lemma_skip_skip(t, n as int, fx.1 as int);
                }
                lk
            },
            _ => {
                let has_digits = self.skip_hex();
                if !has_digits {
                    return LiteralKind::Int { base: Base::Decimal, empty: true };
                }
                let ghost n = class_run(CharClass::HexRun, t);
                let lk = self.maybe_float(base);
                proof {
                    let fx = float_extra(t.skip(n as int), base);
                    crate::scan::lemma_class_run_le(CharClass::HexRun, t);
                    crate::scan::lemma_float_extra_le(t.skip(n as int), base);
                    crate::scan::lemma_skip_skip(t, n as int, fx.1 as int);
                }
                lk
            },
        }
    }

    /// A decimal literal, positioned right after its first digit.
    fn decimal_number(&mut self) -> (lk: LiteralKind)
        requires
            old(self).wf(),
        ensures
            final(self).wf(),
            lk == with_base_scan(old(self)@, Base::Decimal).0,
            final(self)@ == old(self)@.skip(
                with_base_scan(old(self)@, Base::Decimal).1 as int,
            ),
    {
        self.number_with_base(Base::Decimal)
    }

    /// The float-suffix check: a `.` followed by a digit of the literal's
    /// digit class turns the integer into a float, consuming the `.` and
    /// the digit run; otherwise nothing is consumed and the `.` is left
    /// for the next token.
    fn maybe_float(&mut self, base: Base) -> (lk: LiteralKind)
        requires
            old(self).wf(),
        ensures
            final(self).wf(),
            ({
                let fx = float_extra(old(self)@, base);
                if fx.0 {
                    lk == (LiteralKind::Float { base }) && final(self)@ == old(self)@.skip(
                        fx.1 as int,
                    )
                } else {
                    lk == (LiteralKind::Int { base, empty: false }) && *final(self) == *old(
                        self,
                    )
                }
            }),
    {
        let ghost t = self@;
        let ahead = self.two_chars();
        let first = ahead[0];
        let second = ahead[1];
        if first != '.' {
            return LiteralKind::Int { base, empty: false };
        }
        let digit_ok = match base {
            Base::Hexadecimal => is_hex_digit(second),
            _ => is_dec_digit(second),
        };
        if !digit_ok {
            return LiteralKind::Int { base, empty: false };
        }
        self.skip_char();
        match base {
            Base::Hexadecimal => {
                self.skip_hex();
            },
            _ => {
                self.skip_decimal();
            },
        }
        proof {
            crate::scan::lemma_class_run_le(CharClass::HexRun, t.skip(1));
            crate::scan::lemma_class_run_le(CharClass::DecRun, t.skip(1));
            crate::scan::lemma_skip_skip(t, 1, class_run(CharClass::HexRun, t.skip(1)) as int);
            crate::scan::lemma_skip_skip(t, 1, class_run(CharClass::DecRun, t.skip(1)) as int);
        }
        LiteralKind::Float { base }
    }

    /// One classification step: consumes one token's characters and
    /// returns its kind.
    fn match_kind(&mut self) -> (k: Kind)
        requires
            old(self).wf(),
        ensures
            final(self).wf(),
            k == next_token_kind(old(self)@),
            final(self)@ == old(self)@.skip(next_token_chars(old(self)@) as int),
    {
        let ghost s = old(self)@;
        let first = match self.next_char() {
            Some(c) => c,
            None => {
                proof {
                    assert(s.skip(0) =~= s);
                }
                return Kind::Eof;
            },
        };
        if is_whitespace(first) {
            let k = self.space(first);
            proof {
                let run = class_run(CharClass::Whitespace, s.skip(1));
                crate::scan::lemma_class_run_le(CharClass::Whitespace, s.skip(1));
                lemma_has_char_cons(s, 1 + run as int, '\n');
                crate::scan::lemma_skip_skip(s, 1, run as int);
            }
            k
        } else if is_ident_start(first) {
            let k = self.ident();
            proof {
                let m = ident_continue_scan(s.skip(1)).1;
                crate::scan::lemma_ident_scan_le(s.skip(1));
                crate::scan::lemma_skip_skip(s, 1, m as int);
            }
            k
        } else if !is_ascii(first) {
            let k = self.invalid_ident();
            proof {
                let m = class_run(CharClass::Alnum, s.skip(1));
                crate::scan::lemma_class_run_le(CharClass::Alnum, s.skip(1));
                crate::scan::lemma_skip_skip(s, 1, m as int);
            }
            k
        } else if first == '0' {
            let lk = match self.base() {
                Ok(base) => {
                    proof {
                        if s.len() >= 2 {
                            assert(s.skip(1)[0] == s[1]);
                        }
                        if s.len() >= 2 && (s[1] == 'b' || s[1] == 'o' || s[1] == 'x') {
                            assert(s.skip(1).skip(1) =~= s.skip(2));
                        }
                    }
                    let ghost t = self@;
                    let lk = self.number_with_base(base);
                    proof {
                        let m = with_base_scan(t, base).1;
                        crate::scan::lemma_with_base_le(t, base);
                        if s.len() >= 2 && (s[1] == 'b' || s[1] == 'o' || s[1] == 'x') {
                            crate::scan::lemma_skip_skip(s, 2, m as int);
                        } else {
                            crate::scan::lemma_skip_skip(s, 1, m as int);
                        }
                    }
                    lk
                },
                Err(_) => {
                    proof {
                        if s.len() >= 2 {
                            assert(s.skip(1)[0] == s[1]);
                        }
                        assert(s.skip(1) =~= s.skip(1));
                    }
                    return Kind::Literal(LiteralKind::Int { base: Base::Decimal, empty: false });
                },
            };
            Kind::Literal(lk)
        } else if is_dec_digit(first) {
            let lk = self.decimal_number();
            proof {
                let m = with_base_scan(s.skip(1), Base::Decimal).1;
                crate::scan::lemma_with_base_le(s.skip(1), Base::Decimal);
                crate::scan::lemma_skip_skip(s, 1, m as int);
            }
            Kind::Literal(lk)
        } else {
            match first {
                '\'' => Kind::Apostrophe,
                '"' => Kind::Quote,
                ';' => Kind::Semi,
                ':' => Kind::Colon,
                ',' => Kind::Comma,
                '.' => Kind::Dot,
                '@' => Kind::At,
                '#' => Kind::Pound,
                '~' => Kind::Tilde,
                '?' => Kind::Question,
                '$' => Kind::Dollar,
                '=' => Kind::Eq,
                '!' => Kind::Bang,
                '<' => Kind::Lt,
                '>' => Kind::Gt,
                '-' => Kind::Minus,
                '&' => Kind::And,
                '|' => Kind::Or,
                '+' => Kind::Plus,
                '*' => Kind::Star,
                '/' => Kind::Slash,
                '^' => Kind::Caret,
                '%' => Kind::Percent,
                '(' => Kind::OpenParen,
                ')' => Kind::CloseParen,
                '{' => Kind::OpenBrace,
                '}' => Kind::CloseBrace,
                '[' => Kind::OpenBracket,
                ']' => Kind::CloseBracket,
                _ => {
                    let k = self.unknown();
                    proof {
                        let m = class_run(CharClass::UnknownTail, s.skip(1));
                        crate::scan::lemma_class_run_le(CharClass::UnknownTail, s.skip(1));
                        crate::scan::lemma_skip_skip(s, 1, m as int);
                    }
                    k
                },
            }
        }
    }

    /// The bytes consumed since the remaining length was `start`.
    fn token_len(&self, start: usize) -> (r: u32)
        requires
            self.wf(),
            bytes_len(self@) <= start < u32::MAX,
        ensures
            r == start - bytes_len(self@),
    {
        (start - self.bytes_left) as u32
    }

    /// Classifies and returns the next token; its `len` is the exact
    /// number of bytes consumed by this call.
    pub fn next(&mut self) -> (t: Token)
        requires
            old(self).wf(),
        ensures
            final(self).wf(),
            t == spec_token(old(self)@),
            final(self)@ == rest_after(old(self)@),
    {
        let start = self.len();
        let kind = self.match_kind();
        proof {
            lemma_next_token_progress(old(self)@);
            lemma_bytes_len_split(old(self)@, next_token_chars(old(self)@) as int);
        }
        let len = self.token_len(start);
        Token::new(kind, len)
    }

    /// Classifies and discards the next token.
    pub fn skip(&mut self)
        requires
            old(self).wf(),
        ensures
            final(self).wf(),
            final(self)@ == rest_after(old(self)@),
    {
        self.next();
    }

    /// The token `next` would produce, without consuming it.
    pub fn first(&self) -> (t: Token)
        requires
            self.wf(),
        ensures
            t == spec_token(self@),
    {
        let mut lexer = self.clone();
        lexer.next()
    }

    /// The token `next` would produce after one `skip`, without consuming
    /// anything.
    pub fn second(&self) -> (t: Token)
        requires
            self.wf(),
        ensures
            t == spec_token(rest_after(self@)),
    {
        let mut lexer = self.clone();
        lexer.skip();
        lexer.next()
    }

    /// The token `next` would produce after `n` skips, without consuming
    /// anything.
    pub fn peek(&self, n: usize) -> (t: Token)
        requires
            self.wf(),
        ensures
            t == spec_token(rest_after_n(self@, n as nat)),
    {
        let mut cursor = self.clone();
        for i in 0..n
            invariant
                cursor.wf(),
                cursor@ == rest_after_n(self@, i as nat),
        {
            cursor.skip();
        }
        cursor.next()
    }

    /// The next `N` tokens, in order, without consuming anything.
    pub fn tokens<const N: usize>(&self) -> (r: [Token; N])
        requires
            self.wf(),
        ensures
            forall|i: int|
                0 <= i < N ==> r[i] == spec_token(rest_after_n(self@, i as nat)),
    {
        let mut lexer = self.clone();
        let mut tokens = [Token { kind: Kind::Eof, len: 0 };N];
        for i in 0..N
            invariant
                lexer.wf(),
                lexer@ == rest_after_n(self@, i as nat),
                forall|j: int|
                    0 <= j < i ==> tokens[j] == spec_token(rest_after_n(self@, j as nat)),
        {
            tokens[i] = lexer.next();
        }
        tokens
    }

    /// Skips tokens while the predicate accepts the token `next` would
    /// produce; stops unconditionally at `Eof`, whatever the predicate
    /// says.
    pub fn skip_while<F: Fn(Token) -> bool>(&mut self, predicate: F)
        requires
            old(self).wf(),
            forall|t: Token| #[trigger] predicate.requires((t,)),
        ensures
            final(self).wf(),
            exists|k: nat|
                {
                    &&& final(self)@ == rest_after_n(old(self)@, k)
                    &&& (forall|i: nat|
                        i < k ==> (!(#[trigger] spec_token(rest_after_n(old(self)@, i)).kind
                            is Eof) && predicate.ensures(
                            (spec_token(rest_after_n(old(self)@, i)),),
                            true,
                        )))
                    &&& (spec_token(rest_after_n(old(self)@, k)).kind is Eof
                        || predicate.ensures((spec_token(rest_after_n(old(self)@, k)),), false))
                },
    {
        let ghost s0 = self@;
        let ghost mut k: nat = 0;
        loop
            invariant
                self.wf(),
                s0 == old(self)@,
                self@ == rest_after_n(s0, k),
                forall|t: Token| #[trigger] predicate.requires((t,)),
                forall|i: nat|
                    i < k ==> (!(#[trigger] spec_token(rest_after_n(s0, i)).kind is Eof)
                        && predicate.ensures((spec_token(rest_after_n(s0, i)),), true)),
            ensures
                self.wf(),
                self@ == rest_after_n(s0, k),
                forall|i: nat|
                    i < k ==> (!(#[trigger] spec_token(rest_after_n(s0, i)).kind is Eof)
                        && predicate.ensures((spec_token(rest_after_n(s0, i)),), true)),
                spec_token(rest_after_n(s0, k)).kind is Eof || predicate.ensures(
                    (spec_token(rest_after_n(s0, k)),),
                    false,
                ),
            decreases self@.len(),
        {
            let token = self.first();
            if token.is_eof() {
                break ;
            }
            if !predicate(token) {
                break ;
            }
            self.skip();
            proof {
                lemma_next_token_progress(rest_after_n(s0, k));
                k = k + 1;
            }
        }
    }

    /// Skips tokens until the predicate accepts the token `next` would
    /// produce; stops unconditionally at `Eof`, whatever the predicate
    /// says.
    pub fn skip_until<F: Fn(Token) -> bool>(&mut self, predicate: F)
        requires
            old(self).wf(),
            forall|t: Token| #[trigger] predicate.requires((t,)),
        ensures
            final(self).wf(),
            exists|k: nat|
                {
                    &&& final(self)@ == rest_after_n(old(self)@, k)
                    &&& (forall|i: nat|
                        i < k ==> (!(#[trigger] spec_token(rest_after_n(old(self)@, i)).kind
                            is Eof) && predicate.ensures(
                            (spec_token(rest_after_n(old(self)@, i)),),
                            false,
                        )))
                    &&& (spec_token(rest_after_n(old(self)@, k)).kind is Eof
                        || predicate.ensures((spec_token(rest_after_n(old(self)@, k)),), true))
                },
    {
        let ghost s0 = self@;
        let ghost mut k: nat = 0;
        loop
            invariant
                self.wf(),
                s0 == old(self)@,
                self@ == rest_after_n(s0, k),
                forall|t: Token| #[trigger] predicate.requires((t,)),
                forall|i: nat|
                    i < k ==> (!(#[trigger] spec_token(rest_after_n(s0, i)).kind is Eof)
                        && predicate.ensures((spec_token(rest_after_n(s0, i)),), false)),
            ensures
                self.wf(),
                self@ == rest_after_n(s0, k),
                forall|i: nat|
                    i < k ==> (!(#[trigger] spec_token(rest_after_n(s0, i)).kind is Eof)
                        && predicate.ensures((spec_token(rest_after_n(s0, i)),), false)),
                spec_token(rest_after_n(s0, k)).kind is Eof || predicate.ensures(
                    (spec_token(rest_after_n(s0, k)),),
                    true,
                ),
            decreases self@.len(),
        {
            let token = self.first();
            if token.is_eof() {
                break ;
            }
            if predicate(token) {
                break ;
            }
            self.skip();
            proof {
                lemma_next_token_progress(rest_after_n(s0, k));
                k = k + 1;
            }
        }
    }

    /// Skips characters while the predicate accepts the lookahead
    /// character; stops at end of input.
    pub fn skip_while_char<F: Fn(char) -> bool>(&mut self, predicate: F)
        requires
            old(self).wf(),
            forall|c: char| #[trigger] predicate.requires((c,)),
        ensures
            final(self).wf(),
            exists|n: int|
                {
                    &&& 0 <= n <= old(self)@.len()
                    &&& final(self)@ == old(self)@.skip(n)
                    &&& (forall|i: int|
                        0 <= i < n ==> predicate.ensures(((#[trigger] old(self)@[i]),), true))
                    &&& (n < old(self)@.len() ==> predicate.ensures(
                        (old(self)@[n],),
                        false,
                    ))
                },
    {
        let ghost s0 = self@;
        let ghost mut j: int = 0;
        loop
            invariant
                self.wf(),
                s0 == old(self)@,
                0 <= j <= s0.len(),
                self@ == s0.skip(j),
                forall|c: char| #[trigger] predicate.requires((c,)),
                forall|i: int| 0 <= i < j ==> predicate.ensures(((#[trigger] s0[i]),), true),
            ensures
                self.wf(),
                0 <= j <= s0.len(),
                self@ == s0.skip(j),
                forall|i: int| 0 <= i < j ==> predicate.ensures(((#[trigger] s0[i]),), true),
                j < s0.len() ==> predicate.ensures((s0[j],), false),
            decreases self@.len(),
        {
            if self.is_eof() {
                break ;
            }
            let c = self.first_char();
            proof {
                assert(s0.skip(j)[0] == s0[j]);
            }
            if !predicate(c) {
                break ;
            }
            self.skip_char();
            proof {
                assert(s0.skip(j).skip(1) =~= s0.skip(j + 1));
                j = j + 1;
            }
        }
    }
}

/// The result of the opt-in whitespace continuation scan.
#[derive(Debug, Clone, Copy, PartialEq, Eq, Structural)]
pub struct Space {
    pub newline: bool,
    pub len: u32,
}

/// The result of the opt-in character-literal continuation scan.
#[derive(Debug, Clone, Copy, PartialEq, Eq, Structural)]
pub struct Char {
    pub terminated: bool,
    pub is_one_symbol: bool,
    pub len: u32,
}

/// The result of the opt-in string-literal continuation scan.
#[derive(Debug, Clone, Copy, PartialEq, Eq, Structural)]
pub struct Str {
    pub terminated: bool,
    pub len: u32,
}

impl Cursor {
    /// Consumes a maximal whitespace run, reporting its byte length and
    /// whether it held a newline.
    pub fn parse_space(&mut self) -> (sp: Space)
        requires
            old(self).wf(),
        ensures
            final(self).wf(),
            sp.newline == space_continue(old(self)@).0,
            sp.len == bytes_len(old(self)@.take(space_continue(old(self)@).1 as int)),
            final(self)@ == old(self)@.skip(space_continue(old(self)@).1 as int),
    {
        let start = self.len();
        let nl = self.skip_class_run(CharClass::Whitespace);
        proof {
            crate::scan::lemma_class_run_le(CharClass::Whitespace, old(self)@);
            lemma_bytes_len_split(
                old(self)@,
                class_run(CharClass::Whitespace, old(self)@) as int,
            );
        }
        let len = self.token_len(start);
        Space { newline: nl, len }
    }

    /// Consumes a string-literal body after `next` has produced the
    /// opening quote token: scans to an unescaped closing `"`, a `\`
    /// shielding the following character. The reported length includes
    /// the opening delimiter; an unterminated literal runs to end of
    /// input.
    pub fn parse_str_continue(&mut self) -> (r: Str)
        requires
            old(self).wf(),
        ensures
            final(self).wf(),
            r.terminated == str_continue(old(self)@).0,
            r.len == bytes_len(old(self)@.take(str_continue(old(self)@).1 as int)) + 1,
            final(self)@ == old(self)@.skip(str_continue(old(self)@).1 as int),
    {
        let start = self.len();
        let ghost s0 = self@;
        let ghost mut j: int = 0;
        loop
            invariant
                self.wf(),
                s0 == old(self)@,
                start == bytes_len(s0),
                start < u32::MAX,
                0 <= j <= s0.len(),
                self@ == s0.skip(j),
                str_continue(s0).0 == str_continue(self@).0,
                str_continue(s0).1 == j + str_continue(self@).1,
            ensures
                self.wf(),
                s0 == old(self)@,
                start == bytes_len(s0),
                self@.len() == 0,
                self@ == s0.skip(j),
                str_continue(s0).0 == false,
                str_continue(s0).1 == j,
            decreases self@.len(),
        {
            if self.is_eof() {
                break ;
            }
            let c = self.first_char();
            proof {
                assert(s0.skip(j)[0] == s0[j]);
            }
            if c == '"' {
                self.skip_char();
                proof {
                    assert(s0.skip(j).skip(1) =~= s0.skip(j + 1));
                    lemma_bytes_len_split(s0, j + 1);
                }
                let len = self.token_len(start) + 1;
                return Str { terminated: true, len };
            }
            if c == '\\' {
                let ghost cur = self@;
                self.skip_char();
                self.skip_char();
                proof {
                    if cur.len() == 1 {
                        assert(s0.skip(j).skip(1) =~= s0.skip(j + 1));
                        j = j + 1;
                    } else {
                        assert(s0.skip(j).skip(1).skip(1) =~= s0.skip(j + 2));
                        assert(cur.skip(2) =~= s0.skip(j + 2));
                        j = j + 2;
                    }
                }
            } else {
                self.skip_char();
                proof {
                    assert(s0.skip(j).skip(1) =~= s0.skip(j + 1));
                    j = j + 1;
                }
            }
        }
        proof {
            lemma_bytes_len_split(s0, j);
        }
        let len = self.token_len(start) + 1;
        Str { terminated: false, len }
    }

    /// Consumes a character-literal body after `next` has produced the
    /// opening apostrophe token: a fast path closes one plain character
    /// followed directly by `'`; otherwise it scans unit by unit, `\`
    /// shielding the following character, aborting at an unescaped
    /// newline or at end of input. The reported length includes the
    /// opening delimiter.
    pub fn parse_char_continue(&mut self) -> (r: Char)
        requires
            old(self).wf(),
        ensures
            final(self).wf(),
            r.terminated == char_continue(old(self)@).0,
            r.is_one_symbol == char_continue(old(self)@).1,
            r.len == bytes_len(old(self)@.take(char_continue(old(self)@).2 as int)) + 1,
            final(self)@ == old(self)@.skip(char_continue(old(self)@).2 as int),
    {
        let start = self.len();
        let ghost s0 = self@;
        if self.second_char() == '\'' && self.first_char() != '\\' {
            self.skip_char();
            self.skip_char();
            proof {
                assert(s0.skip(1).skip(1) =~= s0.skip(2));
                lemma_bytes_len_split(s0, 2);
            }
            let len = self.token_len(start) + 1;
            return Char { terminated: true, is_one_symbol: true, len };
        }
        let mut char_count: usize = 0;
        let ghost mut j: int = 0;
        proof {
            crate::scan::lemma_bytes_len_ge_len(s0);
        }
        loop
            invariant
                self.wf(),
                s0 == old(self)@,
                start == bytes_len(s0),
                start < u32::MAX,
                s0.len() < u32::MAX,
                0 <= j <= s0.len(),
                char_count <= j,
                self@ == s0.skip(j),
                char_continue(s0).0 == char_continue_from(self@, char_count as nat).0,
                char_continue(s0).1 == char_continue_from(self@, char_count as nat).1,
                char_continue(s0).2 == j + char_continue_from(self@, char_count as nat).2,
            ensures
                self.wf(),
                s0 == old(self)@,
                start == bytes_len(s0),
                0 <= j <= s0.len(),
                self@ == s0.skip(j),
                char_continue(s0).0 == false,
                char_continue(s0).1 == false,
                char_continue(s0).2 == j,
            decreases self@.len(),
        {
            if self.is_eof() {
                break ;
            }
            let c = self.first_char();
            proof {
                assert(s0.skip(j)[0] == s0[j]);
            }
            if c == '\'' {
                self.skip_char();
                proof {
                    assert(s0.skip(j).skip(1) =~= s0.skip(j + 1));
                    lemma_bytes_len_split(s0, j + 1);
                }
                let len = self.token_len(start) + 1;
                return Char { terminated: true, is_one_symbol: char_count == 1, len };
            }
            if c == '\n' {
                break ;
            }
            if c == '\\' {
                let ghost cur = self@;
                self.skip_char();
                self.skip_char();
                proof {
                    if cur.len() == 1 {
                        assert(s0.skip(j).skip(1) =~= s0.skip(j + 1));
                        j = j + 1;
                    } else {
                        assert(s0.skip(j).skip(1).skip(1) =~= s0.skip(j + 2));
                        assert(cur.skip(2) =~= s0.skip(j + 2));
                        j = j + 2;
                    }
                }
            } else {
                self.skip_char();
                proof {
                    assert(s0.skip(j).skip(1) =~= s0.skip(j + 1));
                    j = j + 1;
                }
            }
            char_count = char_count + 1;
        }
        proof {
            lemma_bytes_len_split(s0, j);
        }
        let len = self.token_len(start) + 1;
        Char { terminated: false, is_one_symbol: false, len }
    }
}

} // verus!
