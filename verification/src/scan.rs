//! The mathematical model of the scanner: character classes, maximal runs,
//! byte lengths, and the classification function that says which token the
//! cursor produces on a given remaining input and how many characters it
//! consumes. The executable cursor is verified against these definitions.

use vstd::prelude::*;

use crate::token::Base;
use crate::token::Kind;
use crate::token::LiteralKind;
use crate::token::Token;

verus! {

// ---------- character classes ----------

/// Whether `c` has the Unicode `White_Space` property.
pub open spec fn is_whitespace_char(c: char) -> bool {
    let u = c as u32;
    (0x09 <= u && u <= 0x0D) || u == 0x20 || u == 0x85 || u == 0xA0 || u == 0x1680 || (0x2000
        <= u && u <= 0x200A) || u == 0x2028 || u == 0x2029 || u == 0x202F || u == 0x205F || u
        == 0x3000
}

pub open spec fn is_ascii_char(c: char) -> bool {
    (c as u32) <= 0x7F
}

/// An ASCII letter or `_`: the characters an identifier may start with.
pub open spec fn is_ident_start_char(c: char) -> bool {
    let u = c as u32;
    (0x61 <= u && u <= 0x7A) || (0x41 <= u && u <= 0x5A) || c == '_'
}

/// An ASCII letter, ASCII digit or `_`: the characters an identifier may
/// continue with.
pub open spec fn is_ident_continue_char(c: char) -> bool {
    let u = c as u32;
    (0x61 <= u && u <= 0x7A) || (0x41 <= u && u <= 0x5A) || (0x30 <= u && u <= 0x39) || c == '_'
}

pub open spec fn is_dec_digit_char(c: char) -> bool {
    let u = c as u32;
    0x30 <= u && u <= 0x39
}

pub open spec fn is_hex_digit_char(c: char) -> bool {
    let u = c as u32;
    (0x30 <= u && u <= 0x39) || (0x61 <= u && u <= 0x66) || (0x41 <= u && u <= 0x46)
}

/// Whether `c` is alphanumeric in the Unicode sense. The scanner only tests
/// this through `char::is_alphanumeric`, so the class is left abstract: it
/// names that function's result.
pub uninterp spec fn is_alnum_char(c: char) -> bool;

/// Relies on `char::is_alphanumeric`: true exactly for characters in the
/// Unicode `Alphabetic` class or one of the `Nd`/`Nl`/`No` number classes.
/// The result depends on the character alone; this library only needs a
/// name for it, [`is_alnum_char`].
pub assume_specification[ char::is_alphanumeric ](c: char) -> (r: bool)
    ensures
        r == is_alnum_char(c),
;

// ---------- maximal runs ----------

/// The character classes over which the scanner takes maximal runs.
#[derive(Clone, Copy)]
pub enum CharClass {
    /// Unicode whitespace.
    Whitespace,
    /// Identifier continuation: ASCII alphanumeric or `_`.
    IdentContinue,
    /// Unicode alphanumeric.
    Alnum,
    /// A decimal digit run with `_` separators.
    DecRun,
    /// A hexadecimal digit run with `_` separators.
    HexRun,
    /// The tail a token of unknown kind absorbs: non-ASCII alphanumerics.
    UnknownTail,
}

pub open spec fn class_holds(cl: CharClass, c: char) -> bool {
    match cl {
        CharClass::Whitespace => is_whitespace_char(c),
        CharClass::IdentContinue => is_ident_continue_char(c),
        CharClass::Alnum => is_alnum_char(c),
        CharClass::DecRun => is_dec_digit_char(c) || c == '_',
        CharClass::HexRun => is_hex_digit_char(c) || c == '_',
        CharClass::UnknownTail => !is_ascii_char(c) && is_alnum_char(c),
    }
}

/// The length of the maximal run of characters of class `cl` at the front
/// of `s`.
pub open spec fn class_run(cl: CharClass, s: Seq<char>) -> nat
    decreases s.len(),
{
    if s.len() > 0 && class_holds(cl, s[0]) {
        1 + class_run(cl, s.drop_first())
    } else {
        0
    }
}

/// A maximal run is exactly the first position whose character falls out of
/// the class (or the whole sequence, when none does).
pub proof fn lemma_class_run_is(cl: CharClass, s: Seq<char>, j: nat)
    requires
        j <= s.len(),
        forall|i: int| 0 <= i < j ==> class_holds(cl, #[trigger] s[i]),
        j < s.len() ==> !class_holds(cl, s[j as int]),
    ensures
        class_run(cl, s) == j,
    decreases s.len(),
{
    if j == 0 {
    } else {
        assert(class_holds(cl, s[0]));
        assert(forall|i: int|
            0 <= i < j - 1 ==> s.drop_first()[i] == #[trigger] s[i + 1]);
        lemma_class_run_is(cl, s.drop_first(), (j - 1) as nat);
    }
}

pub proof fn lemma_class_run_le(cl: CharClass, s: Seq<char>)
    ensures
        class_run(cl, s) <= s.len(),
        forall|i: int| 0 <= i < class_run(cl, s) ==> class_holds(cl, #[trigger] s[i]),
    decreases s.len(),
{
    if s.len() > 0 && class_holds(cl, s[0]) {
        lemma_class_run_le(cl, s.drop_first());
        assert(forall|i: int|
            1 <= i < class_run(cl, s) ==> #[trigger] s[i] == s.drop_first()[i - 1]);
    }
}

pub open spec fn has_char(s: Seq<char>, c: char) -> bool {
    exists|i: int| 0 <= i < s.len() && s[i] == c
}

pub open spec fn has_hex_digit(s: Seq<char>) -> bool {
    exists|i: int| 0 <= i < s.len() && is_hex_digit_char(s[i])
}

pub open spec fn has_dec_digit(s: Seq<char>) -> bool {
    exists|i: int| 0 <= i < s.len() && is_dec_digit_char(s[i])
}

// ---------- byte lengths ----------

/// The number of bytes of the UTF-8 encoding of `c`.
pub open spec fn char_bytes(c: char) -> nat {
    if (c as u32) < 0x80 {
        1
    } else if (c as u32) < 0x800 {
        2
    } else if (c as u32) < 0x10000 {
        3
    } else {
        4
    }
}

/// The number of bytes of the UTF-8 encoding of `s`: what `str::len`
/// reports for a string slice whose characters are `s`.
pub open spec fn bytes_len(s: Seq<char>) -> nat
    decreases s.len(),
{
    if s.len() == 0 {
        0
    } else {
        char_bytes(s[0]) + bytes_len(s.drop_first())
    }
}

pub proof fn lemma_char_bytes_encode(c: char)
    ensures
        char_bytes(c) == vstd::utf8::encode_scalar(c as u32).len(),
{
    vstd::utf8::char_is_scalar(c);
}

/// `bytes_len` agrees with the length of the UTF-8 encoding, hence with
/// `str::len` on a slice viewed as `s`.
pub proof fn lemma_bytes_len_encode(s: Seq<char>)
    ensures
        bytes_len(s) == vstd::utf8::encode_utf8(s).len(),
    decreases s.len(),
{
    if s.len() > 0 {
        lemma_char_bytes_encode(s[0]);
        lemma_bytes_len_encode(s.drop_first());
    }
}

/// Byte lengths add over a split of the sequence.
pub proof fn lemma_bytes_len_split(s: Seq<char>, n: int)
    requires
        0 <= n <= s.len(),
    ensures
        bytes_len(s) == bytes_len(s.take(n)) + bytes_len(s.skip(n)),
    decreases n,
{
    if n == 0 {
        assert(s.take(0) =~= Seq::<char>::empty());
        assert(s.skip(0) =~= s);
    } else {
        lemma_bytes_len_split(s.drop_first(), n - 1);
        assert(s.take(n).drop_first() =~= s.drop_first().take(n - 1));
        assert(s.skip(n) =~= s.drop_first().skip(n - 1));
        assert(s.take(n)[0] == s[0]);
    }
}

pub proof fn lemma_bytes_len_ge_len(s: Seq<char>)
    ensures
        bytes_len(s) >= s.len(),
    decreases s.len(),
{
    if s.len() > 0 {
        lemma_bytes_len_ge_len(s.drop_first());
    }
}

// ---------- numeric literals ----------

/// The float-suffix check: after the digits of an integer literal, a `.`
/// followed by a digit (hexadecimal digit for a hexadecimal literal,
/// decimal digit otherwise) turns the literal into a float, consuming the
/// `.` and the following digit run. Returns whether the check passed and
/// how many characters it consumed.
pub open spec fn float_extra(t: Seq<char>, base: Base) -> (bool, nat) {
    let digit_ok = if base is Hexadecimal {
        t.len() >= 2 && is_hex_digit_char(t[1])
    } else {
        t.len() >= 2 && is_dec_digit_char(t[1])
    };
    if t.len() >= 1 && t[0] == '.' && digit_ok {
        let frac = if base is Hexadecimal {
            class_run(CharClass::HexRun, t.skip(1))
        } else {
            class_run(CharClass::DecRun, t.skip(1))
        };
        (true, 1 + frac)
    } else {
        (false, 0)
    }
}

/// The digit run and float-suffix check of a literal whose base is already
/// known, on the input `t` that follows the base prefix (or follows the
/// first digit, for a decimal literal). A decimal literal scans decimal
/// digits; any other base scans hexadecimal digits whatever the base, and
/// a run without a single digit is reported as an empty literal with the
/// base normalized to decimal.
pub open spec fn with_base_scan(t: Seq<char>, base: Base) -> (LiteralKind, nat) {
    if base is Decimal {
        let n = class_run(CharClass::DecRun, t);
        let fx = float_extra(t.skip(n as int), base);
        if fx.0 {
            (LiteralKind::Float { base }, n + fx.1)
        } else {
            (LiteralKind::Int { base, empty: false }, n)
        }
    } else {
        let n = class_run(CharClass::HexRun, t);
        if !has_hex_digit(t.take(n as int)) {
            (LiteralKind::Int { base: Base::Decimal, empty: true }, n)
        } else {
            let fx = float_extra(t.skip(n as int), base);
            if fx.0 {
                (LiteralKind::Float { base }, n + fx.1)
            } else {
                (LiteralKind::Int { base, empty: false }, n)
            }
        }
    }
}

/// A literal starting with `0`: the next character selects the base, a
/// `b`/`o`/`x` prefix being consumed and a continuing decimal digit
/// selecting a decimal literal. A lone `0` (no prefix letter, no
/// continuing digit) is the decimal integer itself.
pub open spec fn zero_number(s: Seq<char>) -> (LiteralKind, nat) {
    if s.len() >= 2 && (s[1] == 'b' || s[1] == 'o' || s[1] == 'x') {
        let base = if s[1] == 'b' {
            Base::Binary
        } else if s[1] == 'o' {
            Base::Octal
        } else {
            Base::Hexadecimal
        };
        let r = with_base_scan(s.skip(2), base);
        (r.0, 2 + r.1)
    } else if s.len() >= 2 && is_dec_digit_char(s[1]) {
        let r = with_base_scan(s.skip(1), Base::Decimal);
        (r.0, 1 + r.1)
    } else {
        (LiteralKind::Int { base: Base::Decimal, empty: false }, 1)
    }
}

// ---------- punctuation ----------

pub open spec fn is_punct_char(c: char) -> bool {
    c == '\'' || c == '"' || c == ';' || c == ':' || c == ',' || c == '.' || c == '@' || c == '#'
        || c == '~' || c == '?' || c == '$' || c == '=' || c == '!' || c == '<' || c == '>' || c
        == '-' || c == '&' || c == '|' || c == '+' || c == '*' || c == '/' || c == '^' || c == '%'
        || c == '(' || c == ')' || c == '{' || c == '}' || c == '[' || c == ']'
}

pub open spec fn punct_kind(c: char) -> Kind {
    if c == '\'' {
        Kind::Apostrophe
    } else if c == '"' {
        Kind::Quote
    } else if c == ';' {
        Kind::Semi
    } else if c == ':' {
        Kind::Colon
    } else if c == ',' {
        Kind::Comma
    } else if c == '.' {
        Kind::Dot
    } else if c == '@' {
        Kind::At
    } else if c == '#' {
        Kind::Pound
    } else if c == '~' {
        Kind::Tilde
    } else if c == '?' {
        Kind::Question
    } else if c == '$' {
        Kind::Dollar
    } else if c == '=' {
        Kind::Eq
    } else if c == '!' {
        Kind::Bang
    } else if c == '<' {
        Kind::Lt
    } else if c == '>' {
        Kind::Gt
    } else if c == '-' {
        Kind::Minus
    } else if c == '&' {
        Kind::And
    } else if c == '|' {
        Kind::Or
    } else if c == '+' {
        Kind::Plus
    } else if c == '*' {
        Kind::Star
    } else if c == '/' {
        Kind::Slash
    } else if c == '^' {
        Kind::Caret
    } else if c == '%' {
        Kind::Percent
    } else if c == '(' {
        Kind::OpenParen
    } else if c == ')' {
        Kind::CloseParen
    } else if c == '{' {
        Kind::OpenBrace
    } else if c == '}' {
        Kind::CloseBrace
    } else if c == '[' {
        Kind::OpenBracket
    } else {
        Kind::CloseBracket
    }
}

// ---------- the classification function ----------

/// The identifier scan on the input `t` that follows the starting
/// character: a maximal identifier-continuation run, reclassified as
/// [`Kind::InvalidIdent`] — absorbing a further maximal run of Unicode
/// alphanumerics — when the character just after the run is non-ASCII.
pub open spec fn ident_continue_scan(t: Seq<char>) -> (Kind, nat) {
    let n = class_run(CharClass::IdentContinue, t);
    if n < t.len() && !is_ascii_char(t[n as int]) {
        (Kind::InvalidIdent, n + class_run(CharClass::Alnum, t.skip(n as int)))
    } else {
        (Kind::Ident, n)
    }
}

/// The token the scanner produces on remaining input `s`, with the number
/// of characters it consumes, in the scanner's priority order: whitespace,
/// identifier, non-ASCII identifier-shaped run, numeric literal,
/// punctuation, unknown; end of input yields [`Kind::Eof`] and consumes
/// nothing.
pub open spec fn next_token(s: Seq<char>) -> (Kind, nat) {
    if s.len() == 0 {
        (Kind::Eof, 0)
    } else {
        let c = s[0];
        if is_whitespace_char(c) {
            let n = 1 + class_run(CharClass::Whitespace, s.skip(1));
            (Kind::Space { newline: has_char(s.take(n as int), '\n') }, n)
        } else if is_ident_start_char(c) {
            let r = ident_continue_scan(s.skip(1));
            (r.0, 1 + r.1)
        } else if !is_ascii_char(c) {
            (Kind::InvalidIdent, 1 + class_run(CharClass::Alnum, s.skip(1)))
        } else if c == '0' {
            let r = zero_number(s);
            (Kind::Literal(r.0), r.1)
        } else if is_dec_digit_char(c) {
            let r = with_base_scan(s.skip(1), Base::Decimal);
            (Kind::Literal(r.0), 1 + r.1)
        } else if is_punct_char(c) {
            (punct_kind(c), 1)
        } else {
            (Kind::Unknown, 1 + class_run(CharClass::UnknownTail, s.skip(1)))
        }
    }
}

pub open spec fn next_token_kind(s: Seq<char>) -> Kind {
    next_token(s).0
}

pub open spec fn next_token_chars(s: Seq<char>) -> nat {
    next_token(s).1
}

/// The token value produced on remaining input `s`: its kind, and its
/// length in bytes of the consumed characters.
pub open spec fn spec_token(s: Seq<char>) -> Token {
    Token {
        kind: next_token_kind(s),
        len: bytes_len(s.take(next_token_chars(s) as int)) as u32,
    }
}

/// The remaining input after one token has been consumed.
pub open spec fn rest_after(s: Seq<char>) -> Seq<char> {
    s.skip(next_token_chars(s) as int)
}

/// The remaining input after `n` tokens have been consumed.
pub open spec fn rest_after_n(s: Seq<char>, n: nat) -> Seq<char>
    decreases n,
{
    if n == 0 {
        s
    } else {
        rest_after(rest_after_n(s, (n - 1) as nat))
    }
}

// ---------- consumption bounds and progress ----------

pub proof fn lemma_float_extra_le(t: Seq<char>, base: Base)
    ensures
        float_extra(t, base).1 <= t.len(),
{
    if float_extra(t, base).0 {
        lemma_class_run_le(CharClass::HexRun, t.skip(1));
        lemma_class_run_le(CharClass::DecRun, t.skip(1));
    }
}

pub proof fn lemma_with_base_le(t: Seq<char>, base: Base)
    ensures
        with_base_scan(t, base).1 <= t.len(),
{
    lemma_class_run_le(CharClass::DecRun, t);
    lemma_class_run_le(CharClass::HexRun, t);
    let n = if base is Decimal {
        class_run(CharClass::DecRun, t)
    } else {
        class_run(CharClass::HexRun, t)
    };
    lemma_float_extra_le(t.skip(n as int), base);
}

pub proof fn lemma_ident_scan_le(t: Seq<char>)
    ensures
        ident_continue_scan(t).1 <= t.len(),
{
    let n = class_run(CharClass::IdentContinue, t);
    lemma_class_run_le(CharClass::IdentContinue, t);
    if n < t.len() && !is_ascii_char(t[n as int]) {
        lemma_class_run_le(CharClass::Alnum, t.skip(n as int));
    }
}

/// Consecutive skips collapse into one.
pub proof fn lemma_skip_skip(s: Seq<char>, a: int, b: int)
    requires
        0 <= a,
        0 <= b,
        a + b <= s.len(),
    ensures
        s.skip(a).skip(b) == s.skip(a + b),
{
    assert(s.skip(a).skip(b) =~= s.skip(a + b));
}

/// The scanner's progress and totality bounds: it never consumes more
/// than the remaining input; on a non-empty input it consumes at least
/// one character and yields a token other than `Eof`; on an empty input
/// it consumes nothing and yields `Eof`.
pub proof fn lemma_next_token_progress(s: Seq<char>)
    ensures
        next_token_chars(s) <= s.len(),
        s.len() > 0 ==> 1 <= next_token_chars(s) && !(next_token_kind(s) is Eof),
        s.len() == 0 ==> next_token_kind(s) is Eof && next_token_chars(s) == 0,
{
    if s.len() > 0 {
        let c = s[0];
        lemma_class_run_le(CharClass::Whitespace, s.skip(1));
        lemma_class_run_le(CharClass::Alnum, s.skip(1));
        lemma_class_run_le(CharClass::UnknownTail, s.skip(1));
        if is_ident_start_char(c) && !is_whitespace_char(c) {
            let t = s.skip(1);
            let n = class_run(CharClass::IdentContinue, t);
            lemma_class_run_le(CharClass::IdentContinue, t);
            if n < t.len() && !is_ascii_char(t[n as int]) {
                lemma_class_run_le(CharClass::Alnum, t.skip(n as int));
            }
        }
        if c == '0' {
            lemma_with_base_le(s.skip(2), Base::Binary);
            lemma_with_base_le(s.skip(2), Base::Octal);
            lemma_with_base_le(s.skip(2), Base::Hexadecimal);
            lemma_with_base_le(s.skip(1), Base::Decimal);
        }
        if is_dec_digit_char(c) {
            lemma_with_base_le(s.skip(1), Base::Decimal);
        }
    }
}

// ---------- occurrence decompositions ----------

/// Splitting off the first character of a prefix.
pub proof fn lemma_has_char_cons(s: Seq<char>, m: int, c: char)
    requires
        1 <= m <= s.len(),
    ensures
        has_char(s.take(m), c) <==> (s[0] == c || has_char(s.skip(1).take(m - 1), c)),
{
    if has_char(s.take(m), c) {
        let i = choose|i: int| 0 <= i < s.take(m).len() && #[trigger] s.take(m)[i] == c;
        if i > 0 {
            assert(s.skip(1).take(m - 1)[i - 1] == c);
        }
    }
    if s[0] == c {
        assert(s.take(m)[0] == c);
    }
    if has_char(s.skip(1).take(m - 1), c) {
        let i = choose|i: int|
            0 <= i < s.skip(1).take(m - 1).len() && #[trigger] s.skip(1).take(m - 1)[i] == c;
        assert(s.take(m)[i + 1] == c);
    }
}

/// Extending a prefix by one character.
pub proof fn lemma_has_char_snoc(s: Seq<char>, j: int, c: char)
    requires
        0 <= j < s.len(),
    ensures
        has_char(s.take(j + 1), c) <==> (has_char(s.take(j), c) || s[j] == c),
{
    if has_char(s.take(j + 1), c) {
        let i = choose|i: int| 0 <= i < s.take(j + 1).len() && #[trigger] s.take(j + 1)[i] == c;
        if i < j {
            assert(s.take(j)[i] == c);
        }
    }
    if has_char(s.take(j), c) {
        let i = choose|i: int| 0 <= i < s.take(j).len() && #[trigger] s.take(j)[i] == c;
        assert(s.take(j + 1)[i] == c);
    }
    if s[j] == c {
        assert(s.take(j + 1)[j] == c);
    }
}

/// Extending a prefix by one character, for hexadecimal digit occurrence.
pub proof fn lemma_has_hex_digit_snoc(s: Seq<char>, j: int)
    requires
        0 <= j < s.len(),
    ensures
        has_hex_digit(s.take(j + 1)) <==> (has_hex_digit(s.take(j)) || is_hex_digit_char(
            s[j],
        )),
{
    if has_hex_digit(s.take(j + 1)) {
        let i = choose|i: int| 0 <= i < s.take(j + 1).len() && is_hex_digit_char(#[trigger] s.take(j + 1)[i]);
        if i < j {
            assert(is_hex_digit_char(s.take(j)[i]));
        }
    }
    if has_hex_digit(s.take(j)) {
        let i = choose|i: int| 0 <= i < s.take(j).len() && is_hex_digit_char(#[trigger] s.take(j)[i]);
        assert(is_hex_digit_char(s.take(j + 1)[i]));
    }
    if is_hex_digit_char(s[j]) {
        assert(is_hex_digit_char(s.take(j + 1)[j]));
    }
}

/// Extending a prefix by one character, for decimal digit occurrence.
pub proof fn lemma_has_dec_digit_snoc(s: Seq<char>, j: int)
    requires
        0 <= j < s.len(),
    ensures
        has_dec_digit(s.take(j + 1)) <==> (has_dec_digit(s.take(j)) || is_dec_digit_char(
            s[j],
        )),
{
    if has_dec_digit(s.take(j + 1)) {
        let i = choose|i: int|
            0 <= i < s.take(j + 1).len() && is_dec_digit_char(#[trigger] s.take(j + 1)[i]);
        if i < j {
            assert(is_dec_digit_char(s.take(j)[i]));
        }
    }
    if has_dec_digit(s.take(j)) {
        let i = choose|i: int|
            0 <= i < s.take(j).len() && is_dec_digit_char(#[trigger] s.take(j)[i]);
        assert(is_dec_digit_char(s.take(j + 1)[i]));
    }
    if is_dec_digit_char(s[j]) {
        assert(is_dec_digit_char(s.take(j + 1)[j]));
    }
}

// ---------- laws of the whole scan ----------

/// The number of tokens the scanner produces before `Eof` on input `s`.
pub open spec fn token_count(s: Seq<char>) -> nat
    decreases s.len(),
    via token_count_decreases
{
    if s.len() == 0 {
        0
    } else {
        1 + token_count(rest_after(s))
    }
}

#[via_fn]
proof fn token_count_decreases(s: Seq<char>) {
    if s.len() != 0 {
        lemma_next_token_progress(s);
    }
}

/// The sum of the byte lengths of all tokens the scanner produces on `s`.
pub open spec fn tokens_bytes_sum(s: Seq<char>) -> nat
    decreases s.len(),
    via tokens_bytes_sum_decreases
{
    if s.len() == 0 {
        0
    } else {
        bytes_len(s.take(next_token_chars(s) as int)) + tokens_bytes_sum(rest_after(s))
    }
}

#[via_fn]
proof fn tokens_bytes_sum_decreases(s: Seq<char>) {
    if s.len() != 0 {
        lemma_next_token_progress(s);
    }
}

/// Looking ahead composes with consuming: the state reached by `n + 1`
/// consumed tokens is the state reached by one consumed token and then
/// `n` more. Together with `rest_after_n(s, 0) == s` this says that the
/// token reported for lookahead depth `n` is exactly the token `next`
/// produces once `n` tokens have been consumed.
pub proof fn lemma_rest_after_n_shift(s: Seq<char>, n: nat)
    ensures
        rest_after_n(s, 0) == s,
        rest_after_n(s, n + 1) == rest_after_n(rest_after(s), n),
    decreases n,
{
    if n == 0 {
        assert(rest_after_n(s, 1) == rest_after(rest_after_n(s, 0)));
        assert(rest_after_n(rest_after(s), 0) == rest_after(s));
    } else {
        lemma_rest_after_n_shift(s, (n - 1) as nat);
        assert(rest_after_n(s, n + 1) == rest_after(rest_after_n(s, n)));
        assert(rest_after_n(rest_after(s), n) == rest_after(
            rest_after_n(rest_after(s), (n - 1) as nat),
        ));
    }
}

/// Law: scanning any finite input terminates — after `token_count(s)`
/// calls the input is exhausted and the scanner reports `Eof`, and at
/// every earlier state it reports a token other than `Eof`.
pub proof fn lemma_scan_terminates(s: Seq<char>)
    ensures
        rest_after_n(s, token_count(s)).len() == 0,
        next_token_kind(rest_after_n(s, token_count(s))) is Eof,
        forall|m: nat|
            m < token_count(s) ==> !(next_token_kind(#[trigger] rest_after_n(s, m)) is Eof),
    decreases s.len(),
{
    lemma_next_token_progress(s);
    if s.len() == 0 {
    } else {
        let rest = rest_after(s);
        lemma_scan_terminates(rest);
        lemma_rest_after_n_shift(s, (token_count(s) - 1) as nat);
        assert forall|m: nat| m < token_count(s) implies !(next_token_kind(
            #[trigger] rest_after_n(s, m),
        ) is Eof) by {
            if m > 0 {
                lemma_rest_after_n_shift(s, (m - 1) as nat);
                assert(rest_after_n(s, m) == rest_after_n(rest, (m - 1) as nat));
            }
        }
    }
}

/// Law: no byte is lost or double-counted — the byte lengths of the
/// tokens the scanner produces on `s` sum to the byte length of `s`.
pub proof fn lemma_scan_conserves_bytes(s: Seq<char>)
    ensures
        tokens_bytes_sum(s) == bytes_len(s),
    decreases s.len(),
{
    if s.len() > 0 {
        lemma_next_token_progress(s);
        lemma_bytes_len_split(s, next_token_chars(s) as int);
        lemma_scan_conserves_bytes(rest_after(s));
    }
}

/// Law: `Eof` is terminal and idempotent — on an exhausted input the
/// scanner reports `Eof` with length zero and leaves the state
/// unchanged, so every further call reports the same.
pub proof fn lemma_eof_idempotent(s: Seq<char>)
    requires
        s.len() == 0,
    ensures
        next_token_kind(s) is Eof,
        spec_token(s) == (Token { kind: Kind::Eof, len: 0 }),
        rest_after(s) == s,
{
    assert(s.skip(0) =~= s);
    assert(s.take(0) =~= s);
}

// ---------- continuation scanners ----------

/// The string continuation: characters consumed until an unescaped closing
/// `"`, a `\` making the following character unable to terminate the
/// string. Returns whether the string was terminated and how many
/// characters were consumed.
pub open spec fn str_continue(s: Seq<char>) -> (bool, nat)
    decreases s.len(),
{
    if s.len() == 0 {
        (false, 0)
    } else if s[0] == '"' {
        (true, 1)
    } else if s[0] == '\\' {
        if s.len() == 1 {
            (false, 1)
        } else {
            let r = str_continue(s.skip(2));
            (r.0, 2 + r.1)
        }
    } else {
        let r = str_continue(s.skip(1));
        (r.0, 1 + r.1)
    }
}

/// The general path of the character continuation, with `count` logical
/// units already consumed: an unescaped `'` terminates, an unescaped
/// newline or the end of input aborts as unterminated, and `\` consumes
/// the following character as part of one unit. Returns termination, the
/// one-symbol flag, and the characters consumed.
pub open spec fn char_continue_from(s: Seq<char>, count: nat) -> (bool, bool, nat)
    decreases s.len(),
{
    if s.len() == 0 {
        (false, false, 0)
    } else if s[0] == '\'' {
        (true, count == 1, 1)
    } else if s[0] == '\n' {
        (false, false, 0)
    } else if s[0] == '\\' {
        if s.len() == 1 {
            (false, false, 1)
        } else {
            let r = char_continue_from(s.skip(2), count + 1);
            (r.0, r.1, 2 + r.2)
        }
    } else {
        let r = char_continue_from(s.skip(1), count + 1);
        (r.0, r.1, 1 + r.2)
    }
}

/// The character continuation: a fast path closes a single non-backslash
/// character followed directly by `'`; anything else takes the general
/// path.
pub open spec fn char_continue(s: Seq<char>) -> (bool, bool, nat) {
    if s.len() >= 2 && s[1] == '\'' && s[0] != '\\' {
        (true, true, 2)
    } else {
        char_continue_from(s, 0)
    }
}

// ---------- whitespace continuation ----------

/// The whitespace continuation: the maximal whitespace run and whether it
/// holds a newline.
pub open spec fn space_continue(s: Seq<char>) -> (bool, nat) {
    let n = class_run(CharClass::Whitespace, s);
    (has_char(s.take(n as int), '\n'), n)
}

// ---------- executable character classes ----------

pub(crate) fn is_whitespace(c: char) -> (r: bool)
    ensures
        r == is_whitespace_char(c),
{
    let u = c as u32;
    (0x09 <= u && u <= 0x0D) || u == 0x20 || u == 0x85 || u == 0xA0 || u == 0x1680 || (0x2000
        <= u && u <= 0x200A) || u == 0x2028 || u == 0x2029 || u == 0x202F || u == 0x205F || u
        == 0x3000
}

pub(crate) fn is_ascii(c: char) -> (r: bool)
    ensures
        r == is_ascii_char(c),
{
    (c as u32) <= 0x7F
}

pub(crate) fn is_ident_start(c: char) -> (r: bool)
    ensures
        r == is_ident_start_char(c),
{
    let u = c as u32;
    (0x61 <= u && u <= 0x7A) || (0x41 <= u && u <= 0x5A) || c == '_'
}

pub(crate) fn is_ident_continue(c: char) -> (r: bool)
    ensures
        r == is_ident_continue_char(c),
{
    let u = c as u32;
    (0x61 <= u && u <= 0x7A) || (0x41 <= u && u <= 0x5A) || (0x30 <= u && u <= 0x39) || c == '_'
}

pub(crate) fn is_dec_digit(c: char) -> (r: bool)
    ensures
        r == is_dec_digit_char(c),
{
    let u = c as u32;
    0x30 <= u && u <= 0x39
}

pub(crate) fn is_hex_digit(c: char) -> (r: bool)
    ensures
        r == is_hex_digit_char(c),
{
    let u = c as u32;
    (0x30 <= u && u <= 0x39) || (0x61 <= u && u <= 0x66) || (0x41 <= u && u <= 0x46)
}

/// The executable test for membership in a scanned character class.
pub(crate) fn class_test(cl: CharClass, c: char) -> (r: bool)
    ensures
        r == class_holds(cl, c),
{
    match cl {
        CharClass::Whitespace => is_whitespace(c),
        CharClass::IdentContinue => is_ident_continue(c),
        CharClass::Alnum => c.is_alphanumeric(),
        CharClass::DecRun => is_dec_digit(c) || c == '_',
        CharClass::HexRun => is_hex_digit(c) || c == '_',
        CharClass::UnknownTail => !is_ascii(c) && c.is_alphanumeric(),
    }
}

pub(crate) fn char_utf8_bytes(c: char) -> (r: u8)
    ensures
        r == char_bytes(c),
{
    let u = c as u32;
    if u < 0x80 {
        1
    } else if u < 0x800 {
        2
    } else if u < 0x10000 {
        3
    } else {
        4
    }
}

} // verus!
