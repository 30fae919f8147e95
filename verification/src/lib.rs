//! A lightweight lexical-analysis core: a forward-only cursor over a
//! character sequence that classifies the text into tokens (whitespace,
//! identifiers, numeric literals, punctuation) without building a syntax
//! tree. Callers pull tokens one at a time and reconstruct lexeme text by
//! slicing the original buffer with the returned byte lengths.

mod cursor;
mod scan;
mod token;

pub use cursor::Char;
pub use cursor::Cursor;
pub use cursor::Space;
pub use cursor::Str;
pub use scan::bytes_len;
pub use scan::char_bytes;
pub use scan::char_continue;
pub use scan::char_continue_from;
pub use scan::class_holds;
pub use scan::class_run;
pub use scan::float_extra;
pub use scan::has_char;
pub use scan::has_dec_digit;
pub use scan::has_hex_digit;
pub use scan::ident_continue_scan;
pub use scan::is_alnum_char;
pub use scan::is_ascii_char;
pub use scan::is_dec_digit_char;
pub use scan::is_hex_digit_char;
pub use scan::is_ident_continue_char;
pub use scan::is_ident_start_char;
pub use scan::is_punct_char;
pub use scan::is_whitespace_char;
pub use scan::lemma_eof_idempotent;
pub use scan::lemma_next_token_progress;
pub use scan::lemma_rest_after_n_shift;
pub use scan::lemma_scan_conserves_bytes;
pub use scan::lemma_scan_terminates;
pub use scan::next_token;
pub use scan::next_token_chars;
pub use scan::next_token_kind;
pub use scan::punct_kind;
pub use scan::rest_after;
pub use scan::rest_after_n;
pub use scan::space_continue;
pub use scan::spec_token;
pub use scan::str_continue;
pub use scan::token_count;
pub use scan::tokens_bytes_sum;
pub use scan::with_base_scan;
pub use scan::zero_number;
pub use scan::CharClass;
pub use token::Base;
pub use token::Kind;
pub use token::LiteralKind;
pub use token::Token;
