//! Lexical analysis of GraphQL source text.
//!
//! Whitespace, line terminators, commas, byte-order marks and `#` comments are
//! ignored between tokens. Integer and float literals keep their source text;
//! a minus must be followed by a digit. String literals are unescaped,
//! including `\u` escapes of exactly four hexadecimal digits and the braced
//! form; block strings are dedented. The lexer reads characters, while the
//! messages of its errors speak of bytes: an unexpected character, or the
//! letter of an unknown escape, is quoted by the first byte of its UTF-8
//! encoding read as a character, and a `\u` escape whose four bytes end inside
//! a character is incomplete.
use vstd::prelude::*;
use crate::dedent::{dedent_block_string, dedent_spec};
use crate::parse::ParseError;

verus! {

/// The view of a [`Token`].
pub enum SpecToken {
    Name(Seq<char>),
    Int(Seq<char>),
    Float(Seq<char>),
    String(Seq<char>),
    Punct(char),
    Spread,
    Eof,
}

/// A single lexical token.
pub enum Token {
    Name(String),
    Int(String),
    Float(String),
    String(String),
    Punct(char),
    Spread,
    Eof,
}

impl View for Token {
    type V = SpecToken;

    open spec fn view(&self) -> SpecToken {
        match self {
            Token::Name(n) => SpecToken::Name(n@),
            Token::Int(t) => SpecToken::Int(t@),
            Token::Float(t) => SpecToken::Float(t@),
            Token::String(t) => SpecToken::String(t@),
            Token::Punct(c) => SpecToken::Punct(*c),
            Token::Spread => SpecToken::Spread,
            Token::Eof => SpecToken::Eof,
        }
    }
}

// ---------------------------------------------------------------------------
// Character classes
// ---------------------------------------------------------------------------

/// Insignificant characters between tokens: whitespace, line terminators,
/// commas and the byte-order mark.
pub open spec fn is_ignored_char(c: char) -> bool {
    c == ' ' || c == '\t' || c == '\r' || c == '\n' || c == ',' || c == '\u{FEFF}'
}

pub open spec fn is_line_end(c: char) -> bool {
    c == '\n' || c == '\r'
}

pub open spec fn is_punct_char(c: char) -> bool {
    c == '!' || c == '$' || c == '(' || c == ')' || c == ':' || c == '=' || c == '@' || c == '['
        || c == ']' || c == '{' || c == '}' || c == '|' || c == '&'
}

pub open spec fn is_digit(c: char) -> bool {
    '0' <= c <= '9'
}

pub open spec fn is_name_start(c: char) -> bool {
    c == '_' || ('a' <= c <= 'z') || ('A' <= c <= 'Z')
}

pub open spec fn is_name_continue(c: char) -> bool {
    is_name_start(c) || is_digit(c)
}

/// The value of a hexadecimal digit, or -1.
pub open spec fn hex_value(c: char) -> int {
    if '0' <= c <= '9' {
        c as int - '0' as int
    } else if 'a' <= c <= 'f' {
        c as int - 'a' as int + 10
    } else if 'A' <= c <= 'F' {
        c as int - 'A' as int + 10
    } else {
        -1
    }
}

/// A Unicode scalar value: a code point that is not a surrogate.
pub open spec fn is_scalar(v: int) -> bool {
    0 <= v <= 0x10FFFF && !(0xD800 <= v <= 0xDFFF)
}

// ---------------------------------------------------------------------------
// What the lexer reads
// ---------------------------------------------------------------------------

/// Position after the ignored input starting at `p`.
pub open spec fn skip_ignored_spec(s: Seq<char>, p: int) -> int
    decreases s.len() - p, 0nat,
{
    if 0 <= p < s.len() && is_ignored_char(s[p]) {
        skip_ignored_spec(s, p + 1)
    } else if 0 <= p < s.len() && s[p] == '#' {
        skip_comment_spec(s, p + 1)
    } else {
        p
    }
}

/// Position after the rest of a comment starting at `p`, and the ignored
/// input after it.
pub open spec fn skip_comment_spec(s: Seq<char>, p: int) -> int
    decreases s.len() - p, 1nat,
{
    if 0 <= p < s.len() && !is_line_end(s[p]) {
        skip_comment_spec(s, p + 1)
    } else {
        skip_ignored_spec(s, p)
    }
}

/// End of the run of name characters starting at `p`.
pub open spec fn name_end(s: Seq<char>, p: int) -> int
    decreases s.len() - p,
{
    if 0 <= p < s.len() && is_name_continue(s[p]) {
        name_end(s, p + 1)
    } else {
        p
    }
}

/// End of the run of decimal digits starting at `p`.
pub open spec fn digits_end(s: Seq<char>, p: int) -> int
    decreases s.len() - p,
{
    if 0 <= p < s.len() && is_digit(s[p]) {
        digits_end(s, p + 1)
    } else {
        p
    }
}

proof fn lemma_digits_end_ge(s: Seq<char>, p: int)
    ensures
        digits_end(s, p) >= p,
    decreases s.len() - p,
{
    if 0 <= p < s.len() && is_digit(s[p]) {
        lemma_digits_end_ge(s, p + 1);
    }
}

pub open spec fn char_at(s: Seq<char>, p: int, c: char) -> bool {
    0 <= p < s.len() && s[p] == c
}

/// A number starting at `p`: an optional minus, digits, an optional fraction
/// and an optional exponent. It is a float when it has a fraction or an
/// exponent; its text is kept as written.
pub open spec fn lex_number_spec(s: Seq<char>, p: int) -> Result<(SpecToken, int), Seq<char>> {
    if char_at(s, p, '-') && !(0 <= p + 1 < s.len() && is_digit(s[p + 1])) {
        Err("expected a digit after '-'"@)
    } else {
        lex_number_text_spec(s, p)
    }
}

/// The text of a number starting at `p`, once a minus, if any, is known to
/// be followed by a digit.
pub open spec fn lex_number_text_spec(s: Seq<char>, p: int) -> Result<(SpecToken, int), Seq<char>> {
    let q0 = if char_at(s, p, '-') {
        p + 1
    } else {
        p
    };
    let q1 = digits_end(s, q0);
    let has_fraction = char_at(s, q1, '.');
    let q2 = if has_fraction {
        digits_end(s, q1 + 1)
    } else {
        q1
    };
    let has_exponent = char_at(s, q2, 'e') || char_at(s, q2, 'E');
    let q3 = if has_exponent {
        let q = q2 + 1;
        if char_at(s, q, '+') || char_at(s, q, '-') {
            digits_end(s, q + 1)
        } else {
            digits_end(s, q)
        }
    } else {
        q2
    };
    let text = s.subrange(p, q3);
    if has_fraction || has_exponent {
        Ok((SpecToken::Float(text), q3))
    } else {
        Ok((SpecToken::Int(text), q3))
    }
}

/// The number of bytes that `c` takes in UTF-8.
pub open spec fn utf8_len(c: char) -> int {
    if (c as int) < 0x80 {
        1
    } else if (c as int) < 0x800 {
        2
    } else if (c as int) < 0x10000 {
        3
    } else {
        4
    }
}

/// The first byte of `c` in UTF-8, taken as the character with that code
/// (as the source's bytes read one at a time show it).
pub open spec fn utf8_lead(c: char) -> char {
    let v = c as int;
    (if v < 0x80 {
        v
    } else if v < 0x800 {
        0xC0 + v / 64
    } else if v < 0x10000 {
        0xE0 + v / 4096
    } else {
        0xF0 + v / 262144
    }) as char
}

/// The characters from `q` on fill exactly `n` bytes of UTF-8, ending on a
/// character boundary.
pub open spec fn fills_bytes(s: Seq<char>, q: int, n: int) -> bool
    decreases s.len() - q,
{
    if n <= 0 {
        n == 0
    } else if !(0 <= q < s.len()) {
        false
    } else {
        fills_bytes(s, q + 1, n - utf8_len(s[q]))
    }
}

/// The `Debug` text of a character (what `format!("{:?}", c)` gives).
pub uninterp spec fn char_debug(c: char) -> Seq<char>;

/// A braced escape `\u{...}` whose digits start at `q`: `value` and `seen`
/// hold what was read so far. The value must be a Unicode scalar value. An
/// error carries its message.
pub open spec fn braced_escape_spec(s: Seq<char>, q: int, value: int, seen: bool) -> Result<
    (char, int),
    Seq<char>,
>
    decreases s.len() - q,
{
    if !(0 <= q < s.len()) {
        Err("unterminated unicode escape"@)
    } else if s[q] == '}' {
        if !seen {
            Err("empty unicode escape"@)
        } else if is_scalar(value) {
            Ok((value as char, q + 1))
        } else {
            Err("invalid unicode code point"@)
        }
    } else if hex_value(s[q]) >= 0 {
        let v = value * 16 + hex_value(s[q]);
        if v > 0x10FFFF {
            Err("invalid unicode code point"@)
        } else {
            braced_escape_spec(s, q + 1, v, true)
        }
    } else {
        Err("invalid unicode escape"@)
    }
}

/// A four-character escape `\uXXXX` whose characters start at `q`: exactly
/// four hexadecimal digits. The escape is incomplete when the text after `u`
/// does not hold four bytes of UTF-8 ending on a character boundary.
pub open spec fn fixed_escape_spec(s: Seq<char>, q: int) -> Result<(char, int), Seq<char>> {
    if !fills_bytes(s, q, 4) {
        Err("incomplete unicode escape"@)
    } else if !(0 <= q && q + 4 <= s.len()) {
        Err("invalid unicode escape"@)
    } else {
        let (h0, h1, h2, h3) = (hex_value(s[q]), hex_value(s[q + 1]), hex_value(s[q + 2]), hex_value(s[q + 3]));
        let v = if h0 >= 0 && h1 >= 0 && h2 >= 0 && h3 >= 0 {
            h0 * 4096 + h1 * 256 + h2 * 16 + h3
        } else {
            -1
        };
        if v < 0 {
            Err("invalid unicode escape"@)
        } else if is_scalar(v) {
            Ok((v as char, q + 4))
        } else {
            Err("invalid unicode code point"@)
        }
    }
}

/// The escape whose letter is at `q` (just after a backslash).
pub open spec fn escape_spec(s: Seq<char>, q: int) -> Result<(char, int), Seq<char>> {
    if !(0 <= q < s.len()) {
        Err("unterminated escape"@)
    } else {
        let c = s[q];
        if c == '"' {
            Ok(('"', q + 1))
        } else if c == '\\' {
            Ok(('\\', q + 1))
        } else if c == '/' {
            Ok(('/', q + 1))
        } else if c == 'b' {
            Ok(('\u{0008}', q + 1))
        } else if c == 'f' {
            Ok(('\u{000C}', q + 1))
        } else if c == 'n' {
            Ok(('\n', q + 1))
        } else if c == 'r' {
            Ok(('\r', q + 1))
        } else if c == 't' {
            Ok(('\t', q + 1))
        } else if c == 'u' {
            if char_at(s, q + 1, '{') {
                braced_escape_spec(s, q + 2, 0, false)
            } else {
                fixed_escape_spec(s, q + 1)
            }
        } else {
            Err("invalid escape sequence \\"@.push(utf8_lead(c)))
        }
    }
}

/// The rest of a quoted string from `q`, with `acc` read so far. A line
/// terminator or the end of input before the closing quote is an error.
pub open spec fn string_chars_spec(s: Seq<char>, q: int, acc: Seq<char>) -> Result<
    (SpecToken, int),
    Seq<char>,
>
    decreases s.len() - q,
{
    if !(0 <= q < s.len()) {
        Err("unterminated string"@)
    } else if s[q] == '"' {
        Ok((SpecToken::String(acc), q + 1))
    } else if s[q] == '\\' {
        match escape_spec(s, q + 1) {
            Ok((c, q2)) => if q < q2 <= s.len() {
                string_chars_spec(s, q2, acc.push(c))
            } else {
                Err("unterminated escape"@)
            },
            Err(m) => Err(m),
        }
    } else if is_line_end(s[q]) {
        Err("unterminated string"@)
    } else {
        string_chars_spec(s, q + 1, acc.push(s[q]))
    }
}

pub open spec fn triple_quote_at(s: Seq<char>, q: int) -> bool {
    char_at(s, q, '"') && char_at(s, q + 1, '"') && char_at(s, q + 2, '"')
}

/// The rest of a block string from `q`, with raw text `raw` read so far.
/// `\"""` stands for three quotes; the raw text is dedented at the end.
pub open spec fn block_chars_spec(s: Seq<char>, q: int, raw: Seq<char>) -> Result<
    (SpecToken, int),
    Seq<char>,
>
    decreases s.len() - q,
{
    if triple_quote_at(s, q) {
        Ok((SpecToken::String(dedent_spec(raw)), q + 3))
    } else if !(0 <= q < s.len()) {
        Err("unterminated block string"@)
    } else if s[q] == '\\' && triple_quote_at(s, q + 1) {
        block_chars_spec(s, q + 4, raw + seq!['"', '"', '"'])
    } else {
        block_chars_spec(s, q + 1, raw.push(s[q]))
    }
}

/// A string literal whose opening quote is at `p`.
pub open spec fn lex_string_spec(s: Seq<char>, p: int) -> Result<(SpecToken, int), Seq<char>> {
    if triple_quote_at(s, p) {
        block_chars_spec(s, p + 3, Seq::empty())
    } else {
        string_chars_spec(s, p + 1, Seq::empty())
    }
}

/// Every position from `p` up to `digits_end(s, p)` holds a digit.
proof fn lemma_digits_end_digits(s: Seq<char>, p: int)
    requires
        0 <= p,
    ensures
        p <= digits_end(s, p),
        digits_end(s, p) == p || digits_end(s, p) <= s.len(),
        forall|i: int| p <= i < digits_end(s, p) ==> is_digit(#[trigger] s[i]),
    decreases s.len() - p,
{
    if 0 <= p < s.len() && is_digit(s[p]) {
        lemma_digits_end_digits(s, p + 1);
    }
}

/// A number literal keeps its source text, and it is a float exactly when
/// that text holds a `.`, an `e` or an `E` (a fraction or an exponent);
/// otherwise it is a run of digits after an optional minus.
pub proof fn law_number_kind(s: Seq<char>, p: int)
    requires
        0 <= p < s.len(),
        s[p] == '-' || is_digit(s[p]),
    ensures
        match lex_number_spec(s, p) {
            Ok((tok, q)) => {
                &&& p < q <= s.len()
                &&& match tok {
                    SpecToken::Float(t) => t == s.subrange(p, q) && exists|i: int|
                        p <= i < q && (#[trigger] s[i] == '.' || s[i] == 'e' || s[i] == 'E'),
                    SpecToken::Int(t) => t == s.subrange(p, q) && forall|i: int|
                        p <= i < q ==> (is_digit(#[trigger] s[i]) || (i == p && s[i] == '-')),
                    _ => false,
                }
            },
            Err(_) => s[p] == '-' && !(p + 1 < s.len() && is_digit(s[p + 1])),
        },
{
    let q0 = if char_at(s, p, '-') {
        p + 1
    } else {
        p
    };
    let q1 = digits_end(s, q0);
    lemma_digits_end_digits(s, q0);
    let has_fraction = char_at(s, q1, '.');
    let q2 = if has_fraction {
        digits_end(s, q1 + 1)
    } else {
        q1
    };
    if has_fraction {
        lemma_digits_end_digits(s, q1 + 1);
    }
    let has_exponent = char_at(s, q2, 'e') || char_at(s, q2, 'E');
    let q3 = if has_exponent {
        let q = q2 + 1;
        if char_at(s, q, '+') || char_at(s, q, '-') {
            digits_end(s, q + 1)
        } else {
            digits_end(s, q)
        }
    } else {
        q2
    };
    if has_exponent {
        let q = q2 + 1;
        if char_at(s, q, '+') || char_at(s, q, '-') {
            lemma_digits_end_digits(s, q + 1);
        } else {
            lemma_digits_end_digits(s, q);
        }
    }
    if lex_number_spec(s, p) is Ok {
        assert(lex_number_spec(s, p) == lex_number_text_spec(s, p));
        assert(0 <= q0 < s.len() && is_digit(s[q0]));
        lemma_digits_end_ge(s, q0 + 1);
        assert(q0 < q1);
        assert(p < q3 <= s.len());
        if has_fraction {
            assert(s[q1] == '.' && p <= q1 < q3);
        } else if has_exponent {
            assert((s[q2] == 'e' || s[q2] == 'E') && p <= q2 < q3);
        } else {
            assert(q3 == q1);
            assert forall|i: int| p <= i < q3 implies (is_digit(#[trigger] s[i]) || (i == p
                && s[i] == '-')) by {
                if i >= q0 {
                    assert(is_digit(s[i]));
                }
            }
        }
    }
}

/// The escapes of a string literal decode to their characters: `\"`, `\\`,
/// `\/`, `\b`, `\f`, `\n`, `\r` and `\t` each stand for one character, and
/// reading goes on right after the escape.
pub proof fn law_simple_escapes(s: Seq<char>, q: int, acc: Seq<char>)
    requires
        0 <= q,
        q + 1 < s.len(),
        s[q] == '\\',
    ensures
        s[q + 1] == '"' ==> string_chars_spec(s, q, acc) == string_chars_spec(s, q + 2, acc.push('"')),
        s[q + 1] == '\\' ==> string_chars_spec(s, q, acc) == string_chars_spec(s, q + 2, acc.push('\\')),
        s[q + 1] == '/' ==> string_chars_spec(s, q, acc) == string_chars_spec(s, q + 2, acc.push('/')),
        s[q + 1] == 'b' ==> string_chars_spec(s, q, acc) == string_chars_spec(s, q + 2, acc.push('\u{0008}')),
        s[q + 1] == 'f' ==> string_chars_spec(s, q, acc) == string_chars_spec(s, q + 2, acc.push('\u{000C}')),
        s[q + 1] == 'n' ==> string_chars_spec(s, q, acc) == string_chars_spec(s, q + 2, acc.push('\n')),
        s[q + 1] == 'r' ==> string_chars_spec(s, q, acc) == string_chars_spec(s, q + 2, acc.push('\r')),
        s[q + 1] == 't' ==> string_chars_spec(s, q, acc) == string_chars_spec(s, q + 2, acc.push('\t')),
{
}

/// The next token at or after `pos`, and the position after it; or the
/// message of the error.
#[verifier::opaque]
pub open spec fn next_token_spec(s: Seq<char>, pos: int) -> Result<(SpecToken, int), Seq<char>> {
    let p = skip_ignored_spec(s, pos);
    if !(0 <= p < s.len()) {
        Ok((SpecToken::Eof, p))
    } else {
        let c = s[p];
        if is_punct_char(c) {
            Ok((SpecToken::Punct(c), p + 1))
        } else if c == '.' {
            if char_at(s, p + 1, '.') && char_at(s, p + 2, '.') {
                Ok((SpecToken::Spread, p + 3))
            } else {
                Err("expected '...'"@)
            }
        } else if c == '"' {
            lex_string_spec(s, p)
        } else if is_name_start(c) {
            Ok((SpecToken::Name(s.subrange(p, name_end(s, p))), name_end(s, p)))
        } else if c == '-' || is_digit(c) {
            lex_number_spec(s, p)
        } else {
            Err("unexpected character "@ + char_debug(utf8_lead(c)))
        }
    }
}

// ---------------------------------------------------------------------------
// Executable lexer
// ---------------------------------------------------------------------------

/// `char::from_u32`: the character whose code point is `v`, or `None` when
/// `v` is a surrogate or above U+10FFFF (std documentation of
/// `char::from_u32`).
#[verifier::external_body]
fn char_from_u32(v: u32) -> (r: Option<char>)
    ensures
        r == if is_scalar(v as int) {
            Some((v as int) as char)
        } else {
            None
        },
{
    char::from_u32(v)
}

/// `format!("{:?}", c)`: the `Debug` text of a character, as std writes it
/// (quoted and escaped). The text is named `char_debug` and not stated
/// otherwise: std does not fix the form of `Debug` output.
#[verifier::external_body]
pub(crate) fn char_debug_text(c: char) -> (r: String)
    ensures
        r@ == char_debug(c),
{
    format!("{:?}", c)
}

/// The `Debug` text of a string (what `format!("{:?}", s)` gives).
pub uninterp spec fn str_debug(s: Seq<char>) -> Seq<char>;

/// `format!("{:?}", s)`: the `Debug` text of a string, as std writes it
/// (quoted and escaped). The text is named `str_debug` and not stated
/// otherwise: std does not fix the form of `Debug` output.
#[verifier::external_body]
fn str_debug_text(s: &str) -> (r: String)
    ensures
        r@ == str_debug(s@),
{
    format!("{:?}", s)
}

/// How an error message shows a token: the kind of token, then, in
/// parentheses, the `Debug` text of what it holds.
pub open spec fn token_debug(t: SpecToken) -> Seq<char> {
    match t {
        SpecToken::Name(n) => "Name"@ + "("@ + str_debug(n) + ")"@,
        SpecToken::Int(x) => "Int"@ + "("@ + str_debug(x) + ")"@,
        SpecToken::Float(x) => "Float"@ + "("@ + str_debug(x) + ")"@,
        SpecToken::String(x) => "String"@ + "("@ + str_debug(x) + ")"@,
        SpecToken::Punct(c) => "Punct"@ + "("@ + char_debug(c) + ")"@,
        SpecToken::Spread => "Spread"@,
        SpecToken::Eof => "Eof"@,
    }
}

/// A token's kind and payload wrapped around the payload's `Debug` text.
fn wrapped_debug_text(kind: &str, payload: String) -> (r: String)
    ensures
        r@ == kind@ + "("@ + payload@ + ")"@,
{
    let mut out = String::from_str(kind);
    out.append("(");
    out.append(payload.as_str());
    out.append(")");
    out
}

/// How an error message shows a token.
pub(crate) fn token_debug_text(t: &Token) -> (r: String)
    ensures
        r@ == token_debug(t@),
{
    match t {
        Token::Name(n) => wrapped_debug_text("Name", str_debug_text(n.as_str())),
        Token::Int(x) => wrapped_debug_text("Int", str_debug_text(x.as_str())),
        Token::Float(x) => wrapped_debug_text("Float", str_debug_text(x.as_str())),
        Token::String(x) => wrapped_debug_text("String", str_debug_text(x.as_str())),
        Token::Punct(c) => wrapped_debug_text("Punct", char_debug_text(*c)),
        Token::Spread => String::from_str("Spread"),
        Token::Eof => String::from_str("Eof"),
    }
}

fn is_digit_char(c: char) -> (r: bool)
    ensures
        r == is_digit(c),
{
    '0' <= c && c <= '9'
}

fn is_name_start_char(c: char) -> (r: bool)
    ensures
        r == is_name_start(c),
{
    c == '_' || ('a' <= c && c <= 'z') || ('A' <= c && c <= 'Z')
}

fn is_name_continue_char(c: char) -> (r: bool)
    ensures
        r == is_name_continue(c),
{
    is_name_start_char(c) || is_digit_char(c)
}

fn is_punct(c: char) -> (r: bool)
    ensures
        r == is_punct_char(c),
{
    c == '!' || c == '$' || c == '(' || c == ')' || c == ':' || c == '=' || c == '@' || c == '['
        || c == ']' || c == '{' || c == '}' || c == '|' || c == '&'
}

/// The value of a hexadecimal digit.
fn hex_digit_value(c: char) -> (r: Option<u32>)
    ensures
        match r {
            Some(v) => v as int == hex_value(c) && v < 16,
            None => hex_value(c) < 0,
        },
{
    if '0' <= c && c <= '9' {
        Some((c as u32) - ('0' as u32))
    } else if 'a' <= c && c <= 'f' {
        Some((c as u32) - ('a' as u32) + 10)
    } else if 'A' <= c && c <= 'F' {
        Some((c as u32) - ('A' as u32) + 10)
    } else {
        None
    }
}

/// The number of bytes that `c` takes in UTF-8.
fn utf8_len_of(c: char) -> (r: usize)
    ensures
        r == utf8_len(c),
{
    let v = c as u32;
    if v < 0x80 {
        1
    } else if v < 0x800 {
        2
    } else if v < 0x10000 {
        3
    } else {
        4
    }
}

/// The first byte of `c` in UTF-8, taken as the character with that code.
fn utf8_lead_char(c: char) -> (r: char)
    ensures
        r == utf8_lead(c),
{
    let v = c as u32;
    let b: u32 = if v < 0x80 {
        v
    } else if v < 0x800 {
        0xC0 + v / 64
    } else if v < 0x10000 {
        0xE0 + v / 4096
    } else {
        0xF0 + v / 262144
    };
    assert(b < 256);
    (b as u8) as char
}

/// The lexer: the source characters and the position of the next one.
pub struct Lexer {
    pub chars: Vec<char>,
    pub pos: usize,
}

impl Lexer {
    pub open spec fn wf(&self) -> bool {
        self.pos <= self.chars@.len() <= usize::MAX
    }

    pub fn new(src: &str) -> (r: Lexer)
        ensures
            r.chars@ == src@,
            r.pos == 0,
            r.wf(),
    {
        broadcast use vstd::string::group_string_axioms;

        let mut chars: Vec<char> = Vec::new();
        for c in it: src.chars()
            invariant
                it.seq() == src@,
                chars@ == src@.take(it.index() as int),
        {
            assert(src@.take(it.index() + 1) =~= chars@.push(c));
            chars.push(c);
        }
        assert(src@.take(src@.len() as int) =~= src@);
        assert(chars@.len() == chars.len());
        Lexer { chars, pos: 0 }
    }

    fn char_is(&self, i: usize, c: char) -> (r: bool)
        ensures
            r == char_at(self.chars@, i as int, c),
    {
        i < self.chars.len() && self.chars[i] == c
    }

    /// The characters from `start` to `end` as a string.
    fn text(&self, start: usize, end: usize) -> (r: String)
        requires
            start <= end <= self.chars@.len(),
        ensures
            r@ == self.chars@.subrange(start as int, end as int),
    {
        let mut out = String::new();
        let mut i = start;
        while i < end
            invariant
                start <= i <= end <= self.chars@.len(),
                out@ == self.chars@.subrange(start as int, i as int),
            decreases end - i,
        {
            out.push(self.chars[i]);
            i += 1;
        }
        out
    }

    /// Skip whitespace, line terminators, commas, byte-order marks and
    /// comments.
    fn skip_ignored(&mut self)
        requires
            old(self).wf(),
        ensures
            final(self).wf(),
            final(self).chars == old(self).chars,
            final(self).pos == skip_ignored_spec(old(self).chars@, old(self).pos as int),
            old(self).pos <= final(self).pos,
    {
        let ghost s = self.chars@;
        let ghost c0 = self.chars;
        let ghost p0 = self.pos;
        let ghost target = skip_ignored_spec(s, self.pos as int);
        loop
            invariant
                self.wf(),
                self.chars == c0,
                c0 == old(self).chars,
                s == old(self).chars@,
                p0 <= self.pos,
                self.chars@ == s,
                skip_ignored_spec(s, self.pos as int) == target,
            ensures
                self.pos == target,
            decreases s.len() - self.pos,
        {
            if self.pos >= self.chars.len() {
                break;
            }
            let c = self.chars[self.pos];
            if c == ' ' || c == '\t' || c == '\r' || c == '\n' || c == ',' || c == '\u{FEFF}' {
                self.pos += 1;
            } else if c == '#' {
                let ghost it_start = self.pos;
                self.pos += 1;
                while self.pos < self.chars.len() && !(self.chars[self.pos] == '\n'
                    || self.chars[self.pos] == '\r')
                    invariant
                        self.wf(),
                        self.chars == c0,
                c0 == old(self).chars,
                s == old(self).chars@,
                        p0 <= self.pos,
                        it_start < self.pos,
                        self.chars@ == s,
                        skip_comment_spec(s, self.pos as int) == target,
                    decreases s.len() - self.pos,
                {
                    self.pos += 1;
                }
            } else {
                break;
            }
        }
    }

    /// The end of the run of characters from `p` on that satisfy the digit
    /// class.
    fn digits_end(&self, p: usize) -> (r: usize)
        requires
            p <= self.chars@.len(),
        ensures
            r == digits_end(self.chars@, p as int),
            p <= r <= self.chars@.len(),
    {
        let mut q = p;
        while q < self.chars.len() && is_digit_char(self.chars[q])
            invariant
                p <= q <= self.chars@.len(),
                digits_end(self.chars@, q as int) == digits_end(self.chars@, p as int),
            decreases self.chars@.len() - q,
        {
            q += 1;
        }
        q
    }

    fn lex_name(&mut self) -> (r: Token)
        requires
            old(self).wf(),
        ensures
            final(self).wf(),
            final(self).chars == old(self).chars,
            final(self).pos == name_end(old(self).chars@, old(self).pos as int),
            r@ == SpecToken::Name(old(self).chars@.subrange(old(self).pos as int, final(self).pos as int)),
            old(self).pos <= final(self).pos,
            old(self).pos < old(self).chars@.len() && is_name_start(old(self).chars@[old(self).pos as int])
                ==> old(self).pos < final(self).pos,
    {
        let start = self.pos;
        let ghost c0 = self.chars;
        while self.pos < self.chars.len() && is_name_continue_char(self.chars[self.pos])
            invariant
                self.chars == c0,
                c0 == old(self).chars,
                self.chars@.len() <= usize::MAX,
                start <= self.pos <= self.chars@.len(),
                name_end(self.chars@, self.pos as int) == name_end(self.chars@, start as int),
            decreases self.chars@.len() - self.pos,
        {
            self.pos += 1;
        }
        Token::Name(self.text(start, self.pos))
    }

    fn lex_number(&mut self) -> (r: Result<Token, ParseError>)
        requires
            old(self).wf(),
        ensures
            final(self).wf(),
            final(self).chars == old(self).chars,
            match lex_number_spec(old(self).chars@, old(self).pos as int) {
                Ok((t, q)) => r is Ok && r->Ok_0@ == t && final(self).pos == q,
                Err(m) => r is Err && r->Err_0@ == m,
            },
            old(self).pos <= final(self).pos,
            r is Ok && old(self).pos < old(self).chars@.len() && (old(self).chars@[old(
                self,
            ).pos as int] == '-' || is_digit(old(self).chars@[old(self).pos as int]))
                ==> old(self).pos < final(self).pos,
    {
        let n = self.chars.len();
        let start = self.pos;
        if self.char_is(start, '-') && !(start + 1 < n && is_digit_char(self.chars[start + 1])) {
            return Err(ParseError::new("expected a digit after '-'"));
        }
        proof {
            lemma_digits_end_ge(self.chars@, start + 1);
        }
        let mut q = start;
        if self.char_is(q, '-') {
            q += 1;
        }
        q = self.digits_end(q);
        let has_fraction = self.char_is(q, '.');
        if has_fraction {
            q = self.digits_end(q + 1);
        }
        let has_exponent = self.char_is(q, 'e') || self.char_is(q, 'E');
        if has_exponent {
            q += 1;
            if self.char_is(q, '+') || self.char_is(q, '-') {
                q = self.digits_end(q + 1);
            } else {
                q = self.digits_end(q);
            }
        }
        self.pos = q;
        let text = self.text(start, q);
        if has_fraction || has_exponent {
            Ok(Token::Float(text))
        } else {
            Ok(Token::Int(text))
        }
    }

    fn triple_quote(&self, q: usize) -> (r: bool)
        ensures
            r == triple_quote_at(self.chars@, q as int),
    {
        q < self.chars.len() && self.chars[q] == '"' && q + 1 < self.chars.len() && self.chars[q
            + 1] == '"' && q + 2 < self.chars.len() && self.chars[q + 2] == '"'
    }

    /// A braced escape whose digits start at the current position.
    fn lex_braced_escape(&mut self) -> (r: Result<char, ParseError>)
        requires
            old(self).wf(),
        ensures
            final(self).wf(),
            final(self).chars == old(self).chars,
            match braced_escape_spec(old(self).chars@, old(self).pos as int, 0, false) {
                Ok((c, q)) => r == Ok::<char, ParseError>(c) && final(self).pos == q,
                Err(m) => r is Err && r->Err_0@ == m,
            },
            old(self).pos <= final(self).pos,
            r is Ok ==> old(self).pos < final(self).pos,
    {
        let ghost s = self.chars@;
        let ghost start = self.pos;
        let ghost target = braced_escape_spec(s, self.pos as int, 0, false);
        assert(start == old(self).pos);
        let ghost c0 = self.chars;
        let mut value: u32 = 0;
        let mut seen = false;
        loop
            invariant
                self.wf(),
                self.chars == c0,
                c0 == old(self).chars,
                s == old(self).chars@,
                self.chars@ == s,
                start <= self.pos,
                start == old(self).pos,
                target == braced_escape_spec(old(self).chars@, old(self).pos as int, 0, false),
                value <= 0x10FFFF,
                braced_escape_spec(s, self.pos as int, value as int, seen) == target,
            decreases s.len() - self.pos,
        {
            if self.pos >= self.chars.len() {
                return Err(ParseError::new("unterminated unicode escape"));
            }
            let d = self.chars[self.pos];
            if d == '}' {
                self.pos += 1;
                if !seen {
                    return Err(ParseError::new("empty unicode escape"));
                }
                return match char_from_u32(value) {
                    Some(ch) => Ok(ch),
                    None => Err(ParseError::new("invalid unicode code point")),
                };
            }
            match hex_digit_value(d) {
                Some(h) => {
                    let v = value * 16 + h;
                    if v > 0x10FFFF {
                        return Err(ParseError::new("invalid unicode code point"));
                    }
                    value = v;
                    seen = true;
                    self.pos += 1;
                },
                None => {
                    return Err(ParseError::new("invalid unicode escape"));
                },
            }
        }
    }

    /// A four-character escape starting at the current position.
    fn lex_fixed_escape(&mut self) -> (r: Result<char, ParseError>)
        requires
            old(self).wf(),
        ensures
            final(self).wf(),
            final(self).chars == old(self).chars,
            match fixed_escape_spec(old(self).chars@, old(self).pos as int) {
                Ok((c, q)) => r == Ok::<char, ParseError>(c) && final(self).pos == q,
                Err(m) => r is Err && r->Err_0@ == m,
            },
            old(self).pos <= final(self).pos,
            r is Ok ==> old(self).pos < final(self).pos,
    {
        let q = self.pos;
        let n = self.chars.len();
        let ghost s = self.chars@;
        let mut bytes: usize = 0;
        let mut i = q;
        while bytes < 4 && i < n
            invariant
                q <= i <= n,
                n == s.len(),
                s == self.chars@,
                bytes <= 7,
                bytes <= 4 ==> fills_bytes(s, q as int, 4) == fills_bytes(s, i as int, 4 - bytes),
                bytes > 4 ==> !fills_bytes(s, q as int, 4),
            decreases n - i,
        {
            bytes = bytes + utf8_len_of(self.chars[i]);
            i += 1;
        }
        if bytes != 4 {
            return Err(ParseError::new("incomplete unicode escape"));
        }
        if n - q < 4 {
            return Err(ParseError::new("invalid unicode escape"));
        }
        let value: Option<u32> = match (
            hex_digit_value(self.chars[q]),
            hex_digit_value(self.chars[q + 1]),
            hex_digit_value(self.chars[q + 2]),
            hex_digit_value(self.chars[q + 3]),
        ) {
            (Some(a), Some(b), Some(c), Some(d)) => Some(a * 4096 + b * 256 + c * 16 + d),
            _ => None,
        };
        match value {
            None => Err(ParseError::new("invalid unicode escape")),
            Some(v) => match char_from_u32(v) {
                Some(ch) => {
                    self.pos = q + 4;
                    Ok(ch)
                },
                None => Err(ParseError::new("invalid unicode code point")),
            },
        }
    }

    /// The escape whose letter is at the current position (just after a
    /// backslash).
    fn lex_escape(&mut self) -> (r: Result<char, ParseError>)
        requires
            old(self).wf(),
        ensures
            final(self).wf(),
            final(self).chars == old(self).chars,
            match escape_spec(old(self).chars@, old(self).pos as int) {
                Ok((c, q)) => r == Ok::<char, ParseError>(c) && final(self).pos == q,
                Err(m) => r is Err && r->Err_0@ == m,
            },
            old(self).pos <= final(self).pos,
            r is Ok ==> old(self).pos < final(self).pos,
    {
        if self.pos >= self.chars.len() {
            return Err(ParseError::new("unterminated escape"));
        }
        let c = self.chars[self.pos];
        self.pos += 1;
        if c == '"' {
            Ok('"')
        } else if c == '\\' {
            Ok('\\')
        } else if c == '/' {
            Ok('/')
        } else if c == 'b' {
            Ok('\u{0008}')
        } else if c == 'f' {
            Ok('\u{000C}')
        } else if c == 'n' {
            Ok('\n')
        } else if c == 'r' {
            Ok('\r')
        } else if c == 't' {
            Ok('\t')
        } else if c == 'u' {
            if self.char_is(self.pos, '{') {
                self.pos += 1;
                self.lex_braced_escape()
            } else {
                self.lex_fixed_escape()
            }
        } else {
            let mut message = String::from_str("invalid escape sequence \\");
            message.push(utf8_lead_char(c));
            Err(ParseError::from_message(message.as_str()))
        }
    }

    /// A quoted string whose opening quote is at the current position.
    fn lex_string(&mut self) -> (r: Result<Token, ParseError>)
        requires
            old(self).wf(),
            char_at(old(self).chars@, old(self).pos as int, '"'),
        ensures
            final(self).wf(),
            final(self).chars == old(self).chars,
            match lex_string_spec(old(self).chars@, old(self).pos as int) {
                Ok((t, q)) => r is Ok && r->Ok_0@ == t && final(self).pos == q,
                Err(m) => r is Err && r->Err_0@ == m,
            },
            old(self).pos <= final(self).pos,
            r is Ok ==> old(self).pos < final(self).pos,
    {
        if self.triple_quote(self.pos) {
            return self.lex_block_string();
        }
        let ghost s = self.chars@;
        let ghost start = self.pos;
        let ghost target = string_chars_spec(s, self.pos + 1, Seq::empty());
        let ghost c0 = self.chars;
        self.pos += 1;
        let mut out = String::new();
        loop
            invariant
                self.wf(),
                self.chars == c0,
                c0 == old(self).chars,
                s == old(self).chars@,
                self.chars@ == s,
                start < self.pos,
                start == old(self).pos,
                target == string_chars_spec(old(self).chars@, old(self).pos + 1, Seq::empty()),
                target == lex_string_spec(old(self).chars@, old(self).pos as int),
                string_chars_spec(s, self.pos as int, out@) == target,
            decreases s.len() - self.pos,
        {
            if self.pos >= self.chars.len() {
                return Err(ParseError::new("unterminated string"));
            }
            let c = self.chars[self.pos];
            if c == '"' {
                self.pos += 1;
                return Ok(Token::String(out));
            } else if c == '\\' {
                self.pos += 1;
                let e = self.lex_escape()?;
                out.push(e);
            } else if c == '\n' || c == '\r' {
                return Err(ParseError::new("unterminated string"));
            } else {
                out.push(c);
                self.pos += 1;
            }
        }
    }

    /// A block string whose opening triple quote is at the current position.
    fn lex_block_string(&mut self) -> (r: Result<Token, ParseError>)
        requires
            old(self).wf(),
            triple_quote_at(old(self).chars@, old(self).pos as int),
        ensures
            final(self).wf(),
            final(self).chars == old(self).chars,
            match block_chars_spec(old(self).chars@, old(self).pos + 3, Seq::empty()) {
                Ok((t, q)) => r is Ok && r->Ok_0@ == t && final(self).pos == q,
                Err(m) => r is Err && r->Err_0@ == m,
            },
            old(self).pos <= final(self).pos,
            r is Ok ==> old(self).pos < final(self).pos,
    {
        let ghost s = self.chars@;
        let ghost start = self.pos;
        let ghost target = block_chars_spec(s, self.pos + 3, Seq::empty());
        let ghost c0 = self.chars;
        self.pos += 3;
        let mut raw: Vec<char> = Vec::new();
        loop
            invariant
                self.wf(),
                self.chars == c0,
                c0 == old(self).chars,
                s == old(self).chars@,
                self.chars@ == s,
                start < self.pos,
                start == old(self).pos,
                target == block_chars_spec(old(self).chars@, old(self).pos + 3, Seq::empty()),
                block_chars_spec(s, self.pos as int, raw@) == target,
            decreases s.len() - self.pos,
        {
            if self.triple_quote(self.pos) {
                self.pos += 3;
                return Ok(Token::String(dedent_block_string(&raw)));
            }
            if self.pos >= self.chars.len() {
                return Err(ParseError::new("unterminated block string"));
            }
            let c = self.chars[self.pos];
            if c == '\\' && self.triple_quote(self.pos + 1) {
                let ghost r0 = raw@;
                raw.push('"');
                raw.push('"');
                raw.push('"');
                assert(raw@ =~= r0 + seq!['"', '"', '"']);
                self.pos += 4;
            } else {
                raw.push(c);
                self.pos += 1;
            }
        }
    }

    /// The next token, after skipping ignored input.
    pub fn next_token(&mut self) -> (r: Result<Token, ParseError>)
        requires
            old(self).wf(),
        ensures
            final(self).wf(),
            final(self).chars == old(self).chars,
            match next_token_spec(old(self).chars@, old(self).pos as int) {
                Ok((t, q)) => r is Ok && r->Ok_0@ == t && final(self).pos == q,
                Err(m) => r is Err && r->Err_0@ == m,
            },
            old(self).pos <= final(self).pos,
            r is Ok && !(r->Ok_0@ is Eof) ==> old(self).pos < final(self).pos,
    {
        proof {
            reveal(next_token_spec);
        }
        self.skip_ignored();
        let ghost p1 = self.pos;
        assert(old(self).pos <= p1);
        if self.pos >= self.chars.len() {
            return Ok(Token::Eof);
        }
        let c = self.chars[self.pos];
        if is_punct(c) {
            self.pos += 1;
            Ok(Token::Punct(c))
        } else if c == '.' {
            if self.char_is(self.pos + 1, '.') && self.char_is(self.pos + 2, '.') {
                self.pos += 3;
                Ok(Token::Spread)
            } else {
                Err(ParseError::new("expected '...'"))
            }
        } else if c == '"' {
            let r = self.lex_string();
            assert(p1 <= self.pos);
            r
        } else if is_name_start_char(c) {
            let t = self.lex_name();
            assert(p1 <= self.pos);
            Ok(t)
        } else if c == '-' || is_digit_char(c) {
            let r = self.lex_number();
            assert(p1 <= self.pos);
            r
        } else {
            let mut message = String::from_str("unexpected character ");
            message.append(char_debug_text(utf8_lead_char(c)).as_str());
            Err(ParseError::from_message(message.as_str()))
        }
    }
}

} // verus!
