//! Reading printed output back.
//!
//! A document prints to text that parses back to the same document
//! (`law_print_then_parse`) when it is printable (`printable_document`): it
//! has a definition; every name in it is a GraphQL name; the lexer reads the
//! text of each number whole as a number of its kind; no enum value is
//! spelled `true`, `false` or `null`; no fragment, defined or spread, is
//! named `on`; no type is non-null twice in a row; default values hold no
//! variables; no variable definition has directives, which are not printed;
//! and every selection set has a selection. Sorting keeps a
//! document printable, so the sorted form reads back too
//! (`law_sorted_output_reads_back`). The same holds of a single value
//! (`law_value_reads_back`) and of a string literal, whose printed text holds
//! no line terminator (`law_string_reads_back`).
//!
//! The proof follows the printer: each printed piece lexes to the tokens it
//! was made of, and the parser reads those tokens back into the piece.
use vstd::prelude::*;
use crate::lexer::{
    char_at, digits_end, escape_spec, fixed_escape_spec, hex_value, is_digit, is_ignored_char,
    is_line_end, is_name_continue, is_name_start, is_punct_char, is_scalar, lex_number_spec,
    lex_string_spec, fills_bytes,
    name_end, next_token_spec, skip_ignored_spec, string_chars_spec, triple_quote_at, SpecToken,
};
use crate::parse::{
    expect_keyword_spec, expect_name_spec, expect_punct_spec, initial_state,
    parse_argument_list_spec, parse_arguments_spec, parse_default_value_spec,
    parse_definition_list_spec, parse_definition_spec, parse_directives_spec,
    parse_document_spec, parse_field_name_spec, parse_fragment_spec, parse_list_spec,
    parse_object_spec, parse_operation_spec, parse_selection_list_spec, parse_selection_set_spec,
    parse_selection_spec, parse_type_spec, parse_value_spec, parse_variable_definitions_spec,
    parse_variable_list_spec, parse_variable_spec, progress, PState, SpecParseError,
};
use crate::ast::{
    is_shorthand_spec, keyword_spec, SpecArgument, SpecDefinition, SpecDirective, SpecDocument,
    SpecFragment, SpecOperation, SpecSelection, SpecSelectionSet, SpecType, SpecValue,
    SpecVariableDefinition,
};
use crate::print::{
    escape_char, escape_string, hex_digit, print_argument_spec, print_arguments_spec,
    print_definition_spec, print_directive_spec, print_directives_spec, print_document_spec,
    print_fragment_spec, print_object_fields_spec, print_operation_spec, print_selection_set_spec,
    print_selection_spec, print_selections_spec, print_string_spec, print_type_spec,
    print_value_list_spec, print_value_spec, print_variable_spec, print_variables_spec,
};
use crate::text::{join, lemma_join_step};
use crate::sort::{
    argument_key_fn, definition_key_fn, directive_key_fn, selection_key, sorted_document,
    variable_key_fn,
};
use crate::sort_laws::{
    argument_eq_fn, definition_rel_fn, directive_rel_fn, law_sort_only_reorders_stably,
    reorders_definition, reorders_directive, reorders_directives, reorders_directives_in_place,
    reorders_selection, reorders_selection_set, reorders_variables, reorders_with,
    reorders_with_via, variable_rel_fn,
};
use crate::stable::is_perm;

verus! {

// ---------------------------------------------------------------------------
// Text and tokens
// ---------------------------------------------------------------------------

/// A GraphQL name: a letter or underscore, then letters, digits and
/// underscores.
pub open spec fn is_name(n: Seq<char>) -> bool {
    &&& n.len() > 0
    &&& is_name_start(n[0])
    &&& forall|i: int| 0 <= i < n.len() ==> is_name_continue(#[trigger] n[i])
}

/// Number text that the lexer reads whole as the token `tok`: it starts
/// with a minus or a digit, and reading a number from its start takes all
/// of it.
pub open spec fn is_number_text(t: Seq<char>, tok: SpecToken) -> bool {
    &&& t.len() > 0
    &&& (t[0] == '-' || is_digit(t[0]))
    &&& lex_number_spec(t, 0) == Ok::<(SpecToken, int), Seq<char>>((tok, t.len() as int))
}

/// `w` stands in `s` at position `p`.
spec fn text_at(s: Seq<char>, p: int, w: Seq<char>) -> bool {
    &&& 0 <= p
    &&& p + w.len() <= s.len()
    &&& s.subrange(p, p + w.len()) == w
}

/// No token runs on past `q`: the input ends there, or an ignored or a
/// punctuation character stands there.
spec fn breaks_at(s: Seq<char>, q: int) -> bool {
    !(0 <= q < s.len()) || is_ignored_char(s[q]) || is_punct_char(s[q])
}

/// Every character of `w` is ignored between tokens.
spec fn all_ignored(w: Seq<char>) -> bool {
    forall|i: int| 0 <= i < w.len() ==> is_ignored_char(#[trigger] w[i])
}

/// A token can be read at `q`, and it ends within the input, after `q`
/// unless it is the end of input.
spec fn good_at(s: Seq<char>, q: int) -> bool {
    &&& next_token_spec(s, q) is Ok
    &&& q <= next_token_spec(s, q)->Ok_0.1 <= s.len()
    &&& (!(next_token_spec(s, q)->Ok_0.0 is Eof) ==> q < next_token_spec(s, q)->Ok_0.1)
}

/// The parser state whose current token is the one read at `q`.
spec fn state_at(s: Seq<char>, q: int) -> PState {
    match next_token_spec(s, q) {
        Ok((t, e)) => PState { pos: e, cur: t },
        Err(_) => PState { pos: 0, cur: SpecToken::Eof },
    }
}

/// The piece of `n` characters at `p` starts with a token that ends within
/// it.
spec fn starts(s: Seq<char>, p: int, n: nat) -> bool {
    &&& good_at(s, p)
    &&& !(state_at(s, p).cur is Eof)
    &&& state_at(s, p).pos <= p + n
}

proof fn lemma_text_split(s: Seq<char>, p: int, a: Seq<char>, b: Seq<char>)
    requires
        text_at(s, p, a + b),
    ensures
        text_at(s, p, a),
        text_at(s, p + a.len(), b),
{
    assert forall|i: int| 0 <= i < a.len() implies s[p + i] == a[i] by {
        assert(s.subrange(p, p + (a + b).len())[i] == (a + b)[i]);
    }
    assert(s.subrange(p, p + a.len()) =~= a);
    assert forall|i: int| 0 <= i < b.len() implies s[p + a.len() + i] == b[i] by {
        assert(s.subrange(p, p + (a + b).len())[a.len() + i] == (a + b)[a.len() + i]);
    }
    assert(s.subrange(p + a.len(), p + a.len() + b.len()) =~= b);
}

proof fn lemma_text_char(s: Seq<char>, p: int, w: Seq<char>, i: int)
    requires
        text_at(s, p, w),
        0 <= i < w.len(),
    ensures
        s[p + i] == w[i],
{
    assert(s.subrange(p, p + w.len())[i] == w[i]);
}

proof fn lemma_skip_run(s: Seq<char>, p: int, q: int)
    requires
        0 <= p <= q <= s.len(),
        forall|i: int| p <= i < q ==> is_ignored_char(#[trigger] s[i]),
    ensures
        skip_ignored_spec(s, p) == skip_ignored_spec(s, q),
    decreases q - p,
{
    if p < q {
        assert(is_ignored_char(s[p]));
        lemma_skip_run(s, p + 1, q);
    }
}

/// Ignored characters before a position do not change the token read there.
proof fn lemma_skip_text(s: Seq<char>, p: int, w: Seq<char>)
    requires
        text_at(s, p, w),
        all_ignored(w),
    ensures
        next_token_spec(s, p) == next_token_spec(s, p + w.len()),
        state_at(s, p) == state_at(s, p + w.len()),
        good_at(s, p + w.len()) ==> good_at(s, p),
{
    reveal(next_token_spec);
    assert forall|i: int| p <= i < p + w.len() implies is_ignored_char(#[trigger] s[i]) by {
        lemma_text_char(s, p, w, i - p);
    }
    lemma_skip_run(s, p, p + w.len());
}

proof fn lemma_name_end_from(s: Seq<char>, p: int, n: Seq<char>, k: int)
    requires
        text_at(s, p, n),
        forall|i: int| 0 <= i < n.len() ==> is_name_continue(#[trigger] n[i]),
        breaks_at(s, p + n.len()),
        0 <= k <= n.len(),
    ensures
        name_end(s, p + k) == p + n.len(),
    decreases n.len() - k,
{
    if k < n.len() {
        lemma_text_char(s, p, n, k);
        assert(is_name_continue(n[k]));
        lemma_name_end_from(s, p, n, k + 1);
    }
}

/// A name followed by a break lexes as that name.
proof fn lemma_lex_name(s: Seq<char>, p: int, n: Seq<char>)
    requires
        text_at(s, p, n),
        is_name(n),
        breaks_at(s, p + n.len()),
    ensures
        next_token_spec(s, p) == Ok::<(SpecToken, int), Seq<char>>((SpecToken::Name(n), p + n.len())),
        good_at(s, p),
        state_at(s, p) == (PState { pos: p + n.len(), cur: SpecToken::Name(n) }),
{
    reveal(next_token_spec);
    lemma_text_char(s, p, n, 0);
    assert(is_name_start(s[p]));
    lemma_name_end_from(s, p, n, 0);
    assert(skip_ignored_spec(s, p) == p);
}

/// A punctuation character lexes as itself.
proof fn lemma_lex_punct(s: Seq<char>, p: int, c: char)
    requires
        text_at(s, p, seq![c]),
        is_punct_char(c),
    ensures
        next_token_spec(s, p) == Ok::<(SpecToken, int), Seq<char>>((SpecToken::Punct(c), p + 1)),
        good_at(s, p),
        state_at(s, p) == (PState { pos: p + 1, cur: SpecToken::Punct(c) }),
{
    reveal(next_token_spec);
    lemma_text_char(s, p, seq![c], 0);
    assert(skip_ignored_spec(s, p) == p);
}

/// Three dots lex as a spread.
proof fn lemma_lex_spread(s: Seq<char>, p: int)
    requires
        text_at(s, p, "..."@),
    ensures
        next_token_spec(s, p) == Ok::<(SpecToken, int), Seq<char>>((SpecToken::Spread, p + 3)),
        good_at(s, p),
        state_at(s, p) == (PState { pos: p + 3, cur: SpecToken::Spread }),
{
    reveal(next_token_spec);
    reveal_strlit("...");
    lemma_text_char(s, p, "..."@, 0);
    lemma_text_char(s, p, "..."@, 1);
    lemma_text_char(s, p, "..."@, 2);
    assert(skip_ignored_spec(s, p) == p);
}

proof fn lemma_digits_local_from(s: Seq<char>, p: int, t: Seq<char>, i: int)
    requires
        text_at(s, p, t),
        breaks_at(s, p + t.len()),
        0 <= i <= t.len(),
    ensures
        digits_end(s, p + i) == p + digits_end(t, i),
        i <= digits_end(t, i) <= t.len(),
    decreases t.len() - i,
{
    if i < t.len() {
        lemma_text_char(s, p, t, i);
        lemma_digits_local_from(s, p, t, i + 1);
    }
}

/// Digits are read the same from a piece of text as from where it stands.
proof fn lemma_digits_local(s: Seq<char>, p: int, t: Seq<char>)
    requires
        text_at(s, p, t),
        breaks_at(s, p + t.len()),
    ensures
        forall|i: int|
            0 <= i <= t.len() ==> #[trigger] digits_end(s, p + i) == p + digits_end(t, i)
                && i <= digits_end(t, i) <= t.len(),
        forall|i: int, c: char|
            0 <= i <= t.len() && (c == '.' || c == 'e' || c == 'E' || c == '+' || c == '-') ==> (
            #[trigger] char_at(s, p + i, c) == char_at(t, i, c)),
{
    assert forall|i: int| 0 <= i <= t.len() implies #[trigger] digits_end(s, p + i) == p
        + digits_end(t, i) && i <= digits_end(t, i) <= t.len() by {
        lemma_digits_local_from(s, p, t, i);
    }
    assert forall|i: int, c: char|
        0 <= i <= t.len() && (c == '.' || c == 'e' || c == 'E' || c == '+' || c == '-') implies (
        #[trigger] char_at(s, p + i, c) == char_at(t, i, c)) by {
        if i < t.len() {
            lemma_text_char(s, p, t, i);
        }
    }
}

/// Number text followed by a break lexes as its token.
proof fn lemma_lex_number(s: Seq<char>, p: int, t: Seq<char>, tok: SpecToken)
    requires
        text_at(s, p, t),
        is_number_text(t, tok),
        breaks_at(s, p + t.len()),
    ensures
        next_token_spec(s, p) == Ok::<(SpecToken, int), Seq<char>>((tok, p + t.len())),
        good_at(s, p),
        state_at(s, p) == (PState { pos: p + t.len(), cur: tok }),
{
    reveal(next_token_spec);
    lemma_text_char(s, p, t, 0);
    if t.len() > 1 {
        lemma_text_char(s, p, t, 1);
    }
    lemma_digits_local(s, p, t);
    assert(skip_ignored_spec(s, p) == p);
    let q0: int = if char_at(t, 0, '-') {
        1
    } else {
        0
    };
    let q1 = digits_end(t, q0);
    assert(digits_end(s, p + q0) == p + q1);
    let q2: int = if char_at(t, q1, '.') {
        digits_end(t, q1 + 1)
    } else {
        q1
    };
    if char_at(t, q1, '.') {
        assert(digits_end(s, p + (q1 + 1)) == p + q2);
    }
    assert(char_at(s, p + q1, '.') == char_at(t, q1, '.'));
    assert(char_at(s, p + q2, 'e') == char_at(t, q2, 'e'));
    assert(char_at(s, p + q2, 'E') == char_at(t, q2, 'E'));
    if char_at(t, q2, 'e') || char_at(t, q2, 'E') {
        let q = q2 + 1;
        assert(char_at(s, p + q, '+') == char_at(t, q, '+'));
        assert(char_at(s, p + q, '-') == char_at(t, q, '-'));
        if char_at(t, q, '+') || char_at(t, q, '-') {
            assert(digits_end(s, p + (q + 1)) == p + digits_end(t, q + 1));
        } else {
            assert(digits_end(s, p + q) == p + digits_end(t, q));
        }
    }
    assert(s.subrange(p, p + t.len()) =~= t.subrange(0, t.len() as int));
}

/// Ignored characters up to the end of input lex as the end of input.
proof fn lemma_lex_eof(s: Seq<char>, p: int)
    requires
        0 <= p <= s.len(),
        forall|i: int| p <= i < s.len() ==> is_ignored_char(#[trigger] s[i]),
    ensures
        next_token_spec(s, p) == Ok::<(SpecToken, int), Seq<char>>((SpecToken::Eof, s.len() as int)),
        good_at(s, p),
        state_at(s, p) == (PState { pos: s.len() as int, cur: SpecToken::Eof }),
{
    reveal(next_token_spec);
    lemma_skip_run(s, p, s.len() as int);
}

/// Reading from a state whose token ends before a later good position is
/// progress.
proof fn lemma_progress(s: Seq<char>, p: int, q: int)
    requires
        0 <= p,
        good_at(s, p),
        !(state_at(s, p).cur is Eof),
        state_at(s, p).pos <= q,
        good_at(s, q),
    ensures
        progress(s, state_at(s, p), state_at(s, q)),
{
}

// ---------------------------------------------------------------------------
// String literals
// ---------------------------------------------------------------------------

proof fn lemma_hex_digit(d: int)
    requires
        0 <= d < 16,
    ensures
        hex_value(hex_digit(d)) == d,
        hex_digit(d) != '+',
        hex_digit(d) != '{',
        (hex_digit(d) as int) < 0x80,
{
    if d < 10 {
        assert((48 + d) as char as int == 48 + d);
    } else {
        assert((55 + d) as char as int == 55 + d);
    }
}

/// An escaped character never starts with a quote.
proof fn lemma_escape_char_start(c: char)
    ensures
        escape_char(c).len() > 0,
        escape_char(c)[0] != '"',
{
    reveal_strlit("\\\"");
    reveal_strlit("\\\\");
    reveal_strlit("\\n");
    reveal_strlit("\\r");
    reveal_strlit("\\t");
    reveal_strlit("\\b");
    reveal_strlit("\\f");
    reveal_strlit("\\u00");
}

/// The lexer reads one escaped character back.
proof fn lemma_string_char(s: Seq<char>, q: int, c: char, acc: Seq<char>)
    requires
        text_at(s, q, escape_char(c)),
    ensures
        string_chars_spec(s, q, acc) == string_chars_spec(s, q + escape_char(c).len(), acc.push(c)),
{
    reveal_strlit("\\\"");
    reveal_strlit("\\\\");
    reveal_strlit("\\n");
    reveal_strlit("\\r");
    reveal_strlit("\\t");
    reveal_strlit("\\b");
    reveal_strlit("\\f");
    reveal_strlit("\\u00");
    let w = escape_char(c);
    lemma_text_char(s, q, w, 0);
    if w.len() > 1 {
        lemma_text_char(s, q, w, 1);
    }
    if c == '"' || c == '\\' || c == '\n' || c == '\r' || c == '\t' || c == '\u{0008}' || c
        == '\u{000C}' {
        assert(escape_spec(s, q + 1) == Ok::<(char, int), Seq<char>>((c, q + 2)));
    } else if (c as u32) < 0x20 {
        let v = c as u32;
        let (d1, d2) = ((v / 16) as int, (v % 16) as int);
        lemma_hex_digit(d1);
        lemma_hex_digit(d2);
        lemma_text_char(s, q, w, 2);
        lemma_text_char(s, q, w, 3);
        lemma_text_char(s, q, w, 4);
        lemma_text_char(s, q, w, 5);
        assert(d1 * 16 + d2 == v as int);
        assert(is_scalar(v as int));
        assert((v as int) as char == c);
        assert(fills_bytes(s, q + 6, 0));
        assert(fills_bytes(s, q + 5, 1));
        assert(fills_bytes(s, q + 4, 2));
        assert(fills_bytes(s, q + 3, 3));
        assert(fills_bytes(s, q + 2, 4));
        assert(fixed_escape_spec(s, q + 2) == Ok::<(char, int), Seq<char>>((c, q + 6)));
        assert(escape_spec(s, q + 1) == Ok::<(char, int), Seq<char>>((c, q + 6)));
    } else {
        assert(!is_line_end(c));
    }
}

proof fn lemma_escape_step(t: Seq<char>, k: int)
    requires
        0 <= k < t.len(),
    ensures
        escape_string(t.take(k + 1)) == escape_string(t.take(k)) + escape_char(t[k]),
{
    assert(t.take(k + 1).drop_last() =~= t.take(k));
}

proof fn lemma_escape_prefix(s: Seq<char>, a: int, t: Seq<char>, k: int)
    requires
        text_at(s, a, escape_string(t)),
        0 <= k <= t.len(),
    ensures
        text_at(s, a, escape_string(t.take(k))),
        k < t.len() ==> text_at(s, a + escape_string(t.take(k)).len(), escape_char(t[k])),
    decreases t.len() - k,
{
    if k == t.len() {
        assert(t.take(k) =~= t);
    } else {
        lemma_escape_prefix(s, a, t, k + 1);
        lemma_escape_step(t, k);
        lemma_text_split(s, a, escape_string(t.take(k)), escape_char(t[k]));
    }
}

/// The characters of a printed string from character `k` on, then the
/// closing quote, read back.
proof fn lemma_string_body(s: Seq<char>, a: int, t: Seq<char>, k: int)
    requires
        text_at(s, a, escape_string(t) + seq!['"']),
        0 <= k <= t.len(),
    ensures
        string_chars_spec(s, a + escape_string(t.take(k)).len(), t.take(k)) == Ok::<
            (SpecToken, int),
            Seq<char>,
        >((SpecToken::String(t), a + escape_string(t).len() + 1)),
    decreases t.len() - k,
{
    lemma_text_split(s, a, escape_string(t), seq!['"']);
    lemma_escape_prefix(s, a, t, k);
    if k == t.len() {
        assert(t.take(k) =~= t);
        lemma_text_char(s, a + escape_string(t).len(), seq!['"'], 0);
    } else {
        lemma_string_body(s, a, t, k + 1);
        lemma_escape_step(t, k);
        lemma_string_char(s, a + escape_string(t.take(k)).len(), t[k], t.take(k));
        assert(t.take(k).push(t[k]) =~= t.take(k + 1));
    }
}

/// A printed string literal followed by a break lexes as that string.
proof fn lemma_lex_string(s: Seq<char>, p: int, t: Seq<char>)
    requires
        text_at(s, p, print_string_spec(t)),
        breaks_at(s, p + print_string_spec(t).len()),
    ensures
        next_token_spec(s, p) == Ok::<(SpecToken, int), Seq<char>>(
            (SpecToken::String(t), p + print_string_spec(t).len()),
        ),
        lex_string_spec(s, p) == Ok::<(SpecToken, int), Seq<char>>(
            (SpecToken::String(t), p + print_string_spec(t).len()),
        ),
        good_at(s, p),
        state_at(s, p) == (PState { pos: p + print_string_spec(t).len(), cur: SpecToken::String(t) }),
{
    reveal(next_token_spec);
    reveal_strlit("\"");
    let e = escape_string(t);
    assert("\""@ =~= seq!['"']);
    assert(print_string_spec(t) =~= seq!['"'] + (e + seq!['"']));
    lemma_text_split(s, p, seq!['"'], e + seq!['"']);
    lemma_text_char(s, p, seq!['"'], 0);
    lemma_string_body(s, p + 1, t, 0);
    assert(t.take(0) =~= Seq::<char>::empty());
    assert(escape_string(t.take(0)).len() == 0);
    lemma_text_split(s, p + 1, e, seq!['"']);
    if t.len() > 0 {
        lemma_escape_prefix(s, p + 1, t, 0);
        lemma_escape_char_start(t[0]);
        lemma_text_char(s, p + 1, escape_char(t[0]), 0);
    } else {
        lemma_text_char(s, p + 1, seq!['"'], 0);
    }
    assert(!triple_quote_at(s, p));
    assert(skip_ignored_spec(s, p) == p);
}

/// An escaped character holds no line terminator.
proof fn lemma_escape_char_no_line_end(c: char)
    ensures
        forall|i: int| 0 <= i < escape_char(c).len() ==> !is_line_end(#[trigger] escape_char(c)[i]),
{
    reveal_strlit("\\\"");
    reveal_strlit("\\\\");
    reveal_strlit("\\n");
    reveal_strlit("\\r");
    reveal_strlit("\\t");
    reveal_strlit("\\b");
    reveal_strlit("\\f");
    reveal_strlit("\\u00");
    if !(c == '"' || c == '\\' || c == '\n' || c == '\r' || c == '\t' || c == '\u{0008}'
        || c == '\u{000C}') && (c as u32) < 0x20 {
        let v = c as u32;
        lemma_hex_digit((v / 16) as int);
        lemma_hex_digit((v % 16) as int);
    }
}

/// An escaped string holds no line terminator.
proof fn lemma_escape_no_line_end(t: Seq<char>)
    ensures
        forall|i: int| 0 <= i < escape_string(t).len() ==> !is_line_end(#[trigger] escape_string(t)[i]),
    decreases t.len(),
{
    if t.len() > 0 {
        lemma_escape_no_line_end(t.drop_last());
        lemma_escape_char_no_line_end(t.last());
        let a = escape_string(t.drop_last());
        let b = escape_char(t.last());
        assert forall|i: int| 0 <= i < escape_string(t).len() implies !is_line_end(
            #[trigger] escape_string(t)[i],
        ) by {
            if i < a.len() {
                assert(escape_string(t)[i] == a[i]);
            } else {
                assert(escape_string(t)[i] == b[i - a.len()]);
            }
        }
    }
}

/// Printing a string, then reading a string literal from the start of the
/// text, gives the string back and ends at the end of the text; the text
/// holds no line terminator.
pub proof fn law_string_reads_back(t: Seq<char>)
    ensures
        lex_string_spec(print_string_spec(t), 0) == Ok::<(SpecToken, int), Seq<char>>(
            (SpecToken::String(t), print_string_spec(t).len() as int),
        ),
        forall|i: int|
            0 <= i < print_string_spec(t).len() ==> !is_line_end(#[trigger] print_string_spec(t)[i]),
{
    let s = print_string_spec(t);
    assert(s.subrange(0, s.len() as int) =~= s);
    lemma_lex_string(s, 0, t);
    reveal_strlit("\"");
    let e = escape_string(t);
    lemma_escape_no_line_end(t);
    assert(s =~= seq!['"'] + e + seq!['"']);
    assert forall|i: int| 0 <= i < s.len() implies !is_line_end(#[trigger] s[i]) by {
        if 0 < i < s.len() - 1 {
            assert(s[i] == e[i - 1]);
        }
    }
}

// ---------------------------------------------------------------------------
// Joined pieces
// ---------------------------------------------------------------------------

/// The first `k` items of a joined text stand where the whole does, and the
/// next item follows them after the separator.
proof fn lemma_join_prefix(s: Seq<char>, p: int, items: Seq<Seq<char>>, sep: Seq<char>, k: int)
    requires
        text_at(s, p, join(items, sep)),
        0 <= k <= items.len(),
    ensures
        text_at(s, p, join(items.take(k), sep)),
        k == 0 && k < items.len() ==> text_at(s, p, items[0]),
        0 < k < items.len() ==> text_at(s, p + join(items.take(k), sep).len(), sep + items[k]),
    decreases items.len() - k,
{
    if k == items.len() {
        assert(items.take(k) =~= items);
    } else {
        lemma_join_prefix(s, p, items, sep, k + 1);
        lemma_join_step(items, k, sep);
        let jk = join(items.take(k), sep);
        if k == 0 {
            assert(items.take(0) =~= Seq::<Seq<char>>::empty());
            assert(s.subrange(p, p) =~= Seq::<char>::empty());
        } else {
            assert(jk + sep + items[k] =~= jk + (sep + items[k]));
            lemma_text_split(s, p, jk, sep + items[k]);
        }
    }
}

// ---------------------------------------------------------------------------
// Values, arguments and directives
// ---------------------------------------------------------------------------

/// A value that prints to text which reads back as the same value: a
/// variable, an integer or a float whose text the lexer reads whole as such,
/// a string, a boolean, `null`, an enum value other than `true`, `false` and
/// `null`, or a list or object of printable values (an object's field names
/// being GraphQL names).
pub open spec fn printable_value(v: SpecValue) -> bool
    decreases v,
{
    match v {
        SpecValue::Variable(n) => is_name(n),
        SpecValue::Int(t) => is_number_text(t, SpecToken::Int(t)),
        SpecValue::Float(t) => is_number_text(t, SpecToken::Float(t)),
        SpecValue::String(_) => true,
        SpecValue::Boolean(_) => true,
        SpecValue::Null => true,
        SpecValue::Enum(n) => is_name(n) && n != "true"@ && n != "false"@ && n != "null"@,
        SpecValue::List(items) => forall|i: int|
            0 <= i < items.len() ==> printable_value(#[trigger] items[i]),
        SpecValue::Object(fields) => forall|i: int|
            0 <= i < fields.len() ==> is_name(#[trigger] fields[i].0) && printable_value(
                fields[i].1,
            ),
    }
}

/// A value with no variable in it, at any depth.
pub open spec fn is_constant_value(v: SpecValue) -> bool
    decreases v,
{
    match v {
        SpecValue::Variable(_) => false,
        SpecValue::List(items) => forall|i: int|
            0 <= i < items.len() ==> is_constant_value(#[trigger] items[i]),
        SpecValue::Object(fields) => forall|i: int|
            0 <= i < fields.len() ==> is_constant_value(#[trigger] fields[i].1),
        _ => true,
    }
}

/// An argument with a GraphQL name and a printable value.
pub open spec fn printable_argument(a: SpecArgument) -> bool {
    is_name(a.name) && printable_value(a.value)
}

/// Arguments that are each printable.
pub open spec fn printable_arguments(args: Seq<SpecArgument>) -> bool {
    forall|i: int| 0 <= i < args.len() ==> printable_argument(#[trigger] args[i])
}

/// A directive with a GraphQL name and printable arguments.
pub open spec fn printable_directive(d: SpecDirective) -> bool {
    is_name(d.name) && printable_arguments(d.arguments)
}

/// Directives that are each printable.
pub open spec fn printable_directives(ds: Seq<SpecDirective>) -> bool {
    forall|i: int| 0 <= i < ds.len() ==> printable_directive(#[trigger] ds[i])
}

proof fn lemma_keyword_name(n: Seq<char>)
    requires
        n == "true"@ || n == "false"@ || n == "null"@,
    ensures
        is_name(n),
        "true"@ != "false"@,
        "true"@ != "null"@,
        "false"@ != "null"@,
{
    reveal_strlit("true");
    reveal_strlit("false");
    reveal_strlit("null");
    assert("true"@.len() != "false"@.len());
    assert("true"@ != "null"@) by {
        assert("true"@[0] != "null"@[0]);
    }
}

/// A printed value reads back as itself; where a constant is read, it has
/// no variable in it.
proof fn lemma_parse_value(s: Seq<char>, p: int, v: SpecValue, constant: bool)
    requires
        printable_value(v),
        constant ==> is_constant_value(v),
        text_at(s, p, print_value_spec(v)),
        breaks_at(s, p + print_value_spec(v).len()),
        good_at(s, p + print_value_spec(v).len()),
    ensures
        starts(s, p, print_value_spec(v).len()),
        state_at(s, p).cur != SpecToken::Punct(']'),
        state_at(s, p).cur != SpecToken::Punct('}'),
        parse_value_spec(s, state_at(s, p), constant) == Ok::<(SpecValue, PState), SpecParseError>(
            (v, state_at(s, p + print_value_spec(v).len())),
        ),
    decreases v, 0int,
{
    let w = print_value_spec(v);
    match v {
        SpecValue::Variable(n) => {
            reveal_strlit("$");
            assert("$"@ =~= seq!['$']);
            lemma_text_split(s, p, "$"@, n);
            lemma_lex_punct(s, p, '$');
            lemma_lex_name(s, p + 1, n);
        },
        SpecValue::Int(t) => {
            lemma_lex_number(s, p, t, SpecToken::Int(t));
        },
        SpecValue::Float(t) => {
            lemma_lex_number(s, p, t, SpecToken::Float(t));
        },
        SpecValue::Boolean(b) => {
            if b {
                lemma_keyword_name("true"@);
            } else {
                lemma_keyword_name("false"@);
            }
            lemma_lex_name(s, p, w);
        },
        SpecValue::Null => {
            lemma_keyword_name("null"@);
            lemma_lex_name(s, p, w);
        },
        SpecValue::Enum(n) => {
            lemma_lex_name(s, p, n);
        },
        SpecValue::String(t) => {
            lemma_lex_string(s, p, t);
        },
        SpecValue::List(items) => {
            lemma_list_layout(s, p, items, 0);
            lemma_list_layout(s, p, items, items.len() as int);
            lemma_lex_punct(s, p, '[');
            lemma_list_parts(v, constant);
            lemma_parse_value_list(s, p, items, constant, 0);
            assert(items.take(0) =~= Seq::<SpecValue>::empty());
            lemma_progress(s, p, p + 1);
        },
        SpecValue::Object(fields) => {
            lemma_object_layout(s, p, fields, 0);
            lemma_object_layout(s, p, fields, fields.len() as int);
            assert(seq!['{', ' '] =~= seq!['{'] + seq![' ']);
            lemma_text_split(s, p, seq!['{'], seq![' ']);
            lemma_lex_punct(s, p, '{');
            lemma_text_char(s, p + 1, seq![' '], 0);
            assert(all_ignored(seq![' ']));
            lemma_skip_text(s, p + 1, seq![' ']);
            lemma_object_parts(v, constant);
            assert(fields == v->Object_0);
            assert forall|i: int| 0 <= i < fields.len() implies is_name(#[trigger] fields[i].0)
                && printable_value(fields[i].1) && (constant ==> is_constant_value(
                fields[i].1,
            )) by {
                assert(is_name(v->Object_0[i].0));
            }
            lemma_parse_object_fields(s, p, fields, constant, 0);
            assert(fields.take(0) =~= Seq::<(Seq<char>, SpecValue)>::empty());
            lemma_progress(s, p, p + 1);
        },
    }
}

/// The elements of a printable list are printable, and constant when the
/// list is.
proof fn lemma_list_parts(v: SpecValue, constant: bool)
    requires
        v is List,
        printable_value(v),
        constant ==> is_constant_value(v),
    ensures
        forall|i: int| 0 <= i < v->List_0.len() ==> printable_value(#[trigger] v->List_0[i]),
        constant ==> forall|i: int|
            0 <= i < v->List_0.len() ==> is_constant_value(#[trigger] v->List_0[i]),
{
    assert forall|i: int| 0 <= i < v->List_0.len() implies printable_value(#[trigger] v->List_0[i])
        && (constant ==> is_constant_value(v->List_0[i])) by {
        assert(decreases_to!(v => v->List_0));
        assert(decreases_to!(v->List_0 => v->List_0[i]));
    }
}

/// The fields of a printable object have GraphQL names and printable values,
/// constant when the object is.
proof fn lemma_object_parts(v: SpecValue, constant: bool)
    requires
        v is Object,
        printable_value(v),
        constant ==> is_constant_value(v),
    ensures
        forall|i: int|
            0 <= i < v->Object_0.len() ==> is_name(#[trigger] v->Object_0[i].0) && printable_value(
                v->Object_0[i].1,
            ),
        constant ==> forall|i: int|
            0 <= i < v->Object_0.len() ==> is_constant_value(#[trigger] v->Object_0[i].1),
{
    let fields = v->Object_0;
    assert forall|i: int| 0 <= i < fields.len() implies is_name(#[trigger] fields[i].0)
        && printable_value(fields[i].1) && (constant ==> is_constant_value(fields[i].1)) by {
        assert(decreases_to!(v => v->Object_0));
        assert(decreases_to!(v->Object_0 => v->Object_0[i]));
        assert(decreases_to!(v->Object_0[i] => v->Object_0[i].1));
        assert(v == SpecValue::Object(fields));
        assert(printable_value(SpecValue::Object(fields)));
        assert(is_name(fields[i].0));
    }
}

/// The separator before list element or object field `k`.
spec fn item_sep(k: int) -> Seq<char> {
    if k > 0 {
        ", "@
    } else {
        Seq::empty()
    }
}

/// Where list element `k` (with its separator), or, for `k` past the last,
/// the closing bracket, starts in a list printed at `p`.
spec fn list_pos(p: int, items: Seq<SpecValue>, k: int) -> int {
    p + 1 + print_value_list_spec(items.take(k)).len()
}

proof fn lemma_list_step(items: Seq<SpecValue>, k: int)
    requires
        0 <= k < items.len(),
    ensures
        print_value_list_spec(items.take(k + 1)) == print_value_list_spec(items.take(k)) + (
        item_sep(k) + print_value_spec(items[k])),
{
    let t = items.take(k + 1);
    assert(t.drop_last() =~= items.take(k));
    assert(t.last() == items[k]);
    let a = print_value_list_spec(items.take(k));
    let b = print_value_spec(items[k]);
    if k > 0 {
        assert(a + ", "@ + b =~= a + (", "@ + b));
    } else {
        assert(a + b =~= a + (Seq::<char>::empty() + b));
    }
}

proof fn lemma_list_prefix(s: Seq<char>, a: int, items: Seq<SpecValue>, k: int)
    requires
        text_at(s, a, print_value_list_spec(items)),
        0 <= k <= items.len(),
    ensures
        text_at(s, a, print_value_list_spec(items.take(k))),
        k < items.len() ==> text_at(
            s,
            a + print_value_list_spec(items.take(k)).len(),
            item_sep(k) + print_value_spec(items[k]),
        ),
    decreases items.len() - k,
{
    if k == items.len() {
        assert(items.take(k) =~= items);
    } else {
        lemma_list_prefix(s, a, items, k + 1);
        lemma_list_step(items, k);
        lemma_text_split(
            s,
            a,
            print_value_list_spec(items.take(k)),
            item_sep(k) + print_value_spec(items[k]),
        );
    }
}

/// How a printed list is laid out around element `k`.
proof fn lemma_list_layout(s: Seq<char>, p: int, items: Seq<SpecValue>, k: int)
    requires
        0 <= k <= items.len(),
        text_at(s, p, print_value_spec(SpecValue::List(items))),
    ensures
        text_at(s, p, seq!['[']),
        k == items.len() ==> text_at(s, list_pos(p, items, k), seq![']']),
        k == items.len() ==> list_pos(p, items, k) + 1 == p + print_value_spec(
            SpecValue::List(items),
        ).len(),
        k < items.len() ==> text_at(
            s,
            list_pos(p, items, k) + item_sep(k).len(),
            print_value_spec(items[k]),
        ),
        k < items.len() ==> list_pos(p, items, k) + item_sep(k).len() + print_value_spec(
            items[k],
        ).len() == list_pos(p, items, k + 1),
        0 < k < items.len() ==> text_at(s, list_pos(p, items, k), seq![',', ' ']),
        item_sep(k).len() == (if k > 0 {
            2int
        } else {
            0int
        }),
{
    reveal_strlit("[");
    reveal_strlit("]");
    reveal_strlit(", ");
    let body = print_value_list_spec(items);
    assert("["@ =~= seq!['[']);
    assert("]"@ =~= seq![']']);
    assert(", "@ =~= seq![',', ' ']);
    lemma_text_split(s, p, "["@ + body, "]"@);
    lemma_text_split(s, p, "["@, body);
    lemma_list_prefix(s, p + 1, items, k);
    if k == items.len() {
        assert(items.take(k) =~= items);
    } else {
        lemma_list_step(items, k);
        lemma_text_split(s, list_pos(p, items, k), item_sep(k), print_value_spec(items[k]));
    }
}

/// The rest of a printed list, from element `k`, reads back.
#[verifier::spinoff_prover]
proof fn lemma_parse_value_list(s: Seq<char>, p: int, items: Seq<SpecValue>, constant: bool, k: int)
    requires
        forall|i: int| 0 <= i < items.len() ==> printable_value(#[trigger] items[i]),
        constant ==> forall|i: int| 0 <= i < items.len() ==> is_constant_value(#[trigger] items[i]),
        0 <= k <= items.len(),
        text_at(s, p, print_value_spec(SpecValue::List(items))),
        good_at(s, p + print_value_spec(SpecValue::List(items)).len()),
    ensures
        good_at(s, list_pos(p, items, k)),
        k > 0 ==> breaks_at(s, list_pos(p, items, k)),
        !(state_at(s, list_pos(p, items, k)).cur is Eof),
        parse_list_spec(s, state_at(s, list_pos(p, items, k)), constant, items.take(k)) == Ok::<
            (SpecValue, PState),
            SpecParseError,
        >((SpecValue::List(items), state_at(s, p + print_value_spec(SpecValue::List(items)).len()))),
    decreases items, items.len() - k,
{
    let q = list_pos(p, items, k);
    lemma_list_layout(s, p, items, k);
    if k == items.len() {
        lemma_lex_punct(s, q, ']');
        lemma_text_char(s, q, seq![']'], 0);
        assert(items.take(k) =~= items);
    } else {
        lemma_parse_value_list(s, p, items, constant, k + 1);
        let r = q + item_sep(k).len();
        lemma_parse_value(s, r, items[k], constant);
        if k > 0 {
            lemma_text_char(s, q, seq![',', ' '], 0);
            assert(all_ignored(seq![',', ' ']));
            lemma_skip_text(s, q, seq![',', ' ']);
        }
        lemma_progress(s, q, list_pos(p, items, k + 1));
        assert(items.take(k).push(items[k]) =~= items.take(k + 1));
    }
}

/// The text of an object field: its name, a colon, its value.
spec fn field_text(f: (Seq<char>, SpecValue)) -> Seq<char> {
    f.0 + ": "@ + print_value_spec(f.1)
}

/// Where object field `k` (with its separator), or, for `k` past the last,
/// the closing line, starts in an object printed at `p`.
spec fn object_pos(p: int, fields: Seq<(Seq<char>, SpecValue)>, k: int) -> int {
    p + 2 + print_object_fields_spec(fields.take(k)).len()
}

proof fn lemma_object_step(fields: Seq<(Seq<char>, SpecValue)>, k: int)
    requires
        0 <= k < fields.len(),
    ensures
        print_object_fields_spec(fields.take(k + 1)) == print_object_fields_spec(fields.take(k)) + (
        item_sep(k) + field_text(fields[k])),
{
    let t = fields.take(k + 1);
    assert(t.drop_last() =~= fields.take(k));
    assert(t.last() == fields[k]);
    let a = print_object_fields_spec(fields.take(k));
    let f = fields[k];
    if k > 0 {
        assert(a + ", "@ + f.0 + ": "@ + print_value_spec(f.1) =~= a + (", "@ + field_text(f)));
    } else {
        assert(a + f.0 + ": "@ + print_value_spec(f.1) =~= a + (Seq::<char>::empty() + field_text(
            f,
        )));
    }
}

proof fn lemma_object_prefix(s: Seq<char>, a: int, fields: Seq<(Seq<char>, SpecValue)>, k: int)
    requires
        text_at(s, a, print_object_fields_spec(fields)),
        0 <= k <= fields.len(),
    ensures
        text_at(s, a, print_object_fields_spec(fields.take(k))),
        k < fields.len() ==> text_at(
            s,
            a + print_object_fields_spec(fields.take(k)).len(),
            item_sep(k) + field_text(fields[k]),
        ),
    decreases fields.len() - k,
{
    if k == fields.len() {
        assert(fields.take(k) =~= fields);
    } else {
        lemma_object_prefix(s, a, fields, k + 1);
        lemma_object_step(fields, k);
        lemma_text_split(
            s,
            a,
            print_object_fields_spec(fields.take(k)),
            item_sep(k) + field_text(fields[k]),
        );
    }
}

/// How a printed object is laid out around field `k`.
proof fn lemma_object_layout(s: Seq<char>, p: int, fields: Seq<(Seq<char>, SpecValue)>, k: int)
    requires
        0 <= k <= fields.len(),
        text_at(s, p, print_value_spec(SpecValue::Object(fields))),
    ensures
        text_at(s, p, seq!['{', ' ']),
        k == fields.len() ==> text_at(s, object_pos(p, fields, k), seq![' ', '}']),
        k == fields.len() ==> object_pos(p, fields, k) + 2 == p + print_value_spec(
            SpecValue::Object(fields),
        ).len(),
        k < fields.len() ==> text_at(
            s,
            object_pos(p, fields, k) + item_sep(k).len(),
            field_text(fields[k]),
        ),
        k < fields.len() ==> object_pos(p, fields, k) + item_sep(k).len() + field_text(
            fields[k],
        ).len() == object_pos(p, fields, k + 1),
        0 < k < fields.len() ==> text_at(s, object_pos(p, fields, k), seq![',', ' ']),
        item_sep(k).len() == (if k > 0 {
            2int
        } else {
            0int
        }),
{
    reveal_strlit("{ ");
    reveal_strlit(" }");
    reveal_strlit(", ");
    let body = print_object_fields_spec(fields);
    assert("{ "@ =~= seq!['{', ' ']);
    assert(" }"@ =~= seq![' ', '}']);
    assert(", "@ =~= seq![',', ' ']);
    lemma_text_split(s, p, "{ "@ + body, " }"@);
    lemma_text_split(s, p, "{ "@, body);
    lemma_object_prefix(s, p + 2, fields, k);
    if k == fields.len() {
        assert(fields.take(k) =~= fields);
    } else {
        lemma_object_step(fields, k);
        lemma_text_split(s, object_pos(p, fields, k), item_sep(k), field_text(fields[k]));
    }
}

/// The rest of a printed object, from field `k`, reads back.
#[verifier::spinoff_prover]
#[verifier::rlimit(30)]
proof fn lemma_parse_object_fields(
    s: Seq<char>,
    p: int,
    fields: Seq<(Seq<char>, SpecValue)>,
    constant: bool,
    k: int,
)
    requires
        forall|i: int|
            0 <= i < fields.len() ==> is_name(#[trigger] fields[i].0) && printable_value(
                fields[i].1,
            ),
        constant ==> forall|i: int|
            0 <= i < fields.len() ==> is_constant_value(#[trigger] fields[i].1),
        0 <= k <= fields.len(),
        text_at(s, p, print_value_spec(SpecValue::Object(fields))),
        good_at(s, p + print_value_spec(SpecValue::Object(fields)).len()),
    ensures
        good_at(s, object_pos(p, fields, k)),
        k > 0 ==> breaks_at(s, object_pos(p, fields, k)),
        !(state_at(s, object_pos(p, fields, k)).cur is Eof),
        parse_object_spec(s, state_at(s, object_pos(p, fields, k)), constant, fields.take(k))
            == Ok::<(SpecValue, PState), SpecParseError>(
            (
                SpecValue::Object(fields),
                state_at(s, p + print_value_spec(SpecValue::Object(fields)).len()),
            ),
        ),
    decreases fields, fields.len() - k,
{
    reveal_strlit(": ");
    let q = object_pos(p, fields, k);
    let sp = seq![' '];
    assert(all_ignored(sp));
    lemma_object_layout(s, p, fields, k);
    if k == fields.len() {
        assert(sp + seq!['}'] =~= seq![' ', '}']);
        lemma_text_split(s, q, sp, seq!['}']);
        lemma_lex_punct(s, q + 1, '}');
        lemma_text_char(s, q, sp, 0);
        lemma_skip_text(s, q, sp);
        assert(fields.take(k) =~= fields);
    } else {
        lemma_parse_object_fields(s, p, fields, constant, k + 1);
        let r = q + item_sep(k).len();
        let f = fields[k];
        let n = f.0;
        assert(": "@ =~= seq![':'] + sp);
        lemma_text_split(s, r, n + ": "@, print_value_spec(f.1));
        lemma_text_split(s, r, n, ": "@);
        lemma_text_split(s, r + n.len(), seq![':'], sp);
        lemma_parse_value(s, r + n.len() + 2, f.1, constant);
        lemma_text_char(s, r + n.len() + 1, sp, 0);
        lemma_skip_text(s, r + n.len() + 1, sp);
        lemma_lex_punct(s, r + n.len(), ':');
        lemma_text_char(s, r + n.len(), seq![':'], 0);
        lemma_lex_name(s, r, n);
        if k > 0 {
            lemma_text_char(s, q, seq![',', ' '], 0);
            assert(all_ignored(seq![',', ' ']));
            lemma_skip_text(s, q, seq![',', ' ']);
        }
        lemma_progress(s, q, r + n.len() + 2);
        lemma_progress(s, q, object_pos(p, fields, k + 1));
        assert(fields.take(k).push((n, f.1)) =~= fields.take(k + 1));
    }
}

/// Printing a value, then parsing a value from the start of the text, gives
/// the value back and leaves the parser at the end of input, for every
/// printable value (and, where a constant is read, every value without a
/// variable in it).
pub proof fn law_value_reads_back(v: SpecValue, constant: bool)
    requires
        printable_value(v),
        constant ==> is_constant_value(v),
    ensures
        parse_value_spec(print_value_spec(v), initial_state(print_value_spec(v)), constant) == Ok::<
            (SpecValue, PState),
            SpecParseError,
        >((v, PState { pos: print_value_spec(v).len() as int, cur: SpecToken::Eof })),
{
    let s = print_value_spec(v);
    assert(s.subrange(0, s.len() as int) =~= s);
    lemma_lex_eof(s, s.len() as int);
    lemma_parse_value(s, 0, v, constant);
    assert(initial_state(s) == state_at(s, 0));
}

/// The texts of arguments, one per argument.
spec fn argument_texts(args: Seq<SpecArgument>) -> Seq<Seq<char>> {
    args.map_values(|a: SpecArgument| print_argument_spec(a))
}

/// Where argument `k` (or, for `k == args.len()`, the closing parenthesis)
/// is read from, in arguments printed at `p`.
spec fn argument_pos(p: int, args: Seq<SpecArgument>, k: int) -> int {
    p + 1 + join(argument_texts(args).take(k), ", "@).len()
}

proof fn lemma_arguments_text(args: Seq<SpecArgument>)
    requires
        args.len() > 0,
    ensures
        print_arguments_spec(args) == "("@ + join(argument_texts(args), ", "@) + ")"@,
{
    assert(argument_texts(args) =~= args.map_values(|a: SpecArgument| print_argument_spec(a)));
}

/// A printed argument reads back: its name, the colon, then its value.
proof fn lemma_parse_argument(s: Seq<char>, r: int, a: SpecArgument)
    requires
        printable_argument(a),
        text_at(s, r, print_argument_spec(a)),
        breaks_at(s, r + print_argument_spec(a).len()),
        good_at(s, r + print_argument_spec(a).len()),
    ensures
        starts(s, r, print_argument_spec(a).len()),
        state_at(s, r).cur == SpecToken::Name(a.name),
        expect_name_spec(s, state_at(s, r)) == Ok::<(Seq<char>, PState), SpecParseError>(
            (a.name, state_at(s, r + a.name.len())),
        ),
        expect_punct_spec(s, state_at(s, r + a.name.len()), ':') == Ok::<PState, SpecParseError>(
            state_at(s, r + a.name.len() + 2),
        ),
        parse_value_spec(s, state_at(s, r + a.name.len() + 2), false) == Ok::<
            (SpecValue, PState),
            SpecParseError,
        >((a.value, state_at(s, r + print_argument_spec(a).len()))),
{
    reveal_strlit(": ");
    let n = a.name;
    let v = print_value_spec(a.value);
    lemma_text_split(s, r, n + ": "@, v);
    lemma_text_split(s, r, n, ": "@);
    assert(": "@ =~= seq![':'] + seq![' ']);
    lemma_text_split(s, r + n.len(), seq![':'], seq![' ']);
    lemma_parse_value(s, r + n.len() + 2, a.value, false);
    lemma_skip_text(s, r + n.len() + 1, seq![' ']);
    lemma_lex_punct(s, r + n.len(), ':');
    lemma_text_char(s, r + n.len(), seq![':'], 0);
    lemma_lex_name(s, r, n);
}

/// Where the text of argument `k` starts: after the separator, if any.
spec fn argument_start(p: int, args: Seq<SpecArgument>, k: int) -> int {
    if k == 0 {
        argument_pos(p, args, k)
    } else {
        argument_pos(p, args, k) + 2
    }
}

/// How printed arguments are laid out around argument `k`.
proof fn lemma_argument_layout(s: Seq<char>, p: int, args: Seq<SpecArgument>, k: int)
    requires
        args.len() > 0,
        0 <= k <= args.len(),
        text_at(s, p, print_arguments_spec(args)),
    ensures
        k == args.len() ==> text_at(s, argument_pos(p, args, k), seq![')']),
        k == args.len() ==> argument_pos(p, args, k) + 1 == p + print_arguments_spec(args).len(),
        k < args.len() ==> text_at(s, argument_start(p, args, k), print_argument_spec(args[k])),
        k < args.len() ==> argument_start(p, args, k) + print_argument_spec(args[k]).len()
            == argument_pos(p, args, k + 1),
        0 < k < args.len() ==> text_at(s, argument_pos(p, args, k), seq![',', ' ']),
{
    let items = argument_texts(args);
    let sep = ", "@;
    let body = join(items, sep);
    lemma_arguments_text(args);
    reveal_strlit("(");
    reveal_strlit(")");
    reveal_strlit(", ");
    lemma_text_split(s, p, "("@ + body, ")"@);
    lemma_text_split(s, p, "("@, body);
    let q = argument_pos(p, args, k);
    lemma_join_prefix(s, p + 1, items, sep, k);
    if k == args.len() {
        assert(items.take(k) =~= items);
        assert(")"@ =~= seq![')']);
    } else {
        lemma_join_step(items, k, sep);
        assert(items[k] == print_argument_spec(args[k]));
        if k > 0 {
            lemma_text_split(s, q, sep, items[k]);
            assert(sep =~= seq![',', ' ']);
        }
    }
}

/// The rest of a printed argument list, from argument `k`, reads back.
#[verifier::spinoff_prover]
proof fn lemma_parse_argument_list(s: Seq<char>, p: int, args: Seq<SpecArgument>, k: int)
    requires
        args.len() > 0,
        printable_arguments(args),
        0 <= k <= args.len(),
        text_at(s, p, print_arguments_spec(args)),
        good_at(s, p + print_arguments_spec(args).len()),
    ensures
        good_at(s, argument_pos(p, args, k)),
        k > 0 ==> breaks_at(s, argument_pos(p, args, k)),
        !(state_at(s, argument_pos(p, args, k)).cur is Eof),
        parse_argument_list_spec(s, state_at(s, argument_pos(p, args, k)), args.take(k)) == Ok::<
            (Seq<SpecArgument>, PState),
            SpecParseError,
        >((args, state_at(s, p + print_arguments_spec(args).len()))),
    decreases args.len() - k,
{
    let q = argument_pos(p, args, k);
    lemma_argument_layout(s, p, args, k);
    if k == args.len() {
        lemma_lex_punct(s, q, ')');
        lemma_text_char(s, q, seq![')'], 0);
        assert(args.take(k) =~= args);
    } else {
        lemma_parse_argument_list(s, p, args, k + 1);
        assert(printable_argument(args[k]));
        let r = argument_start(p, args, k);
        lemma_parse_argument(s, r, args[k]);
        if k > 0 {
            lemma_text_char(s, q, seq![',', ' '], 0);
            assert(all_ignored(seq![',', ' ']));
            lemma_skip_text(s, q, seq![',', ' ']);
        }
        lemma_progress(s, q, argument_pos(p, args, k + 1));
        assert(args.take(k).push(args[k]) =~= args.take(k + 1));
    }
}

/// Printed arguments read back; with no arguments nothing is read, which
/// needs a token other than `(` to follow.
proof fn lemma_parse_arguments(s: Seq<char>, p: int, args: Seq<SpecArgument>)
    requires
        printable_arguments(args),
        text_at(s, p, print_arguments_spec(args)),
        good_at(s, p + print_arguments_spec(args).len()),
        args.len() == 0 ==> state_at(s, p).cur != SpecToken::Punct('('),
    ensures
        args.len() > 0 ==> starts(s, p, print_arguments_spec(args).len()),
        args.len() > 0 ==> state_at(s, p).cur == SpecToken::Punct('('),
        parse_arguments_spec(s, state_at(s, p)) == Ok::<(Seq<SpecArgument>, PState), SpecParseError>(
            (args, state_at(s, p + print_arguments_spec(args).len())),
        ),
{
    if args.len() == 0 {
        assert(args =~= Seq::<SpecArgument>::empty());
    } else {
        lemma_arguments_text(args);
        reveal_strlit("(");
        assert("("@ =~= seq!['(']);
        let body = join(argument_texts(args), ", "@);
        lemma_text_split(s, p, "("@ + body, ")"@);
        lemma_text_split(s, p, "("@, body);
        lemma_lex_punct(s, p, '(');
        lemma_parse_argument_list(s, p, args, 0);
        assert(argument_texts(args).take(0) =~= Seq::<Seq<char>>::empty());
        assert(args.take(0) =~= Seq::<SpecArgument>::empty());
    }
}

/// The texts of directives, one per directive.
spec fn directive_texts(ds: Seq<SpecDirective>) -> Seq<Seq<char>> {
    ds.map_values(|d: SpecDirective| print_directive_spec(d))
}

/// Where directive `k` (or, for `k == ds.len()`, what follows the
/// directives) starts, in directives printed at `p`.
spec fn directive_pos(p: int, ds: Seq<SpecDirective>, k: int) -> int {
    p + join(directive_texts(ds).take(k), Seq::empty()).len()
}

/// How printed directives are laid out around directive `k`.
proof fn lemma_directive_layout(s: Seq<char>, p: int, ds: Seq<SpecDirective>, k: int)
    requires
        0 <= k <= ds.len(),
        text_at(s, p, print_directives_spec(ds)),
    ensures
        k == ds.len() ==> directive_pos(p, ds, k) == p + print_directives_spec(ds).len(),
        k < ds.len() ==> text_at(s, directive_pos(p, ds, k), print_directive_spec(ds[k])),
        k < ds.len() ==> directive_pos(p, ds, k) + print_directive_spec(ds[k]).len()
            == directive_pos(p, ds, k + 1),
{
    let items = directive_texts(ds);
    let sep = Seq::<char>::empty();
    assert(items =~= ds.map_values(|d: SpecDirective| print_directive_spec(d)));
    lemma_join_prefix(s, p, items, sep, k);
    if k == ds.len() {
        assert(items.take(k) =~= items);
    } else {
        lemma_join_step(items, k, sep);
        assert(items[k] == print_directive_spec(ds[k]));
        assert(sep + items[k] =~= items[k]);
    }
}

/// The first character of non-empty printed arguments is `(`.
proof fn lemma_arguments_open(args: Seq<SpecArgument>)
    requires
        args.len() > 0,
    ensures
        print_arguments_spec(args).len() > 0,
        print_arguments_spec(args)[0] == '(',
{
    lemma_arguments_text(args);
    reveal_strlit("(");
}

/// A printed directive reads back: the `@`, its name, then its arguments.
proof fn lemma_parse_directive(s: Seq<char>, r: int, d: SpecDirective)
    requires
        printable_directive(d),
        text_at(s, r, print_directive_spec(d)),
        breaks_at(s, r + print_directive_spec(d).len()),
        good_at(s, r + print_directive_spec(d).len()),
        d.arguments.len() == 0 ==> state_at(s, r + print_directive_spec(d).len()).cur
            != SpecToken::Punct('('),
    ensures
        good_at(s, r),
        breaks_at(s, r),
        state_at(s, r) == (PState { pos: r + 2, cur: SpecToken::Punct('@') }),
        expect_punct_spec(s, state_at(s, r), '@') == Ok::<PState, SpecParseError>(
            state_at(s, r + 2),
        ),
        expect_name_spec(s, state_at(s, r + 2)) == Ok::<(Seq<char>, PState), SpecParseError>(
            (d.name, state_at(s, r + 2 + d.name.len())),
        ),
        parse_arguments_spec(s, state_at(s, r + 2 + d.name.len())) == Ok::<
            (Seq<SpecArgument>, PState),
            SpecParseError,
        >((d.arguments, state_at(s, r + print_directive_spec(d).len()))),
{
    reveal_strlit(" @");
    let n = d.name;
    let a = print_arguments_spec(d.arguments);
    lemma_text_split(s, r, " @"@ + n, a);
    lemma_text_split(s, r, " @"@, n);
    assert(" @"@ =~= seq![' '] + seq!['@']);
    lemma_text_split(s, r, seq![' '], seq!['@']);
    lemma_text_char(s, r, seq![' '], 0);
    if d.arguments.len() > 0 {
        lemma_arguments_open(d.arguments);
        lemma_text_char(s, r + 2 + n.len(), a, 0);
    }
    lemma_parse_arguments(s, r + 2 + n.len(), d.arguments);
    lemma_lex_name(s, r + 2, n);
    lemma_lex_punct(s, r + 1, '@');
    assert(all_ignored(seq![' ']));
    lemma_skip_text(s, r, seq![' ']);
}

/// The rest of printed directives, from directive `k`, reads back.
#[verifier::spinoff_prover]
proof fn lemma_parse_directive_list(s: Seq<char>, p: int, ds: Seq<SpecDirective>, k: int)
    requires
        printable_directives(ds),
        0 <= k <= ds.len(),
        text_at(s, p, print_directives_spec(ds)),
        breaks_at(s, p + print_directives_spec(ds).len()),
        good_at(s, p + print_directives_spec(ds).len()),
        state_at(s, p + print_directives_spec(ds).len()).cur != SpecToken::Punct('@'),
        state_at(s, p + print_directives_spec(ds).len()).cur != SpecToken::Punct('('),
    ensures
        good_at(s, directive_pos(p, ds, k)),
        breaks_at(s, directive_pos(p, ds, k)),
        k < ds.len() ==> state_at(s, directive_pos(p, ds, k)).cur == SpecToken::Punct('@'),
        k < ds.len() ==> state_at(s, directive_pos(p, ds, k)).pos == directive_pos(p, ds, k) + 2,
        state_at(s, directive_pos(p, ds, k)).cur != SpecToken::Punct('('),
        parse_directives_spec(s, state_at(s, directive_pos(p, ds, k)), ds.take(k)) == Ok::<
            (Seq<SpecDirective>, PState),
            SpecParseError,
        >((ds, state_at(s, p + print_directives_spec(ds).len()))),
    decreases ds.len() - k,
{
    let q = directive_pos(p, ds, k);
    lemma_directive_layout(s, p, ds, k);
    if k == ds.len() {
        assert(ds.take(k) =~= ds);
    } else {
        lemma_parse_directive_list(s, p, ds, k + 1);
        assert(printable_directive(ds[k]));
        lemma_parse_directive(s, q, ds[k]);
        lemma_progress(s, q, directive_pos(p, ds, k + 1));
        assert(ds.take(k).push(ds[k]) =~= ds.take(k + 1));
    }
}

/// Printed directives read back; with none nothing is read, which needs a
/// token other than `@` to follow.
proof fn lemma_parse_directives(s: Seq<char>, p: int, ds: Seq<SpecDirective>)
    requires
        printable_directives(ds),
        text_at(s, p, print_directives_spec(ds)),
        breaks_at(s, p + print_directives_spec(ds).len()),
        good_at(s, p + print_directives_spec(ds).len()),
        state_at(s, p + print_directives_spec(ds).len()).cur != SpecToken::Punct('@'),
        state_at(s, p + print_directives_spec(ds).len()).cur != SpecToken::Punct('('),
    ensures
        good_at(s, p),
        breaks_at(s, p),
        ds.len() > 0 ==> state_at(s, p).cur == SpecToken::Punct('@'),
        ds.len() > 0 ==> starts(s, p, print_directives_spec(ds).len()),
        state_at(s, p).cur != SpecToken::Punct('('),
        ds.len() == 0 ==> print_directives_spec(ds).len() == 0,
        parse_directives_spec(s, state_at(s, p), Seq::empty()) == Ok::<
            (Seq<SpecDirective>, PState),
            SpecParseError,
        >((ds, state_at(s, p + print_directives_spec(ds).len()))),
{
    lemma_parse_directive_list(s, p, ds, 0);
    lemma_directive_layout(s, p, ds, 0);
    assert(directive_texts(ds).take(0) =~= Seq::<Seq<char>>::empty());
    assert(ds.take(0) =~= Seq::<SpecDirective>::empty());
    lemma_directive_layout(s, p, ds, ds.len() as int);
}

// ---------------------------------------------------------------------------
// Types and variable definitions
// ---------------------------------------------------------------------------

/// A type that prints to text which reads back as itself: named by a GraphQL
/// name, and never non-null twice in a row.
pub open spec fn printable_type(t: SpecType) -> bool
    decreases t,
{
    match t {
        SpecType::Named(n) => is_name(n),
        SpecType::List(inner) => printable_type(*inner),
        SpecType::NonNull(inner) => !(*inner is NonNull) && printable_type(*inner),
    }
}

/// A printed list type reads back: `[`, the element type, `]`.
proof fn lemma_parse_list_type(s: Seq<char>, p: int, inner: SpecType)
    requires
        printable_type(inner),
        text_at(s, p, "["@ + print_type_spec(inner) + "]"@),
        good_at(s, p + print_type_spec(inner).len() + 2),
    ensures
        good_at(s, p),
        state_at(s, p) == (PState { pos: p + 1, cur: SpecToken::Punct('[') }),
        expect_punct_spec(s, state_at(s, p), '[') == Ok::<PState, SpecParseError>(state_at(s, p + 1)),
        progress(s, state_at(s, p), state_at(s, p + 1)),
        parse_type_spec(s, state_at(s, p + 1)) == Ok::<(SpecType, PState), SpecParseError>(
            (inner, state_at(s, p + 1 + print_type_spec(inner).len())),
        ),
        expect_punct_spec(s, state_at(s, p + 1 + print_type_spec(inner).len()), ']') == Ok::<
            PState,
            SpecParseError,
        >(state_at(s, p + print_type_spec(inner).len() + 2)),
    decreases inner, 1int,
{
    reveal_strlit("[");
    reveal_strlit("]");
    let it = print_type_spec(inner);
    assert("["@ =~= seq!['[']);
    assert("]"@ =~= seq![']']);
    lemma_text_split(s, p, "["@ + it, "]"@);
    lemma_text_split(s, p, "["@, it);
    lemma_lex_punct(s, p + 1 + it.len(), ']');
    lemma_text_char(s, p + 1 + it.len(), seq![']'], 0);
    lemma_parse_type(s, p + 1, inner);
    lemma_lex_punct(s, p, '[');
    lemma_progress(s, p, p + 1);
}

/// A printed type reads back as itself, when no `!` follows it.
proof fn lemma_parse_type(s: Seq<char>, p: int, t: SpecType)
    requires
        printable_type(t),
        text_at(s, p, print_type_spec(t)),
        breaks_at(s, p + print_type_spec(t).len()),
        good_at(s, p + print_type_spec(t).len()),
        state_at(s, p + print_type_spec(t).len()).cur != SpecToken::Punct('!'),
    ensures
        starts(s, p, print_type_spec(t).len()),
        parse_type_spec(s, state_at(s, p)) == Ok::<(SpecType, PState), SpecParseError>(
            (t, state_at(s, p + print_type_spec(t).len())),
        ),
    decreases t, 0int,
{
    reveal_strlit("!");
    reveal_strlit("[");
    reveal_strlit("]");
    assert("!"@ =~= seq!['!']);
    match t {
        SpecType::Named(n) => {
            lemma_lex_name(s, p, n);
        },
        SpecType::List(inner) => {
            lemma_parse_list_type(s, p, *inner);
        },
        SpecType::NonNull(inner) => {
            let it = print_type_spec(*inner);
            lemma_text_split(s, p, it, "!"@);
            lemma_lex_punct(s, p + it.len(), '!');
            lemma_text_char(s, p + it.len(), seq!['!'], 0);
            assert(printable_type(*inner));
            match *inner {
                SpecType::Named(n) => {
                    lemma_lex_name(s, p, n);
                },
                SpecType::List(inner2) => {
                    lemma_parse_list_type(s, p, *inner2);
                },
                SpecType::NonNull(_) => {},
            }
        },
    }
}

/// A variable definition that prints to text which reads back as itself:
/// a GraphQL name, a printable type, a printable constant default value,
/// and no directives (the printer leaves them out).
pub open spec fn printable_variable(v: SpecVariableDefinition) -> bool {
    &&& is_name(v.name)
    &&& printable_type(v.ty)
    &&& (v.default_value matches Some(val) ==> printable_value(val) && is_constant_value(val))
    &&& v.directives.len() == 0
}

/// Variable definitions that are each printable.
pub open spec fn printable_variables(vs: Seq<SpecVariableDefinition>) -> bool {
    forall|i: int| 0 <= i < vs.len() ==> printable_variable(#[trigger] vs[i])
}

/// The text of a default value: ` = value`, or nothing.
spec fn default_text(dv: Option<SpecValue>) -> Seq<char> {
    match dv {
        Some(val) => " = "@ + print_value_spec(val),
        None => Seq::empty(),
    }
}

/// A printed variable definition reads back: `$`, the name, the colon, the
/// type, the default value and the directives.
#[verifier::spinoff_prover]
#[verifier::rlimit(50)]
proof fn lemma_parse_variable(s: Seq<char>, r: int, v: SpecVariableDefinition)
    requires
        printable_variable(v),
        text_at(s, r, print_variable_spec(v)),
        breaks_at(s, r + print_variable_spec(v).len()),
        good_at(s, r + print_variable_spec(v).len()),
        state_at(s, r + print_variable_spec(v).len()).cur == SpecToken::Punct('$') || state_at(
            s,
            r + print_variable_spec(v).len(),
        ).cur == SpecToken::Punct(')'),
    ensures
        starts(s, r, print_variable_spec(v).len()),
        state_at(s, r).cur == SpecToken::Punct('$'),
        parse_variable_spec(s, state_at(s, r)) == Ok::<(SpecVariableDefinition, PState), SpecParseError>(
            (v, state_at(s, r + print_variable_spec(v).len())),
        ),
{
    reveal_strlit("$");
    reveal_strlit(": ");
    reveal_strlit(" = ");
    let n = v.name;
    let ty_t = print_type_spec(v.ty);
    let dv_t = default_text(v.default_value);
    let dirs_t = print_directives_spec(v.directives);
    let sp = seq![' '];
    assert("$"@ =~= seq!['$']);
    assert(": "@ =~= seq![':'] + sp);
    assert(v.directives =~= Seq::<SpecDirective>::empty());
    assert(dirs_t =~= Seq::<char>::empty());
    assert(print_variable_spec(v) =~= "$"@ + n + seq![':'] + sp + ty_t + dv_t + dirs_t);
    let pt = r + 3 + n.len();
    let pdv = pt + ty_t.len();
    let pd = pdv + dv_t.len();
    lemma_text_split(s, r, "$"@ + n + seq![':'] + sp + ty_t + dv_t, dirs_t);
    lemma_text_split(s, r, "$"@ + n + seq![':'] + sp + ty_t, dv_t);
    lemma_text_split(s, r, "$"@ + n + seq![':'] + sp, ty_t);
    lemma_text_split(s, r, "$"@ + n + seq![':'], sp);
    lemma_text_split(s, r, "$"@ + n, seq![':']);
    lemma_text_split(s, r, "$"@, n);
    assert(all_ignored(sp));
    lemma_parse_directives(s, pd, v.directives);
    match v.default_value {
        Some(val) => {
            assert(" = "@ =~= sp + seq!['='] + sp);
            lemma_text_split(s, pdv, sp + seq!['='] + sp, print_value_spec(val));
            lemma_text_split(s, pdv, sp + seq!['='], sp);
            lemma_text_split(s, pdv, sp, seq!['=']);
            lemma_parse_value(s, pdv + 3, val, true);
            lemma_text_char(s, pdv + 2, sp, 0);
            lemma_skip_text(s, pdv + 2, sp);
            lemma_lex_punct(s, pdv + 1, '=');
            lemma_text_char(s, pdv, sp, 0);
            lemma_skip_text(s, pdv, sp);
            assert(parse_default_value_spec(s, state_at(s, pdv)) == Ok::<
                (Option<SpecValue>, PState),
                SpecParseError,
            >((v.default_value, state_at(s, pd))));
        },
        None => {},
    }
    lemma_parse_type(s, pt, v.ty);
    lemma_text_char(s, pt - 1, sp, 0);
    lemma_skip_text(s, pt - 1, sp);
    lemma_lex_punct(s, pt - 2, ':');
    lemma_text_char(s, pt - 2, seq![':'], 0);
    lemma_lex_name(s, r + 1, n);
    lemma_lex_punct(s, r, '$');
}

/// The texts of variable definitions, one per definition.
spec fn variable_texts(vs: Seq<SpecVariableDefinition>) -> Seq<Seq<char>> {
    vs.map_values(|v: SpecVariableDefinition| print_variable_spec(v))
}

/// Where variable definition `k` (or, for `k == vs.len()`, the closing
/// parenthesis) is read from, in definitions printed at `p`.
spec fn variable_pos(p: int, vs: Seq<SpecVariableDefinition>, k: int) -> int {
    p + 1 + join(variable_texts(vs).take(k), ", "@).len()
}

/// Where the text of variable definition `k` starts: after the separator.
spec fn variable_start(p: int, vs: Seq<SpecVariableDefinition>, k: int) -> int {
    if k == 0 {
        variable_pos(p, vs, k)
    } else {
        variable_pos(p, vs, k) + 2
    }
}

proof fn lemma_variables_text(vs: Seq<SpecVariableDefinition>)
    requires
        vs.len() > 0,
    ensures
        print_variables_spec(vs) == "("@ + join(variable_texts(vs), ", "@) + ")"@,
{
    assert(variable_texts(vs) =~= vs.map_values(
        |v: SpecVariableDefinition| print_variable_spec(v),
    ));
}

/// How printed variable definitions are laid out around definition `k`.
proof fn lemma_variable_layout(s: Seq<char>, p: int, vs: Seq<SpecVariableDefinition>, k: int)
    requires
        vs.len() > 0,
        0 <= k <= vs.len(),
        text_at(s, p, print_variables_spec(vs)),
    ensures
        text_at(s, p, seq!['(']),
        k == vs.len() ==> text_at(s, variable_pos(p, vs, k), seq![')']),
        k == vs.len() ==> variable_pos(p, vs, k) + 1 == p + print_variables_spec(vs).len(),
        k < vs.len() ==> text_at(s, variable_start(p, vs, k), print_variable_spec(vs[k])),
        k < vs.len() ==> variable_start(p, vs, k) + print_variable_spec(vs[k]).len()
            == variable_pos(p, vs, k + 1),
        0 < k < vs.len() ==> text_at(s, variable_pos(p, vs, k), seq![',', ' ']),
{
    let items = variable_texts(vs);
    let sep = ", "@;
    let body = join(items, sep);
    lemma_variables_text(vs);
    reveal_strlit("(");
    reveal_strlit(")");
    reveal_strlit(", ");
    assert("("@ =~= seq!['(']);
    lemma_text_split(s, p, "("@ + body, ")"@);
    lemma_text_split(s, p, "("@, body);
    let q = variable_pos(p, vs, k);
    lemma_join_prefix(s, p + 1, items, sep, k);
    if k == vs.len() {
        assert(items.take(k) =~= items);
        assert(")"@ =~= seq![')']);
    } else {
        lemma_join_step(items, k, sep);
        assert(items[k] == print_variable_spec(vs[k]));
        if k > 0 {
            lemma_text_split(s, q, sep, items[k]);
            assert(sep =~= seq![',', ' ']);
        }
    }
}

/// The rest of printed variable definitions, from definition `k`, reads
/// back.
#[verifier::spinoff_prover]
proof fn lemma_parse_variable_list(s: Seq<char>, p: int, vs: Seq<SpecVariableDefinition>, k: int)
    requires
        vs.len() > 0,
        printable_variables(vs),
        0 <= k <= vs.len(),
        text_at(s, p, print_variables_spec(vs)),
        good_at(s, p + print_variables_spec(vs).len()),
    ensures
        good_at(s, variable_pos(p, vs, k)),
        k > 0 ==> breaks_at(s, variable_pos(p, vs, k)),
        k < vs.len() ==> state_at(s, variable_pos(p, vs, k)).cur == SpecToken::Punct('$'),
        k == vs.len() ==> state_at(s, variable_pos(p, vs, k)).cur == SpecToken::Punct(')'),
        parse_variable_list_spec(s, state_at(s, variable_pos(p, vs, k)), vs.take(k)) == Ok::<
            (Seq<SpecVariableDefinition>, PState),
            SpecParseError,
        >((vs, state_at(s, p + print_variables_spec(vs).len()))),
    decreases vs.len() - k,
{
    let q = variable_pos(p, vs, k);
    lemma_variable_layout(s, p, vs, k);
    if k == vs.len() {
        lemma_lex_punct(s, q, ')');
        lemma_text_char(s, q, seq![')'], 0);
        assert(vs.take(k) =~= vs);
    } else {
        lemma_parse_variable_list(s, p, vs, k + 1);
        assert(printable_variable(vs[k]));
        let r = variable_start(p, vs, k);
        lemma_parse_variable(s, r, vs[k]);
        if k > 0 {
            lemma_text_char(s, q, seq![',', ' '], 0);
            assert(all_ignored(seq![',', ' ']));
            lemma_skip_text(s, q, seq![',', ' ']);
        }
        lemma_progress(s, q, variable_pos(p, vs, k + 1));
        assert(vs.take(k).push(vs[k]) =~= vs.take(k + 1));
    }
}

/// Printed variable definitions read back; with none nothing is read, which
/// needs a token other than `(` to follow.
proof fn lemma_parse_variables(s: Seq<char>, p: int, vs: Seq<SpecVariableDefinition>)
    requires
        printable_variables(vs),
        text_at(s, p, print_variables_spec(vs)),
        good_at(s, p + print_variables_spec(vs).len()),
        vs.len() == 0 ==> state_at(s, p).cur != SpecToken::Punct('('),
    ensures
        vs.len() > 0 ==> starts(s, p, print_variables_spec(vs).len()),
        vs.len() > 0 ==> state_at(s, p).cur == SpecToken::Punct('('),
        vs.len() > 0 ==> s[p] == '(',
        vs.len() == 0 ==> print_variables_spec(vs).len() == 0,
        parse_variable_definitions_spec(s, state_at(s, p)) == Ok::<
            (Seq<SpecVariableDefinition>, PState),
            SpecParseError,
        >((vs, state_at(s, p + print_variables_spec(vs).len()))),
{
    if vs.len() == 0 {
        assert(vs =~= Seq::<SpecVariableDefinition>::empty());
    } else {
        lemma_variable_layout(s, p, vs, 0);
        lemma_variable_layout(s, p, vs, vs.len() as int);
        lemma_text_char(s, p, seq!['('], 0);
        lemma_lex_punct(s, p, '(');
        lemma_parse_variable_list(s, p, vs, 0);
        assert(variable_texts(vs).take(0) =~= Seq::<Seq<char>>::empty());
        assert(vs.take(0) =~= Seq::<SpecVariableDefinition>::empty());
    }
}

// ---------------------------------------------------------------------------
// Selections
// ---------------------------------------------------------------------------

/// A selection set that prints to text which reads back as itself: it is not
/// empty, and each of its selections is printable.
pub open spec fn printable_selection_set(set: SpecSelectionSet) -> bool
    decreases set,
{
    &&& set.selections.len() > 0
    &&& forall|i: int|
        0 <= i < set.selections.len() ==> printable_selection(#[trigger] set.selections[i])
}

/// A selection whose names are GraphQL names and whose values are printable;
/// a fragment spread is not of a fragment named `on`, and a field's selection
/// set, when present, is printable.
pub open spec fn printable_selection(x: SpecSelection) -> bool
    decreases x,
{
    match x {
        SpecSelection::Field(f) => {
            &&& (f.alias matches Some(a) ==> is_name(a))
            &&& is_name(f.name)
            &&& printable_arguments(f.arguments)
            &&& printable_directives(f.directives)
            &&& (f.selection_set matches Some(set) ==> printable_selection_set(set))
        },
        SpecSelection::FragmentSpread(sp) => {
            &&& is_name(sp.fragment_name)
            &&& sp.fragment_name != "on"@
            &&& printable_directives(sp.directives)
        },
        SpecSelection::InlineFragment(inl) => {
            &&& (inl.type_condition matches Some(t) ==> is_name(t))
            &&& printable_directives(inl.directives)
            &&& printable_selection_set(inl.selection_set)
        },
    }
}

/// A token that can follow a selection: the start of the next selection or
/// the closing brace.
spec fn after_selection(t: SpecToken) -> bool {
    t is Name || t is Spread || t == SpecToken::Punct('}')
}

/// Where selection `k` (with the line break and indentation before it), or,
/// for `k` past the last, the closing line, starts in a set printed at `p`.
spec fn selection_pos(p: int, set: SpecSelectionSet, indent: Seq<char>, k: int) -> int {
    p + 1 + print_selections_spec(set.selections.take(k), indent + "  "@).len()
}

proof fn lemma_selections_step(sels: Seq<SpecSelection>, indent: Seq<char>, k: int)
    requires
        0 <= k < sels.len(),
    ensures
        print_selections_spec(sels.take(k + 1), indent) == print_selections_spec(sels.take(k), indent)
            + (("\n"@ + indent) + print_selection_spec(sels[k], indent)),
{
    let t = sels.take(k + 1);
    assert(t.drop_last() =~= sels.take(k));
    assert(t.last() == sels[k]);
    let a = print_selections_spec(sels.take(k), indent);
    let b = print_selection_spec(sels[k], indent);
    assert(a + "\n"@ + indent + b =~= a + (("\n"@ + indent) + b));
}

proof fn lemma_selections_prefix(s: Seq<char>, a: int, sels: Seq<SpecSelection>, indent: Seq<char>, k: int)
    requires
        text_at(s, a, print_selections_spec(sels, indent)),
        0 <= k <= sels.len(),
    ensures
        text_at(s, a, print_selections_spec(sels.take(k), indent)),
        k < sels.len() ==> text_at(
            s,
            a + print_selections_spec(sels.take(k), indent).len(),
            ("\n"@ + indent) + print_selection_spec(sels[k], indent),
        ),
    decreases sels.len() - k,
{
    if k == sels.len() {
        assert(sels.take(k) =~= sels);
    } else {
        lemma_selections_prefix(s, a, sels, indent, k + 1);
        lemma_selections_step(sels, indent, k);
        lemma_text_split(
            s,
            a,
            print_selections_spec(sels.take(k), indent),
            ("\n"@ + indent) + print_selection_spec(sels[k], indent),
        );
    }
}

/// How a printed selection set is laid out around selection `k`.
proof fn lemma_selection_layout(s: Seq<char>, p: int, set: SpecSelectionSet, indent: Seq<char>, k: int)
    requires
        set.selections.len() > 0,
        0 <= k <= set.selections.len(),
        text_at(s, p, print_selection_set_spec(set, indent)),
    ensures
        text_at(s, p, seq!['{']),
        k == set.selections.len() ==> text_at(s, selection_pos(p, set, indent, k), "\n"@ + indent),
        k == set.selections.len() ==> text_at(
            s,
            selection_pos(p, set, indent, k) + 1 + indent.len(),
            seq!['}'],
        ),
        k == set.selections.len() ==> selection_pos(p, set, indent, k) + 2 + indent.len() == p
            + print_selection_set_spec(set, indent).len(),
        k < set.selections.len() ==> text_at(
            s,
            selection_pos(p, set, indent, k),
            "\n"@ + (indent + "  "@),
        ),
        k < set.selections.len() ==> text_at(
            s,
            selection_pos(p, set, indent, k) + 1 + (indent + "  "@).len(),
            print_selection_spec(set.selections[k], indent + "  "@),
        ),
        k < set.selections.len() ==> selection_pos(p, set, indent, k) + 1 + (indent + "  "@).len()
            + print_selection_spec(set.selections[k], indent + "  "@).len() == selection_pos(
            p,
            set,
            indent,
            k + 1,
        ),
{
    reveal_strlit("{");
    reveal_strlit("}");
    reveal_strlit("\n");
    reveal_strlit("  ");
    let inner = indent + "  "@;
    let body = print_selections_spec(set.selections, inner);
    let open = "{"@ + body;
    let q = selection_pos(p, set, indent, k);
    assert("{"@ =~= seq!['{']);
    assert("}"@ =~= seq!['}']);
    lemma_text_split(s, p, open + "\n"@ + indent, "}"@);
    assert(open + "\n"@ + indent =~= open + ("\n"@ + indent));
    lemma_text_split(s, p, open, "\n"@ + indent);
    lemma_text_split(s, p, "{"@, body);
    lemma_selections_prefix(s, p + 1, set.selections, inner, k);
    if k == set.selections.len() {
        assert(set.selections.take(k) =~= set.selections);
    } else {
        lemma_selections_step(set.selections, inner, k);
        lemma_text_split(s, q, "\n"@ + inner, print_selection_spec(set.selections[k], inner));
    }
}

/// Spaces, tabs, line breaks and commas are ignored.
proof fn lemma_line_ignored(indent: Seq<char>)
    requires
        all_ignored(indent),
    ensures
        all_ignored("\n"@ + indent),
        all_ignored(indent + "  "@),
        "\n"@.len() == 1,
        "  "@.len() == 2,
{
    reveal_strlit("\n");
    reveal_strlit("  ");
    assert forall|i: int| 0 <= i < ("\n"@ + indent).len() implies is_ignored_char(
        #[trigger] ("\n"@ + indent)[i],
    ) by {
        if i > 0 {
            assert(("\n"@ + indent)[i] == indent[i - 1]);
        }
    }
    assert forall|i: int| 0 <= i < (indent + "  "@).len() implies is_ignored_char(
        #[trigger] (indent + "  "@)[i],
    ) by {
        if i < indent.len() {
            assert((indent + "  "@)[i] == indent[i]);
        }
    }
}

/// A printed selection set reads back: the opening brace, its selections,
/// and the closing brace.
proof fn lemma_parse_selection_set(s: Seq<char>, p: int, set: SpecSelectionSet, indent: Seq<char>)
    requires
        printable_selection_set(set),
        all_ignored(indent),
        text_at(s, p, print_selection_set_spec(set, indent)),
        good_at(s, p + print_selection_set_spec(set, indent).len()),
    ensures
        starts(s, p, print_selection_set_spec(set, indent).len()),
        state_at(s, p) == (PState { pos: p + 1, cur: SpecToken::Punct('{') }),
        parse_selection_set_spec(s, state_at(s, p)) == Ok::<(SpecSelectionSet, PState), SpecParseError>(
            (set, state_at(s, p + print_selection_set_spec(set, indent).len())),
        ),
    decreases set, set.selections.len() + 2,
{
    lemma_selection_layout(s, p, set, indent, 0);
    lemma_selection_layout(s, p, set, indent, set.selections.len() as int);
    lemma_lex_punct(s, p, '{');
    assert(set.selections.take(0) =~= Seq::<SpecSelection>::empty());
    assert(selection_pos(p, set, indent, 0) == p + 1);
    lemma_parse_selection_list(s, p, set, indent, 0);
    lemma_progress(s, p, p + 1);
}

/// The rest of a printed selection set, from selection `k`, reads back.
#[verifier::spinoff_prover]
#[verifier::rlimit(30)]
proof fn lemma_parse_selection_list(
    s: Seq<char>,
    p: int,
    set: SpecSelectionSet,
    indent: Seq<char>,
    k: int,
)
    requires
        printable_selection_set(set),
        all_ignored(indent),
        0 <= k <= set.selections.len(),
        text_at(s, p, print_selection_set_spec(set, indent)),
        good_at(s, p + print_selection_set_spec(set, indent).len()),
    ensures
        good_at(s, selection_pos(p, set, indent, k)),
        breaks_at(s, selection_pos(p, set, indent, k)),
        after_selection(state_at(s, selection_pos(p, set, indent, k)).cur),
        k < set.selections.len() ==> state_at(s, selection_pos(p, set, indent, k)).cur
            != SpecToken::Punct('}'),
        parse_selection_list_spec(
            s,
            state_at(s, selection_pos(p, set, indent, k)),
            set.selections.take(k),
        ) == Ok::<(SpecSelectionSet, PState), SpecParseError>(
            (set, state_at(s, p + print_selection_set_spec(set, indent).len())),
        ),
    decreases set, set.selections.len() - k + 1,
{
    reveal_strlit("\n");
    let q = selection_pos(p, set, indent, k);
    let inner = indent + "  "@;
    lemma_line_ignored(indent);
    lemma_line_ignored(inner);
    lemma_selection_layout(s, p, set, indent, k);
    if k == set.selections.len() {
        lemma_text_char(s, q, "\n"@ + indent, 0);
        lemma_skip_text(s, q, "\n"@ + indent);
        lemma_lex_punct(s, q + 1 + indent.len(), '}');
        assert(set.selections.take(k) =~= set.selections);
    } else {
        let r = q + 1 + inner.len();
        lemma_parse_selection_list(s, p, set, indent, k + 1);
        assert(printable_selection(set.selections[k]));
        lemma_parse_selection(s, r, set.selections[k], inner);
        lemma_text_char(s, q, "\n"@ + inner, 0);
        lemma_skip_text(s, q, "\n"@ + inner);
        lemma_progress(s, q, selection_pos(p, set, indent, k + 1));
        assert(set.selections.take(k).push(set.selections[k]) =~= set.selections.take(k + 1));
    }
}

/// A printed selection reads back.
proof fn lemma_parse_selection(s: Seq<char>, p: int, x: SpecSelection, indent: Seq<char>)
    requires
        printable_selection(x),
        all_ignored(indent),
        text_at(s, p, print_selection_spec(x, indent)),
        breaks_at(s, p + print_selection_spec(x, indent).len()),
        good_at(s, p + print_selection_spec(x, indent).len()),
        after_selection(state_at(s, p + print_selection_spec(x, indent).len()).cur),
    ensures
        starts(s, p, print_selection_spec(x, indent).len()),
        state_at(s, p).cur is Name || state_at(s, p).cur is Spread,
        parse_selection_spec(s, state_at(s, p)) == Ok::<(SpecSelection, PState), SpecParseError>(
            (x, state_at(s, p + print_selection_spec(x, indent).len())),
        ),
    decreases x, 2int,
{
    match x {
        SpecSelection::Field(_) => lemma_parse_field(s, p, x, indent),
        SpecSelection::FragmentSpread(_) => lemma_parse_spread(s, p, x, indent),
        SpecSelection::InlineFragment(_) => lemma_parse_inline(s, p, x, indent),
    }
}

/// A printed field reads back: its alias and name, arguments, directives,
/// and selection set when it has one.
#[verifier::spinoff_prover]
#[verifier::rlimit(50)]
proof fn lemma_parse_field(s: Seq<char>, p: int, x: SpecSelection, indent: Seq<char>)
    requires
        x is Field,
        printable_selection(x),
        all_ignored(indent),
        text_at(s, p, print_selection_spec(x, indent)),
        breaks_at(s, p + print_selection_spec(x, indent).len()),
        good_at(s, p + print_selection_spec(x, indent).len()),
        after_selection(state_at(s, p + print_selection_spec(x, indent).len()).cur),
    ensures
        starts(s, p, print_selection_spec(x, indent).len()),
        state_at(s, p).cur is Name,
        parse_selection_spec(s, state_at(s, p)) == Ok::<(SpecSelection, PState), SpecParseError>(
            (x, state_at(s, p + print_selection_spec(x, indent).len())),
        ),
    decreases x, 1int,
{
    reveal_strlit(": ");
    reveal_strlit(" ");
    let f = x->Field_0;
    let a_t: Seq<char> = match f.alias {
        Some(a) => a + ": "@,
        None => Seq::empty(),
    };
    let args_t = print_arguments_spec(f.arguments);
    let dirs_t = print_directives_spec(f.directives);
    let tail: Seq<char> = match f.selection_set {
        Some(set) => if set.selections.len() > 0 {
            " "@ + print_selection_set_spec(set, indent)
        } else {
            Seq::empty()
        },
        None => Seq::empty(),
    };
    assert(print_selection_spec(x, indent) == a_t + f.name + args_t + dirs_t + tail);
    let pn = p + a_t.len();
    let pa = pn + f.name.len();
    let pd = pa + args_t.len();
    let pt = pd + dirs_t.len();
    lemma_text_split(s, p, a_t + f.name + args_t + dirs_t, tail);
    lemma_text_split(s, p, a_t + f.name + args_t, dirs_t);
    lemma_text_split(s, p, a_t + f.name, args_t);
    lemma_text_split(s, p, a_t, f.name);
    match x {
        SpecSelection::Field(g) => match g.selection_set {
            Some(set) => {
                assert(" "@ =~= seq![' ']);
                lemma_text_split(s, pt, seq![' '], print_selection_set_spec(set, indent));
                lemma_parse_selection_set(s, pt + 1, set, indent);
                lemma_text_char(s, pt, seq![' '], 0);
                assert(all_ignored(seq![' ']));
                lemma_skip_text(s, pt, seq![' ']);
                assert(state_at(s, pt).cur == SpecToken::Punct('{'));
            },
            None => {},
        },
        _ => {},
    }
    lemma_parse_directives(s, pd, f.directives);
    if f.arguments.len() > 0 {
        lemma_arguments_open(f.arguments);
        lemma_text_char(s, pa, args_t, 0);
    }
    lemma_parse_arguments(s, pa, f.arguments);
    lemma_lex_name(s, pn, f.name);
    match f.alias {
        Some(a) => {
            assert(": "@ =~= seq![':'] + seq![' ']);
            lemma_text_split(s, p, a, ": "@);
            lemma_text_split(s, p + a.len(), seq![':'], seq![' ']);
            lemma_text_char(s, p + a.len(), seq![':'], 0);
            lemma_lex_name(s, p, a);
            lemma_lex_punct(s, p + a.len(), ':');
            assert(all_ignored(seq![' ']));
            lemma_skip_text(s, p + a.len() + 1, seq![' ']);
        },
        None => {},
    }
    assert(parse_field_name_spec(s, state_at(s, p)) == Ok::<
        (Option<Seq<char>>, Seq<char>, PState),
        SpecParseError,
    >((f.alias, f.name, state_at(s, pa))));
    if tail.len() > 0 {
        lemma_progress(s, p, pt);
    }
}

/// A printed fragment spread reads back: the spread, the fragment name and
/// its directives.
#[verifier::spinoff_prover]
proof fn lemma_parse_spread(s: Seq<char>, p: int, x: SpecSelection, indent: Seq<char>)
    requires
        x is FragmentSpread,
        printable_selection(x),
        text_at(s, p, print_selection_spec(x, indent)),
        breaks_at(s, p + print_selection_spec(x, indent).len()),
        good_at(s, p + print_selection_spec(x, indent).len()),
        after_selection(state_at(s, p + print_selection_spec(x, indent).len()).cur),
    ensures
        starts(s, p, print_selection_spec(x, indent).len()),
        state_at(s, p).cur is Spread,
        parse_selection_spec(s, state_at(s, p)) == Ok::<(SpecSelection, PState), SpecParseError>(
            (x, state_at(s, p + print_selection_spec(x, indent).len())),
        ),
{
    reveal_strlit("...");
    let sp = x->FragmentSpread_0;
    let n = sp.fragment_name;
    let dirs_t = print_directives_spec(sp.directives);
    lemma_text_split(s, p, "..."@ + n, dirs_t);
    lemma_text_split(s, p, "..."@, n);
    lemma_parse_directives(s, p + 3 + n.len(), sp.directives);
    lemma_lex_name(s, p + 3, n);
    lemma_lex_spread(s, p);
}

/// A printed inline fragment reads back: the spread, the type condition when
/// there is one, its directives and its selection set.
#[verifier::spinoff_prover]
#[verifier::rlimit(50)]
proof fn lemma_parse_inline(s: Seq<char>, p: int, x: SpecSelection, indent: Seq<char>)
    requires
        x is InlineFragment,
        printable_selection(x),
        all_ignored(indent),
        text_at(s, p, print_selection_spec(x, indent)),
        breaks_at(s, p + print_selection_spec(x, indent).len()),
        good_at(s, p + print_selection_spec(x, indent).len()),
        after_selection(state_at(s, p + print_selection_spec(x, indent).len()).cur),
    ensures
        starts(s, p, print_selection_spec(x, indent).len()),
        state_at(s, p).cur is Spread,
        parse_selection_spec(s, state_at(s, p)) == Ok::<(SpecSelection, PState), SpecParseError>(
            (x, state_at(s, p + print_selection_spec(x, indent).len())),
        ),
    decreases x, 1int,
{
    reveal_strlit("...");
    reveal_strlit(" on ");
    reveal_strlit("on");
    reveal_strlit(" ");
    let inl = x->InlineFragment_0;
    let tc_t: Seq<char> = match inl.type_condition {
        Some(t) => " on "@ + t,
        None => Seq::empty(),
    };
    let dirs_t = print_directives_spec(inl.directives);
    let set_t = print_selection_set_spec(inl.selection_set, indent);
    assert(" "@ =~= seq![' ']);
    assert(print_selection_spec(x, indent) == "..."@ + tc_t + dirs_t + seq![' '] + set_t);
    let pd = p + 3 + tc_t.len();
    let pt = pd + dirs_t.len();
    lemma_text_split(s, p, "..."@ + tc_t + dirs_t + seq![' '], set_t);
    lemma_text_split(s, p, "..."@ + tc_t + dirs_t, seq![' ']);
    lemma_text_split(s, p, "..."@ + tc_t, dirs_t);
    lemma_text_split(s, p, "..."@, tc_t);
    match x {
        SpecSelection::InlineFragment(g) => {
            lemma_parse_selection_set(s, pt + 1, g.selection_set, indent);
        },
        _ => {},
    }
    lemma_text_char(s, pt, seq![' '], 0);
    assert(all_ignored(seq![' ']));
    lemma_skip_text(s, pt, seq![' ']);
    lemma_parse_directives(s, pd, inl.directives);
    match inl.type_condition {
        Some(t) => {
            assert(" on "@ =~= seq![' '] + "on"@ + seq![' ']);
            lemma_text_split(s, p + 3, " on "@, t);
            lemma_text_split(s, p + 3, seq![' '] + "on"@, seq![' ']);
            lemma_text_split(s, p + 3, seq![' '], "on"@);
            lemma_text_char(s, p + 6, seq![' '], 0);
            lemma_lex_name(s, p + 4, "on"@);
            lemma_skip_text(s, p + 3, seq![' ']);
            lemma_lex_name(s, p + 7, t);
            lemma_skip_text(s, p + 6, seq![' ']);
        },
        None => {},
    }
    lemma_lex_spread(s, p);
    lemma_progress(s, p, pt);
}

// ---------------------------------------------------------------------------
// Definitions and documents
// ---------------------------------------------------------------------------

/// An operation that prints to text which reads back as itself: a GraphQL
/// name if any, printable variable definitions and directives, and a
/// printable selection set.
pub open spec fn printable_operation(op: SpecOperation) -> bool {
    &&& (op.name matches Some(n) ==> is_name(n))
    &&& printable_variables(op.variable_definitions)
    &&& printable_directives(op.directives)
    &&& printable_selection_set(op.selection_set)
}

/// A fragment that prints to text which reads back as itself: GraphQL names
/// for the fragment (other than `on`) and its type condition, printable
/// variable definitions and directives, and a printable selection set.
pub open spec fn printable_fragment(fr: SpecFragment) -> bool {
    &&& is_name(fr.name)
    &&& fr.name != "on"@
    &&& printable_variables(fr.variable_definitions)
    &&& is_name(fr.type_condition)
    &&& printable_directives(fr.directives)
    &&& printable_selection_set(fr.selection_set)
}

/// A printable operation or fragment.
pub open spec fn printable_definition(d: SpecDefinition) -> bool {
    match d {
        SpecDefinition::Operation(op) => printable_operation(op),
        SpecDefinition::Fragment(fr) => printable_fragment(fr),
    }
}

/// A document that prints to text which reads back as itself: at least one
/// definition, each printable.
pub open spec fn printable_document(d: SpecDocument) -> bool {
    &&& d.definitions.len() > 0
    &&& forall|i: int|
        0 <= i < d.definitions.len() ==> printable_definition(#[trigger] d.definitions[i])
}

/// The keywords are names, and tell the kinds of definition apart.
proof fn lemma_keywords()
    ensures
        is_name("query"@),
        is_name("mutation"@),
        is_name("subscription"@),
        is_name("fragment"@),
        is_name("on"@),
        "query"@ != "mutation"@,
        "query"@ != "subscription"@,
        "query"@ != "fragment"@,
        "mutation"@ != "subscription"@,
        "mutation"@ != "fragment"@,
        "subscription"@ != "fragment"@,
{
    reveal_strlit("query");
    reveal_strlit("mutation");
    reveal_strlit("subscription");
    reveal_strlit("fragment");
    reveal_strlit("on");
    assert("mutation"@[0] != "fragment"@[0]);
    assert("query"@.len() == 5);
    assert("subscription"@.len() == 12);
    assert("mutation"@.len() == 8);
    assert("fragment"@.len() == 8);
}

/// The text after an operation's keyword and before its directives: a
/// space, then the name and variable definitions, when there are any.
spec fn operation_head_text(name: Option<Seq<char>>, vars: Seq<SpecVariableDefinition>) -> Seq<
    char,
> {
    let group = match name {
        Some(n) => n,
        None => Seq::empty(),
    } + print_variables_spec(vars);
    if group.len() > 0 {
        seq![' '] + group
    } else {
        Seq::empty()
    }
}

/// The name and variable definitions of an operation read back; returns
/// where the variable definitions start.
#[verifier::spinoff_prover]
proof fn lemma_operation_head(
    s: Seq<char>,
    p1: int,
    name: Option<Seq<char>>,
    vars: Seq<SpecVariableDefinition>,
) -> (pv: int)
    requires
        name matches Some(n) ==> is_name(n),
        printable_variables(vars),
        text_at(s, p1, operation_head_text(name, vars)),
        good_at(s, p1 + operation_head_text(name, vars).len()),
        breaks_at(s, p1 + operation_head_text(name, vars).len()),
        state_at(s, p1 + operation_head_text(name, vars).len()).cur == SpecToken::Punct('@')
            || state_at(s, p1 + operation_head_text(name, vars).len()).cur == SpecToken::Punct(
            '{',
        ),
    ensures
        good_at(s, p1),
        breaks_at(s, p1),
        p1 <= pv <= p1 + operation_head_text(name, vars).len(),
        match name {
            Some(n) => state_at(s, p1).cur == SpecToken::Name(n) && expect_name_spec(
                s,
                state_at(s, p1),
            ) == Ok::<(Seq<char>, PState), SpecParseError>((n, state_at(s, pv))),
            None => !(state_at(s, p1).cur is Name) && state_at(s, p1) == state_at(s, pv),
        },
        parse_variable_definitions_spec(s, state_at(s, pv)) == Ok::<
            (Seq<SpecVariableDefinition>, PState),
            SpecParseError,
        >((vars, state_at(s, p1 + operation_head_text(name, vars).len()))),
{
    let name_t: Seq<char> = match name {
        Some(n) => n,
        None => Seq::empty(),
    };
    let vars_t = print_variables_spec(vars);
    let group = name_t + vars_t;
    let sp = seq![' '];
    assert(all_ignored(sp));
    if group.len() > 0 {
        assert(sp + group == sp + name_t + vars_t);
        lemma_text_split(s, p1, sp + name_t, vars_t);
        lemma_text_split(s, p1, sp, name_t);
        lemma_text_char(s, p1, sp, 0);
        lemma_skip_text(s, p1, sp);
        let pv = p1 + 1 + name_t.len();
        lemma_parse_variables(s, pv, vars);
        match name {
            Some(n) => {
                lemma_lex_name(s, p1 + 1, n);
            },
            None => {},
        }
        pv
    } else {
        lemma_parse_variables(s, p1, vars);
        p1
    }
}

/// Where the pieces of a printed operation that is not a shorthand query
/// stand, and what each reads back as: the keyword at `p`, then (returned)
/// the start of the variable definitions, of the directives and of the
/// selection set.
#[verifier::spinoff_prover]
#[verifier::rlimit(30)]
proof fn lemma_operation_layout(s: Seq<char>, p: int, op: SpecOperation) -> (ps: (int, int, int))
    requires
        printable_operation(op),
        !is_shorthand_spec(op),
        text_at(s, p, print_operation_spec(op)),
        good_at(s, p + print_operation_spec(op).len()),
    ensures
        good_at(s, p),
        state_at(s, p) == (PState {
            pos: p + keyword_spec(op.operation).len(),
            cur: SpecToken::Name(keyword_spec(op.operation)),
        }),
        p < ps.0 <= ps.1 <= ps.2 <= p + print_operation_spec(op).len(),
        good_at(s, p + keyword_spec(op.operation).len()),
        match op.name {
            Some(n) => state_at(s, p + keyword_spec(op.operation).len()).cur == SpecToken::Name(n)
                && expect_name_spec(s, state_at(s, p + keyword_spec(op.operation).len())) == Ok::<
                (Seq<char>, PState),
                SpecParseError,
            >((n, state_at(s, ps.0))),
            None => !(state_at(s, p + keyword_spec(op.operation).len()).cur is Name) && state_at(
                s,
                p + keyword_spec(op.operation).len(),
            ) == state_at(s, ps.0),
        },
        parse_variable_definitions_spec(s, state_at(s, ps.0)) == Ok::<
            (Seq<SpecVariableDefinition>, PState),
            SpecParseError,
        >((op.variable_definitions, state_at(s, ps.1))),
        parse_directives_spec(s, state_at(s, ps.1), Seq::empty()) == Ok::<
            (Seq<SpecDirective>, PState),
            SpecParseError,
        >((op.directives, state_at(s, ps.2))),
        parse_selection_set_spec(s, state_at(s, ps.2)) == Ok::<
            (SpecSelectionSet, PState),
            SpecParseError,
        >((op.selection_set, state_at(s, p + print_operation_spec(op).len()))),
{
    reveal_strlit(" ");
    lemma_keywords();
    let empty = Seq::<char>::empty();
    assert(all_ignored(empty));
    let set_t = print_selection_set_spec(op.selection_set, empty);
    let kw = keyword_spec(op.operation);
    let g = operation_head_text(op.name, op.variable_definitions);
    let sp = seq![' '];
    let dirs_t = print_directives_spec(op.directives);
    assert(" "@ =~= sp);
    assert(print_operation_spec(op) == kw + g + dirs_t + sp + set_t);
    let p1 = p + kw.len();
    let pd = p1 + g.len();
    let pt = pd + dirs_t.len();
    lemma_text_split(s, p, kw + g + dirs_t + sp, set_t);
    lemma_text_split(s, p, kw + g + dirs_t, sp);
    lemma_text_split(s, p, kw + g, dirs_t);
    lemma_text_split(s, p, kw, g);
    assert(all_ignored(sp));
    lemma_parse_selection_set(s, pt + 1, op.selection_set, empty);
    lemma_text_char(s, pt, sp, 0);
    lemma_skip_text(s, pt, sp);
    lemma_parse_directives(s, pd, op.directives);
    let pv = lemma_operation_head(s, p1, op.name, op.variable_definitions);
    lemma_lex_name(s, p, kw);
    (pv, pd, pt)
}

/// A printed operation that is not a shorthand query reads back after its
/// keyword: the name and variable definitions when there are any, the
/// directives and the selection set.
#[verifier::spinoff_prover]
proof fn lemma_parse_operation_body(s: Seq<char>, p: int, op: SpecOperation)
    requires
        printable_operation(op),
        !is_shorthand_spec(op),
        text_at(s, p, print_operation_spec(op)),
        good_at(s, p + print_operation_spec(op).len()),
    ensures
        starts(s, p, print_operation_spec(op).len()),
        state_at(s, p).cur == SpecToken::Name(keyword_spec(op.operation)),
        parse_operation_spec(s, state_at(s, p), op.operation) == Ok::<
            (SpecOperation, PState),
            SpecParseError,
        >((op, state_at(s, p + print_operation_spec(op).len()))),
{
    let ps = lemma_operation_layout(s, p, op);
}

/// A printed operation reads back: see `lemma_parse_operation_body`; a
/// shorthand query reads back from its selection set alone.
proof fn lemma_parse_operation(s: Seq<char>, p: int, op: SpecOperation)
    requires
        printable_operation(op),
        text_at(s, p, print_operation_spec(op)),
        good_at(s, p + print_operation_spec(op).len()),
    ensures
        starts(s, p, print_operation_spec(op).len()),
        parse_definition_spec(s, state_at(s, p)) == Ok::<(SpecDefinition, PState), SpecParseError>(
            (SpecDefinition::Operation(op), state_at(s, p + print_operation_spec(op).len())),
        ),
{
    lemma_keywords();
    if is_shorthand_spec(op) {
        let empty = Seq::<char>::empty();
        assert(all_ignored(empty));
        lemma_parse_selection_set(s, p, op.selection_set, empty);
        assert(op.directives =~= Seq::<SpecDirective>::empty());
        assert(op.variable_definitions =~= Seq::<SpecVariableDefinition>::empty());
    } else {
        lemma_parse_operation_body(s, p, op);
    }
}

/// A printed fragment reads back: `fragment`, its name, its variable
/// definitions, `on`, the type condition, the directives and the selection
/// set.
#[verifier::spinoff_prover]
#[verifier::rlimit(50)]
proof fn lemma_parse_fragment(s: Seq<char>, p: int, fr: SpecFragment)
    requires
        printable_fragment(fr),
        text_at(s, p, print_fragment_spec(fr)),
        good_at(s, p + print_fragment_spec(fr).len()),
    ensures
        starts(s, p, print_fragment_spec(fr).len()),
        parse_definition_spec(s, state_at(s, p)) == Ok::<(SpecDefinition, PState), SpecParseError>(
            (SpecDefinition::Fragment(fr), state_at(s, p + print_fragment_spec(fr).len())),
        ),
{
    reveal_strlit(" ");
    reveal_strlit(" on ");
    reveal_strlit("fragment ");
    reveal_strlit("on");
    reveal_strlit("fragment");
    lemma_keywords();
    let empty = Seq::<char>::empty();
    assert(all_ignored(empty));
    let n = fr.name;
    let vars_t = print_variables_spec(fr.variable_definitions);
    let tc = fr.type_condition;
    let dirs_t = print_directives_spec(fr.directives);
    let set_t = print_selection_set_spec(fr.selection_set, empty);
    let sp = seq![' '];
    assert(" "@ =~= sp);
    assert(" on "@ =~= sp + "on"@ + sp);
    assert("fragment "@ =~= "fragment"@ + sp);
    let head = "fragment"@ + sp + n + vars_t;
    assert(print_fragment_spec(fr) == head + sp + "on"@ + sp + tc + dirs_t + sp + set_t);
    let pv = p + 9 + n.len();
    let p1 = pv + vars_t.len();
    let pc = p1 + 4;
    let pd = pc + tc.len();
    let pt = pd + dirs_t.len();
    lemma_text_split(s, p, head + sp + "on"@ + sp + tc + dirs_t + sp, set_t);
    lemma_text_split(s, p, head + sp + "on"@ + sp + tc + dirs_t, sp);
    lemma_text_split(s, p, head + sp + "on"@ + sp + tc, dirs_t);
    lemma_text_split(s, p, head + sp + "on"@ + sp, tc);
    lemma_text_split(s, p, head + sp + "on"@, sp);
    lemma_text_split(s, p, head + sp, "on"@);
    lemma_text_split(s, p, head, sp);
    lemma_text_split(s, p, "fragment"@ + sp + n, vars_t);
    lemma_text_split(s, p, "fragment"@ + sp, n);
    lemma_text_split(s, p, "fragment"@, sp);
    assert(all_ignored(sp));
    lemma_parse_selection_set(s, pt + 1, fr.selection_set, empty);
    lemma_text_char(s, pt, sp, 0);
    lemma_skip_text(s, pt, sp);
    lemma_parse_directives(s, pd, fr.directives);
    lemma_lex_name(s, pc, tc);
    lemma_text_char(s, p1 + 3, sp, 0);
    lemma_skip_text(s, p1 + 3, sp);
    lemma_lex_name(s, p1 + 1, "on"@);
    lemma_text_char(s, p1, sp, 0);
    lemma_skip_text(s, p1, sp);
    lemma_parse_variables(s, pv, fr.variable_definitions);
    lemma_lex_name(s, p + 9, n);
    lemma_text_char(s, p + 8, sp, 0);
    lemma_skip_text(s, p + 8, sp);
    lemma_lex_name(s, p, "fragment"@);
    assert(expect_keyword_spec(s, state_at(s, p1), "on"@) == Ok::<PState, SpecParseError>(
        state_at(s, pc),
    ));
    assert(parse_fragment_spec(s, state_at(s, p)) == Ok::<(SpecFragment, PState), SpecParseError>(
        (fr, state_at(s, p + print_fragment_spec(fr).len())),
    ));
}

proof fn lemma_parse_definition(s: Seq<char>, p: int, d: SpecDefinition)
    requires
        printable_definition(d),
        text_at(s, p, definition_text(d)),
        good_at(s, p + definition_text(d).len()),
    ensures
        starts(s, p, definition_text(d).len()),
        parse_definition_spec(s, state_at(s, p)) == Ok::<(SpecDefinition, PState), SpecParseError>(
            (d, state_at(s, p + definition_text(d).len())),
        ),
{
    reveal(definition_text);
    match d {
        SpecDefinition::Operation(op) => lemma_parse_operation(s, p, op),
        SpecDefinition::Fragment(fr) => lemma_parse_fragment(s, p, fr),
    }
}

/// The text of one definition, kept folded while the document around it is
/// laid out.
#[verifier::opaque]
spec fn definition_text(d: SpecDefinition) -> Seq<char> {
    print_definition_spec(d)
}

/// The texts of definitions, one per definition.
spec fn definition_texts(defs: Seq<SpecDefinition>) -> Seq<Seq<char>> {
    defs.map_values(|x: SpecDefinition| definition_text(x))
}

/// Where definition `k` (with the blank line before it), or, for `k` past
/// the last, the final line break, starts in a printed document.
spec fn definition_pos(defs: Seq<SpecDefinition>, k: int) -> int {
    join(definition_texts(defs).take(k), "\n\n"@).len() as int
}

/// Where the text of definition `k` starts: after the blank line, if any.
spec fn definition_start(defs: Seq<SpecDefinition>, k: int) -> int {
    if k == 0 {
        definition_pos(defs, k)
    } else {
        definition_pos(defs, k) + 2
    }
}

/// The text of a document with definitions `defs`: the definitions
/// separated by blank lines, then a line break.
spec fn document_text(defs: Seq<SpecDefinition>) -> Seq<char> {
    join(definition_texts(defs), "\n\n"@) + "\n"@
}

/// How a printed document is laid out around definition `k`.
proof fn lemma_definition_layout(s: Seq<char>, defs: Seq<SpecDefinition>, k: int)
    requires
        0 <= k <= defs.len(),
        s == document_text(defs),
    ensures
        k == defs.len() ==> definition_pos(defs, k) + 1 == s.len(),
        k == defs.len() ==> s[definition_pos(defs, k)] == '\n',
        k < defs.len() ==> text_at(s, definition_start(defs, k), definition_text(defs[k])),
        k < defs.len() ==> definition_start(defs, k) + definition_text(defs[k]).len()
            == definition_pos(defs, k + 1),
        0 < k < defs.len() ==> text_at(s, definition_pos(defs, k), seq!['\n', '\n']),
{
    reveal_strlit("\n");
    reveal_strlit("\n\n");
    let items = definition_texts(defs);
    let sep = "\n\n"@;
    let body = join(items, sep);
    assert(s.subrange(0, s.len() as int) =~= s);
    lemma_text_split(s, 0, body, "\n"@);
    lemma_join_prefix(s, 0, items, sep, k);
    if k == defs.len() {
        assert(items.take(k) =~= items);
        lemma_text_char(s, body.len() as int, "\n"@, 0);
    } else {
        lemma_join_step(items, k, sep);
        assert(items[k] == definition_text(defs[k]));
        if k > 0 {
            let q = definition_pos(defs, k);
            lemma_text_split(s, q, sep, items[k]);
            assert(sep =~= seq!['\n', '\n']);
        }
    }
}

/// The rest of a printed document, from definition `k`, reads back.
#[verifier::spinoff_prover]
proof fn lemma_parse_definition_list(s: Seq<char>, d: SpecDocument, k: int)
    requires
        printable_document(d),
        0 <= k <= d.definitions.len(),
        s == document_text(d.definitions),
    ensures
        good_at(s, definition_pos(d.definitions, k)),
        k < d.definitions.len() ==> !(state_at(s, definition_pos(d.definitions, k)).cur is Eof),
        parse_definition_list_spec(
            s,
            state_at(s, definition_pos(d.definitions, k)),
            d.definitions.take(k),
        ) == Ok::<SpecDocument, SpecParseError>(d),
    decreases d.definitions.len() - k,
{
    let q = definition_pos(d.definitions, k);
    lemma_definition_layout(s, d.definitions, k);
    if k == d.definitions.len() {
        assert forall|i: int| q <= i < s.len() implies is_ignored_char(#[trigger] s[i]) by {
            assert(i == q);
        }
        lemma_lex_eof(s, q);
        assert(d.definitions.take(k) =~= d.definitions);
    } else {
        lemma_parse_definition_list(s, d, k + 1);
        assert(printable_definition(d.definitions[k]));
        lemma_parse_definition(s, definition_start(d.definitions, k), d.definitions[k]);
        if k > 0 {
            assert(all_ignored(seq!['\n', '\n']));
            lemma_skip_text(s, q, seq!['\n', '\n']);
        }
        lemma_progress(s, q, definition_pos(d.definitions, k + 1));
        assert(d.definitions.take(k).push(d.definitions[k]) =~= d.definitions.take(k + 1));
    }
}

/// Printing then parsing gives back the document, for every printable
/// document.
pub proof fn law_print_then_parse(d: SpecDocument)
    requires
        printable_document(d),
    ensures
        parse_document_spec(print_document_spec(d)) == Ok::<SpecDocument, SpecParseError>(d),
{
    let s = print_document_spec(d);
    reveal(definition_text);
    assert(definition_texts(d.definitions) =~= d.definitions.map_values(
        |x: SpecDefinition| print_definition_spec(x),
    ));
    assert(s == document_text(d.definitions));
    lemma_parse_definition_list(s, d, 0);
    assert(definition_texts(d.definitions).take(0) =~= Seq::<Seq<char>>::empty());
    assert(definition_pos(d.definitions, 0) == 0);
    assert(d.definitions.take(0) =~= Seq::<SpecDefinition>::empty());
    assert(initial_state(s) == state_at(s, 0));
}

// ---------------------------------------------------------------------------
// Sorting keeps a document printable
// ---------------------------------------------------------------------------

proof fn lemma_arguments_keep(a1: Seq<SpecArgument>, a2: Seq<SpecArgument>)
    requires
        reorders_with(a1, a2, argument_key_fn(), argument_eq_fn()),
        printable_arguments(a1),
    ensures
        printable_arguments(a2),
{
    let (r, rinv) = choose|r: Seq<int>, rinv: Seq<int>| #[trigger]
        is_perm(r, rinv, a1.len() as int) && reorders_with_via(
            a1,
            a2,
            r,
            argument_key_fn(),
            argument_eq_fn(),
        );
    assert forall|i: int| 0 <= i < a2.len() implies printable_argument(#[trigger] a2[i]) by {
        assert(argument_eq_fn()(a1[r[i]], a2[i]));
        assert(printable_argument(a1[r[i]]));
    }
}

proof fn lemma_directive_keep(d1: SpecDirective, d2: SpecDirective)
    requires
        reorders_directive(d1, d2),
        printable_directive(d1),
    ensures
        printable_directive(d2),
{
    lemma_arguments_keep(d1.arguments, d2.arguments);
}

proof fn lemma_directives_in_place_keep(ds1: Seq<SpecDirective>, ds2: Seq<SpecDirective>)
    requires
        reorders_directives_in_place(ds1, ds2),
        printable_directives(ds1),
    ensures
        printable_directives(ds2),
{
    assert forall|i: int| 0 <= i < ds2.len() implies printable_directive(#[trigger] ds2[i]) by {
        assert(directive_rel_fn()(ds1[i], ds2[i]));
        assert(printable_directive(ds1[i]));
        lemma_directive_keep(ds1[i], ds2[i]);
    }
}

proof fn lemma_directives_keep(ds1: Seq<SpecDirective>, ds2: Seq<SpecDirective>)
    requires
        reorders_directives(ds1, ds2),
        printable_directives(ds1),
    ensures
        printable_directives(ds2),
{
    let (r, rinv) = choose|r: Seq<int>, rinv: Seq<int>| #[trigger]
        is_perm(r, rinv, ds1.len() as int) && reorders_with_via(
            ds1,
            ds2,
            r,
            directive_key_fn(),
            directive_rel_fn(),
        );
    assert forall|i: int| 0 <= i < ds2.len() implies printable_directive(#[trigger] ds2[i]) by {
        assert(directive_rel_fn()(ds1[r[i]], ds2[i]));
        assert(printable_directive(ds1[r[i]]));
        lemma_directive_keep(ds1[r[i]], ds2[i]);
    }
}

proof fn lemma_variables_keep(vs1: Seq<SpecVariableDefinition>, vs2: Seq<SpecVariableDefinition>)
    requires
        reorders_variables(vs1, vs2),
        printable_variables(vs1),
    ensures
        printable_variables(vs2),
{
    let (r, rinv) = choose|r: Seq<int>, rinv: Seq<int>| #[trigger]
        is_perm(r, rinv, vs1.len() as int) && reorders_with_via(
            vs1,
            vs2,
            r,
            variable_key_fn(),
            variable_rel_fn(),
        );
    assert forall|i: int| 0 <= i < vs2.len() implies printable_variable(#[trigger] vs2[i]) by {
        assert(variable_rel_fn()(vs1[r[i]], vs2[i]));
        assert(printable_variable(vs1[r[i]]));
        lemma_directives_in_place_keep(vs1[r[i]].directives, vs2[i].directives);
    }
}

proof fn lemma_selection_set_keep(a: SpecSelectionSet, b: SpecSelectionSet)
    requires
        reorders_selection_set(a, b),
        printable_selection_set(a),
    ensures
        printable_selection_set(b),
    decreases b,
{
    let (r, rinv) = choose|r: Seq<int>, rinv: Seq<int>|
        #[trigger] is_perm(r, rinv, a.selections.len() as int) && {
            &&& b.selections.len() == a.selections.len()
            &&& forall|i: int|
                0 <= i < b.selections.len() ==> reorders_selection(
                    a.selections[r[i]],
                    #[trigger] b.selections[i],
                )
            &&& forall|i: int, j: int|
                0 <= i < j < b.selections.len() && #[trigger] selection_key(
                    b.selections[i],
                ) == #[trigger] selection_key(b.selections[j]) ==> r[i] < r[j]
        };
    assert forall|i: int| 0 <= i < b.selections.len() implies printable_selection(
        #[trigger] b.selections[i],
    ) by {
        assert(printable_selection(a.selections[r[i]]));
        lemma_selection_keep(a.selections[r[i]], b.selections[i]);
    }
}

proof fn lemma_selection_keep(x: SpecSelection, y: SpecSelection)
    requires
        reorders_selection(x, y),
        printable_selection(x),
    ensures
        printable_selection(y),
    decreases y,
{
    match (x, y) {
        (SpecSelection::Field(f1), SpecSelection::Field(f2)) => {
            lemma_arguments_keep(f1.arguments, f2.arguments);
            lemma_directives_in_place_keep(f1.directives, f2.directives);
            if let (Some(s1), Some(s2)) = (f1.selection_set, f2.selection_set) {
                lemma_selection_set_keep(s1, s2);
            }
        },
        (SpecSelection::FragmentSpread(a), SpecSelection::FragmentSpread(b)) => {
            lemma_directives_keep(a.directives, b.directives);
        },
        (SpecSelection::InlineFragment(a), SpecSelection::InlineFragment(b)) => {
            lemma_directives_keep(a.directives, b.directives);
            lemma_selection_set_keep(a.selection_set, b.selection_set);
        },
        _ => {},
    }
}

proof fn lemma_definition_keep(d: SpecDefinition, e: SpecDefinition)
    requires
        reorders_definition(d, e),
        printable_definition(d),
    ensures
        printable_definition(e),
{
    match (d, e) {
        (SpecDefinition::Operation(a), SpecDefinition::Operation(b)) => {
            lemma_variables_keep(a.variable_definitions, b.variable_definitions);
            lemma_directives_in_place_keep(a.directives, b.directives);
            lemma_selection_set_keep(a.selection_set, b.selection_set);
        },
        (SpecDefinition::Fragment(a), SpecDefinition::Fragment(b)) => {
            lemma_variables_keep(a.variable_definitions, b.variable_definitions);
            lemma_directives_keep(a.directives, b.directives);
            lemma_selection_set_keep(a.selection_set, b.selection_set);
        },
        _ => {},
    }
}

/// Sorting keeps a document printable: it only rearranges siblings.
proof fn lemma_sorted_printable(d: SpecDocument)
    requires
        printable_document(d),
    ensures
        printable_document(sorted_document(d)),
{
    law_sort_only_reorders_stably(d);
    let e = sorted_document(d);
    let (r, rinv) = choose|r: Seq<int>, rinv: Seq<int>| #[trigger]
        is_perm(r, rinv, d.definitions.len() as int) && reorders_with_via(
            d.definitions,
            e.definitions,
            r,
            definition_key_fn(),
            definition_rel_fn(),
        );
    assert forall|i: int| 0 <= i < e.definitions.len() implies printable_definition(
        #[trigger] e.definitions[i],
    ) by {
        assert(definition_rel_fn()(d.definitions[r[i]], e.definitions[i]));
        assert(printable_definition(d.definitions[r[i]]));
        lemma_definition_keep(d.definitions[r[i]], e.definitions[i]);
    }
}

/// The sorted form of a printable document prints to text that parses back
/// to that sorted form; printing it again gives the same text.
pub proof fn law_sorted_output_reads_back(d: SpecDocument)
    requires
        printable_document(d),
    ensures
        parse_document_spec(print_document_spec(sorted_document(d))) == Ok::<
            SpecDocument,
            SpecParseError,
        >(sorted_document(d)),
{
    lemma_sorted_printable(d);
    law_print_then_parse(sorted_document(d));
}

} // verus!
