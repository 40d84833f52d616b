//! A recursive-descent parser for executable GraphQL documents.
//!
//! The parser covers the executable subset of the grammar: operations,
//! fragments, selection sets, fields, spreads, inline fragments, arguments,
//! directives, variable definitions, types and values. It rejects
//! type-system definitions, empty documents, empty selection sets, trailing
//! input, a fragment named `on`, and variables inside default values.
//!
//! The grammar is stated as spec functions over the parser state: the
//! position of the lexer in the source and the current token. Each function
//! gives the parsed value and the state after it, or the error, with its
//! message.
use vstd::prelude::*;
use crate::ast::{
    arguments_view, definitions_view, directives_view, object_fields_view, selections_view,
    values_view, variables_view, Argument, Definition, Directive, Document, Field,
    FragmentDefinition, FragmentSpread, InlineFragment, OperationDefinition, OperationType,
    Selection, SelectionSet, SpecArgument, SpecDefinition, SpecDirective, SpecDocument,
    SpecField, SpecFragment, SpecFragmentSpread, SpecInlineFragment, SpecOperation,
    SpecSelection, SpecSelectionSet, SpecType, SpecValue, SpecVariableDefinition, Type, Value,
    VariableDefinition,
};
use crate::lexer::{next_token_spec, token_debug, token_debug_text, Lexer, SpecToken, Token};

verus! {

/// A parse failure with a human-readable message.
#[derive(Debug, PartialEq, Eq)]
pub struct ParseError {
    message: String,
}

impl View for ParseError {
    type V = Seq<char>;

    closed spec fn view(&self) -> Seq<char> {
        self.message@
    }
}

impl ParseError {
    pub(crate) fn new(message: &str) -> (r: ParseError)
        ensures
            r@ == message@,
    {
        ParseError { message: String::from_str(message) }
    }

    /// A message made of `prefix`, then `detail`, then `suffix`.
    pub(crate) fn with_detail(prefix: &str, detail: &str, suffix: &str) -> (r: ParseError)
        ensures
            r@ == prefix@ + detail@ + suffix@,
    {
        let mut message = String::from_str(prefix);
        message.append(detail);
        message.append(suffix);
        ParseError { message }
    }

    /// A parse error carrying the given message.
    pub fn from_message(message: &str) -> (r: ParseError)
        ensures
            r@ == message@,
    {
        ParseError::new(message)
    }

    /// The message describing the failure.
    pub fn message(&self) -> (r: &str)
        ensures
            r@ == self@,
    {
        self.message.as_str()
    }
}

impl Clone for ParseError {
    fn clone(&self) -> (r: Self)
        ensures
            r@ == self@,
    {
        ParseError { message: self.message.clone() }
    }
}

// ---------------------------------------------------------------------------
// The grammar
// ---------------------------------------------------------------------------

/// Why a parse fails: the message of the error.
pub struct SpecParseError {
    pub message: Seq<char>,
}

/// The error with message `m`.
pub open spec fn parse_error(m: Seq<char>) -> SpecParseError {
    SpecParseError { message: m }
}

/// The error of a step that reads nothing. Every step that succeeds reads a
/// token, so no parse ends in it.
pub open spec fn stalled() -> SpecParseError {
    parse_error("the parser made no progress"@)
}

/// The message of the error for a keyword that does not start an executable
/// definition.
pub open spec fn not_executable_message(keyword: Seq<char>) -> Seq<char> {
    "unexpected keyword \""@ + keyword + "\"; only executable definitions are supported"@
}

/// The parser state: the lexer position and the current token.
pub struct PState {
    pub pos: int,
    pub cur: SpecToken,
}

/// What is left to read: twice the characters after the lexer position,
/// plus one while the current token is not the end of input.
pub open spec fn measure(s: Seq<char>, st: PState) -> nat {
    if 0 <= st.pos <= s.len() {
        (2 * (s.len() - st.pos) + if st.cur is Eof {
            0int
        } else {
            1int
        }) as nat
    } else {
        0
    }
}

/// `b` is strictly further into the input than `a`.
pub open spec fn progress(s: Seq<char>, a: PState, b: PState) -> bool {
    measure(s, b) < measure(s, a)
}

/// Replace the current token with the next one; yields the old token.
pub open spec fn bump_spec(s: Seq<char>, st: PState) -> Result<(SpecToken, PState), SpecParseError> {
    match next_token_spec(s, st.pos) {
        Ok((t, p)) => Ok((st.cur, PState { pos: p, cur: t })),
        Err(m) => Err(parse_error(m)),
    }
}

pub open spec fn peek_punct_spec(st: PState, c: char) -> bool {
    st.cur == SpecToken::Punct(c)
}

pub open spec fn expect_punct_spec(s: Seq<char>, st: PState, c: char) -> Result<PState, SpecParseError> {
    if peek_punct_spec(st, c) {
        match bump_spec(s, st) {
            Ok((_, st2)) => Ok(st2),
            Err(e) => Err(e),
        }
    } else {
        Err(parse_error("expected '"@ + seq![c] + "', found "@ + token_debug(st.cur)))
    }
}

pub open spec fn expect_name_spec(s: Seq<char>, st: PState) -> Result<(Seq<char>, PState), SpecParseError> {
    match bump_spec(s, st) {
        Ok((SpecToken::Name(n), st2)) => Ok((n, st2)),
        Ok((t, _)) => Err(parse_error("expected name, found "@ + token_debug(t))),
        Err(e) => Err(e),
    }
}

pub open spec fn expect_keyword_spec(s: Seq<char>, st: PState, kw: Seq<char>) -> Result<PState, SpecParseError> {
    if st.cur == SpecToken::Name(kw) {
        match bump_spec(s, st) {
            Ok((_, st2)) => Ok(st2),
            Err(e) => Err(e),
        }
    } else {
        Err(parse_error("expected '"@ + kw + "', found "@ + token_debug(st.cur)))
    }
}

/// A type reference: a name or a bracketed list type, optionally followed by
/// `!`.
pub open spec fn parse_type_spec(s: Seq<char>, st: PState) -> Result<(SpecType, PState), SpecParseError>
    decreases measure(s, st),
{
    let base: Result<(SpecType, PState), SpecParseError> = if peek_punct_spec(st, '[') {
        match expect_punct_spec(s, st, '[') {
            Ok(st1) => if progress(s, st, st1) {
                match parse_type_spec(s, st1) {
                    Ok((inner, st2)) => match expect_punct_spec(s, st2, ']') {
                        Ok(st3) => Ok((SpecType::List(Box::new(inner)), st3)),
                        Err(e) => Err(e),
                    },
                    Err(e) => Err(e),
                }
            } else {
                Err(stalled())
            },
            Err(e) => Err(e),
        }
    } else {
        match expect_name_spec(s, st) {
            Ok((n, st1)) => Ok((SpecType::Named(n), st1)),
            Err(e) => Err(e),
        }
    };
    match base {
        Ok((t, st1)) => if peek_punct_spec(st1, '!') {
            match expect_punct_spec(s, st1, '!') {
                Ok(st2) => Ok((SpecType::NonNull(Box::new(t)), st2)),
                Err(e) => Err(e),
            }
        } else {
            Ok((t, st1))
        },
        Err(e) => Err(e),
    }
}

/// A token that can start a value: `$`, `[`, `{`, a number, a string or a
/// name.
pub open spec fn starts_value(t: SpecToken) -> bool {
    match t {
        SpecToken::Punct(c) => c == '$' || c == '[' || c == '{',
        SpecToken::Int(_) | SpecToken::Float(_) | SpecToken::String(_) | SpecToken::Name(_) => true,
        _ => false,
    }
}

/// A value. In a constant value (a default value) a variable is an error,
/// at any depth. A token that cannot start a value is rejected before the
/// next one is read.
pub open spec fn parse_value_spec(s: Seq<char>, st: PState, constant: bool) -> Result<
    (SpecValue, PState),
    SpecParseError,
>
    decreases measure(s, st), 0nat,
{
    if constant && peek_punct_spec(st, '$') {
        Err(parse_error("variables are not allowed in default values"@))
    } else if !starts_value(st.cur) {
        Err(parse_error("unexpected value token "@ + token_debug(st.cur)))
    } else {
        match bump_spec(s, st) {
            Err(e) => Err(e),
            Ok((_, st1)) => match st.cur {
                SpecToken::Punct(c) => if c == '$' {
                    match expect_name_spec(s, st1) {
                        Ok((n, st2)) => Ok((SpecValue::Variable(n), st2)),
                        Err(e) => Err(e),
                    }
                } else if c == '[' {
                    if progress(s, st, st1) {
                        parse_list_spec(s, st1, constant, Seq::empty())
                    } else {
                        Err(stalled())
                    }
                } else if c == '{' {
                    if progress(s, st, st1) {
                        parse_object_spec(s, st1, constant, Seq::empty())
                    } else {
                        Err(stalled())
                    }
                } else {
                    Err(parse_error("unexpected value token "@ + token_debug(st.cur)))
                },
                SpecToken::Int(t) => Ok((SpecValue::Int(t), st1)),
                SpecToken::Float(t) => Ok((SpecValue::Float(t), st1)),
                SpecToken::String(t) => Ok((SpecValue::String(t), st1)),
                SpecToken::Name(n) => Ok(
                    (
                        if n == "true"@ {
                            SpecValue::Boolean(true)
                        } else if n == "false"@ {
                            SpecValue::Boolean(false)
                        } else if n == "null"@ {
                            SpecValue::Null
                        } else {
                            SpecValue::Enum(n)
                        },
                        st1,
                    ),
                ),
                _ => Err(parse_error("unexpected value token "@ + token_debug(st.cur))),
            },
        }
    }
}

/// The rest of a list literal after `[`, with `acc` read so far.
pub open spec fn parse_list_spec(s: Seq<char>, st: PState, constant: bool, acc: Seq<SpecValue>) -> Result<
    (SpecValue, PState),
    SpecParseError,
>
    decreases measure(s, st), 1nat,
{
    if peek_punct_spec(st, ']') {
        match expect_punct_spec(s, st, ']') {
            Ok(st1) => Ok((SpecValue::List(acc), st1)),
            Err(e) => Err(e),
        }
    } else {
        match parse_value_spec(s, st, constant) {
            Ok((v, st1)) => if progress(s, st, st1) {
                parse_list_spec(s, st1, constant, acc.push(v))
            } else {
                Err(stalled())
            },
            Err(e) => Err(e),
        }
    }
}

/// The rest of an object literal after `{`, with `acc` read so far.
pub open spec fn parse_object_spec(
    s: Seq<char>,
    st: PState,
    constant: bool,
    acc: Seq<(Seq<char>, SpecValue)>,
) -> Result<(SpecValue, PState), SpecParseError>
    decreases measure(s, st), 1nat,
{
    if peek_punct_spec(st, '}') {
        match expect_punct_spec(s, st, '}') {
            Ok(st1) => Ok((SpecValue::Object(acc), st1)),
            Err(e) => Err(e),
        }
    } else {
        match expect_name_spec(s, st) {
            Ok((n, st1)) => match expect_punct_spec(s, st1, ':') {
                Ok(st2) => if progress(s, st, st2) {
                    match parse_value_spec(s, st2, constant) {
                        Ok((v, st3)) => if progress(s, st, st3) {
                            parse_object_spec(s, st3, constant, acc.push((n, v)))
                        } else {
                            Err(stalled())
                        },
                        Err(e) => Err(e),
                    }
                } else {
                    Err(stalled())
                },
                Err(e) => Err(e),
            },
            Err(e) => Err(e),
        }
    }
}

/// Arguments in parentheses, or none when no `(` follows.
pub open spec fn parse_arguments_spec(s: Seq<char>, st: PState) -> Result<
    (Seq<SpecArgument>, PState),
    SpecParseError,
> {
    if !peek_punct_spec(st, '(') {
        Ok((Seq::empty(), st))
    } else {
        match expect_punct_spec(s, st, '(') {
            Ok(st1) => parse_argument_list_spec(s, st1, Seq::empty()),
            Err(e) => Err(e),
        }
    }
}

/// The rest of an argument list after `(`.
pub open spec fn parse_argument_list_spec(s: Seq<char>, st: PState, acc: Seq<SpecArgument>) -> Result<
    (Seq<SpecArgument>, PState),
    SpecParseError,
>
    decreases measure(s, st),
{
    if peek_punct_spec(st, ')') {
        match expect_punct_spec(s, st, ')') {
            Ok(st1) => Ok((acc, st1)),
            Err(e) => Err(e),
        }
    } else {
        match expect_name_spec(s, st) {
            Ok((n, st1)) => match expect_punct_spec(s, st1, ':') {
                Ok(st2) => match parse_value_spec(s, st2, false) {
                    Ok((v, st3)) => if progress(s, st, st3) {
                        parse_argument_list_spec(s, st3, acc.push(SpecArgument { name: n, value: v }))
                    } else {
                        Err(stalled())
                    },
                    Err(e) => Err(e),
                },
                Err(e) => Err(e),
            },
            Err(e) => Err(e),
        }
    }
}

/// Directives (`@name(args)`) for as long as `@` follows.
pub open spec fn parse_directives_spec(s: Seq<char>, st: PState, acc: Seq<SpecDirective>) -> Result<
    (Seq<SpecDirective>, PState),
    SpecParseError,
>
    decreases measure(s, st),
{
    if !peek_punct_spec(st, '@') {
        Ok((acc, st))
    } else {
        match expect_punct_spec(s, st, '@') {
            Ok(st1) => match expect_name_spec(s, st1) {
                Ok((n, st2)) => match parse_arguments_spec(s, st2) {
                    Ok((args, st3)) => if progress(s, st, st3) {
                        parse_directives_spec(
                            s,
                            st3,
                            acc.push(SpecDirective { name: n, arguments: args }),
                        )
                    } else {
                        Err(stalled())
                    },
                    Err(e) => Err(e),
                },
                Err(e) => Err(e),
            },
            Err(e) => Err(e),
        }
    }
}

/// An optional default value `= value`, which must be constant.
pub open spec fn parse_default_value_spec(s: Seq<char>, st: PState) -> Result<
    (Option<SpecValue>, PState),
    SpecParseError,
> {
    if peek_punct_spec(st, '=') {
        match expect_punct_spec(s, st, '=') {
            Ok(st1) => match parse_value_spec(s, st1, true) {
                Ok((v, st2)) => Ok((Some(v), st2)),
                Err(e) => Err(e),
            },
            Err(e) => Err(e),
        }
    } else {
        Ok((None, st))
    }
}

/// One variable definition `$name: Type = default @directives`.
pub open spec fn parse_variable_spec(s: Seq<char>, st: PState) -> Result<
    (SpecVariableDefinition, PState),
    SpecParseError,
> {
    match expect_punct_spec(s, st, '$') {
        Ok(st1) => match expect_name_spec(s, st1) {
            Ok((n, st2)) => match expect_punct_spec(s, st2, ':') {
                Ok(st3) => match parse_type_spec(s, st3) {
                    Ok((t, st4)) => match parse_default_value_spec(s, st4) {
                        Ok((dv, st5)) => match parse_directives_spec(s, st5, Seq::empty()) {
                            Ok((ds, st6)) => Ok(
                                (
                                    SpecVariableDefinition {
                                        name: n,
                                        ty: t,
                                        default_value: dv,
                                        directives: ds,
                                    },
                                    st6,
                                ),
                            ),
                            Err(e) => Err(e),
                        },
                        Err(e) => Err(e),
                    },
                    Err(e) => Err(e),
                },
                Err(e) => Err(e),
            },
            Err(e) => Err(e),
        },
        Err(e) => Err(e),
    }
}

/// The rest of a variable definition list after `(`.
pub open spec fn parse_variable_list_spec(
    s: Seq<char>,
    st: PState,
    acc: Seq<SpecVariableDefinition>,
) -> Result<(Seq<SpecVariableDefinition>, PState), SpecParseError>
    decreases measure(s, st),
{
    if peek_punct_spec(st, ')') {
        match expect_punct_spec(s, st, ')') {
            Ok(st1) => Ok((acc, st1)),
            Err(e) => Err(e),
        }
    } else {
        match parse_variable_spec(s, st) {
            Ok((v, st1)) => if progress(s, st, st1) {
                parse_variable_list_spec(s, st1, acc.push(v))
            } else {
                Err(stalled())
            },
            Err(e) => Err(e),
        }
    }
}

/// Variable definitions in parentheses, or none when no `(` follows.
pub open spec fn parse_variable_definitions_spec(s: Seq<char>, st: PState) -> Result<
    (Seq<SpecVariableDefinition>, PState),
    SpecParseError,
> {
    if !peek_punct_spec(st, '(') {
        Ok((Seq::empty(), st))
    } else {
        match expect_punct_spec(s, st, '(') {
            Ok(st1) => parse_variable_list_spec(s, st1, Seq::empty()),
            Err(e) => Err(e),
        }
    }
}

/// A selection set in braces, with at least one selection.
pub open spec fn parse_selection_set_spec(s: Seq<char>, st: PState) -> Result<
    (SpecSelectionSet, PState),
    SpecParseError,
>
    decreases measure(s, st), 2nat,
{
    match expect_punct_spec(s, st, '{') {
        Ok(st1) => if peek_punct_spec(st1, '}') {
            Err(parse_error("empty selection set"@))
        } else if progress(s, st, st1) {
            parse_selection_list_spec(s, st1, Seq::empty())
        } else {
            Err(stalled())
        },
        Err(e) => Err(e),
    }
}

/// The rest of a selection set after `{`.
pub open spec fn parse_selection_list_spec(s: Seq<char>, st: PState, acc: Seq<SpecSelection>) -> Result<
    (SpecSelectionSet, PState),
    SpecParseError,
>
    decreases measure(s, st), 1nat,
{
    if peek_punct_spec(st, '}') {
        match expect_punct_spec(s, st, '}') {
            Ok(st1) => Ok((SpecSelectionSet { selections: acc }, st1)),
            Err(e) => Err(e),
        }
    } else {
        match parse_selection_spec(s, st) {
            Ok((x, st1)) => if progress(s, st, st1) {
                parse_selection_list_spec(s, st1, acc.push(x))
            } else {
                Err(stalled())
            },
            Err(e) => Err(e),
        }
    }
}

/// The alias and name of a field: `alias: name` or `name`.
pub open spec fn parse_field_name_spec(s: Seq<char>, st: PState) -> Result<
    (Option<Seq<char>>, Seq<char>, PState),
    SpecParseError,
> {
    match expect_name_spec(s, st) {
        Ok((first, st1)) => if peek_punct_spec(st1, ':') {
            match expect_punct_spec(s, st1, ':') {
                Ok(st2) => match expect_name_spec(s, st2) {
                    Ok((name, st3)) => Ok((Some(first), name, st3)),
                    Err(e) => Err(e),
                },
                Err(e) => Err(e),
            }
        } else {
            Ok((None, first, st1))
        },
        Err(e) => Err(e),
    }
}

/// A selection: a field, a fragment spread (`...Name`), or an inline
/// fragment (`... on Type` or a bare `...`, then directives and a selection
/// set).
pub open spec fn parse_selection_spec(s: Seq<char>, st: PState) -> Result<
    (SpecSelection, PState),
    SpecParseError,
>
    decreases measure(s, st), 0nat,
{
    if st.cur == SpecToken::Spread {
        match bump_spec(s, st) {
            Ok((_, st1)) => if st1.cur is Name && st1.cur->Name_0 == "on"@ {
                match bump_spec(s, st1) {
                    Ok((_, st2)) => match expect_name_spec(s, st2) {
                        Ok((tc, st3)) => match parse_directives_spec(s, st3, Seq::empty()) {
                            Ok((ds, st4)) => if progress(s, st, st4) {
                                match parse_selection_set_spec(s, st4) {
                                    Ok((set, st5)) => Ok(
                                        (
                                            SpecSelection::InlineFragment(
                                                SpecInlineFragment {
                                                    type_condition: Some(tc),
                                                    directives: ds,
                                                    selection_set: set,
                                                },
                                            ),
                                            st5,
                                        ),
                                    ),
                                    Err(e) => Err(e),
                                }
                            } else {
                                Err(stalled())
                            },
                            Err(e) => Err(e),
                        },
                        Err(e) => Err(e),
                    },
                    Err(e) => Err(e),
                }
            } else if st1.cur is Name {
                match expect_name_spec(s, st1) {
                    Ok((name, st2)) => match parse_directives_spec(s, st2, Seq::empty()) {
                        Ok((ds, st3)) => Ok(
                            (
                                SpecSelection::FragmentSpread(
                                    SpecFragmentSpread { fragment_name: name, directives: ds },
                                ),
                                st3,
                            ),
                        ),
                        Err(e) => Err(e),
                    },
                    Err(e) => Err(e),
                }
            } else {
                match parse_directives_spec(s, st1, Seq::empty()) {
                    Ok((ds, st2)) => if progress(s, st, st2) {
                        match parse_selection_set_spec(s, st2) {
                            Ok((set, st3)) => Ok(
                                (
                                    SpecSelection::InlineFragment(
                                        SpecInlineFragment {
                                            type_condition: None,
                                            directives: ds,
                                            selection_set: set,
                                        },
                                    ),
                                    st3,
                                ),
                            ),
                            Err(e) => Err(e),
                        }
                    } else {
                        Err(stalled())
                    },
                    Err(e) => Err(e),
                }
            },
            Err(e) => Err(e),
        }
    } else {
        match parse_field_name_spec(s, st) {
            Ok((alias, name, st1)) => match parse_arguments_spec(s, st1) {
                Ok((args, st2)) => match parse_directives_spec(s, st2, Seq::empty()) {
                    Ok((ds, st3)) => if !peek_punct_spec(st3, '{') {
                        Ok(
                            (
                                SpecSelection::Field(
                                    SpecField {
                                        alias,
                                        name,
                                        arguments: args,
                                        directives: ds,
                                        selection_set: None,
                                    },
                                ),
                                st3,
                            ),
                        )
                    } else if progress(s, st, st3) {
                        match parse_selection_set_spec(s, st3) {
                            Ok((set, st4)) => Ok(
                                (
                                    SpecSelection::Field(
                                        SpecField {
                                            alias,
                                            name,
                                            arguments: args,
                                            directives: ds,
                                            selection_set: Some(set),
                                        },
                                    ),
                                    st4,
                                ),
                            ),
                            Err(e) => Err(e),
                        }
                    } else {
                        Err(stalled())
                    },
                    Err(e) => Err(e),
                },
                Err(e) => Err(e),
            },
            Err(e) => Err(e),
        }
    }
}

/// An operation after its keyword (the current token): an optional name,
/// variable definitions, directives and a selection set.
pub open spec fn parse_operation_spec(s: Seq<char>, st: PState, operation: OperationType) -> Result<
    (SpecOperation, PState),
    SpecParseError,
> {
    match bump_spec(s, st) {
        Ok((_, st1)) => {
            let named: Result<(Option<Seq<char>>, PState), SpecParseError> = if st1.cur is Name {
                match expect_name_spec(s, st1) {
                    Ok((n, st2)) => Ok((Some(n), st2)),
                    Err(e) => Err(e),
                }
            } else {
                Ok((None, st1))
            };
            match named {
                Ok((name, st2)) => match parse_variable_definitions_spec(s, st2) {
                    Ok((vs, st3)) => match parse_directives_spec(s, st3, Seq::empty()) {
                        Ok((ds, st4)) => match parse_selection_set_spec(s, st4) {
                            Ok((set, st5)) => Ok(
                                (
                                    SpecOperation {
                                        operation,
                                        name,
                                        variable_definitions: vs,
                                        directives: ds,
                                        selection_set: set,
                                    },
                                    st5,
                                ),
                            ),
                            Err(e) => Err(e),
                        },
                        Err(e) => Err(e),
                    },
                    Err(e) => Err(e),
                },
                Err(e) => Err(e),
            }
        },
        Err(e) => Err(e),
    }
}

/// A fragment definition after `fragment` (the current token). A fragment
/// may not be named `on`.
pub open spec fn parse_fragment_spec(s: Seq<char>, st: PState) -> Result<(SpecFragment, PState), SpecParseError> {
    match bump_spec(s, st) {
        Ok((_, st1)) => match expect_name_spec(s, st1) {
            Ok((name, st2)) => if name == "on"@ {
                Err(parse_error("a fragment cannot be named 'on'"@))
            } else {
                match parse_variable_definitions_spec(s, st2) {
                    Ok((vs, st3)) => match expect_keyword_spec(s, st3, "on"@) {
                        Ok(st4) => match expect_name_spec(s, st4) {
                            Ok((tc, st5)) => match parse_directives_spec(s, st5, Seq::empty()) {
                                Ok((ds, st6)) => match parse_selection_set_spec(s, st6) {
                                    Ok((set, st7)) => Ok(
                                        (
                                            SpecFragment {
                                                name,
                                                variable_definitions: vs,
                                                type_condition: tc,
                                                directives: ds,
                                                selection_set: set,
                                            },
                                            st7,
                                        ),
                                    ),
                                    Err(e) => Err(e),
                                },
                                Err(e) => Err(e),
                            },
                            Err(e) => Err(e),
                        },
                        Err(e) => Err(e),
                    },
                    Err(e) => Err(e),
                }
            },
            Err(e) => Err(e),
        },
        Err(e) => Err(e),
    }
}

/// A definition: a shorthand query (`{ ... }`), an operation introduced by
/// `query`, `mutation` or `subscription`, or a fragment. Any other keyword is
/// rejected: only executable definitions are supported.
pub open spec fn parse_definition_spec(s: Seq<char>, st: PState) -> Result<(SpecDefinition, PState), SpecParseError> {
    match st.cur {
        SpecToken::Punct(c) => if c == '{' {
            match parse_selection_set_spec(s, st) {
                Ok((set, st1)) => Ok(
                    (
                        SpecDefinition::Operation(
                            SpecOperation {
                                operation: OperationType::Query,
                                name: None,
                                variable_definitions: Seq::empty(),
                                directives: Seq::empty(),
                                selection_set: set,
                            },
                        ),
                        st1,
                    ),
                ),
                Err(e) => Err(e),
            }
        } else {
            Err(parse_error("unexpected token "@ + token_debug(st.cur) + " at definition"@))
        },
        SpecToken::Name(n) => {
            let op = if n == "query"@ {
                Some(OperationType::Query)
            } else if n == "mutation"@ {
                Some(OperationType::Mutation)
            } else if n == "subscription"@ {
                Some(OperationType::Subscription)
            } else {
                None
            };
            match op {
                Some(o) => match parse_operation_spec(s, st, o) {
                    Ok((d, st1)) => Ok((SpecDefinition::Operation(d), st1)),
                    Err(e) => Err(e),
                },
                None => if n == "fragment"@ {
                    match parse_fragment_spec(s, st) {
                        Ok((d, st1)) => Ok((SpecDefinition::Fragment(d), st1)),
                        Err(e) => Err(e),
                    }
                } else {
                    Err(parse_error(not_executable_message(n)))
                },
            }
        },
        _ => Err(parse_error("unexpected token "@ + token_debug(st.cur) + " at definition"@)),
    }
}

/// Definitions up to the end of input; at least one is required.
pub open spec fn parse_definition_list_spec(s: Seq<char>, st: PState, acc: Seq<SpecDefinition>) -> Result<
    SpecDocument,
    SpecParseError,
>
    decreases measure(s, st),
{
    if st.cur is Eof {
        if acc.len() == 0 {
            Err(parse_error("document has no definitions"@))
        } else {
            Ok(SpecDocument { definitions: acc })
        }
    } else {
        match parse_definition_spec(s, st) {
            Ok((d, st1)) => if progress(s, st, st1) {
                parse_definition_list_spec(s, st1, acc.push(d))
            } else {
                Err(stalled())
            },
            Err(e) => Err(e),
        }
    }
}

/// The state before parsing: the first token of the source. When the first
/// token cannot be read, the parser starts at the end of input.
pub open spec fn initial_state(s: Seq<char>) -> PState {
    match next_token_spec(s, 0) {
        Ok((t, p)) => PState { pos: p, cur: t },
        Err(_) => PState { pos: 0, cur: SpecToken::Eof },
    }
}

/// The document that `s` parses to, or an error.
pub open spec fn parse_document_spec(s: Seq<char>) -> Result<SpecDocument, SpecParseError> {
    parse_definition_list_spec(s, initial_state(s), Seq::empty())
}

// ---------------------------------------------------------------------------
// Executable parser
// ---------------------------------------------------------------------------

/// `err` is the error that `e` describes: it carries the message of `e`.
pub open spec fn error_matches(e: SpecParseError, err: ParseError) -> bool {
    err@ == e.message
}

/// The outcome of a parse step that yields a value with a view.
pub open spec fn parsed<T: View>(
    expected: Result<(T::V, PState), SpecParseError>,
    r: Result<T, ParseError>,
    after: PState,
) -> bool {
    match expected {
        Ok((v, st)) => r is Ok && r->Ok_0@ == v && after == st,
        Err(e) => r is Err && error_matches(e, r->Err_0),
    }
}

/// The outcome of a parse step that yields only a new state.
pub open spec fn parsed_unit(
    expected: Result<PState, SpecParseError>,
    r: Result<(), ParseError>,
    after: PState,
) -> bool {
    match expected {
        Ok(st) => r is Ok && after == st,
        Err(e) => r is Err && error_matches(e, r->Err_0),
    }
}

/// Whether `a` equals the string `b`.
fn str_eq(a: &String, b: &str) -> (r: bool)
    ensures
        r == (a@ == b@),
{
    let t = String::from_str(b);
    *a == t
}

/// The parser: the lexer and the current token.
struct Parser {
    lexer: Lexer,
    current: Token,
}

impl Parser {
    spec fn src(&self) -> Seq<char> {
        self.lexer.chars@
    }

    spec fn state(&self) -> PState {
        PState { pos: self.lexer.pos as int, cur: self.current@ }
    }

    spec fn wf(&self) -> bool {
        self.lexer.wf()
    }

    /// The same source, well-formed.
    spec fn continues(&self, before: Parser) -> bool {
        &&& self.wf()
        &&& self.lexer.chars == before.lexer.chars
    }

    fn new(src: &str) -> (r: Parser)
        ensures
            r.wf(),
            r.src() == src@,
            r.state() == initial_state(src@),
    {
        let mut lexer = Lexer::new(src);
        let current = match lexer.next_token() {
            Ok(t) => t,
            Err(_) => {
                // An unreadable first token leaves nothing to parse.
                lexer.pos = 0;
                Token::Eof
            },
        };
        Parser { lexer, current }
    }

    fn bump(&mut self) -> (r: Result<Token, ParseError>)
        requires
            old(self).wf(),
        ensures
            final(self).continues(*old(self)),
            parsed(bump_spec(old(self).src(), old(self).state()), r, final(self).state()),
            r is Ok ==> measure(old(self).src(), final(self).state()) <= measure(
                old(self).src(),
                old(self).state(),
            ),
            r is Ok && !(old(self).current@ is Eof) ==> progress(
                old(self).src(),
                old(self).state(),
                final(self).state(),
            ),
    {
        let mut next = self.lexer.next_token()?;
        std::mem::swap(&mut self.current, &mut next);
        Ok(next)
    }

    fn peek_punct(&self, c: char) -> (r: bool)
        ensures
            r == peek_punct_spec(self.state(), c),
    {
        match &self.current {
            Token::Punct(p) => *p == c,
            _ => false,
        }
    }

    fn current_is_eof(&self) -> (r: bool)
        ensures
            r == (self.current@ is Eof),
    {
        match &self.current {
            Token::Eof => true,
            _ => false,
        }
    }

    fn current_is_name(&self) -> (r: bool)
        ensures
            r == (self.current@ is Name),
    {
        match &self.current {
            Token::Name(_) => true,
            _ => false,
        }
    }

    fn current_is_keyword(&self, kw: &str) -> (r: bool)
        ensures
            r == (self.current@ == SpecToken::Name(kw@)),
    {
        match &self.current {
            Token::Name(n) => str_eq(n, kw),
            _ => false,
        }
    }

    fn expect_punct(&mut self, c: char) -> (r: Result<(), ParseError>)
        requires
            old(self).wf(),
        ensures
            final(self).continues(*old(self)),
            parsed_unit(expect_punct_spec(old(self).src(), old(self).state(), c), r, final(self).state()),
            r is Ok ==> progress(old(self).src(), old(self).state(), final(self).state()),
    {
        if self.peek_punct(c) {
            self.bump()?;
            Ok(())
        } else {
            let mut message = String::from_str("expected '");
            message.push(c);
            assert(message@ =~= "expected '"@ + seq![c]);
            message.append("', found ");
            message.append(token_debug_text(&self.current).as_str());
            Err(ParseError { message })
        }
    }

    fn expect_name(&mut self) -> (r: Result<String, ParseError>)
        requires
            old(self).wf(),
        ensures
            final(self).continues(*old(self)),
            match expect_name_spec(old(self).src(), old(self).state()) {
                Ok((n, st)) => r is Ok && r->Ok_0@ == n && final(self).state() == st,
                Err(e) => r is Err && error_matches(e, r->Err_0),
            },
            r is Ok ==> progress(old(self).src(), old(self).state(), final(self).state()),
    {
        match self.bump()? {
            Token::Name(n) => Ok(n),
            other => {
                let mut message = String::from_str("expected name, found ");
                message.append(token_debug_text(&other).as_str());
                Err(ParseError { message })
            },
        }
    }

    fn expect_keyword(&mut self, kw: &str) -> (r: Result<(), ParseError>)
        requires
            old(self).wf(),
        ensures
            final(self).continues(*old(self)),
            parsed_unit(
                expect_keyword_spec(old(self).src(), old(self).state(), kw@),
                r,
                final(self).state(),
            ),
            r is Ok ==> progress(old(self).src(), old(self).state(), final(self).state()),
    {
        if self.current_is_keyword(kw) {
            self.bump()?;
            Ok(())
        } else {
            let mut message = String::from_str("expected '");
            message.append(kw);
            message.append("', found ");
            message.append(token_debug_text(&self.current).as_str());
            Err(ParseError { message })
        }
    }

    fn parse_type(&mut self) -> (r: Result<Type, ParseError>)
        requires
            old(self).wf(),
        ensures
            final(self).continues(*old(self)),
            parsed(parse_type_spec(old(self).src(), old(self).state()), r, final(self).state()),
            r is Ok ==> progress(old(self).src(), old(self).state(), final(self).state()),
        decreases measure(self.src(), self.state()),
    {
        let ty = if self.peek_punct('[') {
            self.expect_punct('[')?;
            let inner = self.parse_type()?;
            self.expect_punct(']')?;
            let t = Type::List(Box::new(inner));
            assert(t@ == SpecType::List(Box::new(inner@)));
            t
        } else {
            Type::Named(self.expect_name()?)
        };
        if self.peek_punct('!') {
            self.expect_punct('!')?;
            let t = Type::NonNull(Box::new(ty));
            assert(t@ == SpecType::NonNull(Box::new(ty@)));
            Ok(t)
        } else {
            Ok(ty)
        }
    }

    /// A value; in a constant value, variables are rejected at any depth.
    fn parse_value(&mut self, constant: bool) -> (r: Result<Value, ParseError>)
        requires
            old(self).wf(),
        ensures
            final(self).continues(*old(self)),
            parsed(parse_value_spec(old(self).src(), old(self).state(), constant), r, final(self).state()),
            r is Ok ==> progress(old(self).src(), old(self).state(), final(self).state()),
        decreases measure(self.src(), self.state()), 0nat,
    {
        let ghost s = self.src();
        let ghost st0 = self.state();
        if self.peek_punct('$') {
            if constant {
                return Err(ParseError::new("variables are not allowed in default values"));
            }
            self.bump()?;
            let name = self.expect_name()?;
            return Ok(Value::Variable(name));
        }
        if self.peek_punct('[') {
            self.bump()?;
            let ghost target = parse_list_spec(s, self.state(), constant, Seq::empty());
            let mut items: Vec<Value> = Vec::new();
            assert(values_view(items@) =~= Seq::<SpecValue>::empty());
            while !self.peek_punct(']')
                invariant
                    self.wf(),
                    self.src() == s,
                    self.lexer.chars == old(self).lexer.chars,
                    s == old(self).src(),
                    st0 == old(self).state(),
                    progress(s, st0, self.state()),
                    parse_value_spec(s, st0, constant) == target,
                    parse_list_spec(s, self.state(), constant, values_view(items@)) == target,
                decreases measure(s, self.state()),
            {
                let ghost before = items@;
                let v = self.parse_value(constant)?;
                items.push(v);
                assert(values_view(items@) =~= values_view(before).push(v@));
            }
            self.expect_punct(']')?;
            return Ok(Value::List(items));
        }
        if self.peek_punct('{') {
            self.bump()?;
            let ghost target = parse_object_spec(s, self.state(), constant, Seq::empty());
            let mut fields: Vec<(String, Value)> = Vec::new();
            assert(object_fields_view(fields@) =~= Seq::<(Seq<char>, SpecValue)>::empty());
            while !self.peek_punct('}')
                invariant
                    self.wf(),
                    self.src() == s,
                    self.lexer.chars == old(self).lexer.chars,
                    s == old(self).src(),
                    st0 == old(self).state(),
                    progress(s, st0, self.state()),
                    parse_value_spec(s, st0, constant) == target,
                    parse_object_spec(s, self.state(), constant, object_fields_view(fields@))
                        == target,
                decreases measure(s, self.state()),
            {
                let ghost before = fields@;
                let name = self.expect_name()?;
                self.expect_punct(':')?;
                let v = self.parse_value(constant)?;
                let ghost nv = name@;
                fields.push((name, v));
                assert(object_fields_view(fields@) =~= object_fields_view(before).push((nv, v@)));
            }
            self.expect_punct('}')?;
            return Ok(Value::Object(fields));
        }
        match &self.current {
            Token::Int(_) | Token::Float(_) | Token::String(_) | Token::Name(_) => {},
            other => {
                let mut message = String::from_str("unexpected value token ");
                message.append(token_debug_text(other).as_str());
                return Err(ParseError { message });
            },
        }
        let tok = self.bump()?;
        match tok {
            Token::Int(text) => Ok(Value::Int(text)),
            Token::Float(text) => Ok(Value::Float(text)),
            Token::String(text) => Ok(Value::String(text)),
            Token::Name(n) => {
                if str_eq(&n, "true") {
                    Ok(Value::Boolean(true))
                } else if str_eq(&n, "false") {
                    Ok(Value::Boolean(false))
                } else if str_eq(&n, "null") {
                    Ok(Value::Null)
                } else {
                    Ok(Value::Enum(n))
                }
            },
            other => {
                let mut message = String::from_str("unexpected value token ");
                message.append(token_debug_text(&other).as_str());
                Err(ParseError { message })
            },
        }
    }

    /// Arguments in parentheses, or none when no `(` follows.
    fn parse_arguments(&mut self) -> (r: Result<Vec<Argument>, ParseError>)
        requires
            old(self).wf(),
        ensures
            final(self).continues(*old(self)),
            match parse_arguments_spec(old(self).src(), old(self).state()) {
                Ok((args, st)) => r is Ok && arguments_view(r->Ok_0@) == args && final(self).state()
                    == st,
                Err(e) => r is Err && error_matches(e, r->Err_0),
            },
            r is Ok ==> measure(old(self).src(), final(self).state()) <= measure(
                old(self).src(),
                old(self).state(),
            ),
    {
        let ghost s = self.src();
        let ghost st0 = self.state();
        let mut args: Vec<Argument> = Vec::new();
        if !self.peek_punct('(') {
            assert(arguments_view(args@) =~= Seq::<SpecArgument>::empty());
            return Ok(args);
        }
        self.expect_punct('(')?;
        let ghost target = parse_argument_list_spec(s, self.state(), Seq::empty());
        assert(arguments_view(args@) =~= Seq::<SpecArgument>::empty());
        while !self.peek_punct(')')
            invariant
                self.wf(),
                self.src() == s,
                self.lexer.chars == old(self).lexer.chars,
                s == old(self).src(),
                st0 == old(self).state(),
                progress(s, st0, self.state()),
                parse_arguments_spec(s, st0) == target,
                parse_argument_list_spec(s, self.state(), arguments_view(args@)) == target,
            decreases measure(s, self.state()),
        {
            let ghost before = args@;
            let name = self.expect_name()?;
            self.expect_punct(':')?;
            let value = self.parse_value(false)?;
            let arg = Argument { name, value };
            let ghost av = arg@;
            args.push(arg);
            assert(arguments_view(args@) =~= arguments_view(before).push(av));
        }
        self.expect_punct(')')?;
        Ok(args)
    }

    /// Directives for as long as `@` follows.
    fn parse_directives(&mut self) -> (r: Result<Vec<Directive>, ParseError>)
        requires
            old(self).wf(),
        ensures
            final(self).continues(*old(self)),
            match parse_directives_spec(old(self).src(), old(self).state(), Seq::empty()) {
                Ok((ds, st)) => r is Ok && directives_view(r->Ok_0@) == ds && final(self).state()
                    == st,
                Err(e) => r is Err && error_matches(e, r->Err_0),
            },
            r is Ok ==> measure(old(self).src(), final(self).state()) <= measure(
                old(self).src(),
                old(self).state(),
            ),
    {
        let ghost s = self.src();
        let ghost st0 = self.state();
        let ghost target = parse_directives_spec(s, st0, Seq::empty());
        let mut directives: Vec<Directive> = Vec::new();
        assert(directives_view(directives@) =~= Seq::<SpecDirective>::empty());
        while self.peek_punct('@')
            invariant
                self.wf(),
                self.src() == s,
                self.lexer.chars == old(self).lexer.chars,
                s == old(self).src(),
                st0 == old(self).state(),
                measure(s, self.state()) <= measure(s, st0),
                target == parse_directives_spec(s, st0, Seq::empty()),
                parse_directives_spec(s, self.state(), directives_view(directives@)) == target,
            decreases measure(s, self.state()),
        {
            let ghost before = directives@;
            self.expect_punct('@')?;
            let name = self.expect_name()?;
            let arguments = self.parse_arguments()?;
            let d = Directive { name, arguments };
            let ghost dv = d@;
            directives.push(d);
            assert(directives_view(directives@) =~= directives_view(before).push(dv));
        }
        Ok(directives)
    }

    /// An optional default value; variables are not allowed in it.
    fn parse_default_value(&mut self) -> (r: Result<Option<Value>, ParseError>)
        requires
            old(self).wf(),
        ensures
            final(self).continues(*old(self)),
            match parse_default_value_spec(old(self).src(), old(self).state()) {
                Ok((dv, st)) => r is Ok && final(self).state() == st && match r->Ok_0 {
                    Some(v) => dv == Some(v@),
                    None => dv is None,
                },
                Err(e) => r is Err && error_matches(e, r->Err_0),
            },
            r is Ok ==> measure(old(self).src(), final(self).state()) <= measure(
                old(self).src(),
                old(self).state(),
            ),
    {
        if self.peek_punct('=') {
            self.expect_punct('=')?;
            let v = self.parse_value(true)?;
            Ok(Some(v))
        } else {
            Ok(None)
        }
    }

    /// One variable definition. Its directives are kept in source order.
    fn parse_variable_definition(&mut self) -> (r: Result<VariableDefinition, ParseError>)
        requires
            old(self).wf(),
        ensures
            final(self).continues(*old(self)),
            parsed(parse_variable_spec(old(self).src(), old(self).state()), r, final(self).state()),
            r is Ok ==> progress(old(self).src(), old(self).state(), final(self).state()),
    {
        self.expect_punct('$')?;
        let name = self.expect_name()?;
        self.expect_punct(':')?;
        let ty = self.parse_type()?;
        let default_value = self.parse_default_value()?;
        let directives = self.parse_directives()?;
        Ok(VariableDefinition { name, ty, default_value, directives })
    }

    /// Variable definitions in parentheses, or none when no `(` follows.
    fn parse_variable_definitions(&mut self) -> (r: Result<Vec<VariableDefinition>, ParseError>)
        requires
            old(self).wf(),
        ensures
            final(self).continues(*old(self)),
            match parse_variable_definitions_spec(old(self).src(), old(self).state()) {
                Ok((vs, st)) => r is Ok && variables_view(r->Ok_0@) == vs && final(self).state()
                    == st,
                Err(e) => r is Err && error_matches(e, r->Err_0),
            },
            r is Ok ==> measure(old(self).src(), final(self).state()) <= measure(
                old(self).src(),
                old(self).state(),
            ),
    {
        let ghost s = self.src();
        let ghost st0 = self.state();
        let mut defs: Vec<VariableDefinition> = Vec::new();
        assert(variables_view(defs@) =~= Seq::<SpecVariableDefinition>::empty());
        if !self.peek_punct('(') {
            return Ok(defs);
        }
        self.expect_punct('(')?;
        let ghost target = parse_variable_list_spec(s, self.state(), Seq::empty());
        while !self.peek_punct(')')
            invariant
                self.wf(),
                self.src() == s,
                self.lexer.chars == old(self).lexer.chars,
                s == old(self).src(),
                st0 == old(self).state(),
                progress(s, st0, self.state()),
                parse_variable_definitions_spec(s, st0) == target,
                parse_variable_list_spec(s, self.state(), variables_view(defs@)) == target,
            decreases measure(s, self.state()),
        {
            let ghost before = defs@;
            let def = self.parse_variable_definition()?;
            let ghost dv = def@;
            defs.push(def);
            assert(variables_view(defs@) =~= variables_view(before).push(dv));
        }
        self.expect_punct(')')?;
        Ok(defs)
    }

    /// A selection set in braces, with at least one selection.
    fn parse_selection_set(&mut self) -> (r: Result<SelectionSet, ParseError>)
        requires
            old(self).wf(),
        ensures
            final(self).continues(*old(self)),
            parsed(parse_selection_set_spec(old(self).src(), old(self).state()), r, final(self).state()),
            r is Ok ==> progress(old(self).src(), old(self).state(), final(self).state()),
        decreases measure(self.src(), self.state()), 2nat,
    {
        let ghost s = self.src();
        let ghost st0 = self.state();
        self.expect_punct('{')?;
        if self.peek_punct('}') {
            return Err(ParseError::new("empty selection set"));
        }
        let ghost target = parse_selection_list_spec(s, self.state(), Seq::empty());
        let mut selections: Vec<Selection> = Vec::new();
        assert(selections_view(selections@) =~= Seq::<SpecSelection>::empty());
        while !self.peek_punct('}')
            invariant
                self.wf(),
                self.src() == s,
                self.lexer.chars == old(self).lexer.chars,
                s == old(self).src(),
                st0 == old(self).state(),
                progress(s, st0, self.state()),
                parse_selection_set_spec(s, st0) == target,
                parse_selection_list_spec(s, self.state(), selections_view(selections@)) == target,
            decreases measure(s, self.state()),
        {
            let ghost before = selections@;
            let x = self.parse_selection()?;
            let ghost xv = x@;
            selections.push(x);
            assert(selections_view(selections@) =~= selections_view(before).push(xv));
        }
        self.expect_punct('}')?;
        Ok(SelectionSet { selections })
    }

    /// The alias and name of a field.
    fn parse_field_name(&mut self) -> (r: Result<(Option<String>, String), ParseError>)
        requires
            old(self).wf(),
        ensures
            final(self).continues(*old(self)),
            match parse_field_name_spec(old(self).src(), old(self).state()) {
                Ok((alias, name, st)) => r is Ok && final(self).state() == st && r->Ok_0.1@ == name
                    && match r->Ok_0.0 {
                    Some(a) => alias == Some(a@),
                    None => alias is None,
                },
                Err(e) => r is Err && error_matches(e, r->Err_0),
            },
            r is Ok ==> progress(old(self).src(), old(self).state(), final(self).state()),
    {
        let first = self.expect_name()?;
        if self.peek_punct(':') {
            self.expect_punct(':')?;
            let name = self.expect_name()?;
            Ok((Some(first), name))
        } else {
            Ok((None, first))
        }
    }

    /// A field, a fragment spread, or an inline fragment.
    fn parse_selection(&mut self) -> (r: Result<Selection, ParseError>)
        requires
            old(self).wf(),
        ensures
            final(self).continues(*old(self)),
            parsed(parse_selection_spec(old(self).src(), old(self).state()), r, final(self).state()),
            r is Ok ==> progress(old(self).src(), old(self).state(), final(self).state()),
        decreases measure(self.src(), self.state()), 0nat,
    {
        let is_spread = match &self.current {
            Token::Spread => true,
            _ => false,
        };
        if is_spread {
            self.bump()?;
            // A spread is `...Name`, `... on Type`, or `...` followed by
            // directives and a selection set.
            if self.current_is_keyword("on") {
                self.bump()?;
                let type_condition = self.expect_name()?;
                let directives = self.parse_directives()?;
                let selection_set = self.parse_selection_set()?;
                return Ok(
                    Selection::InlineFragment(
                        InlineFragment {
                            type_condition: Some(type_condition),
                            directives,
                            selection_set,
                        },
                    ),
                );
            }
            if self.current_is_name() {
                let fragment_name = self.expect_name()?;
                let directives = self.parse_directives()?;
                return Ok(Selection::FragmentSpread(FragmentSpread { fragment_name, directives }));
            }
            let directives = self.parse_directives()?;
            let selection_set = self.parse_selection_set()?;
            return Ok(
                Selection::InlineFragment(
                    InlineFragment { type_condition: None, directives, selection_set },
                ),
            );
        }
        let (alias, name) = self.parse_field_name()?;
        let arguments = self.parse_arguments()?;
        let directives = self.parse_directives()?;
        let selection_set = if self.peek_punct('{') {
            Some(self.parse_selection_set()?)
        } else {
            None
        };
        Ok(Selection::Field(Field { alias, name, arguments, directives, selection_set }))
    }

    /// A shorthand query: a bare selection set.
    fn parse_shorthand_operation(&mut self) -> (r: Result<OperationDefinition, ParseError>)
        requires
            old(self).wf(),
        ensures
            final(self).continues(*old(self)),
            match parse_selection_set_spec(old(self).src(), old(self).state()) {
                Ok((set, st)) => r is Ok && final(self).state() == st && r->Ok_0@ == SpecOperation {
                    operation: OperationType::Query,
                    name: None,
                    variable_definitions: Seq::empty(),
                    directives: Seq::empty(),
                    selection_set: set,
                },
                Err(e) => r is Err && error_matches(e, r->Err_0),
            },
            r is Ok ==> progress(old(self).src(), old(self).state(), final(self).state()),
    {
        let selection_set = self.parse_selection_set()?;
        let r = OperationDefinition {
            operation: OperationType::Query,
            name: None,
            variable_definitions: Vec::new(),
            directives: Vec::new(),
            selection_set,
        };
        assert(r@.variable_definitions =~= Seq::<SpecVariableDefinition>::empty());
        assert(r@.directives =~= Seq::<SpecDirective>::empty());
        Ok(r)
    }

    /// An operation whose keyword is the current token.
    fn parse_operation(&mut self, operation: OperationType) -> (r: Result<OperationDefinition, ParseError>)
        requires
            old(self).wf(),
            old(self).current@ is Name,
        ensures
            final(self).continues(*old(self)),
            parsed(parse_operation_spec(old(self).src(), old(self).state(), operation), r, final(self).state()),
            r is Ok ==> progress(old(self).src(), old(self).state(), final(self).state()),
    {
        self.bump()?;
        let name = if self.current_is_name() {
            Some(self.expect_name()?)
        } else {
            None
        };
        let variable_definitions = self.parse_variable_definitions()?;
        let directives = self.parse_directives()?;
        let selection_set = self.parse_selection_set()?;
        Ok(OperationDefinition { operation, name, variable_definitions, directives, selection_set })
    }

    /// A fragment definition whose keyword is the current token.
    fn parse_fragment_definition(&mut self) -> (r: Result<FragmentDefinition, ParseError>)
        requires
            old(self).wf(),
            old(self).current@ is Name,
        ensures
            final(self).continues(*old(self)),
            parsed(parse_fragment_spec(old(self).src(), old(self).state()), r, final(self).state()),
            r is Ok ==> progress(old(self).src(), old(self).state(), final(self).state()),
    {
        self.bump()?;
        let name = self.expect_name()?;
        if str_eq(&name, "on") {
            return Err(ParseError::new("a fragment cannot be named 'on'"));
        }
        let variable_definitions = self.parse_variable_definitions()?;
        self.expect_keyword("on")?;
        let type_condition = self.expect_name()?;
        let directives = self.parse_directives()?;
        let selection_set = self.parse_selection_set()?;
        Ok(
            FragmentDefinition {
                name,
                variable_definitions,
                type_condition,
                directives,
                selection_set,
            },
        )
    }

    /// A definition: an operation or a fragment. Type-system definitions are
    /// rejected.
    fn parse_definition(&mut self) -> (r: Result<Definition, ParseError>)
        requires
            old(self).wf(),
        ensures
            final(self).continues(*old(self)),
            parsed(parse_definition_spec(old(self).src(), old(self).state()), r, final(self).state()),
            r is Ok ==> progress(old(self).src(), old(self).state(), final(self).state()),
    {
        if self.peek_punct('{') {
            return Ok(Definition::Operation(self.parse_shorthand_operation()?));
        }
        match &self.current {
            Token::Name(n) => {
                if str_eq(n, "query") {
                    Ok(Definition::Operation(self.parse_operation(OperationType::Query)?))
                } else if str_eq(n, "mutation") {
                    Ok(Definition::Operation(self.parse_operation(OperationType::Mutation)?))
                } else if str_eq(n, "subscription") {
                    Ok(Definition::Operation(self.parse_operation(OperationType::Subscription)?))
                } else if str_eq(n, "fragment") {
                    Ok(Definition::Fragment(self.parse_fragment_definition()?))
                } else {
                    Err(
                        ParseError::with_detail(
                            "unexpected keyword \"",
                            n.as_str(),
                            "\"; only executable definitions are supported",
                        ),
                    )
                }
            },
            other => {
                let mut message = String::from_str("unexpected token ");
                message.append(token_debug_text(other).as_str());
                message.append(" at definition");
                Err(ParseError { message })
            },
        }
    }

    /// Definitions up to the end of input.
    fn parse_document(&mut self) -> (r: Result<Document, ParseError>)
        requires
            old(self).wf(),
        ensures
            match parse_definition_list_spec(old(self).src(), old(self).state(), Seq::empty()) {
                Ok(d) => r is Ok && r->Ok_0@ == d,
                Err(e) => r is Err && error_matches(e, r->Err_0),
            },
    {
        let ghost s = self.src();
        let ghost target = parse_definition_list_spec(s, self.state(), Seq::empty());
        let mut definitions: Vec<Definition> = Vec::new();
        assert(definitions_view(definitions@) =~= Seq::<SpecDefinition>::empty());
        while !self.current_is_eof()
            invariant
                self.wf(),
                self.src() == s,
                s == old(self).src(),
                target == parse_definition_list_spec(s, old(self).state(), Seq::empty()),
                parse_definition_list_spec(s, self.state(), definitions_view(definitions@))
                    == target,
            decreases measure(s, self.state()),
        {
            let ghost before = definitions@;
            let d = self.parse_definition()?;
            let ghost dv = d@;
            definitions.push(d);
            assert(definitions_view(definitions@) =~= definitions_view(before).push(dv));
        }
        if definitions.len() == 0 {
            return Err(ParseError::new("document has no definitions"));
        }
        Ok(Document { definitions })
    }
}

/// Parse an executable GraphQL document from source text.
///
/// The result is exactly what the grammar (`parse_document_spec`) gives:
/// the parsed document when the source is a valid executable document, and
/// otherwise an error with the grammar's message, including for type-system
/// definitions, an empty document and trailing input. A message that quotes
/// a token or a character holds its `Debug` text (`token_debug`,
/// `char_debug`).
pub fn parse_document(source: &str) -> (r: Result<Document, ParseError>)
    ensures
        match parse_document_spec(source@) {
            Ok(d) => r is Ok && r->Ok_0@ == d,
            Err(e) => r is Err && error_matches(e, r->Err_0),
        },
{
    let mut parser = Parser::new(source);
    parser.parse_document()
}

} // verus!
