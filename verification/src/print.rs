//! Canonical printer for executable GraphQL documents.
//!
//! The output uses two-space indentation, one selection per line, and inline
//! comma-separated arguments. A leaf field, whose selection set is missing or
//! empty, prints no braces.
use vstd::prelude::*;
use crate::text::{join, lemma_join_step};
use crate::ast::{
    is_shorthand_spec, keyword_spec, Argument, Definition, Directive, Document, Field,
    FragmentDefinition, InlineFragment, OperationDefinition, Selection, SelectionSet, SpecArgument,
    SpecDefinition, SpecDirective, SpecDocument, SpecFragment, SpecOperation, SpecSelection, SpecSelectionSet, SpecType, SpecValue, SpecVariableDefinition,
    Type, Value, VariableDefinition, arguments_view, definitions_view, directives_view,
    selections_view, variables_view, values_view, object_fields_view,
};

verus! {

// ---------------------------------------------------------------------------
// What a document prints to
// ---------------------------------------------------------------------------

/// An upper-case hexadecimal digit.
pub open spec fn hex_digit(d: int) -> char {
    if d < 10 {
        (48 + d) as char
    } else {
        (55 + d) as char
    }
}

/// How one character of a string value is written between the quotes.
pub open spec fn escape_char(c: char) -> Seq<char> {
    if c == '"' {
        "\\\""@
    } else if c == '\\' {
        "\\\\"@
    } else if c == '\n' {
        "\\n"@
    } else if c == '\r' {
        "\\r"@
    } else if c == '\t' {
        "\\t"@
    } else if c == '\u{0008}' {
        "\\b"@
    } else if c == '\u{000C}' {
        "\\f"@
    } else if (c as u32) < 0x20 {
        "\\u00"@ + seq![hex_digit(((c as u32) / 16) as int), hex_digit(((c as u32) % 16) as int)]
    } else {
        seq![c]
    }
}

pub open spec fn escape_string(s: Seq<char>) -> Seq<char>
    decreases s.len(),
{
    if s.len() == 0 {
        Seq::empty()
    } else {
        escape_string(s.drop_last()) + escape_char(s.last())
    }
}

/// A string value: quoted, with quotes, backslashes and control characters
/// escaped.
pub open spec fn print_string_spec(s: Seq<char>) -> Seq<char> {
    "\""@ + escape_string(s) + "\""@
}

pub open spec fn print_type_spec(t: SpecType) -> Seq<char>
    decreases t,
{
    match t {
        SpecType::Named(n) => n,
        SpecType::List(inner) => "["@ + print_type_spec(*inner) + "]"@,
        SpecType::NonNull(inner) => print_type_spec(*inner) + "!"@,
    }
}

pub open spec fn print_value_spec(v: SpecValue) -> Seq<char>
    decreases v,
{
    match v {
        SpecValue::Variable(n) => "$"@ + n,
        SpecValue::Int(t) => t,
        SpecValue::Float(t) => t,
        SpecValue::String(t) => print_string_spec(t),
        SpecValue::Boolean(b) => if b {
            "true"@
        } else {
            "false"@
        },
        SpecValue::Null => "null"@,
        SpecValue::Enum(n) => n,
        SpecValue::List(items) => "["@ + print_value_list_spec(items) + "]"@,
        SpecValue::Object(fields) => "{ "@ + print_object_fields_spec(fields) + " }"@,
    }
}

/// List elements, comma-separated.
pub open spec fn print_value_list_spec(items: Seq<SpecValue>) -> Seq<char>
    decreases items,
{
    if items.len() == 0 {
        Seq::empty()
    } else {
        let prev = print_value_list_spec(items.drop_last());
        (if items.len() > 1 {
            prev + ", "@
        } else {
            prev
        }) + print_value_spec(items.last())
    }
}

/// Object fields, `name: value`, comma-separated.
pub open spec fn print_object_fields_spec(fields: Seq<(Seq<char>, SpecValue)>) -> Seq<char>
    decreases fields,
{
    if fields.len() == 0 {
        Seq::empty()
    } else {
        let prev = print_object_fields_spec(fields.drop_last());
        (if fields.len() > 1 {
            prev + ", "@
        } else {
            prev
        }) + fields.last().0 + ": "@ + print_value_spec(fields.last().1)
    }
}

pub open spec fn print_argument_spec(a: SpecArgument) -> Seq<char> {
    a.name + ": "@ + print_value_spec(a.value)
}

/// Arguments in parentheses, comma-separated; nothing when there are none.
pub open spec fn print_arguments_spec(args: Seq<SpecArgument>) -> Seq<char> {
    if args.len() == 0 {
        Seq::empty()
    } else {
        "("@ + join(args.map_values(|a: SpecArgument| print_argument_spec(a)), ", "@) + ")"@
    }
}

pub open spec fn print_directive_spec(d: SpecDirective) -> Seq<char> {
    " @"@ + d.name + print_arguments_spec(d.arguments)
}

/// Each directive preceded by a space.
pub open spec fn print_directives_spec(ds: Seq<SpecDirective>) -> Seq<char> {
    join(ds.map_values(|d: SpecDirective| print_directive_spec(d)), Seq::empty())
}

/// A variable definition: `$name: Type`, then ` = default` when there is
/// one. Its directives are kept in the document but not printed.
pub open spec fn print_variable_spec(v: SpecVariableDefinition) -> Seq<char> {
    "$"@ + v.name + ": "@ + print_type_spec(v.ty) + match v.default_value {
        Some(val) => " = "@ + print_value_spec(val),
        None => Seq::empty(),
    }
}

/// Variable definitions in parentheses, comma-separated; nothing when there
/// are none.
pub open spec fn print_variables_spec(vs: Seq<SpecVariableDefinition>) -> Seq<char> {
    if vs.len() == 0 {
        Seq::empty()
    } else {
        "("@ + join(vs.map_values(|v: SpecVariableDefinition| print_variable_spec(v)), ", "@)
            + ")"@
    }
}

/// The selections of a set, each on its own line at indentation `indent`.
pub open spec fn print_selections_spec(sels: Seq<SpecSelection>, indent: Seq<char>) -> Seq<char>
    decreases sels,
{
    if sels.len() == 0 {
        Seq::empty()
    } else {
        print_selections_spec(sels.drop_last(), indent) + "\n"@ + indent + print_selection_spec(
            sels.last(),
            indent,
        )
    }
}

/// A selection set whose closing brace is at indentation `indent`; nothing
/// when it is empty.
pub open spec fn print_selection_set_spec(s: SpecSelectionSet, indent: Seq<char>) -> Seq<char>
    decreases s,
{
    if s.selections.len() == 0 {
        Seq::empty()
    } else {
        "{"@ + print_selections_spec(s.selections, indent + "  "@) + "\n"@ + indent + "}"@
    }
}

pub open spec fn print_selection_spec(x: SpecSelection, indent: Seq<char>) -> Seq<char>
    decreases x,
{
    match x {
        SpecSelection::Field(f) => (match f.alias {
            Some(a) => a + ": "@,
            None => Seq::empty(),
        }) + f.name + print_arguments_spec(f.arguments) + print_directives_spec(f.directives)
            + match f.selection_set {
            Some(set) => if set.selections.len() > 0 {
                " "@ + print_selection_set_spec(set, indent)
            } else {
                Seq::empty()
            },
            None => Seq::empty(),
        },
        SpecSelection::FragmentSpread(sp) => "..."@ + sp.fragment_name + print_directives_spec(
            sp.directives,
        ),
        SpecSelection::InlineFragment(inl) => "..."@ + (match inl.type_condition {
            Some(t) => " on "@ + t,
            None => Seq::empty(),
        }) + print_directives_spec(inl.directives) + " "@ + print_selection_set_spec(
            inl.selection_set,
            indent,
        ),
    }
}

/// An operation: the keyword, then the name and variable definitions as one
/// group after a single space (when the group is not empty), the directives,
/// and the body. A shorthand query prints its body alone.
pub open spec fn print_operation_spec(op: SpecOperation) -> Seq<char> {
    let group = match op.name {
        Some(n) => n,
        None => Seq::empty(),
    } + print_variables_spec(op.variable_definitions);
    if is_shorthand_spec(op) {
        print_selection_set_spec(op.selection_set, Seq::empty())
    } else {
        keyword_spec(op.operation) + (if group.len() > 0 {
            " "@ + group
        } else {
            Seq::empty()
        }) + print_directives_spec(op.directives) + " "@ + print_selection_set_spec(
            op.selection_set,
            Seq::empty(),
        )
    }
}

pub open spec fn print_fragment_spec(fr: SpecFragment) -> Seq<char> {
    "fragment "@ + fr.name + print_variables_spec(fr.variable_definitions) + " on "@
        + fr.type_condition + print_directives_spec(fr.directives) + " "@
        + print_selection_set_spec(fr.selection_set, Seq::empty())
}

pub open spec fn print_definition_spec(d: SpecDefinition) -> Seq<char> {
    match d {
        SpecDefinition::Operation(op) => print_operation_spec(op),
        SpecDefinition::Fragment(fr) => print_fragment_spec(fr),
    }
}

/// A document: its definitions separated by blank lines, then a newline.
pub open spec fn print_document_spec(d: SpecDocument) -> Seq<char> {
    join(d.definitions.map_values(|x: SpecDefinition| print_definition_spec(x)), "\n\n"@)
        + "\n"@
}

// ---------------------------------------------------------------------------
// Printing
// ---------------------------------------------------------------------------

proof fn lemma_take_all<A>(s: Seq<A>)
    ensures
        s.take(s.len() as int) == s,
{
    assert(s.take(s.len() as int) =~= s);
}

/// Render a document to its canonical string form.
pub fn print_document(document: &Document) -> (r: String)
    ensures
        r@ == print_document_spec(document@),
{
    let mut out = String::new();
    let ghost items = definitions_view(document.definitions@).map_values(
        |x: SpecDefinition| print_definition_spec(x),
    );
    let n = document.definitions.len();
    for i in 0..n
        invariant
            n == document.definitions@.len(),
            items.len() == n,
            forall|k: int| 0 <= k < n ==> #[trigger] items[k] == print_definition_spec(document.definitions@[k]@),
            out@ == join(items.take(i as int), "\n\n"@),
    {
        proof {
            lemma_join_step(items, i as int, "\n\n"@);
        }
        if i > 0 {
            out.append("\n\n");
        }
        print_definition(&document.definitions[i], &mut out);
    }
    proof {
        lemma_take_all(items);
    }
    out.append("\n");
    out
}

fn print_definition(def: &Definition, out: &mut String)
    ensures
        final(out)@ == old(out)@ + print_definition_spec(def@),
{
    match def {
        Definition::Operation(op) => print_operation(op, out),
        Definition::Fragment(fr) => print_fragment(fr, out),
    }
}

#[verifier::rlimit(30)]
#[verifier::spinoff_prover]
fn print_operation(op: &OperationDefinition, out: &mut String)
    ensures
        final(out)@ == old(out)@ + print_operation_spec(op@),
{
    let empty = String::new();
    if !op.is_shorthand() {
        out.append(op.operation.keyword());
        // The name and variable definitions form one group with no space
        // between them; the keyword precedes the group with a single space.
        let mut group = String::new();
        if let Some(name) = &op.name {
            group.append(name.as_str());
        }
        print_variable_definitions(&op.variable_definitions, &mut group);
        let has_name = match &op.name {
            Some(name) => name.as_str().unicode_len() > 0,
            None => false,
        };
        proof {
            reveal_strlit("(");
        }
        if has_name || op.variable_definitions.len() > 0 {
            out.append(" ");
            out.append(group.as_str());
        }
        print_directives(&op.directives, out);
        out.append(" ");
    }
    print_selection_set(&op.selection_set, &empty, out);
}

fn print_fragment(fr: &FragmentDefinition, out: &mut String)
    ensures
        final(out)@ == old(out)@ + print_fragment_spec(fr@),
{
    let empty = String::new();
    out.append("fragment ");
    out.append(fr.name.as_str());
    print_variable_definitions(&fr.variable_definitions, out);
    out.append(" on ");
    out.append(fr.type_condition.as_str());
    print_directives(&fr.directives, out);
    out.append(" ");
    print_selection_set(&fr.selection_set, &empty, out);
}

fn print_variable_definitions(defs: &Vec<VariableDefinition>, out: &mut String)
    ensures
        final(out)@ == old(out)@ + print_variables_spec(variables_view(defs@)),
{
    if defs.len() == 0 {
        return;
    }
    let ghost start = out@;
    let ghost items = variables_view(defs@).map_values(
        |v: SpecVariableDefinition| print_variable_spec(v),
    );
    out.append("(");
    let n = defs.len();
    for i in 0..n
        invariant
            n == defs@.len(),
            items.len() == n,
            forall|k: int| 0 <= k < n ==> #[trigger] items[k] == print_variable_spec(defs@[k]@),
            out@ == start + "("@ + join(items.take(i as int), ", "@),
    {
        proof {
            lemma_join_step(items, i as int, ", "@);
        }
        if i > 0 {
            out.append(", ");
        }
        print_variable_definition(&defs[i], out);
    }
    proof {
        lemma_take_all(items);
    }
    out.append(")");
}

fn print_variable_definition(def: &VariableDefinition, out: &mut String)
    ensures
        final(out)@ == old(out)@ + print_variable_spec(def@),
{
    out.append("$");
    out.append(def.name.as_str());
    out.append(": ");
    print_type(&def.ty, out);
    if let Some(default) = &def.default_value {
        out.append(" = ");
        print_value(default, out);
    }
}

fn print_type(ty: &Type, out: &mut String)
    ensures
        final(out)@ == old(out)@ + print_type_spec(ty@),
    decreases ty,
{
    match ty {
        Type::Named(name) => out.append(name.as_str()),
        Type::List(inner) => {
            out.append("[");
            print_type(inner, out);
            out.append("]");
        },
        Type::NonNull(inner) => {
            print_type(inner, out);
            out.append("!");
        },
    }
}

fn print_selection_set(set: &SelectionSet, indent: &String, out: &mut String)
    ensures
        final(out)@ == old(out)@ + print_selection_set_spec(set@, indent@),
    decreases set,
{
    proof {
        broadcast use vstd::std_specs::vec::axiom_vec_decreases_to_view;
    }
    if set.selections.len() == 0 {
        return;
    }
    let ghost start = out@;
    let ghost sels = selections_view(set.selections@);
    let mut inner = indent.clone();
    inner.append("  ");
    out.append("{");
    let n = set.selections.len();
    for i in 0..n
        invariant
            n == set.selections@.len(),
            sels == selections_view(set.selections@),
            inner@ == indent@ + "  "@,
            out@ == start + "{"@ + print_selections_spec(sels.take(i as int), inner@),
    {
        assert(sels.take(i + 1).drop_last() =~= sels.take(i as int));
        out.append("\n");
        out.append(inner.as_str());
        print_selection(&set.selections[i], &inner, out);
    }
    proof {
        lemma_take_all(sels);
    }
    out.append("\n");
    out.append(indent.as_str());
    out.append("}");
}

fn print_selection(selection: &Selection, indent: &String, out: &mut String)
    ensures
        final(out)@ == old(out)@ + print_selection_spec(selection@, indent@),
    decreases selection,
{
    match selection {
        Selection::Field(field) => print_field(field, indent, out),
        Selection::FragmentSpread(spread) => {
            out.append("...");
            out.append(spread.fragment_name.as_str());
            print_directives(&spread.directives, out);
        },
        Selection::InlineFragment(inline) => print_inline_fragment(inline, indent, out),
    }
}

fn print_field(field: &Field, indent: &String, out: &mut String)
    ensures
        final(out)@ == old(out)@ + print_selection_spec(Selection::Field(*field)@, indent@),
    decreases field,
{
    if let Some(alias) = &field.alias {
        out.append(alias.as_str());
        out.append(": ");
    }
    out.append(field.name.as_str());
    print_arguments(&field.arguments, out);
    print_directives(&field.directives, out);
    if let Some(set) = &field.selection_set {
        if set.selections.len() > 0 {
            out.append(" ");
            print_selection_set(set, indent, out);
        }
    }
}

fn print_inline_fragment(inline: &InlineFragment, indent: &String, out: &mut String)
    ensures
        final(out)@ == old(out)@ + print_selection_spec(
            Selection::InlineFragment(*inline)@,
            indent@,
        ),
    decreases inline,
{
    out.append("...");
    if let Some(type_condition) = &inline.type_condition {
        out.append(" on ");
        out.append(type_condition.as_str());
    }
    print_directives(&inline.directives, out);
    out.append(" ");
    print_selection_set(&inline.selection_set, indent, out);
}

fn print_arguments(args: &Vec<Argument>, out: &mut String)
    ensures
        final(out)@ == old(out)@ + print_arguments_spec(arguments_view(args@)),
{
    if args.len() == 0 {
        return;
    }
    let ghost start = out@;
    let ghost items = arguments_view(args@).map_values(|a: SpecArgument| print_argument_spec(a));
    out.append("(");
    let n = args.len();
    for i in 0..n
        invariant
            n == args@.len(),
            items.len() == n,
            forall|k: int| 0 <= k < n ==> #[trigger] items[k] == print_argument_spec(args@[k]@),
            out@ == start + "("@ + join(items.take(i as int), ", "@),
    {
        proof {
            lemma_join_step(items, i as int, ", "@);
        }
        if i > 0 {
            out.append(", ");
        }
        out.append(args[i].name.as_str());
        out.append(": ");
        print_value(&args[i].value, out);
    }
    proof {
        lemma_take_all(items);
    }
    out.append(")");
}

fn print_directives(directives: &Vec<Directive>, out: &mut String)
    ensures
        final(out)@ == old(out)@ + print_directives_spec(directives_view(directives@)),
{
    let ghost start = out@;
    let ghost items = directives_view(directives@).map_values(
        |d: SpecDirective| print_directive_spec(d),
    );
    let n = directives.len();
    for i in 0..n
        invariant
            n == directives@.len(),
            items.len() == n,
            forall|k: int| 0 <= k < n ==> #[trigger] items[k] == print_directive_spec(directives@[k]@),
            out@ == start + join(items.take(i as int), Seq::empty()),
    {
        proof {
            lemma_join_step(items, i as int, Seq::empty());
        }
        out.append(" @");
        out.append(directives[i].name.as_str());
        print_arguments(&directives[i].arguments, out);
    }
    proof {
        lemma_take_all(items);
    }
}

fn print_value(value: &Value, out: &mut String)
    ensures
        final(out)@ == old(out)@ + print_value_spec(value@),
    decreases value,
{
    proof {
        broadcast use vstd::std_specs::vec::axiom_vec_decreases_to_view;
    }
    match value {
        Value::Variable(name) => {
            out.append("$");
            out.append(name.as_str());
        },
        Value::Int(text) => out.append(text.as_str()),
        Value::Float(text) => out.append(text.as_str()),
        Value::String(text) => print_string_value(text.as_str(), out),
        Value::Boolean(b) => out.append(
            if *b {
                "true"
            } else {
                "false"
            },
        ),
        Value::Null => out.append("null"),
        Value::Enum(name) => out.append(name.as_str()),
        Value::List(items) => {
            let ghost start = out@;
            let ghost vs = values_view(items@);
            out.append("[");
            let n = items.len();
            for i in 0..n
                invariant
                    *value == Value::List(*items),
                    n == items@.len(),
                    vs.len() == n,
                    forall|k: int| 0 <= k < n ==> #[trigger] vs[k] == items@[k]@,
                    out@ == start + "["@ + print_value_list_spec(vs.take(i as int)),
            {
                assert(vs.take(i + 1).drop_last() =~= vs.take(i as int));
                if i > 0 {
                    out.append(", ");
                }
                proof {
                    broadcast use vstd::std_specs::vec::axiom_vec_decreases_to_view;

                    assert(decreases_to!(*value => (*value)->List_0));
                    assert(decreases_to!(*items => items@));
                }
                assert(decreases_to!(*items => items@));
                assert(decreases_to!(items@ => items@[i as int]));
                assert(decreases_to!(*value => items@[i as int]));
                print_value(&items[i], out);
            }
            proof {
                lemma_take_all(vs);
            }
            out.append("]");
        },
        Value::Object(fields) => {
            let ghost start = out@;
            let ghost fs = object_fields_view(fields@);
            out.append("{ ");
            let n = fields.len();
            for i in 0..n
                invariant
                    *value == Value::Object(*fields),
                    n == fields@.len(),
                    fs.len() == n,
                    forall|k: int| 0 <= k < n ==> #[trigger] fs[k] == (fields@[k].0@, fields@[k].1@),
                    out@ == start + "{ "@ + print_object_fields_spec(fs.take(i as int)),
            {
                assert(fs.take(i + 1).drop_last() =~= fs.take(i as int));
                if i > 0 {
                    out.append(", ");
                }
                out.append(fields[i].0.as_str());
                out.append(": ");
                proof {
                    broadcast use vstd::std_specs::vec::axiom_vec_decreases_to_view;

                    assert(decreases_to!(*value => (*value)->Object_0));
                    assert(decreases_to!(*fields => fields@));
                }
                assert(decreases_to!(fields@ => fields@[i as int]));
                assert(decreases_to!(fields@[i as int] => fields@[i as int].1));
                assert(decreases_to!(*value => fields@[i as int].1));
                print_value(&fields[i].1, out);
            }
            proof {
                lemma_take_all(fs);
            }
            out.append(" }");
        },
    }
}

/// An upper-case hexadecimal digit.
fn hex_char(d: u32) -> (c: char)
    requires
        d < 16,
    ensures
        c == hex_digit(d as int),
{
    if d < 10 {
        ((48 + d) as u8) as char
    } else {
        ((55 + d) as u8) as char
    }
}

fn print_string_value(text: &str, out: &mut String)
    ensures
        final(out)@ == old(out)@ + print_string_spec(text@),
{
    broadcast use vstd::string::group_string_axioms;
    let ghost start = out@;
    out.append("\"");
    for ch in it: text.chars()
        invariant
            it.seq() == text@,
            out@ == start + "\""@ + escape_string(text@.take(it.index() as int)),
    {
        let ghost k = it.index() as int;
        assert(text@.take(k + 1).drop_last() =~= text@.take(k));
        let v = ch as u32;
        if ch == '"' {
            out.append("\\\"");
        } else if ch == '\\' {
            out.append("\\\\");
        } else if ch == '\n' {
            out.append("\\n");
        } else if ch == '\r' {
            out.append("\\r");
        } else if ch == '\t' {
            out.append("\\t");
        } else if ch == '\u{0008}' {
            out.append("\\b");
        } else if ch == '\u{000C}' {
            out.append("\\f");
        } else if v < 0x20 {
            out.append("\\u00");
            out.push(hex_char(v / 16));
            out.push(hex_char(v % 16));
        } else {
            out.push(ch);
        }
    }
    proof {
        lemma_take_all(text@);
    }
    out.append("\"");
}

} // verus!
