//! The sort transform.
//!
//! [`sort_ast`] returns a document whose order-insensitive sibling lists are
//! stably sorted into a canonical order:
//!
//! - document definitions by kind, then name (fragments before operations);
//! - selections by kind, then name (fields, then fragment spreads, then inline
//!   fragments, which carry no name);
//! - field and directive arguments by argument name;
//! - directives of fragment spreads, inline fragments and fragment definitions
//!   by directive name;
//! - variable definitions by variable name.
//!
//! Directive lists of operations, fields and variable definitions keep their
//! order; each directive's arguments still sort. Values are never reordered.
//! Names compare by UTF-16 code unit, and a missing name sorts after every
//! present name.
use vstd::prelude::*;
use crate::ast::{
    arguments_view, definitions_view, directives_view, selection_view,
    selections_view, variables_view, Argument, Definition, Directive, Document, Field,
    FragmentDefinition, FragmentSpread, InlineFragment, OperationDefinition, Selection,
    SelectionSet, SpecArgument, SpecDefinition, SpecDirective, SpecDocument, SpecField,
    SpecFragment, SpecFragmentSpread, SpecInlineFragment, SpecOperation, SpecSelection,
    SpecSelectionSet, SpecVariableDefinition, VariableDefinition,
};
use crate::order::{encode_utf16, utf16, SortKey, SpecSortKey};
use crate::stable::{lemma_stable_sort_map, lemma_stable_sorted_is, stable_sort_by, stable_sorted};

verus! {

// ---------------------------------------------------------------------------
// Keys
// ---------------------------------------------------------------------------

/// The key of a named element of the given kind rank.
pub open spec fn name_key(rank: u8, name: Seq<char>) -> SpecSortKey {
    SpecSortKey { rank, name: Some(utf16(name)) }
}

/// The key of an element whose name may be missing.
pub open spec fn optional_name_key(rank: u8, name: Option<Seq<char>>) -> SpecSortKey {
    SpecSortKey {
        rank,
        name: match name {
            Some(n) => Some(utf16(n)),
            None => None,
        },
    }
}

pub open spec fn argument_key(a: SpecArgument) -> SpecSortKey {
    name_key(0, a.name)
}

pub open spec fn argument_key_fn() -> spec_fn(SpecArgument) -> SpecSortKey {
    |a: SpecArgument| argument_key(a)
}

pub open spec fn directive_key(d: SpecDirective) -> SpecSortKey {
    name_key(0, d.name)
}

pub open spec fn directive_key_fn() -> spec_fn(SpecDirective) -> SpecSortKey {
    |d: SpecDirective| directive_key(d)
}

pub open spec fn variable_key(v: SpecVariableDefinition) -> SpecSortKey {
    name_key(0, v.name)
}

pub open spec fn variable_key_fn() -> spec_fn(SpecVariableDefinition) -> SpecSortKey {
    |v: SpecVariableDefinition| variable_key(v)
}

/// Fields rank before fragment spreads, which rank before inline fragments;
/// inline fragments have no name.
pub open spec fn selection_key(s: SpecSelection) -> SpecSortKey {
    match s {
        SpecSelection::Field(f) => name_key(0, f.name),
        SpecSelection::FragmentSpread(sp) => name_key(1, sp.fragment_name),
        SpecSelection::InlineFragment(_) => optional_name_key(2, None),
    }
}

pub open spec fn selection_key_fn() -> spec_fn(SpecSelection) -> SpecSortKey {
    |s: SpecSelection| selection_key(s)
}

/// Fragments rank before operations; an anonymous operation has no name.
pub open spec fn definition_key(d: SpecDefinition) -> SpecSortKey {
    match d {
        SpecDefinition::Fragment(f) => name_key(0, f.name),
        SpecDefinition::Operation(op) => optional_name_key(1, op.name),
    }
}

pub open spec fn definition_key_fn() -> spec_fn(SpecDefinition) -> SpecSortKey {
    |d: SpecDefinition| definition_key(d)
}

// ---------------------------------------------------------------------------
// The sorted document
// ---------------------------------------------------------------------------

pub open spec fn sorted_arguments(args: Seq<SpecArgument>) -> Seq<SpecArgument> {
    stable_sorted(args, argument_key_fn())
}

/// A directive with its arguments sorted.
pub open spec fn sort_directive_spec(d: SpecDirective) -> SpecDirective {
    SpecDirective { name: d.name, arguments: sorted_arguments(d.arguments) }
}

/// A directive list in its own order, each directive's arguments sorted.
pub open spec fn sort_each_directive_spec(ds: Seq<SpecDirective>) -> Seq<SpecDirective> {
    ds.map_values(|d: SpecDirective| sort_directive_spec(d))
}

/// A directive list sorted by name, each directive's arguments sorted.
pub open spec fn sorted_directives(ds: Seq<SpecDirective>) -> Seq<SpecDirective> {
    stable_sorted(sort_each_directive_spec(ds), directive_key_fn())
}

/// A variable definition whose directives have their arguments sorted.
pub open spec fn sort_variable_spec(v: SpecVariableDefinition) -> SpecVariableDefinition {
    SpecVariableDefinition {
        name: v.name,
        ty: v.ty,
        default_value: v.default_value,
        directives: sort_each_directive_spec(v.directives),
    }
}

pub open spec fn sort_each_variable_spec(vs: Seq<SpecVariableDefinition>) -> Seq<SpecVariableDefinition> {
    vs.map_values(|v: SpecVariableDefinition| sort_variable_spec(v))
}

/// Variable definitions sorted by variable name.
pub open spec fn sorted_variables(vs: Seq<SpecVariableDefinition>) -> Seq<SpecVariableDefinition> {
    stable_sorted(sort_each_variable_spec(vs), variable_key_fn())
}

/// Each selection of a list with its own children sorted, in list order.
pub open spec fn sort_each_selection_spec(s: Seq<SpecSelection>) -> Seq<SpecSelection>
    decreases s,
{
    Seq::new(
        s.len(),
        |i: int|
            if 0 <= i < s.len() {
                sort_selection_spec(s[i])
            } else {
                arbitrary()
            },
    )
}

/// A selection set sorted at every level.
pub open spec fn sorted_selection_set(s: SpecSelectionSet) -> SpecSelectionSet
    decreases s,
{
    SpecSelectionSet {
        selections: stable_sorted(sort_each_selection_spec(s.selections), selection_key_fn()),
    }
}

/// A selection whose children are sorted (the selection keeps its place).
pub open spec fn sort_selection_spec(s: SpecSelection) -> SpecSelection
    decreases s,
{
    match s {
        SpecSelection::Field(f) => SpecSelection::Field(
            SpecField {
                alias: f.alias,
                name: f.name,
                arguments: sorted_arguments(f.arguments),
                directives: sort_each_directive_spec(f.directives),
                selection_set: match f.selection_set {
                    Some(set) => Some(sorted_selection_set(set)),
                    None => None,
                },
            },
        ),
        SpecSelection::FragmentSpread(sp) => SpecSelection::FragmentSpread(
            SpecFragmentSpread {
                fragment_name: sp.fragment_name,
                directives: sorted_directives(sp.directives),
            },
        ),
        SpecSelection::InlineFragment(inl) => SpecSelection::InlineFragment(
            SpecInlineFragment {
                type_condition: inl.type_condition,
                directives: sorted_directives(inl.directives),
                selection_set: sorted_selection_set(inl.selection_set),
            },
        ),
    }
}

/// A definition whose children are sorted. Operation directives keep their
/// order; fragment directives sort by name.
pub open spec fn sort_definition_spec(d: SpecDefinition) -> SpecDefinition {
    match d {
        SpecDefinition::Operation(op) => SpecDefinition::Operation(
            SpecOperation {
                operation: op.operation,
                name: op.name,
                variable_definitions: sorted_variables(op.variable_definitions),
                directives: sort_each_directive_spec(op.directives),
                selection_set: sorted_selection_set(op.selection_set),
            },
        ),
        SpecDefinition::Fragment(fr) => SpecDefinition::Fragment(
            SpecFragment {
                name: fr.name,
                variable_definitions: sorted_variables(fr.variable_definitions),
                type_condition: fr.type_condition,
                directives: sorted_directives(fr.directives),
                selection_set: sorted_selection_set(fr.selection_set),
            },
        ),
    }
}

pub open spec fn sort_each_definition_spec(ds: Seq<SpecDefinition>) -> Seq<SpecDefinition> {
    ds.map_values(|d: SpecDefinition| sort_definition_spec(d))
}

/// The document sorted at every level.
pub open spec fn sorted_document(d: SpecDocument) -> SpecDocument {
    SpecDocument {
        definitions: stable_sorted(sort_each_definition_spec(d.definitions), definition_key_fn()),
    }
}

// ---------------------------------------------------------------------------
// Executable transform
// ---------------------------------------------------------------------------

/// The key of a name with the given kind rank.
fn name_sort_key(rank: u8, name: &str) -> (k: SortKey)
    ensures
        k@ == name_key(rank, name@),
{
    SortKey { rank, name: Some(encode_utf16(name)) }
}

/// The key of a possibly missing name with the given kind rank.
fn optional_name_sort_key(rank: u8, name: Option<&str>) -> (k: SortKey)
    ensures
        k@ == optional_name_key(
            rank,
            match name {
                Some(n) => Some(n@),
                None => None,
            },
        ),
{
    match name {
        Some(n) => SortKey { rank, name: Some(encode_utf16(n)) },
        None => SortKey { rank, name: None },
    }
}

/// Sort arguments by name.
fn sort_arguments(args: Vec<Argument>) -> (r: Vec<Argument>)
    ensures
        arguments_view(r@) == sorted_arguments(arguments_view(args@)),
{
    let mut keys: Vec<SortKey> = Vec::new();
    let mut i: usize = 0;
    while i < args.len()
        invariant
            i <= args@.len(),
            keys@.len() == i,
            forall|m: int| 0 <= m < i ==> #[trigger] keys@[m]@ == argument_key(args@[m]@),
        decreases args@.len() - i,
    {
        keys.push(name_sort_key(0, args[i].name.as_str()));
        i += 1;
    }
    let ghost s = args@;
    let ghost keyf = |a: Argument| argument_key(a@);
    let r = stable_sort_by(args, keys, Ghost(keyf));
    proof {
        lemma_stable_sort_map(
            s,
            r@,
            arguments_view(s),
            arguments_view(r@),
            |a: Argument| a@,
            argument_key_fn(),
            keyf,
        );
        lemma_stable_sorted_is(arguments_view(s), arguments_view(r@), argument_key_fn());
    }
    r
}

/// Sort one directive's arguments by name. The directive itself stays in place.
fn sort_directive_arguments(d: Directive) -> (r: Directive)
    ensures
        r@ == sort_directive_spec(d@),
{
    let Directive { name, arguments } = d;
    Directive { name, arguments: sort_arguments(arguments) }
}

/// Sort the arguments of every directive of a list that keeps its order.
fn sort_each_directive_arguments(ds: Vec<Directive>) -> (r: Vec<Directive>)
    ensures
        directives_view(r@) == sort_each_directive_spec(directives_view(ds@)),
{
    let ghost s = ds@;
    let mut rest = ds;
    let mut out: Vec<Directive> = Vec::new();
    assert(s.skip(0) =~= s);
    while rest.len() > 0
        invariant
            out@.len() + rest@.len() == s.len(),
            rest@ == s.skip(out@.len() as int),
            forall|m: int| 0 <= m < out@.len() ==> #[trigger] out@[m]@ == sort_directive_spec(s[m]@),
        decreases rest@.len(),
    {
        let ghost k = out@.len() as int;
        let x = rest.remove(0);
        assert(x == s[k]);
        assert(rest@ =~= s.skip(k + 1));
        out.push(sort_directive_arguments(x));
    }
    assert(directives_view(out@) =~= sort_each_directive_spec(directives_view(s)));
    out
}

/// Sort a directive list by name, and sort each directive's arguments.
fn sort_directives(ds: Vec<Directive>) -> (r: Vec<Directive>)
    ensures
        directives_view(r@) == sorted_directives(directives_view(ds@)),
{
    let children = sort_each_directive_arguments(ds);
    let mut keys: Vec<SortKey> = Vec::new();
    let mut i: usize = 0;
    while i < children.len()
        invariant
            i <= children@.len(),
            keys@.len() == i,
            forall|m: int| 0 <= m < i ==> #[trigger] keys@[m]@ == directive_key(children@[m]@),
        decreases children@.len() - i,
    {
        keys.push(name_sort_key(0, children[i].name.as_str()));
        i += 1;
    }
    let ghost s = children@;
    let ghost keyf = |d: Directive| directive_key(d@);
    let r = stable_sort_by(children, keys, Ghost(keyf));
    proof {
        lemma_stable_sort_map(
            s,
            r@,
            directives_view(s),
            directives_view(r@),
            |d: Directive| d@,
            directive_key_fn(),
            keyf,
        );
        lemma_stable_sorted_is(directives_view(s), directives_view(r@), directive_key_fn());
    }
    r
}

/// Sort the directive arguments of one variable definition.
fn sort_variable_definition(v: VariableDefinition) -> (r: VariableDefinition)
    ensures
        r@ == sort_variable_spec(v@),
{
    let VariableDefinition { name, ty, default_value, directives } = v;
    VariableDefinition {
        name,
        ty,
        default_value,
        directives: sort_each_directive_arguments(directives),
    }
}

/// Sort variable definitions by variable name.
fn sort_variable_definitions(vs: Vec<VariableDefinition>) -> (r: Vec<VariableDefinition>)
    ensures
        variables_view(r@) == sorted_variables(variables_view(vs@)),
{
    let ghost s0 = vs@;
    let mut rest = vs;
    let mut children: Vec<VariableDefinition> = Vec::new();
    let mut keys: Vec<SortKey> = Vec::new();
    assert(s0.skip(0) =~= s0);
    while rest.len() > 0
        invariant
            children@.len() + rest@.len() == s0.len(),
            keys@.len() == children@.len(),
            rest@ == s0.skip(children@.len() as int),
            forall|m: int|
                0 <= m < children@.len() ==> #[trigger] children@[m]@ == sort_variable_spec(
                    s0[m]@,
                ),
            forall|m: int|
                0 <= m < children@.len() ==> #[trigger] keys@[m]@ == variable_key(children@[m]@),
        decreases rest@.len(),
    {
        let ghost k = children@.len() as int;
        let x = rest.remove(0);
        assert(x == s0[k]);
        assert(rest@ =~= s0.skip(k + 1));
        let y = sort_variable_definition(x);
        keys.push(name_sort_key(0, y.name.as_str()));
        children.push(y);
    }
    let ghost s = children@;
    let ghost keyf = |v: VariableDefinition| variable_key(v@);
    let r = stable_sort_by(children, keys, Ghost(keyf));
    proof {
        assert(variables_view(s) =~= sort_each_variable_spec(variables_view(s0)));
        lemma_stable_sort_map(
            s,
            r@,
            variables_view(s),
            variables_view(r@),
            |v: VariableDefinition| v@,
            variable_key_fn(),
            keyf,
        );
        lemma_stable_sorted_is(variables_view(s), variables_view(r@), variable_key_fn());
    }
    r
}

/// Kind rank of a selection: fields, then fragment spreads, then inline
/// fragments.
fn selection_kind_rank(s: &Selection) -> (r: u8)
    ensures
        r == selection_key(s@).rank,
{
    match s {
        Selection::Field(_) => 0,
        Selection::FragmentSpread(_) => 1,
        Selection::InlineFragment(_) => 2,
    }
}

/// Name of a selection; inline fragments carry none.
fn selection_name(s: &Selection) -> (r: Option<&str>)
    ensures
        optional_name_key(
            0,
            match r {
                Some(n) => Some(n@),
                None => None,
            },
        ).name == selection_key(s@).name,
{
    match s {
        Selection::Field(f) => Some(f.name.as_str()),
        Selection::FragmentSpread(sp) => Some(sp.fragment_name.as_str()),
        Selection::InlineFragment(_) => None,
    }
}

fn selection_sort_key(s: &Selection) -> (k: SortKey)
    ensures
        k@ == selection_key(s@),
{
    optional_name_sort_key(selection_kind_rank(s), selection_name(s))
}

/// Sort a selection set: sort the children of each selection, then the
/// selections themselves.
fn sort_selection_set(set: SelectionSet) -> (r: SelectionSet)
    ensures
        r@ == sorted_selection_set(set@),
    decreases set,
{
    proof {
        broadcast use vstd::std_specs::vec::axiom_vec_decreases_to_view;
    }
    let ghost s0 = set.selections@;
    let SelectionSet { selections } = set;
    let mut rest = selections;
    let mut children: Vec<Selection> = Vec::new();
    let mut keys: Vec<SortKey> = Vec::new();
    assert(s0.skip(0) =~= s0);
    while rest.len() > 0
        invariant
            s0 == set.selections@,
            children@.len() + rest@.len() == s0.len(),
            keys@.len() == children@.len(),
            rest@ == s0.skip(children@.len() as int),
            forall|m: int|
                0 <= m < children@.len() ==> #[trigger] children@[m]@ == sort_selection_spec(
                    s0[m]@,
                ),
            forall|m: int|
                0 <= m < children@.len() ==> #[trigger] keys@[m]@ == selection_key(children@[m]@),
        decreases rest@.len(),
    {
        let ghost k = children@.len() as int;
        let x = rest.remove(0);
        assert(x == s0[k]);
        assert(rest@ =~= s0.skip(k + 1));
        let y = sort_selection_children(x);
        keys.push(selection_sort_key(&y));
        children.push(y);
    }
    let ghost s = children@;
    let ghost keyf = |x: Selection| selection_key(x@);
    let r = stable_sort_by(children, keys, Ghost(keyf));
    proof {
        let sv = selections_view(s);
        let rhs = sort_each_selection_spec(selections_view(s0));
        assert forall|m: int| 0 <= m < s.len() implies #[trigger] sv[m] == rhs[m] by {
            assert(sv[m] == selection_view(s[m]));
            assert(selections_view(s0)[m] == selection_view(s0[m]));
            assert(s[m]@ == sort_selection_spec(s0[m]@));
        }
        assert(sv =~= rhs);
        lemma_stable_sort_map(
            s,
            r@,
            selections_view(s),
            selections_view(r@),
            |x: Selection| selection_view(x),
            selection_key_fn(),
            keyf,
        );
        lemma_stable_sorted_is(selections_view(s), selections_view(r@), selection_key_fn());
    }
    SelectionSet { selections: r }
}

/// Sort the children of one selection.
fn sort_selection_children(s: Selection) -> (r: Selection)
    ensures
        r@ == sort_selection_spec(s@),
    decreases s,
{
    match s {
        Selection::Field(f) => Selection::Field(sort_field(f)),
        Selection::FragmentSpread(sp) => Selection::FragmentSpread(sort_fragment_spread(sp)),
        Selection::InlineFragment(inl) => Selection::InlineFragment(sort_inline_fragment(inl)),
    }
}

/// Sort a field's arguments and nested selections. The field directive list
/// keeps its order; each directive's arguments still sort.
fn sort_field(f: Field) -> (r: Field)
    ensures
        Selection::Field(r)@ == sort_selection_spec(Selection::Field(f)@),
    decreases f,
{
    let Field { alias, name, arguments, directives, selection_set } = f;
    let selection_set = match selection_set {
        Some(set) => Some(sort_selection_set(set)),
        None => None,
    };
    Field {
        alias,
        name,
        arguments: sort_arguments(arguments),
        directives: sort_each_directive_arguments(directives),
        selection_set,
    }
}

fn sort_fragment_spread(sp: FragmentSpread) -> (r: FragmentSpread)
    ensures
        Selection::FragmentSpread(r)@ == sort_selection_spec(Selection::FragmentSpread(sp)@),
{
    let FragmentSpread { fragment_name, directives } = sp;
    FragmentSpread { fragment_name, directives: sort_directives(directives) }
}

fn sort_inline_fragment(inl: InlineFragment) -> (r: InlineFragment)
    ensures
        Selection::InlineFragment(r)@ == sort_selection_spec(Selection::InlineFragment(inl)@),
    decreases inl,
{
    let InlineFragment { type_condition, directives, selection_set } = inl;
    InlineFragment {
        type_condition,
        directives: sort_directives(directives),
        selection_set: sort_selection_set(selection_set),
    }
}

fn sort_operation(op: OperationDefinition) -> (r: OperationDefinition)
    ensures
        Definition::Operation(r)@ == sort_definition_spec(Definition::Operation(op)@),
{
    let OperationDefinition { operation, name, variable_definitions, directives, selection_set } =
        op;
    OperationDefinition {
        operation,
        name,
        variable_definitions: sort_variable_definitions(variable_definitions),
        directives: sort_each_directive_arguments(directives),
        selection_set: sort_selection_set(selection_set),
    }
}

fn sort_fragment(fr: FragmentDefinition) -> (r: FragmentDefinition)
    ensures
        Definition::Fragment(r)@ == sort_definition_spec(Definition::Fragment(fr)@),
{
    let FragmentDefinition { name, variable_definitions, type_condition, directives, selection_set } =
        fr;
    FragmentDefinition {
        name,
        variable_definitions: sort_variable_definitions(variable_definitions),
        type_condition,
        directives: sort_directives(directives),
        selection_set: sort_selection_set(selection_set),
    }
}

fn sort_definition_children(d: Definition) -> (r: Definition)
    ensures
        r@ == sort_definition_spec(d@),
{
    match d {
        Definition::Operation(op) => Definition::Operation(sort_operation(op)),
        Definition::Fragment(fr) => Definition::Fragment(sort_fragment(fr)),
    }
}

/// Kind rank of a definition: fragments before operations.
fn definition_kind_rank(d: &Definition) -> (r: u8)
    ensures
        r == definition_key(d@).rank,
{
    match d {
        Definition::Fragment(_) => 0,
        Definition::Operation(_) => 1,
    }
}

/// Name of a definition; anonymous operations carry none.
fn definition_name(d: &Definition) -> (r: Option<&str>)
    ensures
        optional_name_key(
            0,
            match r {
                Some(n) => Some(n@),
                None => None,
            },
        ).name == definition_key(d@).name,
{
    match d {
        Definition::Operation(op) => match &op.name {
            Some(n) => Some(n.as_str()),
            None => None,
        },
        Definition::Fragment(fr) => Some(fr.name.as_str()),
    }
}

/// Sort the order-insensitive sibling lists of a document into canonical
/// order. The result is the document sorted at every level.
pub fn sort_ast(document: Document) -> (r: Document)
    ensures
        r@ == sorted_document(document@),
{
    let ghost s0 = document.definitions@;
    let Document { definitions } = document;
    let mut rest = definitions;
    let mut children: Vec<Definition> = Vec::new();
    let mut keys: Vec<SortKey> = Vec::new();
    assert(s0.skip(0) =~= s0);
    while rest.len() > 0
        invariant
            children@.len() + rest@.len() == s0.len(),
            keys@.len() == children@.len(),
            rest@ == s0.skip(children@.len() as int),
            forall|m: int|
                0 <= m < children@.len() ==> #[trigger] children@[m]@ == sort_definition_spec(
                    s0[m]@,
                ),
            forall|m: int|
                0 <= m < children@.len() ==> #[trigger] keys@[m]@ == definition_key(
                    children@[m]@,
                ),
        decreases rest@.len(),
    {
        let ghost k = children@.len() as int;
        let x = rest.remove(0);
        assert(x == s0[k]);
        assert(rest@ =~= s0.skip(k + 1));
        let y = sort_definition_children(x);
        let key = optional_name_sort_key(definition_kind_rank(&y), definition_name(&y));
        keys.push(key);
        children.push(y);
    }
    let ghost s = children@;
    let ghost keyf = |x: Definition| definition_key(x@);
    let r = stable_sort_by(children, keys, Ghost(keyf));
    proof {
        assert(definitions_view(s) =~= sort_each_definition_spec(definitions_view(s0)));
        lemma_stable_sort_map(
            s,
            r@,
            definitions_view(s),
            definitions_view(r@),
            |x: Definition| x@,
            definition_key_fn(),
            keyf,
        );
        lemma_stable_sorted_is(definitions_view(s), definitions_view(r@), definition_key_fn());
    }
    Document { definitions: r }
}

} // verus!
