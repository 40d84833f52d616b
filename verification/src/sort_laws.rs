//! What the sort transform promises of every document.
//!
//! - The sorted document differs from the input only in the order of sibling
//!   lists, and elements with equal keys keep their source order
//!   (`law_sort_only_reorders_stably`).
//! - Every sortable list of the sorted document is in key order
//!   (`law_sort_result_is_sorted`); in names, that order is: fragments by
//!   name before operations, named operations by name before anonymous ones,
//!   fields by name before fragment spreads by name before inline fragments,
//!   and arguments, directives and variables by name
//!   (`law_sorted_definitions_by_kind_then_name` and its siblings).
//! - Sorting twice is sorting once (`law_sort_idempotent`).
//! - Documents that differ only in the order of sortable siblings, with equal
//!   keys in the same relative order, sort to the same document
//!   (`law_sort_ignores_sibling_order`).
use vstd::prelude::*;
use crate::ast::{
    SpecArgument, SpecDefinition, SpecDirective, SpecDocument, SpecSelection, SpecSelectionSet,
    SpecVariableDefinition,
};
use crate::order::{key_lt, units_lt, utf16, SpecSortKey};
use crate::sort::{
    argument_key_fn, definition_key_fn, directive_key_fn,
    selection_key, selection_key_fn, sort_definition_spec, sort_directive_spec,
    sort_each_definition_spec, sort_each_directive_spec, sort_each_selection_spec,
    sort_each_variable_spec, sort_selection_spec, sorted_arguments,
    sorted_directives, sorted_document, sorted_selection_set, sorted_variables, variable_key_fn,
};
use crate::stable::{
    is_perm, lemma_stable_sort_exists, lemma_stable_sort_reorder,
    lemma_stable_sorted_of_sorted, reorders_stably, sorted_by, sorted_stably_via, stable_sorted,
};

verus! {

// ---------------------------------------------------------------------------
// Rearrangements that keep equal keys in order
// ---------------------------------------------------------------------------

/// `s2` is a rearrangement of `s1` in which each element is related by `rel`
/// to the element of `s1` it came from, and elements with equal keys keep
/// their relative order.
pub open spec fn reorders_with<A>(
    s1: Seq<A>,
    s2: Seq<A>,
    key: spec_fn(A) -> SpecSortKey,
    rel: spec_fn(A, A) -> bool,
) -> bool {
    exists|r: Seq<int>, rinv: Seq<int>| #[trigger]
        is_perm(r, rinv, s1.len() as int) && reorders_with_via(s1, s2, r, key, rel)
}

pub open spec fn reorders_with_via<A>(
    s1: Seq<A>,
    s2: Seq<A>,
    r: Seq<int>,
    key: spec_fn(A) -> SpecSortKey,
    rel: spec_fn(A, A) -> bool,
) -> bool {
    &&& s2.len() == s1.len()
    &&& forall|i: int| 0 <= i < s2.len() ==> #[trigger] rel(s1[r[i]], s2[i])
    &&& forall|i: int, j: int|
        0 <= i < j < s2.len() && #[trigger] key(s2[i]) == #[trigger] key(s2[j]) ==> r[i] < r[j]
}

/// Two lists of the same length related element by element.
pub open spec fn pairwise<A>(s1: Seq<A>, s2: Seq<A>, rel: spec_fn(A, A) -> bool) -> bool {
    &&& s2.len() == s1.len()
    &&& forall|i: int| 0 <= i < s2.len() ==> #[trigger] rel(s1[i], s2[i])
}

pub open spec fn argument_eq_fn() -> spec_fn(SpecArgument, SpecArgument) -> bool {
    |x: SpecArgument, y: SpecArgument| x == y
}

/// Same directive, arguments rearranged.
pub open spec fn reorders_directive(d1: SpecDirective, d2: SpecDirective) -> bool {
    &&& d1.name == d2.name
    &&& reorders_with(d1.arguments, d2.arguments, argument_key_fn(), argument_eq_fn())
}

pub open spec fn directive_rel_fn() -> spec_fn(SpecDirective, SpecDirective) -> bool {
    |x: SpecDirective, y: SpecDirective| reorders_directive(x, y)
}

/// A directive list whose order carries meaning: only arguments move.
pub open spec fn reorders_directives_in_place(ds1: Seq<SpecDirective>, ds2: Seq<SpecDirective>) -> bool {
    pairwise(ds1, ds2, directive_rel_fn())
}

/// A directive list that sorts: directives and their arguments move.
pub open spec fn reorders_directives(ds1: Seq<SpecDirective>, ds2: Seq<SpecDirective>) -> bool {
    reorders_with(ds1, ds2, directive_key_fn(), directive_rel_fn())
}

pub open spec fn reorders_variable(v1: SpecVariableDefinition, v2: SpecVariableDefinition) -> bool {
    &&& v1.name == v2.name
    &&& v1.ty == v2.ty
    &&& v1.default_value == v2.default_value
    &&& reorders_directives_in_place(v1.directives, v2.directives)
}

pub open spec fn variable_rel_fn() -> spec_fn(SpecVariableDefinition, SpecVariableDefinition) -> bool {
    |x: SpecVariableDefinition, y: SpecVariableDefinition| reorders_variable(x, y)
}

pub open spec fn reorders_variables(
    vs1: Seq<SpecVariableDefinition>,
    vs2: Seq<SpecVariableDefinition>,
) -> bool {
    reorders_with(vs1, vs2, variable_key_fn(), variable_rel_fn())
}

/// `b` is `a` with its selections rearranged at every level.
pub open spec fn reorders_selection_set(a: SpecSelectionSet, b: SpecSelectionSet) -> bool
    decreases b,
{
    exists|r: Seq<int>, rinv: Seq<int>|
        #[trigger] is_perm(r, rinv, a.selections.len() as int) && {
            &&& b.selections.len() == a.selections.len()
            &&& forall|i: int|
                0 <= i < b.selections.len() ==> reorders_selection(
                    a.selections[r[i]],
                    #[trigger] b.selections[i],
                )
            &&& forall|i: int, j: int|
                0 <= i < j < b.selections.len() && #[trigger] selection_key(b.selections[i])
                    == #[trigger] selection_key(b.selections[j]) ==> r[i] < r[j]
        }
}

/// `y` is the selection `x` with its children rearranged.
pub open spec fn reorders_selection(x: SpecSelection, y: SpecSelection) -> bool
    decreases y,
{
    match (x, y) {
        (SpecSelection::Field(f1), SpecSelection::Field(f2)) => {
            &&& f1.alias == f2.alias
            &&& f1.name == f2.name
            &&& reorders_with(f1.arguments, f2.arguments, argument_key_fn(), argument_eq_fn())
            &&& reorders_directives_in_place(f1.directives, f2.directives)
            &&& match (f1.selection_set, f2.selection_set) {
                (Some(s1), Some(s2)) => reorders_selection_set(s1, s2),
                (None, None) => true,
                _ => false,
            }
        },
        (SpecSelection::FragmentSpread(a), SpecSelection::FragmentSpread(b)) => {
            &&& a.fragment_name == b.fragment_name
            &&& reorders_directives(a.directives, b.directives)
        },
        (SpecSelection::InlineFragment(a), SpecSelection::InlineFragment(b)) => {
            &&& a.type_condition == b.type_condition
            &&& reorders_directives(a.directives, b.directives)
            &&& reorders_selection_set(a.selection_set, b.selection_set)
        },
        _ => false,
    }
}

/// `e` is the definition `d` with its children rearranged.
pub open spec fn reorders_definition(d: SpecDefinition, e: SpecDefinition) -> bool {
    match (d, e) {
        (SpecDefinition::Operation(a), SpecDefinition::Operation(b)) => {
            &&& a.operation == b.operation
            &&& a.name == b.name
            &&& reorders_variables(a.variable_definitions, b.variable_definitions)
            &&& reorders_directives_in_place(a.directives, b.directives)
            &&& reorders_selection_set(a.selection_set, b.selection_set)
        },
        (SpecDefinition::Fragment(a), SpecDefinition::Fragment(b)) => {
            &&& a.name == b.name
            &&& a.type_condition == b.type_condition
            &&& reorders_variables(a.variable_definitions, b.variable_definitions)
            &&& reorders_directives(a.directives, b.directives)
            &&& reorders_selection_set(a.selection_set, b.selection_set)
        },
        _ => false,
    }
}

pub open spec fn definition_rel_fn() -> spec_fn(SpecDefinition, SpecDefinition) -> bool {
    |x: SpecDefinition, y: SpecDefinition| reorders_definition(x, y)
}

/// `d2` differs from `d1` only in the order of sortable sibling lists, at any
/// depth, with siblings of equal key in the same relative order.
pub open spec fn reorders_document(d1: SpecDocument, d2: SpecDocument) -> bool {
    reorders_with(d1.definitions, d2.definitions, definition_key_fn(), definition_rel_fn())
}

// ---------------------------------------------------------------------------
// The sorted document only rearranges its input
// ---------------------------------------------------------------------------

/// The witnesses of `stable_sorted`.
proof fn lemma_stable_witness<A>(s: Seq<A>, key: spec_fn(A) -> SpecSortKey) -> (pq: (
    Seq<int>,
    Seq<int>,
))
    ensures
        sorted_stably_via(s, stable_sorted(s, key), pq.0, pq.1, key),
{
    lemma_stable_sort_exists(s, key);
    choose|p: Seq<int>, q: Seq<int>| sorted_stably_via(s, stable_sorted(s, key), p, q, key)
}

/// Sorting a list whose children are sorted by `sort_child` rearranges it.
proof fn lemma_sort_list_reorders<A>(
    s: Seq<A>,
    c: Seq<A>,
    key: spec_fn(A) -> SpecSortKey,
    rel: spec_fn(A, A) -> bool,
)
    requires
        c.len() == s.len(),
        forall|i: int| 0 <= i < s.len() ==> #[trigger] rel(s[i], c[i]),
    ensures
        reorders_with(s, stable_sorted(c, key), key, rel),
{
    let (p, q) = lemma_stable_witness(c, key);
    let out = stable_sorted(c, key);
    assert forall|i: int| 0 <= i < out.len() implies #[trigger] rel(s[p[i]], out[i]) by {
        assert(out[i] == c[p[i]]);
    }
    assert(reorders_with_via(s, out, p, key, rel));
    assert(is_perm(p, q, s.len() as int));
}

proof fn lemma_directive_reorders(d: SpecDirective)
    ensures
        reorders_directive(d, sort_directive_spec(d)),
{
    lemma_sort_list_reorders(d.arguments, d.arguments, argument_key_fn(), argument_eq_fn());
}

proof fn lemma_each_directive_reorders(ds: Seq<SpecDirective>)
    ensures
        reorders_directives_in_place(ds, sort_each_directive_spec(ds)),
{
    assert forall|i: int| 0 <= i < ds.len() implies #[trigger] directive_rel_fn()(
        ds[i],
        sort_each_directive_spec(ds)[i],
    ) by {
        lemma_directive_reorders(ds[i]);
    }
}

proof fn lemma_directives_reorders(ds: Seq<SpecDirective>)
    ensures
        reorders_directives(ds, sorted_directives(ds)),
{
    let c = sort_each_directive_spec(ds);
    assert forall|i: int| 0 <= i < ds.len() implies #[trigger] directive_rel_fn()(ds[i], c[i]) by {
        lemma_directive_reorders(ds[i]);
    }
    lemma_sort_list_reorders(ds, c, directive_key_fn(), directive_rel_fn());
}

proof fn lemma_variables_reorders(vs: Seq<SpecVariableDefinition>)
    ensures
        reorders_variables(vs, sorted_variables(vs)),
{
    let c = sort_each_variable_spec(vs);
    assert forall|i: int| 0 <= i < vs.len() implies #[trigger] variable_rel_fn()(vs[i], c[i]) by {
        lemma_each_directive_reorders(vs[i].directives);
    }
    lemma_sort_list_reorders(vs, c, variable_key_fn(), variable_rel_fn());
}

proof fn lemma_selection_set_reorders(s: SpecSelectionSet)
    ensures
        reorders_selection_set(s, sorted_selection_set(s)),
    decreases s,
{
    let c = sort_each_selection_spec(s.selections);
    let (p, q) = lemma_stable_witness(c, selection_key_fn());
    let out = stable_sorted(c, selection_key_fn());
    assert forall|i: int| 0 <= i < out.len() implies reorders_selection(
        s.selections[p[i]],
        #[trigger] out[i],
    ) by {
        assert(out[i] == c[p[i]]);
        lemma_selection_reorders(s.selections[p[i]]);
    }
    let b = sorted_selection_set(s);
    assert(b.selections == out);
    assert(b.selections.len() == s.selections.len());
    assert(forall|i: int|
            0 <= i < b.selections.len() ==> reorders_selection(
                s.selections[p[i]],
                #[trigger] b.selections[i],
            ));
    assert forall|i: int, j: int|
            0 <= i < j < b.selections.len() && #[trigger] selection_key(b.selections[i])
                == #[trigger] selection_key(b.selections[j]) implies p[i] < p[j] by {
        assert(selection_key_fn()(out[i]) == selection_key(out[i]));
        assert(selection_key_fn()(out[j]) == selection_key(out[j]));
    }
    assert(is_perm(p, q, s.selections.len() as int) && {
        &&& b.selections.len() == s.selections.len()
        &&& forall|i: int|
            0 <= i < b.selections.len() ==> reorders_selection(
                s.selections[p[i]],
                #[trigger] b.selections[i],
            )
        &&& forall|i: int, j: int|
            0 <= i < j < b.selections.len() && #[trigger] selection_key(b.selections[i])
                == #[trigger] selection_key(b.selections[j]) ==> p[i] < p[j]
    });
}

proof fn lemma_selection_reorders(x: SpecSelection)
    ensures
        reorders_selection(x, sort_selection_spec(x)),
    decreases x,
{
    match x {
        SpecSelection::Field(f) => {
            lemma_sort_list_reorders(f.arguments, f.arguments, argument_key_fn(), argument_eq_fn());
            lemma_each_directive_reorders(f.directives);
            if let Some(set) = f.selection_set {
                lemma_selection_set_reorders(set);
            }
        },
        SpecSelection::FragmentSpread(sp) => {
            lemma_directives_reorders(sp.directives);
        },
        SpecSelection::InlineFragment(inl) => {
            lemma_directives_reorders(inl.directives);
            lemma_selection_set_reorders(inl.selection_set);
        },
    }
}

proof fn lemma_definition_reorders(d: SpecDefinition)
    ensures
        reorders_definition(d, sort_definition_spec(d)),
{
    match d {
        SpecDefinition::Operation(op) => {
            lemma_variables_reorders(op.variable_definitions);
            lemma_each_directive_reorders(op.directives);
            lemma_selection_set_reorders(op.selection_set);
        },
        SpecDefinition::Fragment(fr) => {
            lemma_variables_reorders(fr.variable_definitions);
            lemma_directives_reorders(fr.directives);
            lemma_selection_set_reorders(fr.selection_set);
        },
    }
}

/// Sorting changes only order: the sorted document is a rearrangement of the
/// input at every level, in which siblings with equal keys keep their source
/// order.
pub proof fn law_sort_only_reorders_stably(d: SpecDocument)
    ensures
        reorders_document(d, sorted_document(d)),
{
    let c = sort_each_definition_spec(d.definitions);
    assert forall|i: int| 0 <= i < d.definitions.len() implies #[trigger] definition_rel_fn()(
        d.definitions[i],
        c[i],
    ) by {
        lemma_definition_reorders(d.definitions[i]);
    }
    lemma_sort_list_reorders(d.definitions, c, definition_key_fn(), definition_rel_fn());
}

// ---------------------------------------------------------------------------
// Sibling order does not matter
// ---------------------------------------------------------------------------

/// Lists whose children sort to the same elements, rearranged with equal
/// keys kept in order, sort to the same list.
proof fn lemma_agree_list<A>(
    s2: Seq<A>,
    c1: Seq<A>,
    c2: Seq<A>,
    r: Seq<int>,
    rinv: Seq<int>,
    key: spec_fn(A) -> SpecSortKey,
)
    requires
        is_perm(r, rinv, c1.len() as int),
        c2.len() == c1.len(),
        s2.len() == c2.len(),
        forall|i: int| 0 <= i < c2.len() ==> #[trigger] c2[i] == c1[r[i]],
        forall|i: int| 0 <= i < c2.len() ==> #[trigger] key(c2[i]) == key(s2[i]),
        forall|i: int, j: int|
            0 <= i < j < s2.len() && #[trigger] key(s2[i]) == #[trigger] key(s2[j]) ==> r[i] < r[j],
    ensures
        stable_sorted(c1, key) == stable_sorted(c2, key),
{
    assert forall|i: int, j: int|
        0 <= i < j < c2.len() && #[trigger] key(c2[i]) == #[trigger] key(c2[j]) implies r[i]
        < r[j] by {
        assert(key(s2[i]) == key(s2[j]));
    }
    assert(reorders_stably(c1, c2, r, rinv, key));
    lemma_stable_sort_reorder(c1, c2, r, rinv, key);
}

proof fn lemma_arguments_agree(a1: Seq<SpecArgument>, a2: Seq<SpecArgument>)
    requires
        reorders_with(a1, a2, argument_key_fn(), argument_eq_fn()),
    ensures
        sorted_arguments(a1) == sorted_arguments(a2),
{
    let (r, rinv) = choose|r: Seq<int>, rinv: Seq<int>|
        #[trigger] is_perm(r, rinv, a1.len() as int) && reorders_with_via(
            a1,
            a2,
            r,
            argument_key_fn(),
            argument_eq_fn(),
        );
    assert forall|i: int| 0 <= i < a2.len() implies #[trigger] a2[i] == a1[r[i]] by {
        assert(argument_eq_fn()(a1[r[i]], a2[i]));
    }
    lemma_agree_list(a2, a1, a2, r, rinv, argument_key_fn());
}

proof fn lemma_directive_agree(d1: SpecDirective, d2: SpecDirective)
    requires
        reorders_directive(d1, d2),
    ensures
        sort_directive_spec(d1) == sort_directive_spec(d2),
{
    lemma_arguments_agree(d1.arguments, d2.arguments);
}

proof fn lemma_each_directive_agree(ds1: Seq<SpecDirective>, ds2: Seq<SpecDirective>)
    requires
        reorders_directives_in_place(ds1, ds2),
    ensures
        sort_each_directive_spec(ds1) == sort_each_directive_spec(ds2),
{
    assert forall|i: int| 0 <= i < ds1.len() implies sort_each_directive_spec(ds1)[i]
        == sort_each_directive_spec(ds2)[i] by {
        assert(directive_rel_fn()(ds1[i], ds2[i]));
        lemma_directive_agree(ds1[i], ds2[i]);
    }
    assert(sort_each_directive_spec(ds1) =~= sort_each_directive_spec(ds2));
}

proof fn lemma_directives_agree(ds1: Seq<SpecDirective>, ds2: Seq<SpecDirective>)
    requires
        reorders_directives(ds1, ds2),
    ensures
        sorted_directives(ds1) == sorted_directives(ds2),
{
    let (r, rinv) = choose|r: Seq<int>, rinv: Seq<int>|
        #[trigger] is_perm(r, rinv, ds1.len() as int) && reorders_with_via(
            ds1,
            ds2,
            r,
            directive_key_fn(),
            directive_rel_fn(),
        );
    let (c1, c2) = (sort_each_directive_spec(ds1), sort_each_directive_spec(ds2));
    assert forall|i: int| 0 <= i < c2.len() implies #[trigger] c2[i] == c1[r[i]] by {
        assert(directive_rel_fn()(ds1[r[i]], ds2[i]));
        lemma_directive_agree(ds1[r[i]], ds2[i]);
    }
    assert forall|i: int| 0 <= i < c2.len() implies #[trigger] directive_key_fn()(c2[i])
        == directive_key_fn()(ds2[i]) by {}
    lemma_agree_list(ds2, c1, c2, r, rinv, directive_key_fn());
}

proof fn lemma_variables_agree(vs1: Seq<SpecVariableDefinition>, vs2: Seq<SpecVariableDefinition>)
    requires
        reorders_variables(vs1, vs2),
    ensures
        sorted_variables(vs1) == sorted_variables(vs2),
{
    let (r, rinv) = choose|r: Seq<int>, rinv: Seq<int>|
        #[trigger] is_perm(r, rinv, vs1.len() as int) && reorders_with_via(
            vs1,
            vs2,
            r,
            variable_key_fn(),
            variable_rel_fn(),
        );
    let (c1, c2) = (sort_each_variable_spec(vs1), sort_each_variable_spec(vs2));
    assert forall|i: int| 0 <= i < c2.len() implies #[trigger] c2[i] == c1[r[i]] by {
        assert(variable_rel_fn()(vs1[r[i]], vs2[i]));
        lemma_each_directive_agree(vs1[r[i]].directives, vs2[i].directives);
    }
    assert forall|i: int| 0 <= i < c2.len() implies #[trigger] variable_key_fn()(c2[i])
        == variable_key_fn()(vs2[i]) by {}
    lemma_agree_list(vs2, c1, c2, r, rinv, variable_key_fn());
}

proof fn lemma_selection_key_kept(x: SpecSelection)
    ensures
        selection_key(sort_selection_spec(x)) == selection_key(x),
{
}

proof fn lemma_selection_set_agree(a: SpecSelectionSet, b: SpecSelectionSet)
    requires
        reorders_selection_set(a, b),
    ensures
        sorted_selection_set(a) == sorted_selection_set(b),
    decreases b,
{
    let n = a.selections.len() as int;
    let (r, rinv) = choose|r: Seq<int>, rinv: Seq<int>|
        #[trigger] is_perm(r, rinv, n) && {
            &&& b.selections.len() == a.selections.len()
            &&& forall|i: int|
                0 <= i < b.selections.len() ==> reorders_selection(
                    a.selections[r[i]],
                    #[trigger] b.selections[i],
                )
            &&& forall|i: int, j: int|
                0 <= i < j < b.selections.len() && #[trigger] selection_key(b.selections[i])
                    == #[trigger] selection_key(b.selections[j]) ==> r[i] < r[j]
        };
    let (c1, c2) = (
        sort_each_selection_spec(a.selections),
        sort_each_selection_spec(b.selections),
    );
    assert forall|i: int| 0 <= i < c2.len() implies #[trigger] c2[i] == c1[r[i]] by {
        lemma_selection_agree(a.selections[r[i]], b.selections[i]);
    }
    assert forall|i: int| 0 <= i < c2.len() implies #[trigger] selection_key_fn()(c2[i])
        == selection_key_fn()(b.selections[i]) by {
        lemma_selection_key_kept(b.selections[i]);
    }
    assert forall|i: int, j: int|
        0 <= i < j < b.selections.len() && #[trigger] selection_key_fn()(b.selections[i])
            == #[trigger] selection_key_fn()(b.selections[j]) implies r[i] < r[j] by {
        assert(selection_key(b.selections[i]) == selection_key(b.selections[j]));
    }
    lemma_agree_list(b.selections, c1, c2, r, rinv, selection_key_fn());
}

proof fn lemma_selection_agree(x: SpecSelection, y: SpecSelection)
    requires
        reorders_selection(x, y),
    ensures
        sort_selection_spec(x) == sort_selection_spec(y),
    decreases y,
{
    match (x, y) {
        (SpecSelection::Field(f1), SpecSelection::Field(f2)) => {
            lemma_arguments_agree(f1.arguments, f2.arguments);
            lemma_each_directive_agree(f1.directives, f2.directives);
            if let (Some(s1), Some(s2)) = (f1.selection_set, f2.selection_set) {
                lemma_selection_set_agree(s1, s2);
            }
        },
        (SpecSelection::FragmentSpread(a), SpecSelection::FragmentSpread(b)) => {
            lemma_directives_agree(a.directives, b.directives);
        },
        (SpecSelection::InlineFragment(a), SpecSelection::InlineFragment(b)) => {
            lemma_directives_agree(a.directives, b.directives);
            lemma_selection_set_agree(a.selection_set, b.selection_set);
        },
        _ => {},
    }
}

proof fn lemma_definition_agree(d: SpecDefinition, e: SpecDefinition)
    requires
        reorders_definition(d, e),
    ensures
        sort_definition_spec(d) == sort_definition_spec(e),
{
    match (d, e) {
        (SpecDefinition::Operation(a), SpecDefinition::Operation(b)) => {
            lemma_variables_agree(a.variable_definitions, b.variable_definitions);
            lemma_each_directive_agree(a.directives, b.directives);
            lemma_selection_set_agree(a.selection_set, b.selection_set);
        },
        (SpecDefinition::Fragment(a), SpecDefinition::Fragment(b)) => {
            lemma_variables_agree(a.variable_definitions, b.variable_definitions);
            lemma_directives_agree(a.directives, b.directives);
            lemma_selection_set_agree(a.selection_set, b.selection_set);
        },
        _ => {},
    }
}

/// Two documents that differ only in the order of fields, spreads, inline
/// fragments, definitions, arguments, variable definitions, or sortable
/// directives normalize to the same document, provided siblings with equal
/// keys appear in the same relative order in both.
pub proof fn law_sort_ignores_sibling_order(d1: SpecDocument, d2: SpecDocument)
    requires
        reorders_document(d1, d2),
    ensures
        sorted_document(d1) == sorted_document(d2),
{
    let (s1, s2) = (d1.definitions, d2.definitions);
    let (r, rinv) = choose|r: Seq<int>, rinv: Seq<int>|
        #[trigger] is_perm(r, rinv, s1.len() as int) && reorders_with_via(
            s1,
            s2,
            r,
            definition_key_fn(),
            definition_rel_fn(),
        );
    let (c1, c2) = (sort_each_definition_spec(s1), sort_each_definition_spec(s2));
    assert forall|i: int| 0 <= i < c2.len() implies #[trigger] c2[i] == c1[r[i]] by {
        assert(definition_rel_fn()(s1[r[i]], s2[i]));
        lemma_definition_agree(s1[r[i]], s2[i]);
    }
    assert forall|i: int| 0 <= i < c2.len() implies #[trigger] definition_key_fn()(c2[i])
        == definition_key_fn()(s2[i]) by {}
    lemma_agree_list(s2, c1, c2, r, rinv, definition_key_fn());
}

// ---------------------------------------------------------------------------
// The sorted document is in order, and sorting it again changes nothing
// ---------------------------------------------------------------------------

pub open spec fn arguments_in_order(a: Seq<SpecArgument>) -> bool {
    sorted_by(a, argument_key_fn())
}

pub open spec fn each_directive_in_order(ds: Seq<SpecDirective>) -> bool {
    forall|i: int| 0 <= i < ds.len() ==> arguments_in_order(#[trigger] ds[i].arguments)
}

pub open spec fn directives_in_order(ds: Seq<SpecDirective>) -> bool {
    sorted_by(ds, directive_key_fn()) && each_directive_in_order(ds)
}

pub open spec fn variables_in_order(vs: Seq<SpecVariableDefinition>) -> bool {
    &&& sorted_by(vs, variable_key_fn())
    &&& forall|i: int| 0 <= i < vs.len() ==> each_directive_in_order(#[trigger] vs[i].directives)
}

/// Every sortable list of the selection set, at every depth, is in key order.
pub open spec fn selection_set_in_order(s: SpecSelectionSet) -> bool
    decreases s,
{
    &&& sorted_by(s.selections, selection_key_fn())
    &&& forall|i: int| 0 <= i < s.selections.len() ==> selection_in_order(#[trigger] s.selections[i])
}

pub open spec fn selection_in_order(x: SpecSelection) -> bool
    decreases x,
{
    match x {
        SpecSelection::Field(f) => {
            &&& arguments_in_order(f.arguments)
            &&& each_directive_in_order(f.directives)
            &&& match f.selection_set {
                Some(set) => selection_set_in_order(set),
                None => true,
            }
        },
        SpecSelection::FragmentSpread(sp) => directives_in_order(sp.directives),
        SpecSelection::InlineFragment(inl) => {
            &&& directives_in_order(inl.directives)
            &&& selection_set_in_order(inl.selection_set)
        },
    }
}

pub open spec fn definition_in_order(d: SpecDefinition) -> bool {
    match d {
        SpecDefinition::Operation(op) => {
            &&& variables_in_order(op.variable_definitions)
            &&& each_directive_in_order(op.directives)
            &&& selection_set_in_order(op.selection_set)
        },
        SpecDefinition::Fragment(fr) => {
            &&& variables_in_order(fr.variable_definitions)
            &&& directives_in_order(fr.directives)
            &&& selection_set_in_order(fr.selection_set)
        },
    }
}

/// Every sortable list of the document, at every depth, is in key order.
pub open spec fn document_in_order(d: SpecDocument) -> bool {
    &&& sorted_by(d.definitions, definition_key_fn())
    &&& forall|i: int| 0 <= i < d.definitions.len() ==> definition_in_order(#[trigger] d.definitions[i])
}

proof fn lemma_sorted_arguments_in_order(a: Seq<SpecArgument>)
    ensures
        arguments_in_order(sorted_arguments(a)),
{
    lemma_stable_witness(a, argument_key_fn());
}

proof fn lemma_each_directive_result_in_order(ds: Seq<SpecDirective>)
    ensures
        each_directive_in_order(sort_each_directive_spec(ds)),
{
    assert forall|i: int| 0 <= i < ds.len() implies arguments_in_order(
        #[trigger] sort_each_directive_spec(ds)[i].arguments,
    ) by {
        lemma_sorted_arguments_in_order(ds[i].arguments);
    }
}

proof fn lemma_directives_result_in_order(ds: Seq<SpecDirective>)
    ensures
        directives_in_order(sorted_directives(ds)),
{
    let c = sort_each_directive_spec(ds);
    let (p, q) = lemma_stable_witness(c, directive_key_fn());
    let out = sorted_directives(ds);
    lemma_each_directive_result_in_order(ds);
    assert forall|i: int| 0 <= i < out.len() implies arguments_in_order(
        #[trigger] out[i].arguments,
    ) by {
        assert(out[i] == c[p[i]]);
    }
}

proof fn lemma_variables_result_in_order(vs: Seq<SpecVariableDefinition>)
    ensures
        variables_in_order(sorted_variables(vs)),
{
    let c = sort_each_variable_spec(vs);
    let (p, q) = lemma_stable_witness(c, variable_key_fn());
    let out = sorted_variables(vs);
    assert forall|i: int| 0 <= i < out.len() implies each_directive_in_order(
        #[trigger] out[i].directives,
    ) by {
        assert(out[i] == c[p[i]]);
        lemma_each_directive_result_in_order(vs[p[i]].directives);
    }
}

proof fn lemma_selection_set_result_in_order(s: SpecSelectionSet)
    ensures
        selection_set_in_order(sorted_selection_set(s)),
    decreases s,
{
    let c = sort_each_selection_spec(s.selections);
    let (p, q) = lemma_stable_witness(c, selection_key_fn());
    let out = sorted_selection_set(s).selections;
    assert forall|i: int| 0 <= i < out.len() implies selection_in_order(#[trigger] out[i]) by {
        assert(out[i] == c[p[i]]);
        lemma_selection_result_in_order(s.selections[p[i]]);
    }
}

proof fn lemma_selection_result_in_order(x: SpecSelection)
    ensures
        selection_in_order(sort_selection_spec(x)),
    decreases x,
{
    match x {
        SpecSelection::Field(f) => {
            lemma_sorted_arguments_in_order(f.arguments);
            lemma_each_directive_result_in_order(f.directives);
            if let Some(set) = f.selection_set {
                lemma_selection_set_result_in_order(set);
            }
        },
        SpecSelection::FragmentSpread(sp) => {
            lemma_directives_result_in_order(sp.directives);
        },
        SpecSelection::InlineFragment(inl) => {
            lemma_directives_result_in_order(inl.directives);
            lemma_selection_set_result_in_order(inl.selection_set);
        },
    }
}

proof fn lemma_definition_result_in_order(d: SpecDefinition)
    ensures
        definition_in_order(sort_definition_spec(d)),
{
    match d {
        SpecDefinition::Operation(op) => {
            lemma_variables_result_in_order(op.variable_definitions);
            lemma_each_directive_result_in_order(op.directives);
            lemma_selection_set_result_in_order(op.selection_set);
        },
        SpecDefinition::Fragment(fr) => {
            lemma_variables_result_in_order(fr.variable_definitions);
            lemma_directives_result_in_order(fr.directives);
            lemma_selection_set_result_in_order(fr.selection_set);
        },
    }
}

/// Every sortable list of the sorted document, at every depth, is
/// non-decreasing under the transform's keys.
pub proof fn law_sort_result_is_sorted(d: SpecDocument)
    ensures
        document_in_order(sorted_document(d)),
{
    let c = sort_each_definition_spec(d.definitions);
    let (p, q) = lemma_stable_witness(c, definition_key_fn());
    let out = sorted_document(d).definitions;
    assert forall|i: int| 0 <= i < out.len() implies definition_in_order(#[trigger] out[i]) by {
        assert(out[i] == c[p[i]]);
        lemma_definition_result_in_order(d.definitions[p[i]]);
    }
}

proof fn lemma_arguments_in_order_fixed(a: Seq<SpecArgument>)
    requires
        arguments_in_order(a),
    ensures
        sorted_arguments(a) == a,
{
    lemma_stable_sorted_of_sorted(a, argument_key_fn());
}

proof fn lemma_each_directive_fixed(ds: Seq<SpecDirective>)
    requires
        each_directive_in_order(ds),
    ensures
        sort_each_directive_spec(ds) == ds,
{
    assert forall|i: int| 0 <= i < ds.len() implies sort_each_directive_spec(ds)[i] == ds[i] by {
        lemma_arguments_in_order_fixed(ds[i].arguments);
    }
    assert(sort_each_directive_spec(ds) =~= ds);
}

proof fn lemma_directives_fixed(ds: Seq<SpecDirective>)
    requires
        directives_in_order(ds),
    ensures
        sorted_directives(ds) == ds,
{
    lemma_each_directive_fixed(ds);
    lemma_stable_sorted_of_sorted(ds, directive_key_fn());
}

proof fn lemma_variables_fixed(vs: Seq<SpecVariableDefinition>)
    requires
        variables_in_order(vs),
    ensures
        sorted_variables(vs) == vs,
{
    assert forall|i: int| 0 <= i < vs.len() implies sort_each_variable_spec(vs)[i] == vs[i] by {
        lemma_each_directive_fixed(vs[i].directives);
    }
    assert(sort_each_variable_spec(vs) =~= vs);
    lemma_stable_sorted_of_sorted(vs, variable_key_fn());
}

proof fn lemma_selection_set_fixed(s: SpecSelectionSet)
    requires
        selection_set_in_order(s),
    ensures
        sorted_selection_set(s) == s,
    decreases s,
{
    let c = sort_each_selection_spec(s.selections);
    assert forall|i: int| 0 <= i < s.selections.len() implies c[i] == s.selections[i] by {
        lemma_selection_fixed(s.selections[i]);
    }
    assert(c =~= s.selections);
    lemma_stable_sorted_of_sorted(s.selections, selection_key_fn());
}

proof fn lemma_selection_fixed(x: SpecSelection)
    requires
        selection_in_order(x),
    ensures
        sort_selection_spec(x) == x,
    decreases x,
{
    match x {
        SpecSelection::Field(f) => {
            lemma_arguments_in_order_fixed(f.arguments);
            lemma_each_directive_fixed(f.directives);
            if let Some(set) = f.selection_set {
                lemma_selection_set_fixed(set);
            }
        },
        SpecSelection::FragmentSpread(sp) => {
            lemma_directives_fixed(sp.directives);
        },
        SpecSelection::InlineFragment(inl) => {
            lemma_directives_fixed(inl.directives);
            lemma_selection_set_fixed(inl.selection_set);
        },
    }
}

proof fn lemma_definition_fixed(d: SpecDefinition)
    requires
        definition_in_order(d),
    ensures
        sort_definition_spec(d) == d,
{
    match d {
        SpecDefinition::Operation(op) => {
            lemma_variables_fixed(op.variable_definitions);
            lemma_each_directive_fixed(op.directives);
            lemma_selection_set_fixed(op.selection_set);
        },
        SpecDefinition::Fragment(fr) => {
            lemma_variables_fixed(fr.variable_definitions);
            lemma_directives_fixed(fr.directives);
            lemma_selection_set_fixed(fr.selection_set);
        },
    }
}

/// A document whose sortable lists are all in order is left unchanged.
pub proof fn law_sort_keeps_ordered_document(d: SpecDocument)
    requires
        document_in_order(d),
    ensures
        sorted_document(d) == d,
{
    let c = sort_each_definition_spec(d.definitions);
    assert forall|i: int| 0 <= i < d.definitions.len() implies c[i] == d.definitions[i] by {
        lemma_definition_fixed(d.definitions[i]);
    }
    assert(c =~= d.definitions);
    lemma_stable_sorted_of_sorted(d.definitions, definition_key_fn());
}

/// Sorting an already-sorted document is a no-op.
pub proof fn law_sort_idempotent(d: SpecDocument)
    ensures
        sorted_document(sorted_document(d)) == sorted_document(d),
{
    law_sort_result_is_sorted(d);
    law_sort_keeps_ordered_document(sorted_document(d));
}

// ---------------------------------------------------------------------------
// The canonical order, by name
// ---------------------------------------------------------------------------

/// `a` does not rank after `b`: compared by UTF-16 code units.
pub open spec fn name_le(a: Seq<char>, b: Seq<char>) -> bool {
    !units_lt(utf16(b), utf16(a))
}

/// `a` may stand before `b` among sorted definitions: fragments come before
/// operations; fragments go by fragment name; named operations go by name and
/// before anonymous ones.
pub open spec fn definitions_ordered(a: SpecDefinition, b: SpecDefinition) -> bool {
    match (a, b) {
        (SpecDefinition::Fragment(x), SpecDefinition::Fragment(y)) => name_le(x.name, y.name),
        (SpecDefinition::Fragment(_), SpecDefinition::Operation(_)) => true,
        (SpecDefinition::Operation(_), SpecDefinition::Fragment(_)) => false,
        (SpecDefinition::Operation(x), SpecDefinition::Operation(y)) => match (x.name, y.name) {
            (Some(m), Some(n)) => name_le(m, n),
            (Some(_), None) => true,
            (None, Some(_)) => false,
            (None, None) => true,
        },
    }
}

/// `a` may stand before `b` among sorted selections: fields by name, then
/// fragment spreads by fragment name, then inline fragments.
pub open spec fn selections_ordered(a: SpecSelection, b: SpecSelection) -> bool {
    match (a, b) {
        (SpecSelection::Field(x), SpecSelection::Field(y)) => name_le(x.name, y.name),
        (SpecSelection::Field(_), _) => true,
        (SpecSelection::FragmentSpread(x), SpecSelection::FragmentSpread(y)) => name_le(
            x.fragment_name,
            y.fragment_name,
        ),
        (SpecSelection::FragmentSpread(_), SpecSelection::InlineFragment(_)) => true,
        (SpecSelection::InlineFragment(_), SpecSelection::InlineFragment(_)) => true,
        _ => false,
    }
}

/// The definitions of a sorted document: fragments first, ordered by their
/// names; then operations, named ones by name and anonymous ones last.
pub proof fn law_sorted_definitions_by_kind_then_name(d: SpecDocument)
    ensures
        forall|i: int, j: int|
            0 <= i < j < sorted_document(d).definitions.len() ==> definitions_ordered(
                #[trigger] sorted_document(d).definitions[i],
                #[trigger] sorted_document(d).definitions[j],
            ),
{
    let out = sorted_document(d).definitions;
    lemma_stable_witness(sort_each_definition_spec(d.definitions), definition_key_fn());
    assert forall|i: int, j: int| 0 <= i < j < out.len() implies definitions_ordered(
        #[trigger] out[i],
        #[trigger] out[j],
    ) by {
        assert(!key_lt(definition_key_fn()(out[j]), definition_key_fn()(out[i])));
    }
}

/// The selections of a sorted selection set: fields ordered by name, then
/// fragment spreads ordered by fragment name, then inline fragments.
pub proof fn law_sorted_selections_by_kind_then_name(s: SpecSelectionSet)
    ensures
        forall|i: int, j: int|
            0 <= i < j < sorted_selection_set(s).selections.len() ==> selections_ordered(
                #[trigger] sorted_selection_set(s).selections[i],
                #[trigger] sorted_selection_set(s).selections[j],
            ),
{
    let out = sorted_selection_set(s).selections;
    lemma_stable_witness(sort_each_selection_spec(s.selections), selection_key_fn());
    assert forall|i: int, j: int| 0 <= i < j < out.len() implies selections_ordered(
        #[trigger] out[i],
        #[trigger] out[j],
    ) by {
        assert(!key_lt(selection_key_fn()(out[j]), selection_key_fn()(out[i])));
    }
}

/// Sorted arguments are ordered by argument name.
pub proof fn law_sorted_arguments_by_name(a: Seq<SpecArgument>)
    ensures
        forall|i: int, j: int|
            0 <= i < j < sorted_arguments(a).len() ==> name_le(
                #[trigger] sorted_arguments(a)[i].name,
                #[trigger] sorted_arguments(a)[j].name,
            ),
{
    let out = sorted_arguments(a);
    lemma_stable_witness(a, argument_key_fn());
    assert forall|i: int, j: int| 0 <= i < j < out.len() implies name_le(
        #[trigger] out[i].name,
        #[trigger] out[j].name,
    ) by {
        assert(!key_lt(argument_key_fn()(out[j]), argument_key_fn()(out[i])));
    }
}

/// Sorted directive lists are ordered by directive name.
pub proof fn law_sorted_directives_by_name(ds: Seq<SpecDirective>)
    ensures
        forall|i: int, j: int|
            0 <= i < j < sorted_directives(ds).len() ==> name_le(
                #[trigger] sorted_directives(ds)[i].name,
                #[trigger] sorted_directives(ds)[j].name,
            ),
{
    let out = sorted_directives(ds);
    lemma_stable_witness(sort_each_directive_spec(ds), directive_key_fn());
    assert forall|i: int, j: int| 0 <= i < j < out.len() implies name_le(
        #[trigger] out[i].name,
        #[trigger] out[j].name,
    ) by {
        assert(!key_lt(directive_key_fn()(out[j]), directive_key_fn()(out[i])));
    }
}

/// Sorted variable definitions are ordered by variable name.
pub proof fn law_sorted_variables_by_name(vs: Seq<SpecVariableDefinition>)
    ensures
        forall|i: int, j: int|
            0 <= i < j < sorted_variables(vs).len() ==> name_le(
                #[trigger] sorted_variables(vs)[i].name,
                #[trigger] sorted_variables(vs)[j].name,
            ),
{
    let out = sorted_variables(vs);
    lemma_stable_witness(sort_each_variable_spec(vs), variable_key_fn());
    assert forall|i: int, j: int| 0 <= i < j < out.len() implies name_le(
        #[trigger] out[i].name,
        #[trigger] out[j].name,
    ) by {
        assert(!key_lt(variable_key_fn()(out[j]), variable_key_fn()(out[i])));
    }
}

} // verus!
