//! AST types for executable GraphQL documents, and their mathematical views.
//!
//! The executable types mirror the grammar of executable documents:
//! operations, fragments, selection sets, fields, spreads, inline fragments,
//! arguments, directives, variable definitions, types, and values. Each type
//! has a view (`@`) in which strings are `Seq<char>` and lists are `Seq`s of
//! views; every contract of the library is stated over these views.
use vstd::prelude::*;

verus! {

/// A parsed executable GraphQL document.
#[derive(Debug, PartialEq, Eq, Hash)]
pub struct Document {
    /// Top-level definitions: operations and fragment definitions.
    pub definitions: Vec<Definition>,
}

/// A top-level definition in a document.
#[derive(Debug, PartialEq, Eq, Hash)]
pub enum Definition {
    /// An operation definition (query, mutation, or subscription).
    Operation(OperationDefinition),
    /// A fragment definition.
    Fragment(FragmentDefinition),
}

/// The operation kind keyword.
#[derive(Debug, Clone, Copy, PartialEq, Eq, Hash, Structural)]
pub enum OperationType {
    /// `query`
    Query,
    /// `mutation`
    Mutation,
    /// `subscription`
    Subscription,
}

/// An operation definition. With no name, no variable definitions and no
/// directives, a query prints as a bare selection set.
#[derive(Debug, PartialEq, Eq, Hash)]
pub struct OperationDefinition {
    /// Operation kind. Always `Query` for the shorthand selection-set form.
    pub operation: OperationType,
    /// Operation name, absent for anonymous operations.
    pub name: Option<String>,
    /// Variable definitions.
    pub variable_definitions: Vec<VariableDefinition>,
    /// Directives applied to the operation.
    pub directives: Vec<Directive>,
    /// The operation body.
    pub selection_set: SelectionSet,
}

/// A fragment definition (`fragment Name on Type { ... }`).
#[derive(Debug, PartialEq, Eq, Hash)]
pub struct FragmentDefinition {
    /// Fragment name.
    pub name: String,
    /// Variable definitions. Empty in standard GraphQL.
    pub variable_definitions: Vec<VariableDefinition>,
    /// The type condition after `on`.
    pub type_condition: String,
    /// Directives applied to the fragment definition.
    pub directives: Vec<Directive>,
    /// The fragment body.
    pub selection_set: SelectionSet,
}

/// A variable definition (`$name: Type = default @directives`).
#[derive(Debug, PartialEq, Eq, Hash)]
pub struct VariableDefinition {
    /// Variable name without the leading `$`.
    pub name: String,
    /// Declared type.
    pub ty: Type,
    /// Default value, if any.
    pub default_value: Option<Value>,
    /// Directives applied to the variable definition, kept in source order.
    pub directives: Vec<Directive>,
}

/// A GraphQL type reference.
#[derive(Debug, PartialEq, Eq, Hash)]
pub enum Type {
    /// A named type such as `Int`.
    Named(String),
    /// A list type such as `[Int]`.
    List(Box<Type>),
    /// A non-null wrapper such as `Int!`.
    NonNull(Box<Type>),
}

/// A selection set (`{ ... }`).
#[derive(Debug, PartialEq, Eq, Hash)]
pub struct SelectionSet {
    /// The selections.
    pub selections: Vec<Selection>,
}

/// One selection inside a selection set.
#[derive(Debug, PartialEq, Eq, Hash)]
pub enum Selection {
    /// A field selection.
    Field(Field),
    /// A fragment spread (`...Name`).
    FragmentSpread(FragmentSpread),
    /// An inline fragment (`... on Type { ... }`).
    InlineFragment(InlineFragment),
}

/// A field selection.
#[derive(Debug, PartialEq, Eq, Hash)]
pub struct Field {
    /// Optional alias.
    pub alias: Option<String>,
    /// Field name.
    pub name: String,
    /// Arguments.
    pub arguments: Vec<Argument>,
    /// Directives applied to the field.
    pub directives: Vec<Directive>,
    /// Nested selection set. `None` when the field is a leaf with no body.
    pub selection_set: Option<SelectionSet>,
}

/// A fragment spread (`...Name`).
#[derive(Debug, PartialEq, Eq, Hash)]
pub struct FragmentSpread {
    /// The referenced fragment name.
    pub fragment_name: String,
    /// Directives applied to the spread.
    pub directives: Vec<Directive>,
}

/// An inline fragment (`... on Type { ... }`). It carries no name.
#[derive(Debug, PartialEq, Eq, Hash)]
pub struct InlineFragment {
    /// Optional type condition after `on`.
    pub type_condition: Option<String>,
    /// Directives applied to the inline fragment.
    pub directives: Vec<Directive>,
    /// The inline fragment body.
    pub selection_set: SelectionSet,
}

/// A directive (`@name(args)`).
#[derive(Debug, PartialEq, Eq, Hash)]
pub struct Directive {
    /// Directive name without the leading `@`.
    pub name: String,
    /// Directive arguments.
    pub arguments: Vec<Argument>,
}

/// A named argument (`name: value`).
#[derive(Debug, PartialEq, Eq, Hash)]
pub struct Argument {
    /// Argument name.
    pub name: String,
    /// Argument value.
    pub value: Value,
}

/// A GraphQL value literal. List elements and object fields keep the order
/// in which they were written.
#[derive(Debug, PartialEq, Eq, Hash)]
pub enum Value {
    /// A variable reference (`$name`).
    Variable(String),
    /// An integer literal, kept as its source text.
    Int(String),
    /// A float literal, kept as its source text.
    Float(String),
    /// A string literal value (already unescaped).
    String(String),
    /// A boolean literal.
    Boolean(bool),
    /// The null literal.
    Null,
    /// An enum value.
    Enum(String),
    /// A list literal.
    List(Vec<Value>),
    /// An object literal.
    Object(Vec<(String, Value)>),
}

// ---------------------------------------------------------------------------
// Views
// ---------------------------------------------------------------------------

/// View of a [`Document`].
pub struct SpecDocument {
    pub definitions: Seq<SpecDefinition>,
}

/// View of a [`Definition`].
pub enum SpecDefinition {
    Operation(SpecOperation),
    Fragment(SpecFragment),
}

/// View of an [`OperationDefinition`].
pub struct SpecOperation {
    pub operation: OperationType,
    pub name: Option<Seq<char>>,
    pub variable_definitions: Seq<SpecVariableDefinition>,
    pub directives: Seq<SpecDirective>,
    pub selection_set: SpecSelectionSet,
}

/// View of a [`FragmentDefinition`].
pub struct SpecFragment {
    pub name: Seq<char>,
    pub variable_definitions: Seq<SpecVariableDefinition>,
    pub type_condition: Seq<char>,
    pub directives: Seq<SpecDirective>,
    pub selection_set: SpecSelectionSet,
}

/// View of a [`VariableDefinition`].
pub struct SpecVariableDefinition {
    pub name: Seq<char>,
    pub ty: SpecType,
    pub default_value: Option<SpecValue>,
    pub directives: Seq<SpecDirective>,
}

/// View of a [`Type`].
pub enum SpecType {
    Named(Seq<char>),
    List(Box<SpecType>),
    NonNull(Box<SpecType>),
}

/// View of a [`SelectionSet`].
pub struct SpecSelectionSet {
    pub selections: Seq<SpecSelection>,
}

/// View of a [`Selection`].
pub enum SpecSelection {
    Field(SpecField),
    FragmentSpread(SpecFragmentSpread),
    InlineFragment(SpecInlineFragment),
}

/// View of a [`Field`].
pub struct SpecField {
    pub alias: Option<Seq<char>>,
    pub name: Seq<char>,
    pub arguments: Seq<SpecArgument>,
    pub directives: Seq<SpecDirective>,
    pub selection_set: Option<SpecSelectionSet>,
}

/// View of a [`FragmentSpread`].
pub struct SpecFragmentSpread {
    pub fragment_name: Seq<char>,
    pub directives: Seq<SpecDirective>,
}

/// View of an [`InlineFragment`].
pub struct SpecInlineFragment {
    pub type_condition: Option<Seq<char>>,
    pub directives: Seq<SpecDirective>,
    pub selection_set: SpecSelectionSet,
}

/// View of a [`Directive`].
pub struct SpecDirective {
    pub name: Seq<char>,
    pub arguments: Seq<SpecArgument>,
}

/// View of an [`Argument`].
pub struct SpecArgument {
    pub name: Seq<char>,
    pub value: SpecValue,
}

/// View of a [`Value`].
pub enum SpecValue {
    Variable(Seq<char>),
    Int(Seq<char>),
    Float(Seq<char>),
    String(Seq<char>),
    Boolean(bool),
    Null,
    Enum(Seq<char>),
    List(Seq<SpecValue>),
    Object(Seq<(Seq<char>, SpecValue)>),
}

/// The views of a list of arguments.
pub open spec fn arguments_view(v: Seq<Argument>) -> Seq<SpecArgument> {
    v.map_values(|a: Argument| a@)
}

/// The views of a list of directives.
pub open spec fn directives_view(v: Seq<Directive>) -> Seq<SpecDirective> {
    v.map_values(|d: Directive| d@)
}

/// The views of a list of variable definitions.
pub open spec fn variables_view(v: Seq<VariableDefinition>) -> Seq<SpecVariableDefinition> {
    v.map_values(|d: VariableDefinition| d@)
}

/// The views of a list of definitions.
pub open spec fn definitions_view(v: Seq<Definition>) -> Seq<SpecDefinition> {
    v.map_values(|d: Definition| d@)
}

/// The view of an optional string.
pub open spec fn opt_str_view(s: Option<String>) -> Option<Seq<char>> {
    match s {
        Some(s) => Some(s@),
        None => None,
    }
}

/// The views of a list of values.
pub open spec fn values_view(s: Seq<Value>) -> Seq<SpecValue>
    decreases s,
{
    Seq::new(
        s.len(),
        |i: int|
            if 0 <= i < s.len() {
                value_view(s[i])
            } else {
                SpecValue::Null
            },
    )
}

/// The views of the fields of an object literal.
pub open spec fn object_fields_view(s: Seq<(String, Value)>) -> Seq<(Seq<char>, SpecValue)>
    decreases s,
{
    Seq::new(
        s.len(),
        |i: int|
            if 0 <= i < s.len() {
                (s[i].0@, value_view(s[i].1))
            } else {
                (Seq::empty(), SpecValue::Null)
            },
    )
}

/// The view of a value.
pub open spec fn value_view(v: Value) -> SpecValue
    decreases v,
{
    proof {
        broadcast use vstd::std_specs::vec::axiom_vec_decreases_to_view;
    }
    match v {
        Value::Variable(s) => SpecValue::Variable(s@),
        Value::Int(s) => SpecValue::Int(s@),
        Value::Float(s) => SpecValue::Float(s@),
        Value::String(s) => SpecValue::String(s@),
        Value::Boolean(b) => SpecValue::Boolean(b),
        Value::Null => SpecValue::Null,
        Value::Enum(s) => SpecValue::Enum(s@),
        Value::List(items) => SpecValue::List(values_view(items@)),
        Value::Object(fields) => SpecValue::Object(object_fields_view(fields@)),
    }
}

impl View for Value {
    type V = SpecValue;

    open spec fn view(&self) -> SpecValue {
        value_view(*self)
    }
}

impl View for Argument {
    type V = SpecArgument;

    open spec fn view(&self) -> SpecArgument {
        SpecArgument { name: self.name@, value: self.value@ }
    }
}

impl View for Directive {
    type V = SpecDirective;

    open spec fn view(&self) -> SpecDirective {
        SpecDirective { name: self.name@, arguments: arguments_view(self.arguments@) }
    }
}

impl View for Type {
    type V = SpecType;

    open spec fn view(&self) -> SpecType
        decreases self,
    {
        match self {
            Type::Named(n) => SpecType::Named(n@),
            Type::List(inner) => SpecType::List(Box::new((**inner).view())),
            Type::NonNull(inner) => SpecType::NonNull(Box::new((**inner).view())),
        }
    }
}

impl View for VariableDefinition {
    type V = SpecVariableDefinition;

    open spec fn view(&self) -> SpecVariableDefinition {
        SpecVariableDefinition {
            name: self.name@,
            ty: self.ty@,
            default_value: match self.default_value {
                Some(v) => Some(v@),
                None => None,
            },
            directives: directives_view(self.directives@),
        }
    }
}

/// The view of a list of selections.
pub open spec fn selections_view(s: Seq<Selection>) -> Seq<SpecSelection>
    decreases s,
{
    Seq::new(
        s.len(),
        |i: int|
            if 0 <= i < s.len() {
                selection_view(s[i])
            } else {
                SpecSelection::FragmentSpread(
                    SpecFragmentSpread { fragment_name: Seq::empty(), directives: Seq::empty() },
                )
            },
    )
}

/// The view of a selection set.
pub open spec fn selection_set_view(s: SelectionSet) -> SpecSelectionSet
    decreases s,
{
    proof {
        broadcast use vstd::std_specs::vec::axiom_vec_decreases_to_view;
    }
    SpecSelectionSet { selections: selections_view(s.selections@) }
}

/// The view of a selection.
pub open spec fn selection_view(s: Selection) -> SpecSelection
    decreases s,
{
    match s {
        Selection::Field(f) => SpecSelection::Field(
            SpecField {
                alias: opt_str_view(f.alias),
                name: f.name@,
                arguments: arguments_view(f.arguments@),
                directives: directives_view(f.directives@),
                selection_set: match f.selection_set {
                    Some(set) => Some(selection_set_view(set)),
                    None => None,
                },
            },
        ),
        Selection::FragmentSpread(sp) => SpecSelection::FragmentSpread(
            SpecFragmentSpread {
                fragment_name: sp.fragment_name@,
                directives: directives_view(sp.directives@),
            },
        ),
        Selection::InlineFragment(inl) => SpecSelection::InlineFragment(
            SpecInlineFragment {
                type_condition: opt_str_view(inl.type_condition),
                directives: directives_view(inl.directives@),
                selection_set: selection_set_view(inl.selection_set),
            },
        ),
    }
}

impl View for SelectionSet {
    type V = SpecSelectionSet;

    open spec fn view(&self) -> SpecSelectionSet {
        selection_set_view(*self)
    }
}

impl View for Selection {
    type V = SpecSelection;

    open spec fn view(&self) -> SpecSelection {
        selection_view(*self)
    }
}

impl View for Field {
    type V = SpecField;

    open spec fn view(&self) -> SpecField {
        selection_view(Selection::Field(*self))->Field_0
    }
}

impl View for FragmentSpread {
    type V = SpecFragmentSpread;

    open spec fn view(&self) -> SpecFragmentSpread {
        SpecFragmentSpread {
            fragment_name: self.fragment_name@,
            directives: directives_view(self.directives@),
        }
    }
}

impl View for InlineFragment {
    type V = SpecInlineFragment;

    open spec fn view(&self) -> SpecInlineFragment {
        SpecInlineFragment {
            type_condition: opt_str_view(self.type_condition),
            directives: directives_view(self.directives@),
            selection_set: self.selection_set@,
        }
    }
}

impl View for OperationDefinition {
    type V = SpecOperation;

    open spec fn view(&self) -> SpecOperation {
        SpecOperation {
            operation: self.operation,
            name: opt_str_view(self.name),
            variable_definitions: variables_view(self.variable_definitions@),
            directives: directives_view(self.directives@),
            selection_set: self.selection_set@,
        }
    }
}

impl View for FragmentDefinition {
    type V = SpecFragment;

    open spec fn view(&self) -> SpecFragment {
        SpecFragment {
            name: self.name@,
            variable_definitions: variables_view(self.variable_definitions@),
            type_condition: self.type_condition@,
            directives: directives_view(self.directives@),
            selection_set: self.selection_set@,
        }
    }
}

impl View for Definition {
    type V = SpecDefinition;

    open spec fn view(&self) -> SpecDefinition {
        match self {
            Definition::Operation(op) => SpecDefinition::Operation(op@),
            Definition::Fragment(fr) => SpecDefinition::Fragment(fr@),
        }
    }
}

impl View for Document {
    type V = SpecDocument;

    open spec fn view(&self) -> SpecDocument {
        SpecDocument { definitions: definitions_view(self.definitions@) }
    }
}

/// The lower-case keyword of an operation kind.
pub open spec fn keyword_spec(op: OperationType) -> Seq<char> {
    match op {
        OperationType::Query => "query"@,
        OperationType::Mutation => "mutation"@,
        OperationType::Subscription => "subscription"@,
    }
}

/// Whether an operation prints as a bare selection set: a query with no name,
/// no variable definitions and no directives.
pub open spec fn is_shorthand_spec(op: SpecOperation) -> bool {
    &&& op.operation == OperationType::Query
    &&& op.name is None
    &&& op.variable_definitions.len() == 0
    &&& op.directives.len() == 0
}

impl OperationType {
    /// The lower-case keyword used when printing the operation.
    pub fn keyword(self) -> (r: &'static str)
        ensures
            r@ == keyword_spec(self),
    {
        match self {
            OperationType::Query => "query",
            OperationType::Mutation => "mutation",
            OperationType::Subscription => "subscription",
        }
    }
}

impl OperationDefinition {
    /// True when this prints as a bare selection set with no keyword or name.
    pub fn is_shorthand(&self) -> (r: bool)
        ensures
            r == is_shorthand_spec(self@),
    {
        let is_query = match self.operation {
            OperationType::Query => true,
            _ => false,
        };
        is_query && self.name.is_none() && self.variable_definitions.len() == 0
            && self.directives.len() == 0
    }
}

// ---------------------------------------------------------------------------
// Copies
// ---------------------------------------------------------------------------

fn clone_opt_string(s: &Option<String>) -> (r: Option<String>)
    ensures
        opt_str_view(r) == opt_str_view(*s),
{
    match s {
        Some(x) => Some(x.clone()),
        None => None,
    }
}

fn clone_value(v: &Value) -> (r: Value)
    ensures
        r@ == v@,
    decreases v,
{
    proof {
        broadcast use vstd::std_specs::vec::axiom_vec_decreases_to_view;
    }
    match v {
        Value::Variable(s) => Value::Variable(s.clone()),
        Value::Int(s) => Value::Int(s.clone()),
        Value::Float(s) => Value::Float(s.clone()),
        Value::String(s) => Value::String(s.clone()),
        Value::Boolean(b) => Value::Boolean(*b),
        Value::Null => Value::Null,
        Value::Enum(s) => Value::Enum(s.clone()),
        Value::List(items) => {
            let mut out: Vec<Value> = Vec::new();
            let n = items.len();
            for i in 0..n
                invariant
                    n == items@.len(),
                    *v == Value::List(*items),
                    out@.len() == i,
                    forall|k: int| 0 <= k < i ==> #[trigger] out@[k]@ == items@[k]@,
            {
                proof {
                    let ghost w = *v;
                    assert(decreases_to!(w => w->List_0));
                    assert(w->List_0 == *items);
                    assert(decreases_to!(w->List_0 => w->List_0@));
                    assert(decreases_to!(w->List_0@ => items@[i as int]));
                }
                out.push(clone_value(&items[i]));
            }
            assert forall|k: int| 0 <= k < n implies values_view(out@)[k] == values_view(
                items@,
            )[k] by {
                assert(out@[k]@ == items@[k]@);
            }
            assert(values_view(out@) =~= values_view(items@));
            Value::List(out)
        },
        Value::Object(fields) => {
            let mut out: Vec<(String, Value)> = Vec::new();
            let n = fields.len();
            for i in 0..n
                invariant
                    n == fields@.len(),
                    *v == Value::Object(*fields),
                    out@.len() == i,
                    forall|k: int| #![trigger out@[k]] 0 <= k < i ==> out@[k].0@ == fields@[k].0@,
                    forall|k: int| #![trigger out@[k]] 0 <= k < i ==> out@[k].1@ == fields@[k].1@,
            {
                proof {
                    let ghost w = *v;
                    assert(decreases_to!(w => w->Object_0));
                    assert(w->Object_0 == *fields);
                    assert(decreases_to!(w->Object_0 => w->Object_0@));
                    assert(decreases_to!(w->Object_0@ => fields@[i as int]));
                    assert(decreases_to!(fields@[i as int] => fields@[i as int].1));
                }
                let name = fields[i].0.clone();
                let value = clone_value(&fields[i].1);
                let ghost before = out@;
                out.push((name, value));
                assert(forall|k: int| 0 <= k < i ==> out@[k] == before[k]);
            }
            assert forall|k: int| 0 <= k < n implies object_fields_view(out@)[k]
                == object_fields_view(fields@)[k] by {
                assert(out@[k].0@ == fields@[k].0@ && out@[k].1@ == fields@[k].1@);
            }
            assert(object_fields_view(out@) =~= object_fields_view(fields@));
            Value::Object(out)
        },
    }
}

impl Clone for Value {
    fn clone(&self) -> (r: Self)
        ensures
            r@ == self@,
    {
        clone_value(self)
    }
}

impl Clone for Argument {
    fn clone(&self) -> (r: Self)
        ensures
            r@ == self@,
    {
        Argument { name: self.name.clone(), value: clone_value(&self.value) }
    }
}

fn clone_arguments(v: &Vec<Argument>) -> (r: Vec<Argument>)
    ensures
        arguments_view(r@) == arguments_view(v@),
{
    let mut out: Vec<Argument> = Vec::new();
    for i in 0..v.len()
        invariant
            out@.len() == i,
            forall|k: int| 0 <= k < i ==> #[trigger] out@[k]@ == v@[k]@,
    {
        out.push(v[i].clone());
    }
    assert(arguments_view(out@) =~= arguments_view(v@));
    out
}

impl Clone for Directive {
    fn clone(&self) -> (r: Self)
        ensures
            r@ == self@,
    {
        Directive { name: self.name.clone(), arguments: clone_arguments(&self.arguments) }
    }
}

fn clone_directives(v: &Vec<Directive>) -> (r: Vec<Directive>)
    ensures
        directives_view(r@) == directives_view(v@),
{
    let mut out: Vec<Directive> = Vec::new();
    for i in 0..v.len()
        invariant
            out@.len() == i,
            forall|k: int| 0 <= k < i ==> #[trigger] out@[k]@ == v@[k]@,
    {
        out.push(v[i].clone());
    }
    assert(directives_view(out@) =~= directives_view(v@));
    out
}

fn clone_type(t: &Type) -> (r: Type)
    ensures
        r@ == t@,
    decreases t,
{
    match t {
        Type::Named(n) => Type::Named(n.clone()),
        Type::List(inner) => Type::List(Box::new(clone_type(inner))),
        Type::NonNull(inner) => Type::NonNull(Box::new(clone_type(inner))),
    }
}

impl Clone for Type {
    fn clone(&self) -> (r: Self)
        ensures
            r@ == self@,
    {
        clone_type(self)
    }
}

impl Clone for VariableDefinition {
    fn clone(&self) -> (r: Self)
        ensures
            r@ == self@,
    {
        VariableDefinition {
            name: self.name.clone(),
            ty: clone_type(&self.ty),
            default_value: match &self.default_value {
                Some(v) => Some(clone_value(v)),
                None => None,
            },
            directives: clone_directives(&self.directives),
        }
    }
}

fn clone_variables(v: &Vec<VariableDefinition>) -> (r: Vec<VariableDefinition>)
    ensures
        variables_view(r@) == variables_view(v@),
{
    let mut out: Vec<VariableDefinition> = Vec::new();
    for i in 0..v.len()
        invariant
            out@.len() == i,
            forall|k: int| 0 <= k < i ==> #[trigger] out@[k]@ == v@[k]@,
    {
        out.push(v[i].clone());
    }
    assert(variables_view(out@) =~= variables_view(v@));
    out
}

fn clone_selection_set(set: &SelectionSet) -> (r: SelectionSet)
    ensures
        r@ == set@,
    decreases set,
{
    proof {
        broadcast use vstd::std_specs::vec::axiom_vec_decreases_to_view;
    }
    let mut out: Vec<Selection> = Vec::new();
    let n = set.selections.len();
    for i in 0..n
        invariant
            n == set.selections@.len(),
            out@.len() == i,
            forall|k: int| 0 <= k < i ==> #[trigger] out@[k]@ == set.selections@[k]@,
    {
        assert(decreases_to!(set => set.selections@[i as int]));
        out.push(clone_selection(&set.selections[i]));
    }
    assert forall|k: int| 0 <= k < n implies selections_view(out@)[k] == selections_view(
        set.selections@,
    )[k] by {
        assert(out@[k]@ == set.selections@[k]@);
    }
    assert(selections_view(out@) =~= selections_view(set.selections@));
    SelectionSet { selections: out }
}

fn clone_selection(x: &Selection) -> (r: Selection)
    ensures
        r@ == x@,
    decreases x,
{
    match x {
        Selection::Field(f) => Selection::Field(clone_field(f)),
        Selection::FragmentSpread(sp) => Selection::FragmentSpread(sp.clone()),
        Selection::InlineFragment(inl) => Selection::InlineFragment(clone_inline_fragment(inl)),
    }
}

fn clone_field(f: &Field) -> (r: Field)
    ensures
        r@ == f@,
    decreases f,
{
    let selection_set = match &f.selection_set {
        Some(set) => Some(clone_selection_set(set)),
        None => None,
    };
    Field {
        alias: clone_opt_string(&f.alias),
        name: f.name.clone(),
        arguments: clone_arguments(&f.arguments),
        directives: clone_directives(&f.directives),
        selection_set,
    }
}

fn clone_inline_fragment(inl: &InlineFragment) -> (r: InlineFragment)
    ensures
        r@ == inl@,
    decreases inl,
{
    InlineFragment {
        type_condition: clone_opt_string(&inl.type_condition),
        directives: clone_directives(&inl.directives),
        selection_set: clone_selection_set(&inl.selection_set),
    }
}

impl Clone for SelectionSet {
    fn clone(&self) -> (r: Self)
        ensures
            r@ == self@,
    {
        clone_selection_set(self)
    }
}

impl Clone for Selection {
    fn clone(&self) -> (r: Self)
        ensures
            r@ == self@,
    {
        clone_selection(self)
    }
}

impl Clone for Field {
    fn clone(&self) -> (r: Self)
        ensures
            r@ == self@,
    {
        clone_field(self)
    }
}

impl Clone for FragmentSpread {
    fn clone(&self) -> (r: Self)
        ensures
            r@ == self@,
    {
        FragmentSpread {
            fragment_name: self.fragment_name.clone(),
            directives: clone_directives(&self.directives),
        }
    }
}

impl Clone for InlineFragment {
    fn clone(&self) -> (r: Self)
        ensures
            r@ == self@,
    {
        clone_inline_fragment(self)
    }
}

impl Clone for OperationDefinition {
    fn clone(&self) -> (r: Self)
        ensures
            r@ == self@,
    {
        OperationDefinition {
            operation: self.operation,
            name: clone_opt_string(&self.name),
            variable_definitions: clone_variables(&self.variable_definitions),
            directives: clone_directives(&self.directives),
            selection_set: clone_selection_set(&self.selection_set),
        }
    }
}

impl Clone for FragmentDefinition {
    fn clone(&self) -> (r: Self)
        ensures
            r@ == self@,
    {
        FragmentDefinition {
            name: self.name.clone(),
            variable_definitions: clone_variables(&self.variable_definitions),
            type_condition: self.type_condition.clone(),
            directives: clone_directives(&self.directives),
            selection_set: clone_selection_set(&self.selection_set),
        }
    }
}

impl Clone for Definition {
    fn clone(&self) -> (r: Self)
        ensures
            r@ == self@,
    {
        match self {
            Definition::Operation(op) => Definition::Operation(op.clone()),
            Definition::Fragment(fr) => Definition::Fragment(fr.clone()),
        }
    }
}

impl Clone for Document {
    fn clone(&self) -> (r: Self)
        ensures
            r@ == self@,
    {
        let mut out: Vec<Definition> = Vec::new();
        for i in 0..self.definitions.len()
            invariant
                out@.len() == i,
                forall|k: int| 0 <= k < i ==> #[trigger] out@[k]@ == self.definitions@[k]@,
        {
            out.push(self.definitions[i].clone());
        }
        assert(definitions_view(out@) =~= definitions_view(self.definitions@));
        Document { definitions: out }
    }
}

} // verus!
