use vstd::prelude::*;

verus! {

/// A whole schema document: metadata, the named-definitions section,
/// and the top-level content schema.
#[derive(Debug, PartialEq, Eq)]
pub struct TopLevel {
    pub title: String,
    pub defs: Vec<(String, Schema)>,
    pub id: String,
    pub metaschema: String,
    pub description: String,
    pub content: Schema,
}

/// One node of the schema tree: a plain schema, a disjunction of
/// alternatives, or a reference to a named definition.
#[derive(Debug, PartialEq, Eq)]
pub enum Type {
    Schema(Schema),
    AnyOf(AnyOf),
    Ref(Ref),
}

/// A disjunction: the value matches any one of the alternatives.
#[derive(Debug, PartialEq, Eq)]
pub struct AnyOf {
    pub any_of: Vec<Type>,
}

/// A reference to a named definition, by a path-like pointer.
#[derive(Debug, PartialEq, Eq)]
pub struct Ref {
    pub ref_id: String,
}

/// A plain schema: an array, a primitive, or an object.
#[derive(Debug, PartialEq, Eq)]
pub enum Schema {
    Array(ArraySchema),
    Integer(IntegerSchema),
    String(StringSchema),
    Boolean(BooleanSchema),
    Object(ObjectSchema),
}

/// An array schema with homogeneous items.
#[derive(Debug, PartialEq, Eq)]
pub struct ArraySchema {
    pub items: Box<Type>,
}

/// A primitive schema, optionally restricted to one constant value or
/// to a finite set of allowed values.
#[derive(Debug, PartialEq, Eq, Default)]
pub struct SingleValueSchema<T> {
    pub const_value: Option<T>,
    pub enum_values: Option<Vec<T>>,
}

pub type IntegerSchema = SingleValueSchema<i32>;

pub type StringSchema = SingleValueSchema<String>;

pub type BooleanSchema = SingleValueSchema<bool>;

/// An object schema: named properties, a flag for undeclared
/// properties, and the list of required property names.
#[derive(Debug, PartialEq, Eq)]
pub struct ObjectSchema {
    pub properties: Vec<(String, Type)>,
    pub additional_properties: bool,
    pub required: Vec<String>,
}

/// Mathematical counterpart of `Type`.
pub enum TypeView {
    Schema(SchemaView),
    AnyOf(Seq<TypeView>),
    Ref(Seq<char>),
}

/// Mathematical counterpart of `Schema`.
pub enum SchemaView {
    Array(Box<TypeView>),
    Integer(SingleValueView<i32>),
    String(SingleValueView<Seq<char>>),
    Boolean(SingleValueView<bool>),
    Object(ObjectView),
}

/// Mathematical counterpart of `SingleValueSchema`.
pub struct SingleValueView<V> {
    pub const_value: Option<V>,
    pub enum_values: Option<Seq<V>>,
}

/// Mathematical counterpart of `TopLevel`.
pub struct TopLevelView {
    pub title: Seq<char>,
    pub defs: Seq<(Seq<char>, SchemaView)>,
    pub id: Seq<char>,
    pub metaschema: Seq<char>,
    pub description: Seq<char>,
    pub content: SchemaView,
}

impl View for TopLevel {
    type V = TopLevelView;

    open spec fn view(&self) -> TopLevelView {
        TopLevelView {
            title: self.title@,
            defs: Seq::new(self.defs@.len(), |i: int| (self.defs@[i].0@, self.defs@[i].1@)),
            id: self.id@,
            metaschema: self.metaschema@,
            description: self.description@,
            content: self.content@,
        }
    }
}

/// Mathematical counterpart of `ObjectSchema`.
pub struct ObjectView {
    pub properties: Seq<(Seq<char>, TypeView)>,
    pub additional_properties: bool,
    pub required: Seq<Seq<char>>,
}

impl<T: DeepView> View for SingleValueSchema<T> {
    type V = SingleValueView<T::V>;

    open spec fn view(&self) -> SingleValueView<T::V> {
        SingleValueView {
            const_value: self.const_value.deep_view(),
            enum_values: match self.enum_values {
                Some(v) => Some(v.deep_view()),
                None => None,
            },
        }
    }
}

impl View for Type {
    type V = TypeView;

    open spec fn view(&self) -> TypeView
        decreases self, 1int,
    {
        match self {
            Type::Schema(s) => TypeView::Schema(s.view()),
            Type::AnyOf(a) => TypeView::AnyOf(view_type_seq(a.any_of@)),
            Type::Ref(r) => TypeView::Ref(r.ref_id@),
        }
    }
}

impl View for Schema {
    type V = SchemaView;

    open spec fn view(&self) -> SchemaView
        decreases self, 1int,
    {
        match self {
            Schema::Array(a) => SchemaView::Array(Box::new((*a.items).view())),
            Schema::Integer(s) => SchemaView::Integer(s@),
            Schema::String(s) => SchemaView::String(s@),
            Schema::Boolean(s) => SchemaView::Boolean(s@),
            Schema::Object(o) => SchemaView::Object(o.view()),
        }
    }
}

impl View for ObjectSchema {
    type V = ObjectView;

    open spec fn view(&self) -> ObjectView
        decreases self, 1int,
    {
        ObjectView {
            properties: view_prop_seq(self.properties@),
            additional_properties: self.additional_properties,
            required: self.required.deep_view(),
        }
    }
}

/// The element-wise view of a sequence of schema nodes.
pub open spec fn view_type_seq(ts: Seq<Type>) -> Seq<TypeView>
    decreases ts, 0int,
{
    if ts.len() == 0 {
        Seq::empty()
    } else {
        view_type_seq(ts.drop_last()).push(ts.last().view())
    }
}

/// The element-wise view of an object's property list.
pub open spec fn view_prop_seq(ps: Seq<(String, Type)>) -> Seq<(Seq<char>, TypeView)>
    decreases ps, 0int,
{
    if ps.len() == 0 {
        Seq::empty()
    } else {
        view_prop_seq(ps.drop_last()).push((ps.last().0@, ps.last().1@))
    }
}

pub broadcast proof fn lemma_view_type_seq(ts: Seq<Type>)
    ensures
        (#[trigger] view_type_seq(ts)).len() == ts.len(),
        forall|i: int| 0 <= i < ts.len() ==> view_type_seq(ts)[i] == ts[i]@,
    decreases ts.len(),
{
    if ts.len() > 0 {
        lemma_view_type_seq(ts.drop_last());
        assert(view_type_seq(ts) == view_type_seq(ts.drop_last()).push(ts.last()@));
    } else {
        assert(view_type_seq(ts) == Seq::<TypeView>::empty());
    }
}

pub broadcast proof fn lemma_view_prop_seq(ps: Seq<(String, Type)>)
    ensures
        (#[trigger] view_prop_seq(ps)).len() == ps.len(),
        forall|i: int| 0 <= i < ps.len()
            ==> view_prop_seq(ps)[i] == (ps[i].0@, ps[i].1@),
    decreases ps.len(),
{
    if ps.len() > 0 {
        lemma_view_prop_seq(ps.drop_last());
        assert(view_prop_seq(ps) == view_prop_seq(ps.drop_last()).push(
            (ps.last().0@, ps.last().1@)));
    } else {
        assert(view_prop_seq(ps) == Seq::<(Seq<char>, TypeView)>::empty());
    }
}

/// The allowed values of a restricted primitive: a declared constant
/// wins over a declared enumeration.
pub open spec fn choices_spec<V>(s: SingleValueView<V>) -> Option<Seq<V>> {
    match s.const_value {
        Some(v) => Some(seq![v]),
        None => s.enum_values,
    }
}

impl<T: Clone> SingleValueSchema<T> {
    /// The declared allowed values: the constant as a one-element list
    /// if present, otherwise the enumeration if present.
    pub fn choices(&self) -> (r: Option<Vec<T>>)
        ensures
            match self.const_value {
                Some(v) => {
                    &&& r is Some
                    &&& r->0@.len() == 1
                    &&& cloned(v, r->0@[0])
                },
                None => match self.enum_values {
                    Some(e) => {
                        &&& r is Some
                        &&& r->0@.len() == e@.len()
                        &&& forall|i: int| 0 <= i < e@.len() ==> cloned(e@[i], r->0@[i])
                    },
                    None => r is None,
                },
            },
    {
        match &self.const_value {
            Some(v) => {
                let mut out: Vec<T> = Vec::new();
                out.push(v.clone());
                Some(out)
            },
            None => {
                match &self.enum_values {
                    Some(e) => {
                        let mut out: Vec<T> = Vec::new();
                        let mut i: usize = 0;
                        #[verifier::loop_isolation(false)]
                        while i < e.len()
                            invariant
                                i <= e.len(),
                                out@.len() == i,
                                forall|k: int| 0 <= k < i ==> cloned(e@[k], out@[k]),
                            decreases e.len() - i,
                        {
                            out.push(e[i].clone());
                            i = i + 1;
                        }
                        Some(out)
                    },
                    None => None,
                }
            },
        }
    }
}

} // verus!
