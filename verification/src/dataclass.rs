use vstd::prelude::*;
use crate::names::{pascal_of, starts_with_def};
use crate::error::SchemaError;

verus! {

/// The intermediate representation of a value type: the schema's type
/// algebra mirrored as a recursive sum.
#[derive(Debug, PartialEq, Eq)]
pub enum Type {
    Integer,
    IntegerLiteral(i32),
    String,
    StringLiteral(String),
    Boolean,
    BooleanLiteral(bool),
    TypeName(String),
    List(Box<Type>),
    Union(Vec<Type>),
}

/// One field of a record: a safe generated identifier, the original
/// schema key, the field's value type, and whether it is required.
#[derive(Debug, PartialEq, Eq)]
pub struct Field {
    pub key: String,
    pub json_key: String,
    pub value_type: Type,
    pub required: bool,
}

/// A named record definition: its generated name, the records
/// discovered while resolving its own fields, and its fields.
#[derive(Debug, PartialEq, Eq)]
pub struct Dataclass {
    pub name: String,
    pub subclasses: Vec<Dataclass>,
    pub fields: Vec<Field>,
}

/// A named finite set of values.
#[derive(Debug, PartialEq, Eq)]
pub struct Enum<T> {
    pub name: String,
    pub items: Vec<T>,
}

/// A registry definition: either a bare type alias or a record.
#[derive(Debug, PartialEq, Eq)]
pub enum Def {
    Alias(Type),
    Dataclass(Dataclass),
}

/// One registry entry: a definition under its name, together with the
/// names of the registry-level definitions it references.
#[derive(Debug, PartialEq, Eq)]
pub struct DefEntry {
    pub name: String,
    pub def: Def,
    pub deps: Vec<String>,
}

/// The registry of named definitions and their dependencies.  Names
/// are unique; insertion order is kept.
#[derive(Debug, PartialEq, Eq)]
pub struct Defs {
    pub entries: Vec<DefEntry>,
}

/// Mathematical counterpart of the IR `Type`.
pub enum TypeV {
    Integer,
    IntegerLiteral(i32),
    String,
    StringLiteral(Seq<char>),
    Boolean,
    BooleanLiteral(bool),
    TypeName(Seq<char>),
    List(Box<TypeV>),
    Union(Seq<TypeV>),
}

/// Mathematical counterpart of `Field`.
pub struct FieldV {
    pub key: Seq<char>,
    pub json_key: Seq<char>,
    pub value_type: TypeV,
    pub required: bool,
}

/// Mathematical counterpart of `Dataclass`.
pub struct DataclassV {
    pub name: Seq<char>,
    pub subclasses: Seq<DataclassV>,
    pub fields: Seq<FieldV>,
}

/// Mathematical counterpart of `Def`.
pub enum DefV {
    Alias(TypeV),
    Dataclass(DataclassV),
}

/// Mathematical counterpart of `DefEntry`.
pub struct DefEntryV {
    pub name: Seq<char>,
    pub def: DefV,
    pub deps: Seq<Seq<char>>,
}

/// Mathematical counterpart of `Defs`.
pub struct DefsV {
    pub entries: Seq<DefEntryV>,
}

impl View for Type {
    type V = TypeV;

    open spec fn view(&self) -> TypeV
        decreases self, 1int,
    {
        match self {
            Type::Integer => TypeV::Integer,
            Type::IntegerLiteral(x) => TypeV::IntegerLiteral(*x),
            Type::String => TypeV::String,
            Type::StringLiteral(s) => TypeV::StringLiteral(s@),
            Type::Boolean => TypeV::Boolean,
            Type::BooleanLiteral(b) => TypeV::BooleanLiteral(*b),
            Type::TypeName(n) => TypeV::TypeName(n@),
            Type::List(inner) => TypeV::List(Box::new((**inner).view())),
            Type::Union(ts) => TypeV::Union(view_ir_seq(ts@)),
        }
    }
}

/// The element-wise view of a sequence of IR types.
pub open spec fn view_ir_seq(ts: Seq<Type>) -> Seq<TypeV>
    decreases ts, 0int,
{
    if ts.len() == 0 {
        Seq::empty()
    } else {
        view_ir_seq(ts.drop_last()).push(ts.last().view())
    }
}

pub broadcast proof fn lemma_view_ir_seq(ts: Seq<Type>)
    ensures
        (#[trigger] view_ir_seq(ts)).len() == ts.len(),
        forall|i: int| 0 <= i < ts.len() ==> view_ir_seq(ts)[i] == ts[i]@,
    decreases ts.len(),
{
    if ts.len() > 0 {
        lemma_view_ir_seq(ts.drop_last());
        assert(view_ir_seq(ts) == view_ir_seq(ts.drop_last()).push(ts.last()@));
    } else {
        assert(view_ir_seq(ts) == Seq::<TypeV>::empty());
    }
}

impl View for Field {
    type V = FieldV;

    open spec fn view(&self) -> FieldV {
        FieldV {
            key: self.key@,
            json_key: self.json_key@,
            value_type: self.value_type@,
            required: self.required,
        }
    }
}

/// The element-wise view of a sequence of fields.
pub open spec fn view_field_seq(fs: Seq<Field>) -> Seq<FieldV> {
    Seq::new(fs.len(), |i: int| fs[i]@)
}

impl View for Dataclass {
    type V = DataclassV;

    open spec fn view(&self) -> DataclassV
        decreases self, 1int,
    {
        DataclassV {
            name: self.name@,
            subclasses: view_dc_seq(self.subclasses@),
            fields: view_field_seq(self.fields@),
        }
    }
}

/// The element-wise view of a sequence of records.
pub open spec fn view_dc_seq(ds: Seq<Dataclass>) -> Seq<DataclassV>
    decreases ds, 0int,
{
    if ds.len() == 0 {
        Seq::empty()
    } else {
        view_dc_seq(ds.drop_last()).push(ds.last().view())
    }
}

pub broadcast proof fn lemma_view_dc_seq(ds: Seq<Dataclass>)
    ensures
        (#[trigger] view_dc_seq(ds)).len() == ds.len(),
        forall|i: int| 0 <= i < ds.len() ==> view_dc_seq(ds)[i] == ds[i]@,
    decreases ds.len(),
{
    if ds.len() > 0 {
        lemma_view_dc_seq(ds.drop_last());
        assert(view_dc_seq(ds) == view_dc_seq(ds.drop_last()).push(ds.last()@));
    } else {
        assert(view_dc_seq(ds) == Seq::<DataclassV>::empty());
    }
}

impl View for Def {
    type V = DefV;

    open spec fn view(&self) -> DefV {
        match self {
            Def::Alias(t) => DefV::Alias(t@),
            Def::Dataclass(d) => DefV::Dataclass(d@),
        }
    }
}

impl View for DefEntry {
    type V = DefEntryV;

    open spec fn view(&self) -> DefEntryV {
        DefEntryV { name: self.name@, def: self.def@, deps: self.deps.deep_view() }
    }
}

impl View for Defs {
    type V = DefsV;

    open spec fn view(&self) -> DefsV {
        DefsV { entries: Seq::new(self.entries@.len(), |i: int| self.entries@[i]@) }
    }
}

/// The names of a sequence of registry entries, in order.
pub open spec fn entry_names(es: Seq<DefEntryV>) -> Seq<Seq<char>> {
    es.map(|i: int, e: DefEntryV| e.name)
}

impl DefsV {
    /// Registry well-formedness: no two entries share a name.
    pub open spec fn wf(self) -> bool {
        forall|i: int, j: int|
            0 <= i < j < self.entries.len()
                ==> self.entries[i].name != self.entries[j].name
    }
}

/// A name counts as a registry reference when its case-converted form
/// carries the definition marker.
pub open spec fn is_registry_ref(n: Seq<char>) -> bool {
    starts_with_def(pascal_of(n))
}

/// The registry references inside one IR type, in discovery order.
pub open spec fn type_refs(t: TypeV) -> Seq<Seq<char>>
    decreases t, 1int,
{
    match t {
        TypeV::TypeName(n) => if is_registry_ref(n) {
            seq![n]
        } else {
            Seq::empty()
        },
        TypeV::List(inner) => type_refs(*inner),
        TypeV::Union(ts) => type_seq_refs(ts),
        _ => Seq::empty(),
    }
}

/// The registry references of a sequence of IR types, concatenated.
pub open spec fn type_seq_refs(ts: Seq<TypeV>) -> Seq<Seq<char>>
    decreases ts, 0int,
{
    if ts.len() == 0 {
        Seq::empty()
    } else {
        type_seq_refs(ts.drop_last()) + type_refs(ts.last())
    }
}

/// The registry references of a sequence of fields, concatenated.
pub open spec fn field_seq_refs(fs: Seq<FieldV>) -> Seq<Seq<char>>
    decreases fs.len(),
{
    if fs.len() == 0 {
        Seq::empty()
    } else {
        field_seq_refs(fs.drop_last()) + type_refs(fs.last().value_type)
    }
}

/// The registry references of a record: those of its nested records,
/// then those of its own fields.
pub open spec fn dc_refs(d: DataclassV) -> Seq<Seq<char>>
    decreases d, 1int,
{
    dc_seq_refs(d.subclasses) + field_seq_refs(d.fields)
}

/// The registry references of a sequence of records, concatenated.
pub open spec fn dc_seq_refs(ds: Seq<DataclassV>) -> Seq<Seq<char>>
    decreases ds, 0int,
{
    if ds.len() == 0 {
        Seq::empty()
    } else {
        dc_seq_refs(ds.drop_last()) + dc_refs(ds.last())
    }
}

/// Appends an element unless it is already present.
pub open spec fn push_unique(acc: Seq<Seq<char>>, x: Seq<char>) -> Seq<Seq<char>> {
    if acc.contains(x) {
        acc
    } else {
        acc.push(x)
    }
}

/// Appends the elements of `xs` in order, skipping duplicates.
pub open spec fn dedup_appended(acc: Seq<Seq<char>>, xs: Seq<Seq<char>>) -> Seq<Seq<char>>
    decreases xs.len(),
{
    if xs.len() == 0 {
        acc
    } else {
        push_unique(dedup_appended(acc, xs.drop_last()), xs.last())
    }
}

/// The dependency list recorded for a definition: its references, in
/// discovery order, without duplicates.
pub open spec fn def_refs(def: DefV) -> Seq<Seq<char>> {
    match def {
        DefV::Alias(t) => dedup_appended(Seq::empty(), type_refs(t)),
        DefV::Dataclass(d) => dedup_appended(Seq::empty(), dc_refs(d)),
    }
}

/// What adding a definition does to the registry: a fresh name is
/// appended with its dependencies; a name already present is refused.
pub open spec fn add_def_spec(es: Seq<DefEntryV>, name: Seq<char>, def: DefV) -> Result<
    Seq<DefEntryV>,
    SchemaError,
> {
    if entry_names(es).contains(name) {
        Err(SchemaError::NameCollision)
    } else {
        Ok(es.push(DefEntryV { name: name, def: def, deps: def_refs(def) }))
    }
}

/// Decides whether a string occurs in a vector of strings.
pub fn vec_contains_string(v: &Vec<String>, s: &str) -> (r: bool)
    ensures
        r == v.deep_view().contains(s@),
{
    let mut i: usize = 0;
    #[verifier::loop_isolation(false)]
    while i < v.len()
        invariant
            i <= v.len(),
            forall|k: int| 0 <= k < i ==> v.deep_view()[k] != s@,
        decreases v.len() - i,
    {
        if crate::strutil::str_eq(v[i].as_str(), s) {
            proof {
                assert(v.deep_view()[i as int] == s@);
            }
            return true;
        }
        i = i + 1;
    }
    proof {
        assert(forall|k: int| 0 <= k < v.deep_view().len() ==> v.deep_view()[k] != s@);
    }
    false
}

impl Type {
    /// Collects the registry references of this type, in discovery
    /// order, appending them to `refs`.
    pub fn populate_refs(&self, refs: &mut Vec<String>)
        ensures
            final(refs).deep_view() == old(refs).deep_view() + type_refs(self@),
        decreases *self,
    {
        broadcast use lemma_view_ir_seq;

        match self {
            Type::TypeName(n) => {
                let p = crate::names::make_class_name(n.as_str());
                if crate::names::has_def_prefix(p.as_str()) {
                    refs.push(n.clone());
                    proof {
                        assert(refs.deep_view() =~= old(refs).deep_view() + seq![n@]);
                    }
                } else {
                    proof {
                        assert(refs.deep_view() =~= old(refs).deep_view() + Seq::<Seq<char>>::empty());
                    }
                }
            },
            Type::List(inner) => {
                proof {
                    assert(decreases_to!(*self => *inner));
                }
                (**inner).populate_refs(refs);
            },
            Type::Union(ts) => {
                let mut i: usize = 0;
                #[verifier::loop_isolation(false)]
                while i < ts.len()
                    invariant
                        i <= ts.len(),
                        refs.deep_view() == old(refs).deep_view()
                            + type_seq_refs(view_ir_seq(ts@).take(i as int)),
                    decreases ts.len() - i,
                {
                    proof {
                        assert(*self == Type::Union(*ts));
                        assert(decreases_to!(*self => *ts));
                        assert(decreases_to!(*ts => ts@[i as int]));
                    }
                    ts[i].populate_refs(refs);
                    proof {
                        let v = view_ir_seq(ts@);
                        assert(v.take(i + 1).drop_last() =~= v.take(i as int));
                        assert(v.take(i + 1).last() == v[i as int]);
                        assert(refs.deep_view() =~= old(refs).deep_view()
                            + type_seq_refs(v.take(i + 1)));
                    }
                    i = i + 1;
                }
                proof {
                    let v = view_ir_seq(ts@);
                    assert(v.take(ts@.len() as int) =~= v);
                }
            },
            _ => {
                proof {
                    assert(refs.deep_view() =~= old(refs).deep_view() + Seq::<Seq<char>>::empty());
                }
            },
        }
    }

    /// The registry references of this type, without duplicates.
    pub fn get_refs(&self) -> (r: Vec<String>)
        ensures
            r.deep_view() == dedup_appended(Seq::empty(), type_refs(self@)),
    {
        let mut raw: Vec<String> = Vec::new();
        self.populate_refs(&mut raw);
        dedup_strings(&raw)
    }
}

impl Dataclass {
    /// Collects the registry references of this record and its nested
    /// records, in discovery order, appending them to `refs`.
    pub fn populate_refs(&self, refs: &mut Vec<String>)
        ensures
            final(refs).deep_view() == old(refs).deep_view() + dc_refs(self@),
        decreases *self,
    {
        broadcast use lemma_view_dc_seq;

        let mut i: usize = 0;
        #[verifier::loop_isolation(false)]
        while i < self.subclasses.len()
            invariant
                i <= self.subclasses.len(),
                refs.deep_view() == old(refs).deep_view()
                    + dc_seq_refs(view_dc_seq(self.subclasses@).take(i as int)),
            decreases self.subclasses.len() - i,
        {
            proof {
                assert(decreases_to!(*self => self.subclasses));
                assert(decreases_to!(self.subclasses => self.subclasses@[i as int]));
            }
            self.subclasses[i].populate_refs(refs);
            proof {
                let v = view_dc_seq(self.subclasses@);
                assert(v.take(i + 1).drop_last() =~= v.take(i as int));
                assert(v.take(i + 1).last() == v[i as int]);
            }
            i = i + 1;
        }
        proof {
            let v = view_dc_seq(self.subclasses@);
            assert(v.take(self.subclasses@.len() as int) =~= v);
            assert(v == self@.subclasses);
        }
        let ghost mid = refs.deep_view();
        let mut j: usize = 0;
        #[verifier::loop_isolation(false)]
        while j < self.fields.len()
            invariant
                j <= self.fields.len(),
                refs.deep_view() == mid + field_seq_refs(self@.fields.take(j as int)),
            decreases self.fields.len() - j,
        {
            self.fields[j].value_type.populate_refs(refs);
            proof {
                let fv = self@.fields;
                assert(fv.take(j + 1).drop_last() =~= fv.take(j as int));
                assert(fv.take(j + 1).last() == fv[j as int]);
                assert(fv[j as int].value_type == self.fields@[j as int]@.value_type);
            }
            j = j + 1;
        }
        proof {
            assert(self@.fields.take(self.fields@.len() as int) =~= self@.fields);
            assert(refs.deep_view() =~= old(refs).deep_view() + dc_refs(self@));
        }
    }

    /// The registry references of this record, without duplicates.
    pub fn get_refs(&self) -> (r: Vec<String>)
        ensures
            r.deep_view() == dedup_appended(Seq::empty(), dc_refs(self@)),
    {
        let mut raw: Vec<String> = Vec::new();
        self.populate_refs(&mut raw);
        dedup_strings(&raw)
    }
}

/// Keeps the first occurrence of each string, in order.
fn dedup_strings(raw: &Vec<String>) -> (r: Vec<String>)
    ensures
        r.deep_view() == dedup_appended(Seq::empty(), raw.deep_view()),
{
    let mut out: Vec<String> = Vec::new();
    let mut i: usize = 0;
    #[verifier::loop_isolation(false)]
    while i < raw.len()
        invariant
            i <= raw.len(),
            out.deep_view() == dedup_appended(Seq::empty(), raw.deep_view().take(i as int)),
        decreases raw.len() - i,
    {
        if !vec_contains_string(&out, raw[i].as_str()) {
            out.push(raw[i].clone());
        }
        proof {
            let rv = raw.deep_view();
            assert(rv.take(i + 1).drop_last() =~= rv.take(i as int));
            assert(rv.take(i + 1).last() == rv[i as int]);
        }
        i = i + 1;
    }
    proof {
        assert(raw.deep_view().take(raw.deep_view().len() as int) =~= raw.deep_view());
    }
    out
}

impl Field {
    /// Builds a field from its schema key: the identifier is the
    /// case-converted, keyword-safe form of the key, and the key
    /// itself is kept for the mapping annotation.
    pub fn new(key: &str, value_type: Type, required: bool) -> (r: Field)
        ensures
            r@.key == crate::names::field_key(key@),
            r@.json_key == key@,
            r@.value_type == value_type@,
            r@.required == required,
    {
        let ident = crate::names::to_safe_key(crate::names::make_field_name(key).as_str());
        Field { key: ident, json_key: key.to_owned(), value_type, required }
    }
}

impl Defs {
    /// An empty registry.
    pub fn new() -> (r: Defs)
        ensures
            r@.entries =~= Seq::<DefEntryV>::empty(),
    {
        Defs { entries: Vec::new() }
    }

    /// Adds a definition under its final name, computing its
    /// dependency list; a name already present is a collision.
    pub fn add_definition(&mut self, name: String, def: Def) -> (r: Result<(), SchemaError>)
        ensures
            match add_def_spec(old(self)@.entries, name@, def@) {
                Ok(es) => r is Ok && final(self)@.entries == es,
                Err(e) => r == Err::<(), SchemaError>(e) && final(self)@ == old(self)@,
            },
            old(self)@.wf() ==> final(self)@.wf(),
    {
        let mut found = false;
        let mut i: usize = 0;
        #[verifier::loop_isolation(false)]
        while i < self.entries.len()
            invariant
                i <= self.entries.len(),
                found == exists|k: int| 0 <= k < i && self@.entries[k].name == name@,
            decreases self.entries.len() - i,
        {
            if crate::strutil::str_eq(self.entries[i].name.as_str(), name.as_str()) {
                found = true;
                proof {
                    assert(self@.entries[i as int].name == name@);
                }
            }
            i = i + 1;
        }
        proof {
            assert(entry_names(self@.entries).contains(name@) == found) by {
                if found {
                    let k = choose|k: int|
                        0 <= k < self@.entries.len() && self@.entries[k].name == name@;
                    assert(entry_names(self@.entries)[k] == name@);
                } else {
                    if entry_names(self@.entries).contains(name@) {
                        let k = choose|k: int|
                            0 <= k < entry_names(self@.entries).len()
                                && entry_names(self@.entries)[k] == name@;
                        assert(self@.entries[k].name == name@);
                    }
                }
            }
        }
        if found {
            return Err(SchemaError::NameCollision);
        }
        let refs = match &def {
            Def::Alias(t) => t.get_refs(),
            Def::Dataclass(d) => d.get_refs(),
        };
        let entry = DefEntry { name: name, def: def, deps: refs };
        self.entries.push(entry);
        proof {
            assert(final(self)@.entries =~= old(self)@.entries.push(entry@));
            assert(forall|k: int| 0 <= k < old(self)@.entries.len()
                ==> old(self)@.entries[k].name != entry@.name);
        }
        Ok(())
    }

    /// Decides the registry's invariant: no two entries share a name.
    pub fn is_well_formed(&self) -> (r: bool)
        ensures
            r == self@.wf(),
    {
        let mut i: usize = 0;
        #[verifier::loop_isolation(false)]
        while i < self.entries.len()
            invariant
                i <= self.entries.len(),
                forall|a: int, b: int|
                    0 <= a < b < self@.entries.len() && a < i
                        ==> self@.entries[a].name != self@.entries[b].name,
            decreases self.entries.len() - i,
        {
            let mut j: usize = i + 1;
            #[verifier::loop_isolation(false)]
            while j < self.entries.len()
                invariant
                    i < j <= self.entries.len(),
                    forall|b: int|
                        i < b < j ==> self@.entries[i as int].name != self@.entries[b].name,
                decreases self.entries.len() - j,
            {
                if crate::strutil::str_eq(
                    self.entries[i].name.as_str(),
                    self.entries[j].name.as_str(),
                ) {
                    proof {
                        assert(self@.entries[i as int].name == self@.entries[j as int].name);
                    }
                    return false;
                }
                j = j + 1;
            }
            i = i + 1;
        }
        true
    }
}


/// What the dedup pass keeps: exactly the elements of its inputs.
pub proof fn lemma_dedup_membership(acc: Seq<Seq<char>>, xs: Seq<Seq<char>>, y: Seq<char>)
    ensures
        dedup_appended(acc, xs).contains(y) <==> acc.contains(y) || xs.contains(y),
    decreases xs.len(),
{
    if xs.len() == 0 {
        assert(!xs.contains(y));
    } else {
        lemma_dedup_membership(acc, xs.drop_last(), y);
        let prev = dedup_appended(acc, xs.drop_last());
        if xs.last() == y {
            assert(xs.contains(y)) by {
                assert(xs[xs.len() - 1] == y);
            }
            assert(dedup_appended(acc, xs).contains(y)) by {
                if prev.contains(y) {
                    let k = choose|k: int| 0 <= k < prev.len() && prev[k] == y;
                    assert(dedup_appended(acc, xs)[k] == y);
                } else {
                    assert(prev.push(y)[prev.len() as int] == y);
                }
            }
        } else {
            assert(xs.contains(y) <==> xs.drop_last().contains(y)) by {
                if xs.contains(y) {
                    let k = choose|k: int| 0 <= k < xs.len() && xs[k] == y;
                    assert(xs.drop_last()[k] == y);
                }
                if xs.drop_last().contains(y) {
                    let k = choose|k: int|
                        0 <= k < xs.drop_last().len() && xs.drop_last()[k] == y;
                    assert(xs[k] == y);
                }
            }
            assert(dedup_appended(acc, xs).contains(y) <==> prev.contains(y)) by {
                if prev.contains(y) {
                    let k = choose|k: int| 0 <= k < prev.len() && prev[k] == y;
                    assert(dedup_appended(acc, xs)[k] == y);
                }
                if dedup_appended(acc, xs).contains(y) {
                    let k = choose|k: int|
                        0 <= k < dedup_appended(acc, xs).len()
                            && dedup_appended(acc, xs)[k] == y;
                    if k < prev.len() {
                        assert(prev[k] == y);
                    }
                }
            }
        }
    }
}

} // verus!
