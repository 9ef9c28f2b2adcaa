use vstd::prelude::*;
use crate::schema::{self, TypeView, SchemaView, choices_spec};
use crate::dataclass::{
    Type, Field, Dataclass, Defs, TypeV, FieldV, DataclassV, DefV, DefEntryV, view_dc_seq,
    view_ir_seq, add_def_spec,
};
use crate::names::{pascal_of, field_key, singular_of, choice_name, ref_name, ref_wellformed};
use crate::error::SchemaError;

verus! {

/// The names of a sequence of records, in order.
pub open spec fn dc_names(ds: Seq<DataclassV>) -> Seq<Seq<char>> {
    ds.map(|i: int, d: DataclassV| d.name)
}

/// Appends discovered records to an accumulator, in order; a record
/// whose name is already taken is a collision.
pub open spec fn merge_defs(acc: Seq<DataclassV>, more: Seq<DataclassV>) -> Result<
    Seq<DataclassV>,
    SchemaError,
>
    decreases more.len(),
{
    if more.len() == 0 {
        Ok(acc)
    } else {
        match merge_defs(acc, more.drop_last()) {
            Err(e) => Err(e),
            Ok(merged) => if dc_names(merged).contains(more.last().name) {
                Err(SchemaError::NameCollision)
            } else {
                Ok(merged.push(more.last()))
            },
        }
    }
}

/// Lowers one schema node to an IR type plus the records it uncovers.
pub open spec fn resolve_type(name: Seq<char>, t: TypeView) -> Result<
    (Seq<DataclassV>, TypeV),
    SchemaError,
>
    decreases t, 1int,
{
    match t {
        TypeView::Schema(s) => resolve_schema(name, s),
        TypeView::AnyOf(alts) => match resolve_alts(name, alts) {
            Err(e) => Err(e),
            Ok((defs, types)) => Ok((defs, TypeV::Union(types))),
        },
        TypeView::Ref(r) => Ok((Seq::empty(), TypeV::TypeName(pascal_of(ref_name(r))))),
    }
}

/// Lowers a plain schema node.
pub open spec fn resolve_schema(name: Seq<char>, s: SchemaView) -> Result<
    (Seq<DataclassV>, TypeV),
    SchemaError,
>
    decreases s, 1int,
{
    match s {
        SchemaView::Array(items) => match resolve_type(singular_of(name), *items) {
            Err(e) => Err(e),
            Ok((defs, vt)) => Ok((defs, TypeV::List(Box::new(vt)))),
        },
        SchemaView::Integer(sv) => match choices_spec(sv) {
            None => Ok((Seq::empty(), TypeV::Integer)),
            Some(cs) => if cs.len() == 0 {
                Err(SchemaError::EmptyEnumeration)
            } else if cs.len() == 1 {
                Ok((Seq::empty(), TypeV::IntegerLiteral(cs[0])))
            } else {
                Ok(
                    (
                        Seq::empty(),
                        TypeV::Union(cs.map(|i: int, x: i32| TypeV::IntegerLiteral(x))),
                    ),
                )
            },
        },
        SchemaView::String(sv) => match choices_spec(sv) {
            None => Ok((Seq::empty(), TypeV::String)),
            Some(cs) => if cs.len() == 0 {
                Err(SchemaError::EmptyEnumeration)
            } else if cs.len() == 1 {
                Ok((Seq::empty(), TypeV::StringLiteral(cs[0])))
            } else {
                Ok(
                    (
                        Seq::empty(),
                        TypeV::Union(cs.map(|i: int, x: Seq<char>| TypeV::StringLiteral(x))),
                    ),
                )
            },
        },
        SchemaView::Boolean(sv) => match choices_spec(sv) {
            None => Ok((Seq::empty(), TypeV::Boolean)),
            Some(cs) => if cs.len() == 0 {
                Err(SchemaError::EmptyEnumeration)
            } else if cs.len() == 1 {
                Ok((Seq::empty(), TypeV::BooleanLiteral(cs[0])))
            } else {
                Ok(
                    (
                        Seq::empty(),
                        TypeV::Union(cs.map(|i: int, x: bool| TypeV::BooleanLiteral(x))),
                    ),
                )
            },
        },
        SchemaView::Object(o) => if o.additional_properties {
            Err(SchemaError::UnsupportedOpenObject)
        } else {
            match resolve_props(o.properties, o.required) {
                Err(e) => Err(e),
                Ok((defs, fields)) => Ok(
                    (
                        seq![
                            DataclassV {
                                name: pascal_of(name),
                                subclasses: defs,
                                fields: fields,
                            },
                        ],
                        TypeV::TypeName(pascal_of(name)),
                    ),
                ),
            }
        },
    }
}

/// Lowers an object's properties, in order: each property becomes a
/// field, and the records its schema uncovers are collected.
pub open spec fn resolve_props(
    props: Seq<(Seq<char>, TypeView)>,
    required: Seq<Seq<char>>,
) -> Result<(Seq<DataclassV>, Seq<FieldV>), SchemaError>
    decreases props, 0int,
{
    if props.len() == 0 {
        Ok((Seq::empty(), Seq::empty()))
    } else {
        match resolve_props(props.drop_last(), required) {
            Err(e) => Err(e),
            Ok((defs, fields)) => {
                let k = props.last().0;
                match resolve_type(k, props.last().1) {
                    Err(e) => Err(e),
                    Ok((new_defs, vt)) => match merge_defs(defs, new_defs) {
                        Err(e) => Err(e),
                        Ok(all) => Ok(
                            (
                                all,
                                fields.push(
                                    FieldV {
                                        key: field_key(k),
                                        json_key: k,
                                        value_type: vt,
                                        required: required.contains(k),
                                    },
                                ),
                            ),
                        ),
                    },
                }
            },
        }
    }
}

/// Lowers the alternatives of a disjunction, in order, under
/// positionally disambiguated candidate names.
pub open spec fn resolve_alts(name: Seq<char>, alts: Seq<TypeView>) -> Result<
    (Seq<DataclassV>, Seq<TypeV>),
    SchemaError,
>
    decreases alts, 0int,
{
    if alts.len() == 0 {
        Ok((Seq::empty(), Seq::empty()))
    } else {
        match resolve_alts(name, alts.drop_last()) {
            Err(e) => Err(e),
            Ok((defs, types)) => {
                let k = choice_name(name, (alts.len() - 1) as nat);
                match resolve_type(k, alts.last()) {
                    Err(e) => Err(e),
                    Ok((new_defs, vt)) => match merge_defs(defs, new_defs) {
                        Err(e) => Err(e),
                        Ok(all) => Ok((all, types.push(vt))),
                    },
                }
            },
        }
    }
}

/// Every reference pointer in the node names a definition segment.
pub open spec fn type_refs_wellformed(t: TypeView) -> bool
    decreases t, 1int,
{
    match t {
        TypeView::Schema(s) => schema_refs_wellformed(s),
        TypeView::AnyOf(alts) => alts_refs_wellformed(alts),
        TypeView::Ref(r) => ref_wellformed(r),
    }
}

/// Every reference pointer in the plain schema names a definition
/// segment.
pub open spec fn schema_refs_wellformed(s: SchemaView) -> bool
    decreases s, 1int,
{
    match s {
        SchemaView::Array(items) => type_refs_wellformed(*items),
        SchemaView::Object(o) => props_refs_wellformed(o.properties),
        _ => true,
    }
}

pub open spec fn alts_refs_wellformed(alts: Seq<TypeView>) -> bool
    decreases alts, 0int,
{
    if alts.len() == 0 {
        true
    } else {
        alts_refs_wellformed(alts.drop_last()) && type_refs_wellformed(alts.last())
    }
}

pub open spec fn props_refs_wellformed(props: Seq<(Seq<char>, TypeView)>) -> bool
    decreases props, 0int,
{
    if props.len() == 0 {
        true
    } else {
        props_refs_wellformed(props.drop_last()) && type_refs_wellformed(props.last().1)
    }
}

/// The view of a resolution result, for stating exact contracts.
pub open spec fn res_view(r: Result<(Vec<Dataclass>, Type), SchemaError>) -> Result<
    (Seq<DataclassV>, TypeV),
    SchemaError,
> {
    match r {
        Ok((ds, t)) => Ok((view_dc_seq(ds@), t@)),
        Err(e) => Err(e),
    }
}

/// Resolution is deterministic: any two results that satisfy the
/// resolver's contract on the same input are structurally identical.
pub proof fn lemma_resolve_deterministic(
    name: Seq<char>,
    t: TypeView,
    r1: Result<(Seq<DataclassV>, TypeV), SchemaError>,
    r2: Result<(Seq<DataclassV>, TypeV), SchemaError>,
)
    requires
        r1 == resolve_type(name, t),
        r2 == resolve_type(name, t),
    ensures
        r1 == r2,
{
}


/// An error in a prefix of the properties decides the whole result.
proof fn lemma_resolve_props_prefix_err(
    props: Seq<(Seq<char>, TypeView)>,
    required: Seq<Seq<char>>,
    i: int,
)
    requires
        0 <= i <= props.len(),
        resolve_props(props.take(i), required) is Err,
    ensures
        resolve_props(props, required) == resolve_props(props.take(i), required),
    decreases props.len(),
{
    if i == props.len() {
        assert(props.take(i) =~= props);
    } else {
        assert(props.drop_last().take(i) =~= props.take(i));
        lemma_resolve_props_prefix_err(props.drop_last(), required, i);
    }
}

/// An error in a prefix of the alternatives decides the whole result.
proof fn lemma_resolve_alts_prefix_err(name: Seq<char>, alts: Seq<TypeView>, i: int)
    requires
        0 <= i <= alts.len(),
        resolve_alts(name, alts.take(i)) is Err,
    ensures
        resolve_alts(name, alts) == resolve_alts(name, alts.take(i)),
    decreases alts.len(),
{
    if i == alts.len() {
        assert(alts.take(i) =~= alts);
    } else {
        assert(alts.drop_last().take(i) =~= alts.take(i));
        lemma_resolve_alts_prefix_err(name, alts.drop_last(), i);
    }
}

/// A collision in a prefix of the merged records decides the result.
proof fn lemma_merge_defs_prefix_err(acc: Seq<DataclassV>, more: Seq<DataclassV>, i: int)
    requires
        0 <= i <= more.len(),
        merge_defs(acc, more.take(i)) is Err,
    ensures
        merge_defs(acc, more) == merge_defs(acc, more.take(i)),
    decreases more.len(),
{
    if i == more.len() {
        assert(more.take(i) =~= more);
    } else {
        assert(more.drop_last().take(i) =~= more.take(i));
        lemma_merge_defs_prefix_err(acc, more.drop_last(), i);
    }
}

/// Well-formedness of a list of alternatives carries to each element.
proof fn lemma_alts_wellformed_elem(alts: Seq<TypeView>)
    requires
        alts_refs_wellformed(alts),
    ensures
        forall|i: int| 0 <= i < alts.len() ==> type_refs_wellformed(#[trigger] alts[i]),
    decreases alts.len(),
{
    if alts.len() > 0 {
        lemma_alts_wellformed_elem(alts.drop_last());
        assert(forall|i: int|
            0 <= i < alts.len() - 1 ==> alts[i] == alts.drop_last()[i]);
    }
}

/// Well-formedness of a property list carries to each property.
proof fn lemma_props_wellformed_elem(props: Seq<(Seq<char>, TypeView)>)
    requires
        props_refs_wellformed(props),
    ensures
        forall|i: int| 0 <= i < props.len() ==> type_refs_wellformed(#[trigger] props[i].1),
    decreases props.len(),
{
    if props.len() > 0 {
        lemma_props_wellformed_elem(props.drop_last());
        assert(forall|i: int|
            0 <= i < props.len() - 1 ==> props[i] == props.drop_last()[i]);
    }
}

/// Decides whether any record in the vector carries the given name.
fn dc_contains_name(v: &Vec<Dataclass>, n: &str) -> (r: bool)
    ensures
        r == dc_names(view_dc_seq(v@)).contains(n@),
{
    broadcast use crate::dataclass::lemma_view_dc_seq;

    let mut i: usize = 0;
    #[verifier::loop_isolation(false)]
    while i < v.len()
        invariant
            i <= v.len(),
            forall|k: int| 0 <= k < i ==> view_dc_seq(v@)[k].name != n@,
        decreases v.len() - i,
    {
        if crate::strutil::str_eq(v[i].name.as_str(), n) {
            proof {
                assert(dc_names(view_dc_seq(v@))[i as int] == n@);
            }
            return true;
        }
        i = i + 1;
    }
    proof {
        if dc_names(view_dc_seq(v@)).contains(n@) {
            let k = choose|k: int|
                0 <= k < dc_names(view_dc_seq(v@)).len()
                    && dc_names(view_dc_seq(v@))[k] == n@;
            assert(view_dc_seq(v@)[k].name == n@);
        }
    }
    false
}

/// Moves discovered records into the accumulator, in order, refusing
/// a record whose name is already taken.
fn merge_dcs(acc: &mut Vec<Dataclass>, more: Vec<Dataclass>) -> (r: Result<(), SchemaError>)
    ensures
        r is Ok ==> merge_defs(view_dc_seq(old(acc)@), view_dc_seq(more@))
            == Ok::<Seq<DataclassV>, SchemaError>(view_dc_seq(final(acc)@)),
        r is Err ==> merge_defs(view_dc_seq(old(acc)@), view_dc_seq(more@))
            == Err::<Seq<DataclassV>, SchemaError>(r->Err_0),
{
    broadcast use crate::dataclass::lemma_view_dc_seq;

    let ghost acc0 = view_dc_seq(acc@);
    let ghost more0 = view_dc_seq(more@);
    let mut m = more;
    let ghost mut i: int = 0;
    #[verifier::loop_isolation(false)]
    while m.len() > 0
        invariant
            0 <= i <= more0.len(),
            view_dc_seq(m@) =~= more0.skip(i),
            m@.len() == more0.len() - i,
            merge_defs(acc0, more0.take(i)) == Ok::<Seq<DataclassV>, SchemaError>(
                view_dc_seq(acc@),
            ),
        decreases m.len(),
    {
        let ghost prev = m@;
        let d = m.remove(0);
        proof {
            assert(view_dc_seq(prev)[0] == prev[0]@);
            assert(d@ == more0[i]);
            assert(view_dc_seq(m@) =~= more0.skip(i + 1)) by {
                assert(forall|k: int| 0 <= k < m@.len() ==> m@[k] == prev[k + 1]);
                assert(forall|k: int| 0 <= k < m@.len()
                    ==> view_dc_seq(m@)[k] == view_dc_seq(prev)[k + 1]);
                assert(forall|k: int| 0 <= k < m@.len()
                    ==> #[trigger] view_dc_seq(prev)[k + 1] == more0.skip(i)[k + 1]);
                assert(forall|k: int| 0 <= k < m@.len()
                    ==> more0.skip(i)[k + 1] == #[trigger] more0.skip(i + 1)[k]);
            }
        }
        let taken = dc_contains_name(acc, d.name.as_str());
        proof {
            assert(more0.take(i + 1).drop_last() =~= more0.take(i));
            assert(more0.take(i + 1).last() == more0[i]);
        }
        if taken {
            proof {
                assert(merge_defs(acc0, more0.take(i + 1))
                    == Err::<Seq<DataclassV>, SchemaError>(SchemaError::NameCollision));
                lemma_merge_defs_prefix_err(acc0, more0, i + 1);
            }
            return Err(SchemaError::NameCollision);
        }
        acc.push(d);
        proof {
            i = i + 1;
            assert(view_dc_seq(acc@) =~= merge_defs(acc0, more0.take(i)).unwrap());
        }
    }
    proof {
        assert(more0.take(i) =~= more0);
    }
    Ok(())
}

/// Lowers one plain schema node, mirroring `resolve_schema`.
pub fn parse_schema(name: &str, sch: &schema::Schema) -> (r: Result<(Vec<Dataclass>, Type), SchemaError>)
    requires
        schema_refs_wellformed(sch@),
    ensures
        res_view(r) == resolve_schema(name@, sch@),
    decreases *sch,
{
    broadcast use crate::dataclass::lemma_view_ir_seq;
    broadcast use crate::dataclass::lemma_view_dc_seq;
    broadcast use crate::schema::lemma_view_prop_seq;

    match sch {
        schema::Schema::Array(a) => {
            let singular = crate::names::singularize_name(name);
            proof {
                assert(singular@ == singular_of(name@));
            }
            match parse_dataclass(singular.as_str(), &*a.items) {
                Ok((defs, t)) => Ok((defs, Type::List(Box::new(t)))),
                Err(e) => Err(e),
            }
        },
        schema::Schema::Integer(s) => {
            let ghost sv = s@;
            match s.choices() {
                None => {
                    proof {
                        assert(choices_spec(sv) is None);
                    }
                    Ok((Vec::new(), Type::Integer))
                },
                Some(choices) => {
                    let ghost cs = choices_spec(sv)->0;
                    proof {
                        match s.const_value {
                            Some(v) => {
                                assert(choices@ =~= cs);
                            },
                            None => {
                                let e = s.enum_values->0;
                                assert(e.deep_view() =~= e@);
                                assert(choices@ =~= cs);
                            },
                        }
                    }
                    if choices.len() == 0 {
                        Err(SchemaError::EmptyEnumeration)
                    } else if choices.len() == 1 {
                        Ok((Vec::new(), Type::IntegerLiteral(choices[0])))
                    } else {
                        let ghost f = |k: int, x: i32| TypeV::IntegerLiteral(x);
                        let mut types: Vec<Type> = Vec::new();
                        let mut i: usize = 0;
                        #[verifier::loop_isolation(false)]
                        while i < choices.len()
                            invariant
                                i <= choices.len(),
                                view_ir_seq(types@) =~= cs.map(f).take(i as int),
                            decreases choices.len() - i,
                        {
                            types.push(Type::IntegerLiteral(choices[i]));
                            proof {
                                assert(cs.map(f).take(i + 1)
                                    =~= cs.map(f).take(i as int).push(f(i as int, cs[i as int])));
                            }
                            i = i + 1;
                        }
                        proof {
                            assert(cs.map(f).take(cs.len() as int) =~= cs.map(f));
                        }
                        Ok((Vec::new(), Type::Union(types)))
                    }
                },
            }
        },
        schema::Schema::String(s) => {
            let ghost sv = s@;
            match s.choices() {
                None => {
                    proof {
                        assert(choices_spec(sv) is None);
                    }
                    Ok((Vec::new(), Type::String))
                },
                Some(choices) => {
                    let ghost cs = choices_spec(sv)->0;
                    proof {
                        match &s.const_value {
                            Some(v) => {
                                assert(choices.deep_view() =~= cs);
                            },
                            None => {
                                assert(choices.deep_view() =~= cs);
                            },
                        }
                    }
                    if choices.len() == 0 {
                        Err(SchemaError::EmptyEnumeration)
                    } else if choices.len() == 1 {
                        let lit = choices[0].clone();
                        Ok((Vec::new(), Type::StringLiteral(lit)))
                    } else {
                        let ghost f = |k: int, x: Seq<char>| TypeV::StringLiteral(x);
                        let mut types: Vec<Type> = Vec::new();
                        let mut i: usize = 0;
                        #[verifier::loop_isolation(false)]
                        while i < choices.len()
                            invariant
                                i <= choices.len(),
                                view_ir_seq(types@) =~= cs.map(f).take(i as int),
                            decreases choices.len() - i,
                        {
                            types.push(Type::StringLiteral(choices[i].clone()));
                            proof {
                                assert(choices.deep_view()[i as int] == choices@[i as int]@);
                                assert(cs.map(f).take(i + 1)
                                    =~= cs.map(f).take(i as int).push(f(i as int, cs[i as int])));
                            }
                            i = i + 1;
                        }
                        proof {
                            assert(cs.map(f).take(cs.len() as int) =~= cs.map(f));
                        }
                        Ok((Vec::new(), Type::Union(types)))
                    }
                },
            }
        },
        schema::Schema::Boolean(s) => {
            let ghost sv = s@;
            match s.choices() {
                None => {
                    proof {
                        assert(choices_spec(sv) is None);
                    }
                    Ok((Vec::new(), Type::Boolean))
                },
                Some(choices) => {
                    let ghost cs = choices_spec(sv)->0;
                    proof {
                        match s.const_value {
                            Some(v) => {
                                assert(choices@ =~= cs);
                            },
                            None => {
                                let e = s.enum_values->0;
                                assert(e.deep_view() =~= e@);
                                assert(choices@ =~= cs);
                            },
                        }
                    }
                    if choices.len() == 0 {
                        Err(SchemaError::EmptyEnumeration)
                    } else if choices.len() == 1 {
                        Ok((Vec::new(), Type::BooleanLiteral(choices[0])))
                    } else {
                        let ghost f = |k: int, x: bool| TypeV::BooleanLiteral(x);
                        let mut types: Vec<Type> = Vec::new();
                        let mut i: usize = 0;
                        #[verifier::loop_isolation(false)]
                        while i < choices.len()
                            invariant
                                i <= choices.len(),
                                view_ir_seq(types@) =~= cs.map(f).take(i as int),
                            decreases choices.len() - i,
                        {
                            types.push(Type::BooleanLiteral(choices[i]));
                            proof {
                                assert(cs.map(f).take(i + 1)
                                    =~= cs.map(f).take(i as int).push(f(i as int, cs[i as int])));
                            }
                            i = i + 1;
                        }
                        proof {
                            assert(cs.map(f).take(cs.len() as int) =~= cs.map(f));
                        }
                        Ok((Vec::new(), Type::Union(types)))
                    }
                },
            }
        },
        schema::Schema::Object(o) => parse_object(name, o),
    }
}

/// Lowers one schema node, mirroring `resolve_type`.
pub fn parse_dataclass(name: &str, typ: &schema::Type) -> (r: Result<(Vec<Dataclass>, Type), SchemaError>)
    requires
        type_refs_wellformed(typ@),
    ensures
        res_view(r) == resolve_type(name@, typ@),
    decreases *typ,
{
    broadcast use crate::dataclass::lemma_view_ir_seq;
    broadcast use crate::dataclass::lemma_view_dc_seq;
    broadcast use crate::schema::lemma_view_type_seq;

    match typ {
        schema::Type::Schema(sch) => parse_schema(name, sch),
        schema::Type::AnyOf(a) => {
            let ghost av = crate::schema::view_type_seq(a.any_of@);
            proof {
                lemma_alts_wellformed_elem(av);
            }
            let mut all_defs: Vec<Dataclass> = Vec::new();
            let mut types: Vec<Type> = Vec::new();
            let mut i: usize = 0;
            proof {
                assert(av.take(0) =~= Seq::<TypeView>::empty());
                assert(view_dc_seq(all_defs@) =~= Seq::<DataclassV>::empty());
                assert(view_ir_seq(types@) =~= Seq::<TypeV>::empty());
            }
            #[verifier::loop_isolation(false)]
            while i < a.any_of.len()
                invariant
                    i <= a.any_of.len(),
                    resolve_alts(name@, av.take(i as int))
                        == Ok::<(Seq<DataclassV>, Seq<TypeV>), SchemaError>(
                        (view_dc_seq(all_defs@), view_ir_seq(types@)),
                    ),
                decreases a.any_of.len() - i,
            {
                proof {
                    assert(*typ == schema::Type::AnyOf(*a));
                    assert(decreases_to!(*typ => *a));
                    assert(decreases_to!(*a => a.any_of));
                    assert(decreases_to!(a.any_of => a.any_of@[i as int]));
                    assert(av.take(i + 1).drop_last() =~= av.take(i as int));
                    assert(av.take(i + 1).last() == av[i as int]);
                }
                let cname = crate::names::make_choice_name(name, i as u64);
                let sub = parse_dataclass(cname.as_str(), &a.any_of[i]);
                match sub {
                    Err(e) => {
                        proof {
                            lemma_resolve_alts_prefix_err(name@, av, i + 1);
                        }
                        return Err(e);
                    },
                    Ok((new_defs, vt)) => {
                        let merged = merge_dcs(&mut all_defs, new_defs);
                        match merged {
                            Err(e) => {
                                proof {
                                    lemma_resolve_alts_prefix_err(name@, av, i + 1);
                                }
                                return Err(e);
                            },
                            Ok(()) => {
                                let ghost t0 = types@;
                                types.push(vt);
                                proof {
                                    assert(types@.drop_last() =~= t0);
                                    assert(view_ir_seq(types@)
                                        =~= view_ir_seq(t0).push(vt@));
                                }
                            },
                        }
                    },
                }
                i = i + 1;
            }
            proof {
                assert(av.take(a.any_of@.len() as int) =~= av);
            }
            Ok((all_defs, Type::Union(types)))
        },
        schema::Type::Ref(x) => {
            let rn = crate::names::resolve_ref(x.ref_id.as_str());
            let cn = crate::names::make_class_name(rn.as_str());
            proof {
                assert(view_dc_seq(Seq::<Dataclass>::empty()) =~= Seq::<DataclassV>::empty());
            }
            Ok((Vec::new(), Type::TypeName(cn)))
        },
    }
}


/// Lowers an object schema into one new record, mirroring the object
/// case of `resolve_schema`.
#[verifier::rlimit(30)]
fn parse_object(name: &str, o: &schema::ObjectSchema) -> (r: Result<(Vec<Dataclass>, Type), SchemaError>)
    requires
        schema_refs_wellformed(schema::SchemaView::Object(o@)),
    ensures
        res_view(r) == resolve_schema(name@, schema::SchemaView::Object(o@)),
    decreases *o,
{
    broadcast use crate::dataclass::lemma_view_ir_seq;
    broadcast use crate::dataclass::lemma_view_dc_seq;
    broadcast use crate::schema::lemma_view_prop_seq;

    if o.additional_properties {
        return Err(SchemaError::UnsupportedOpenObject);
    }
    let ghost pv = crate::schema::view_prop_seq(o.properties@);
    let ghost rv = o.required.deep_view();
    proof {
        lemma_props_wellformed_elem(pv);
    }
    let mut all_defs: Vec<Dataclass> = Vec::new();
    let mut fields: Vec<Field> = Vec::new();
    let mut i: usize = 0;
    proof {
        assert(pv.take(0) =~= Seq::<(Seq<char>, TypeView)>::empty());
        assert(view_dc_seq(all_defs@) =~= Seq::<DataclassV>::empty());
        assert(crate::dataclass::view_field_seq(fields@) =~= Seq::<FieldV>::empty());
    }
    #[verifier::loop_isolation(false)]
    while i < o.properties.len()
        invariant
            i <= o.properties.len(),
            resolve_props(pv.take(i as int), rv)
                == Ok::<(Seq<DataclassV>, Seq<FieldV>), SchemaError>(
                (view_dc_seq(all_defs@), crate::dataclass::view_field_seq(fields@)),
            ),
        decreases o.properties.len() - i,
    {
        proof {
            assert(decreases_to!(*o => o.properties));
            assert(decreases_to!(o.properties => o.properties@[i as int]));
            assert(pv.take(i + 1).drop_last() =~= pv.take(i as int));
            assert(pv.take(i + 1).last() == pv[i as int]);
            assert(pv[i as int].1 == o.properties@[i as int].1@);
            assert(type_refs_wellformed(pv[i as int].1));
        }
        let ghost d0 = view_dc_seq(all_defs@);
        let ghost f0 = crate::dataclass::view_field_seq(fields@);
        let sub = parse_dataclass(o.properties[i].0.as_str(), &o.properties[i].1);
        match sub {
            Err(e) => {
                proof {
                    lemma_resolve_props_prefix_err(pv, rv, i + 1);
                }
                return Err(e);
            },
            Ok((new_defs, vt)) => {
                let ghost nd = view_dc_seq(new_defs@);
                let ghost vtv = vt@;
                let merged = merge_dcs(&mut all_defs, new_defs);
                match merged {
                    Err(e) => {
                        proof {
                            lemma_resolve_props_prefix_err(pv, rv, i + 1);
                        }
                        return Err(e);
                    },
                    Ok(()) => {
                        let req = crate::dataclass::vec_contains_string(
                            &o.required,
                            o.properties[i].0.as_str(),
                        );
                        let ghost fs0 = fields@;
                        fields.push(Field::new(o.properties[i].0.as_str(), vt, req));
                        proof {
                            let k = pv[i as int].0;
                            assert(fields@.drop_last() =~= fs0);
                            assert(crate::dataclass::view_field_seq(fields@)
                                =~= f0.push(fields@.last()@));
                            assert(fields@.last()@ == FieldV {
                                key: field_key(k),
                                json_key: k,
                                value_type: vtv,
                                required: rv.contains(k),
                            });
                            assert(resolve_type(k, pv[i as int].1)
                                == Ok::<(Seq<DataclassV>, TypeV), SchemaError>((nd, vtv)));
                            assert(merge_defs(d0, nd)
                                == Ok::<Seq<DataclassV>, SchemaError>(view_dc_seq(all_defs@)));
                            assert(resolve_props(pv.take(i + 1), rv)
                                == Ok::<(Seq<DataclassV>, Seq<FieldV>), SchemaError>(
                                    (view_dc_seq(all_defs@),
                                     crate::dataclass::view_field_seq(fields@))));
                        }
                    },
                }
            },
        }
        i = i + 1;
    }
    proof {
        assert(pv.take(o.properties@.len() as int) =~= pv);
    }
    let cname = crate::names::make_class_name(name);
    let tname = cname.clone();
    let rec = Dataclass { name: cname, subclasses: all_defs, fields: fields };
    let mut one: Vec<Dataclass> = Vec::new();
    one.push(rec);
    proof {
        assert(view_dc_seq(one@) =~= seq![one@[0]@]);
    }
    Ok((one, Type::TypeName(tname)))
}


/// Registers the records one definition entry uncovered, in order.
pub open spec fn register_records(es: Seq<DefEntryV>, recs: Seq<DataclassV>) -> Result<
    Seq<DefEntryV>,
    SchemaError,
>
    decreases recs.len(),
{
    if recs.len() == 0 {
        Ok(es)
    } else {
        match register_records(es, recs.drop_last()) {
            Err(e) => Err(e),
            Ok(es2) => add_def_spec(es2, recs.last().name, DefV::Dataclass(recs.last())),
        }
    }
}

/// Resolves one named definition and registers what it yields: every
/// record it uncovered, and an alias for its type unless the entry
/// resolved to a record carrying the entry's own name.
pub open spec fn register_def_entry(
    es: Seq<DefEntryV>,
    dname: Seq<char>,
    scm: SchemaView,
) -> Result<Seq<DefEntryV>, SchemaError> {
    let full = "def-"@ + dname;
    match resolve_schema(full, scm) {
        Err(e) => Err(e),
        Ok((recs, vt)) => match register_records(es, recs) {
            Err(e) => Err(e),
            Ok(es2) => if dc_names(recs).contains(pascal_of(full)) {
                Ok(es2)
            } else {
                add_def_spec(es2, pascal_of(full), DefV::Alias(vt))
            },
        },
    }
}

/// Registers every entry of the named-definitions section, in order.
pub open spec fn register_defs(es: Seq<DefEntryV>, defs: Seq<(Seq<char>, SchemaView)>) -> Result<
    Seq<DefEntryV>,
    SchemaError,
>
    decreases defs.len(),
{
    if defs.len() == 0 {
        Ok(es)
    } else {
        match register_defs(es, defs.drop_last()) {
            Err(e) => Err(e),
            Ok(es2) => register_def_entry(es2, defs.last().0, defs.last().1),
        }
    }
}

/// Lowers a whole document: the named definitions become the
/// registry, and the top-level content must yield exactly one record,
/// the root.
pub open spec fn parse_top_spec(name: Seq<char>, t: schema::TopLevelView) -> Result<
    (Seq<DefEntryV>, DataclassV),
    SchemaError,
> {
    match register_defs(Seq::empty(), t.defs) {
        Err(e) => Err(e),
        Ok(es) => match resolve_schema(name, t.content) {
            Err(e) => Err(e),
            Ok((recs, vt)) => if recs.len() != 1 {
                Err(SchemaError::InconsistentRoot)
            } else {
                Ok((es, recs[0]))
            },
        },
    }
}

/// Every reference pointer in the document names a definition
/// segment.
pub open spec fn top_refs_wellformed(t: schema::TopLevelView) -> bool {
    &&& forall|i: int|
        0 <= i < t.defs.len() ==> schema_refs_wellformed(#[trigger] t.defs[i].1)
    &&& schema_refs_wellformed(t.content)
}

/// An error while registering a prefix of the records decides the
/// result.
proof fn lemma_register_records_prefix_err(es: Seq<DefEntryV>, recs: Seq<DataclassV>, i: int)
    requires
        0 <= i <= recs.len(),
        register_records(es, recs.take(i)) is Err,
    ensures
        register_records(es, recs) == register_records(es, recs.take(i)),
    decreases recs.len(),
{
    if i == recs.len() {
        assert(recs.take(i) =~= recs);
    } else {
        assert(recs.drop_last().take(i) =~= recs.take(i));
        lemma_register_records_prefix_err(es, recs.drop_last(), i);
    }
}

/// An error while registering a prefix of the named definitions
/// decides the result.
proof fn lemma_register_defs_prefix_err(
    es: Seq<DefEntryV>,
    defs: Seq<(Seq<char>, SchemaView)>,
    i: int,
)
    requires
        0 <= i <= defs.len(),
        register_defs(es, defs.take(i)) is Err,
    ensures
        register_defs(es, defs) == register_defs(es, defs.take(i)),
    decreases defs.len(),
{
    if i == defs.len() {
        assert(defs.take(i) =~= defs);
    } else {
        assert(defs.drop_last().take(i) =~= defs.take(i));
        lemma_register_defs_prefix_err(es, defs.drop_last(), i);
    }
}

/// Lowers a whole schema document, mirroring `parse_top_spec`: the
/// named definitions populate the registry, and the content must
/// yield exactly one new record, returned as the root.
#[verifier::rlimit(30)]
pub fn parse_top(name: &str, top: &schema::TopLevel) -> (r: Result<(Defs, Dataclass), SchemaError>)
    requires
        top_refs_wellformed(top@),
    ensures
        r is Ok ==> parse_top_spec(name@, top@) == Ok::<(Seq<DefEntryV>, DataclassV), SchemaError>(
            ((r->Ok_0).0@.entries, (r->Ok_0).1@),
        ),
        r is Err ==> parse_top_spec(name@, top@) == Err::<(Seq<DefEntryV>, DataclassV), SchemaError>(
            r->Err_0,
        ),
        r is Ok ==> (r->Ok_0).0@.wf(),
{
    broadcast use crate::dataclass::lemma_view_dc_seq;

    let ghost dv = top@.defs;
    let mut definitions = Defs::new();
    proof {
        assert(dv.take(0) =~= Seq::<(Seq<char>, SchemaView)>::empty());
        assert(definitions@.wf());
    }
    let mut i: usize = 0;
    #[verifier::loop_isolation(false)]
    while i < top.defs.len()
        invariant
            i <= top.defs.len(),
            register_defs(Seq::empty(), dv.take(i as int))
                == Ok::<Seq<DefEntryV>, SchemaError>(definitions@.entries),
            definitions@.wf(),
        decreases top.defs.len() - i,
    {
        proof {
            assert(dv.take(i + 1).drop_last() =~= dv.take(i as int));
            assert(dv.take(i + 1).last() == dv[i as int]);
            assert(dv[i as int].1 == top.defs@[i as int].1@);
            assert(schema_refs_wellformed(dv[i as int].1));
        }
        let full = String::from_str("def-").concat(top.defs[i].0.as_str());
        let ghost es_in = definitions@.entries;
        let sub = parse_schema(full.as_str(), &top.defs[i].1);
        match sub {
            Err(e) => {
                proof {
                    lemma_register_defs_prefix_err(Seq::empty(), dv, i + 1);
                }
                return Err(e);
            },
            Ok((recs, vt)) => {
                let ghost rv0 = view_dc_seq(recs@);
                let ghost vtv = vt@;
                let full_pascal = crate::names::make_class_name(full.as_str());
                let has_self = dc_contains_name(&recs, full_pascal.as_str());
                let mut rest = recs;
                let ghost mut j: int = 0;
                proof {
                    assert(rv0.take(0) =~= Seq::<DataclassV>::empty());
                }
                #[verifier::loop_isolation(false)]
                while rest.len() > 0
                    invariant
                        0 <= j <= rv0.len(),
                        view_dc_seq(rest@) =~= rv0.skip(j),
                        rest@.len() == rv0.len() - j,
                        register_records(es_in, rv0.take(j))
                            == Ok::<Seq<DefEntryV>, SchemaError>(definitions@.entries),
                        definitions@.wf(),
                    decreases rest.len(),
                {
                    let ghost prev = rest@;
                    let d = rest.remove(0);
                    proof {
                        assert(view_dc_seq(prev)[0] == prev[0]@);
                        assert(d@ == rv0[j]);
                        assert(view_dc_seq(rest@) =~= rv0.skip(j + 1)) by {
                            assert(forall|k: int| 0 <= k < rest@.len() ==> rest@[k] == prev[k + 1]);
                            assert(forall|k: int| 0 <= k < rest@.len()
                                ==> #[trigger] view_dc_seq(prev)[k + 1] == rv0.skip(j)[k + 1]);
                            assert(forall|k: int| 0 <= k < rest@.len()
                                ==> rv0.skip(j)[k + 1] == #[trigger] rv0.skip(j + 1)[k]);
                        }
                        assert(rv0.take(j + 1).drop_last() =~= rv0.take(j));
                        assert(rv0.take(j + 1).last() == rv0[j]);
                    }
                    let dn = d.name.clone();
                    let added = definitions.add_definition(dn, crate::dataclass::Def::Dataclass(d));
                    match added {
                        Err(e) => {
                            proof {
                                lemma_register_records_prefix_err(es_in, rv0, j + 1);
                                lemma_register_defs_prefix_err(Seq::empty(), dv, i + 1);
                            }
                            return Err(e);
                        },
                        Ok(()) => {
                            proof {
                                j = j + 1;
                            }
                        },
                    }
                }
                proof {
                    assert(rv0.take(j) =~= rv0);
                }
                if !has_self {
                    let added = definitions.add_definition(
                        full_pascal,
                        crate::dataclass::Def::Alias(vt),
                    );
                    match added {
                        Err(e) => {
                            proof {
                                lemma_register_defs_prefix_err(Seq::empty(), dv, i + 1);
                            }
                            return Err(e);
                        },
                        Ok(()) => {},
                    }
                }
            },
        }
        i = i + 1;
    }
    proof {
        assert(dv.take(top.defs@.len() as int) =~= dv);
    }
    let main = parse_schema(name, &top.content);
    match main {
        Err(e) => Err(e),
        Ok((recs, _vt)) => {
            if recs.len() != 1 {
                return Err(SchemaError::InconsistentRoot);
            }
            let mut recs = recs;
            let dc = match recs.pop() {
                Some(d) => d,
                None => {
                    return Err(SchemaError::InconsistentRoot);
                },
            };
            proof {
                assert(dc@ == view_dc_seq(recs@.push(dc))[0]);
            }
            Ok((definitions, dc))
        },
    }
}


/// Well-formedness of a prefix of the alternatives bounds the whole.
proof fn lemma_alts_wf_prefix(alts: Seq<TypeView>, i: int)
    requires
        0 <= i <= alts.len(),
        !alts_refs_wellformed(alts.take(i)),
    ensures
        !alts_refs_wellformed(alts),
    decreases alts.len(),
{
    if i == alts.len() {
        assert(alts.take(i) =~= alts);
    } else {
        assert(alts.drop_last().take(i) =~= alts.take(i));
        lemma_alts_wf_prefix(alts.drop_last(), i);
    }
}

/// Well-formedness of a prefix of the properties bounds the whole.
proof fn lemma_props_wf_prefix(props: Seq<(Seq<char>, TypeView)>, i: int)
    requires
        0 <= i <= props.len(),
        !props_refs_wellformed(props.take(i)),
    ensures
        !props_refs_wellformed(props),
    decreases props.len(),
{
    if i == props.len() {
        assert(props.take(i) =~= props);
    } else {
        assert(props.drop_last().take(i) =~= props.take(i));
        lemma_props_wf_prefix(props.drop_last(), i);
    }
}

/// Decides whether every reference pointer in a node names a
/// definition segment, so that a caller can establish the resolver's
/// precondition.
pub fn check_type_refs(t: &schema::Type) -> (r: bool)
    ensures
        r == type_refs_wellformed(t@),
    decreases *t,
{
    broadcast use crate::schema::lemma_view_type_seq;

    match t {
        schema::Type::Schema(sch) => check_schema_refs(sch),
        schema::Type::AnyOf(a) => {
            let ghost av = crate::schema::view_type_seq(a.any_of@);
            let mut i: usize = 0;
            proof {
                assert(av.take(0) =~= Seq::<TypeView>::empty());
            }
            #[verifier::loop_isolation(false)]
            while i < a.any_of.len()
                invariant
                    i <= a.any_of.len(),
                    alts_refs_wellformed(av.take(i as int)),
                decreases a.any_of.len() - i,
            {
                proof {
                    assert(*t == schema::Type::AnyOf(*a));
                    assert(decreases_to!(*t => *a));
                    assert(decreases_to!(*a => a.any_of));
                    assert(decreases_to!(a.any_of => a.any_of@[i as int]));
                    assert(av.take(i + 1).drop_last() =~= av.take(i as int));
                    assert(av.take(i + 1).last() == av[i as int]);
                }
                if !check_type_refs(&a.any_of[i]) {
                    proof {
                        lemma_alts_wf_prefix(av, i + 1);
                    }
                    return false;
                }
                i = i + 1;
            }
            proof {
                assert(av.take(a.any_of@.len() as int) =~= av);
            }
            true
        },
        schema::Type::Ref(x) => crate::names::check_ref_wellformed(x.ref_id.as_str()),
    }
}

/// Decides whether every reference pointer in a plain schema names a
/// definition segment.
pub fn check_schema_refs(sch: &schema::Schema) -> (r: bool)
    ensures
        r == schema_refs_wellformed(sch@),
    decreases *sch,
{
    broadcast use crate::schema::lemma_view_prop_seq;

    match sch {
        schema::Schema::Array(a) => check_type_refs(&*a.items),
        schema::Schema::Object(o) => {
            let ghost pv = crate::schema::view_prop_seq(o.properties@);
            let mut i: usize = 0;
            proof {
                assert(pv.take(0) =~= Seq::<(Seq<char>, TypeView)>::empty());
            }
            #[verifier::loop_isolation(false)]
            while i < o.properties.len()
                invariant
                    i <= o.properties.len(),
                    props_refs_wellformed(pv.take(i as int)),
                decreases o.properties.len() - i,
            {
                proof {
                    assert(*sch == schema::Schema::Object(*o));
                    assert(decreases_to!(*sch => *o));
                    assert(decreases_to!(*o => o.properties));
                    assert(decreases_to!(o.properties => o.properties@[i as int]));
                    assert(pv.take(i + 1).drop_last() =~= pv.take(i as int));
                    assert(pv.take(i + 1).last() == pv[i as int]);
                    assert(pv[i as int].1 == o.properties@[i as int].1@);
                }
                if !check_type_refs(&o.properties[i].1) {
                    proof {
                        lemma_props_wf_prefix(pv, i + 1);
                    }
                    return false;
                }
                i = i + 1;
            }
            proof {
                assert(pv.take(o.properties@.len() as int) =~= pv);
            }
            true
        },
        _ => true,
    }
}

/// Decides whether every reference pointer in a document names a
/// definition segment.
pub fn check_top_refs(top: &schema::TopLevel) -> (r: bool)
    ensures
        r == top_refs_wellformed(top@),
{
    let ghost dv = top@.defs;
    let mut i: usize = 0;
    #[verifier::loop_isolation(false)]
    while i < top.defs.len()
        invariant
            i <= top.defs.len(),
            forall|k: int| 0 <= k < i ==> schema_refs_wellformed(#[trigger] dv[k].1),
        decreases top.defs.len() - i,
    {
        proof {
            assert(dv[i as int].1 == top.defs@[i as int].1@);
        }
        if !check_schema_refs(&top.defs[i].1) {
            return false;
        }
        i = i + 1;
    }
    check_schema_refs(&top.content)
}

} // verus!
