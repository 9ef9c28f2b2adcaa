use vstd::prelude::*;
use vstd::string::StringExecFns;
use crate::dataclass::{
    Type, Field, Dataclass, Def, Defs, TypeV, FieldV, DataclassV, DefV, DefEntryV, view_dc_seq,
    view_ir_seq, view_field_seq,
};
use crate::names::int_text;
use crate::strutil::lex_le;
use crate::error::SchemaError;

verus! {

/// The textual rendering of an IR type.
pub open spec fn type_text(t: TypeV) -> Seq<char>
    decreases t, 1int,
{
    match t {
        TypeV::Integer => "int"@,
        TypeV::String => "str"@,
        TypeV::Boolean => "bool"@,
        TypeV::TypeName(x) => "'"@ + x + "'"@,
        TypeV::List(inner) => "list["@ + type_text(*inner) + "]"@,
        TypeV::Union(ts) => "Union["@ + join_texts(ts) + "]"@,
        TypeV::IntegerLiteral(x) => "Literal["@ + int_text(x as int) + "]"@,
        TypeV::StringLiteral(x) => "Literal['"@ + x + "']"@,
        TypeV::BooleanLiteral(b) => if b {
            "Literal[True]"@
        } else {
            "Literal[False]"@
        },
    }
}

/// The renderings of a union's alternatives, comma-separated.
pub open spec fn join_texts(ts: Seq<TypeV>) -> Seq<char>
    decreases ts, 0int,
{
    if ts.len() == 0 {
        Seq::empty()
    } else if ts.len() == 1 {
        type_text(ts[0])
    } else {
        join_texts(ts.drop_last()) + ", "@ + type_text(ts.last())
    }
}

/// The printed line of one field: its identifier, its type, and the
/// mapping back to its schema key; an optional field is wrapped in
/// `Optional` and defaults to `None`.
pub open spec fn field_line(f: FieldV) -> Seq<char> {
    if f.required {
        f.key + ": "@ + type_text(f.value_type) + " = json_field(['"@ + f.json_key + "'])"@
    } else {
        f.key + ": Optional["@ + type_text(f.value_type) + "] = json_field(['"@ + f.json_key
            + "'], default=None)"@
    }
}

impl Type {
    /// The textual rendering of this type.
    pub fn get_type_name(&self) -> (r: String)
        ensures
            r@ == type_text(self@),
        decreases *self,
    {
        broadcast use crate::dataclass::lemma_view_ir_seq;

        match self {
            Type::Integer => String::from_str("int"),
            Type::String => String::from_str("str"),
            Type::Boolean => String::from_str("bool"),
            Type::TypeName(x) => String::from_str("'").concat(x.as_str()).concat("'"),
            Type::List(inner) => {
                let inner_text = (**inner).get_type_name();
                String::from_str("list[").concat(inner_text.as_str()).concat("]")
            },
            Type::Union(ts) => {
                let ghost vts = view_ir_seq(ts@);
                let mut joined = String::new();
                let mut i: usize = 0;
                #[verifier::loop_isolation(false)]
                while i < ts.len()
                    invariant
                        i <= ts.len(),
                        joined@ == join_texts(vts.take(i as int)),
                    decreases ts.len() - i,
                {
                    proof {
                        assert(*self == Type::Union(*ts));
                        assert(decreases_to!(*self => *ts));
                        assert(decreases_to!(*ts => ts@[i as int]));
                        assert(vts.take(i + 1).drop_last() =~= vts.take(i as int));
                        assert(vts.take(i + 1).last() == vts[i as int]);
                    }
                    if i > 0 {
                        joined.append(", ");
                    }
                    let t = ts[i].get_type_name();
                    joined.append(t.as_str());
                    proof {
                        if i == 0 {
                            assert(joined@ =~= join_texts(vts.take(1)));
                        } else {
                            assert(joined@ =~= join_texts(vts.take(i + 1)));
                        }
                    }
                    i = i + 1;
                }
                proof {
                    assert(vts.take(ts@.len() as int) =~= vts);
                }
                String::from_str("Union[").concat(joined.as_str()).concat("]")
            },
            Type::IntegerLiteral(x) => {
                let digits = crate::names::i32_to_string(*x);
                String::from_str("Literal[").concat(digits.as_str()).concat("]")
            },
            Type::StringLiteral(x) => {
                String::from_str("Literal['").concat(x.as_str()).concat("']")
            },
            Type::BooleanLiteral(b) => {
                if *b {
                    String::from_str("Literal[True]")
                } else {
                    String::from_str("Literal[False]")
                }
            },
        }
    }
}

impl Field {
    /// The printed line of this field.
    pub fn render(&self) -> (r: String)
        ensures
            r@ == field_line(self@),
    {
        let tname = self.value_type.get_type_name();
        if self.required {
            self.key.clone().concat(": ").concat(tname.as_str()).concat(
                " = json_field(['",
            ).concat(self.json_key.as_str()).concat("'])")
        } else {
            self.key.clone().concat(": Optional[").concat(tname.as_str()).concat(
                "] = json_field(['",
            ).concat(self.json_key.as_str()).concat("'], default=None)")
        }
    }
}


/// The fields of one group: required or optional.
pub open spec fn filter_req(fs: Seq<FieldV>, want: bool) -> Seq<FieldV>
    decreases fs.len(),
{
    if fs.len() == 0 {
        Seq::empty()
    } else {
        let rest = filter_req(fs.drop_last(), want);
        if fs.last().required == want {
            rest.push(fs.last())
        } else {
            rest
        }
    }
}

/// Inserts a field into a key-sorted run, after every field whose key
/// is not greater.
pub open spec fn insert_field(acc: Seq<FieldV>, f: FieldV) -> Seq<FieldV>
    decreases acc.len(),
{
    if acc.len() == 0 {
        seq![f]
    } else if lex_le(acc[0].json_key, f.json_key) {
        seq![acc[0]] + insert_field(acc.drop_first(), f)
    } else {
        seq![f] + acc
    }
}

/// Sorts fields by their schema key, stably, by insertion.
pub open spec fn sort_fields(fs: Seq<FieldV>) -> Seq<FieldV>
    decreases fs.len(),
{
    if fs.len() == 0 {
        Seq::empty()
    } else {
        insert_field(sort_fields(fs.drop_last()), fs.last())
    }
}

/// The printed field list of a record: the required fields sorted by
/// schema key, then the optional fields sorted by schema key.
pub open spec fn printed_fields(fs: Seq<FieldV>) -> Seq<FieldV> {
    sort_fields(filter_req(fs, true)) + sort_fields(filter_req(fs, false))
}

/// The element-wise view of borrowed fields.
pub open spec fn view_ref_fields(fs: Seq<&Field>) -> Seq<FieldV> {
    Seq::new(fs.len(), |i: int| fs[i]@)
}

/// Inserting at the first position whose key is greater is what
/// `insert_field` does.
proof fn lemma_insert_at(acc: Seq<FieldV>, f: FieldV, q: int)
    requires
        0 <= q <= acc.len(),
        forall|m: int| 0 <= m < q ==> lex_le(#[trigger] acc[m].json_key, f.json_key),
        q < acc.len() ==> !lex_le(acc[q].json_key, f.json_key),
    ensures
        insert_field(acc, f) == acc.take(q) + seq![f] + acc.skip(q),
    decreases q,
{
    if q == 0 {
        if acc.len() == 0 {
            assert(insert_field(acc, f) =~= acc.take(0) + seq![f] + acc.skip(0));
        } else {
            assert(acc.take(0) + seq![f] + acc.skip(0) =~= seq![f] + acc);
        }
    } else {
        lemma_insert_at(acc.drop_first(), f, q - 1);
        assert(acc.drop_first().take(q - 1) =~= acc.take(q).drop_first());
        assert(acc.drop_first().skip(q - 1) =~= acc.skip(q));
        assert(seq![acc[0]] + (acc.drop_first().take(q - 1) + seq![f] + acc.drop_first().skip(
            q - 1,
        )) =~= acc.take(q) + seq![f] + acc.skip(q));
    }
}

/// Collects one group of a record's fields, sorted by schema key.
fn sorted_group<'a>(fields: &'a Vec<Field>, want: bool) -> (r: Vec<&'a Field>)
    ensures
        view_ref_fields(r@) == sort_fields(filter_req(view_field_seq(fields@), want)),
{
    let ghost fv = view_field_seq(fields@);
    let mut out: Vec<&Field> = Vec::new();
    let mut i: usize = 0;
    proof {
        assert(fv.take(0) =~= Seq::<FieldV>::empty());
        assert(view_ref_fields(out@) =~= Seq::<FieldV>::empty());
    }
    #[verifier::loop_isolation(false)]
    while i < fields.len()
        invariant
            i <= fields.len(),
            view_ref_fields(out@) == sort_fields(filter_req(fv.take(i as int), want)),
        decreases fields.len() - i,
    {
        proof {
            assert(fv.take(i + 1).drop_last() =~= fv.take(i as int));
            assert(fv.take(i + 1).last() == fv[i as int]);
        }
        if fields[i].required == want {
            let ghost acc = view_ref_fields(out@);
            let mut q: usize = 0;
            #[verifier::loop_isolation(false)]
            while q < out.len()
                invariant
                    q <= out.len(),
                    forall|m: int|
                        0 <= m < q ==> lex_le(#[trigger] acc[m].json_key, fv[i as int].json_key),
                decreases out.len() - q,
            {
                if !crate::strutil::str_le(out[q].json_key.as_str(), fields[i].json_key.as_str()) {
                    break;
                }
                proof {
                    assert(acc[q as int].json_key == out@[q as int]@.json_key);
                }
                q = q + 1;
            }
            proof {
                if (q as int) < acc.len() {
                    assert(acc[q as int].json_key == out@[q as int]@.json_key);
                }
                lemma_insert_at(acc, fv[i as int], q as int);
            }
            out.insert(q, &fields[i]);
            proof {
                assert(out@.len() == acc.len() + 1);
                assert(view_ref_fields(out@) =~= acc.take(q as int) + seq![fv[i as int]]
                    + acc.skip(q as int)) by {
                    assert(forall|m: int|
                        0 <= m < q ==> out@[m] == #[trigger] out@.subrange(0, q as int)[m]);
                    assert(forall|m: int|
                        0 <= m < out@.len() && m < q ==> #[trigger] view_ref_fields(out@)[m]
                            == acc[m]);
                    assert(view_ref_fields(out@)[q as int] == fv[i as int]);
                    assert(forall|m: int|
                        q < m < out@.len() ==> #[trigger] view_ref_fields(out@)[m] == acc[m - 1]);
                }
                assert(view_ref_fields(out@) == insert_field(acc, fv[i as int]));
                assert(filter_req(fv.take(i + 1), want)
                    =~= filter_req(fv.take(i as int), want).push(fv[i as int]));
                assert(filter_req(fv.take(i + 1), want).drop_last()
                    =~= filter_req(fv.take(i as int), want));
                assert(sort_fields(filter_req(fv.take(i + 1), want))
                    == insert_field(sort_fields(filter_req(fv.take(i as int), want)),
                        fv[i as int]));
            }
        }
        i = i + 1;
    }
    proof {
        assert(fv.take(fields@.len() as int) =~= fv);
    }
    out
}


/// The body lines of a record, one indent level deeper.
pub open spec fn indent_lines(ls: Seq<Seq<char>>) -> Seq<Seq<char>> {
    ls.map(|i: int, l: Seq<char>| "  "@ + l)
}

/// The printed lines of a field group, one indent level deep.
pub open spec fn group_lines(fs: Seq<FieldV>) -> Seq<Seq<char>> {
    fs.map(|i: int, f: FieldV| "  "@ + field_line(f))
}

/// The printed lines of one record declaration: the decorator and
/// class header, the nested records, then the required fields before
/// the optional fields, each group sorted by schema key; a record
/// with no nested records and no fields gets an explicit empty body.
pub open spec fn render_dataclass(dc: DataclassV) -> Seq<Seq<char>>
    decreases dc, 1int,
{
    let head = seq!["@dataclass"@, "class "@ + dc.name + "(JSONWizard):"@];
    let subs = indent_lines(render_dc_list(dc.subclasses));
    let req = group_lines(sort_fields(filter_req(dc.fields, true)));
    let opt = group_lines(sort_fields(filter_req(dc.fields, false)));
    let tail = if dc.subclasses.len() == 0 && dc.fields.len() == 0 {
        seq!["  pass"@]
    } else {
        Seq::empty()
    };
    head + subs + seq!["  # required fields:"@] + req + seq!["  # optional fields:"@] + opt
        + tail
}

/// The printed lines of a list of records, in order.
pub open spec fn render_dc_list(ds: Seq<DataclassV>) -> Seq<Seq<char>>
    decreases ds, 0int,
{
    if ds.len() == 0 {
        Seq::empty()
    } else {
        render_dc_list(ds.drop_last()) + render_dataclass(ds.last())
    }
}

/// The printed lines of one registry definition.
pub open spec fn render_def(name: Seq<char>, def: DefV) -> Seq<Seq<char>> {
    match def {
        DefV::Alias(t) => seq![name + ": TypeAlias = "@ + type_text(t)],
        DefV::Dataclass(dc) => render_dataclass(dc),
    }
}

/// The definition held under a name, first match.
pub open spec fn lookup_def(es: Seq<DefEntryV>, n: Seq<char>) -> DefV
    decreases es.len(),
{
    if es.len() == 0 {
        DefV::Alias(TypeV::Integer)
    } else if es.first().name == n {
        es.first().def
    } else {
        lookup_def(es.drop_first(), n)
    }
}

/// The printed lines of the registry, in the given name order.
pub open spec fn render_order(es: Seq<DefEntryV>, ord: Seq<Seq<char>>) -> Seq<Seq<char>>
    decreases ord.len(),
{
    if ord.len() == 0 {
        Seq::empty()
    } else {
        render_order(es, ord.drop_last()) + render_def(ord.last(), lookup_def(es, ord.last()))
    }
}

/// The fixed preamble of every generated module.
pub open spec fn header_lines() -> Seq<Seq<char>> {
    seq![
        "from dataclasses import dataclass, field"@,
        "from datetime import date"@,
        "from enum import Enum"@,
        "from typing import *"@,
        "from dataclass_wizard import JSONWizard, json_field  # mypy: ignore"@,
    ]
}

/// Lines joined by newlines.
pub open spec fn join_nl(ls: Seq<Seq<char>>) -> Seq<char>
    decreases ls.len(),
{
    if ls.len() == 0 {
        Seq::empty()
    } else if ls.len() == 1 {
        ls[0]
    } else {
        join_nl(ls.drop_last()) + "\n"@ + ls.last()
    }
}

/// The whole printed document: the preamble, the registry in the
/// given order, and the root record.
pub open spec fn print_text(es: Seq<DefEntryV>, ord: Seq<Seq<char>>, main: DataclassV) -> Seq<
    char,
> {
    join_nl(header_lines() + render_order(es, ord) + render_dataclass(main))
}

/// Appends one line.
fn push_line(lines: &mut Vec<String>, s: String)
    ensures
        final(lines).deep_view() == old(lines).deep_view().push(s@),
{
    let ghost d0 = lines.deep_view();
    let ghost sv = s@;
    lines.push(s);
    proof {
        assert(lines.deep_view() =~= d0.push(sv));
    }
}

/// The printed lines of one record, built recursively.
#[verifier::rlimit(40)]
fn dataclass_lines(dc: &Dataclass) -> (r: Vec<String>)
    ensures
        r.deep_view() == render_dataclass(dc@),
    decreases *dc,
{
    broadcast use crate::dataclass::lemma_view_dc_seq;

    let ghost sv = view_dc_seq(dc.subclasses@);
    let mut lines: Vec<String> = Vec::new();
    push_line(&mut lines, String::from_str("@dataclass"));
    push_line(
        &mut lines,
        String::from_str("class ").concat(dc.name.as_str()).concat("(JSONWizard):"),
    );
    let ghost head = seq!["@dataclass"@, "class "@ + dc@.name + "(JSONWizard):"@];
    proof {
        assert(lines.deep_view() =~= head);
        assert(sv.take(0) =~= Seq::<DataclassV>::empty());
        assert(indent_lines(render_dc_list(sv.take(0))) =~= Seq::<Seq<char>>::empty());
        assert(lines.deep_view() =~= head + indent_lines(render_dc_list(sv.take(0))));
    }
    let mut j: usize = 0;
    #[verifier::loop_isolation(false)]
    while j < dc.subclasses.len()
        invariant
            j <= dc.subclasses.len(),
            lines.deep_view() == head + indent_lines(render_dc_list(sv.take(j as int))),
        decreases dc.subclasses.len() - j,
    {
        proof {
            assert(decreases_to!(*dc => dc.subclasses));
            assert(decreases_to!(dc.subclasses => dc.subclasses@[j as int]));
        }
        let sub = dataclass_lines(&dc.subclasses[j]);
        let ghost subv = sub.deep_view();
        let mut m: usize = 0;
        #[verifier::loop_isolation(false)]
        while m < sub.len()
            invariant
                m <= sub.len(),
                subv == render_dataclass(sv[j as int]),
                lines.deep_view() == head + indent_lines(render_dc_list(sv.take(j as int)))
                    + indent_lines(subv.take(m as int)),
            decreases sub.len() - m,
        {
            push_line(&mut lines, String::from_str("  ").concat(sub[m].as_str()));
            proof {
                assert(indent_lines(subv.take(m + 1))
                    =~= indent_lines(subv.take(m as int)).push("  "@ + subv[m as int]));
                assert(lines.deep_view() =~= head
                    + indent_lines(render_dc_list(sv.take(j as int)))
                    + indent_lines(subv.take(m + 1)));
            }
            m = m + 1;
        }
        proof {
            assert(subv.take(sub@.len() as int) =~= subv);
            assert(sv.take(j + 1).drop_last() =~= sv.take(j as int));
            assert(sv.take(j + 1).last() == sv[j as int]);
            assert(render_dc_list(sv.take(j + 1))
                =~= render_dc_list(sv.take(j as int)) + subv);
            assert(indent_lines(render_dc_list(sv.take(j + 1)))
                =~= indent_lines(render_dc_list(sv.take(j as int))) + indent_lines(subv));
            assert(lines.deep_view() =~= head + indent_lines(render_dc_list(sv.take(j + 1))));
        }
        j = j + 1;
    }
    proof {
        assert(sv.take(dc.subclasses@.len() as int) =~= sv);
    }
    let ghost base = head + indent_lines(render_dc_list(sv));
    push_line(&mut lines, String::from_str("  # required fields:"));
    let ghost fv = view_field_seq(dc.fields@);
    let req = sorted_group(&dc.fields, true);
    let ghost reqv = view_ref_fields(req@);
    let ghost base_req = base + seq!["  # required fields:"@];
    proof {
        assert(group_lines(reqv.take(0)) =~= Seq::<Seq<char>>::empty());
        assert(lines.deep_view() =~= base_req + group_lines(reqv.take(0)));
    }
    let mut q: usize = 0;
    #[verifier::loop_isolation(false)]
    while q < req.len()
        invariant
            q <= req.len(),
            lines.deep_view() == base_req + group_lines(reqv.take(q as int)),
        decreases req.len() - q,
    {
        push_line(&mut lines, String::from_str("  ").concat(req[q].render().as_str()));
        proof {
            assert(req@[q as int]@ == reqv[q as int]);
            assert(group_lines(reqv.take(q + 1))
                =~= group_lines(reqv.take(q as int)).push("  "@ + field_line(reqv[q as int])));
            assert(lines.deep_view() =~= base_req + group_lines(reqv.take(q + 1)));
        }
        q = q + 1;
    }
    push_line(&mut lines, String::from_str("  # optional fields:"));
    let opt = sorted_group(&dc.fields, false);
    let ghost optv = view_ref_fields(opt@);
    let ghost base_opt = base_req + group_lines(reqv) + seq!["  # optional fields:"@];
    proof {
        assert(reqv.take(req@.len() as int) =~= reqv);
        assert(group_lines(optv.take(0)) =~= Seq::<Seq<char>>::empty());
        assert(lines.deep_view() =~= base_opt + group_lines(optv.take(0)));
    }
    let mut w: usize = 0;
    #[verifier::loop_isolation(false)]
    while w < opt.len()
        invariant
            w <= opt.len(),
            lines.deep_view() == base_opt + group_lines(optv.take(w as int)),
        decreases opt.len() - w,
    {
        push_line(&mut lines, String::from_str("  ").concat(opt[w].render().as_str()));
        proof {
            assert(opt@[w as int]@ == optv[w as int]);
            assert(group_lines(optv.take(w + 1))
                =~= group_lines(optv.take(w as int)).push("  "@ + field_line(optv[w as int])));
            assert(lines.deep_view() =~= base_opt + group_lines(optv.take(w + 1)));
        }
        w = w + 1;
    }
    proof {
        assert(optv.take(opt@.len() as int) =~= optv);
    }
    if dc.subclasses.len() == 0 && dc.fields.len() == 0 {
        push_line(&mut lines, String::from_str("  pass"));
        proof {
            assert(lines.deep_view() =~= render_dataclass(dc@));
        }
    } else {
        proof {
            assert(lines.deep_view() + Seq::<Seq<char>>::empty() =~= lines.deep_view());
            assert(lines.deep_view() =~= render_dataclass(dc@));
        }
    }
    lines
}


/// Finds the definition registered under a name.
fn find_def<'a>(defs: &'a Defs, name: &str) -> (r: Option<&'a Def>)
    ensures
        r is Some ==> crate::sorter::has_entry(defs@.entries, name@) && (r->0)@ == lookup_def(
            defs@.entries,
            name@,
        ),
        r is None ==> !crate::sorter::has_entry(defs@.entries, name@),
{
    let ghost es = defs@.entries;
    let mut i: usize = 0;
    proof {
        assert(es.skip(0) =~= es);
    }
    #[verifier::loop_isolation(false)]
    while i < defs.entries.len()
        invariant
            i <= es.len(),
            lookup_def(es, name@) == lookup_def(es.skip(i as int), name@),
            forall|k: int| 0 <= k < i ==> es[k].name != name@,
        decreases defs.entries.len() - i,
    {
        proof {
            assert(es.skip(i as int).first() == es[i as int]);
        }
        if crate::strutil::str_eq(defs.entries[i].name.as_str(), name) {
            proof {
                assert(lookup_def(es.skip(i as int), name@) == es[i as int].def);
            }
            return Some(&defs.entries[i].def);
        }
        proof {
            assert(es.skip(i as int).drop_first() =~= es.skip(i + 1));
        }
        i = i + 1;
    }
    proof {
        if crate::sorter::has_entry(es, name@) {
            let k = choose|k: int| 0 <= k < es.len() && es[k].name == name@;
            assert(es[k].name != name@);
        }
    }
    None
}

/// Joins lines with newlines.
fn join_lines(lines: &Vec<String>) -> (r: String)
    ensures
        r@ == join_nl(lines.deep_view()),
{
    let ghost lv = lines.deep_view();
    let mut out = String::new();
    let mut i: usize = 0;
    proof {
        assert(join_nl(lv.take(0)) =~= Seq::<char>::empty());
    }
    #[verifier::loop_isolation(false)]
    while i < lines.len()
        invariant
            i <= lines.len(),
            out@ == join_nl(lv.take(i as int)),
        decreases lines.len() - i,
    {
        proof {
            assert(lv.take(i + 1).drop_last() =~= lv.take(i as int));
            assert(lv.take(i + 1).last() == lv[i as int]);
        }
        if i > 0 {
            out.append("\n");
        }
        out.append(lines[i].as_str());
        proof {
            if i == 0 {
                assert(out@ =~= join_nl(lv.take(1)));
            } else {
                assert(out@ =~= join_nl(lv.take(i + 1)));
            }
        }
        i = i + 1;
    }
    proof {
        assert(lv.take(lines@.len() as int) =~= lv);
    }
    out
}


/// Every definition-marked reference inside the record (and its
/// nested records) names a registry entry.
pub open spec fn refs_resolved(es: Seq<DefEntryV>, dc: DataclassV) -> bool {
    forall|i: int|
        0 <= i < crate::dataclass::dc_refs(dc).len() ==> crate::sorter::has_entry(
            es,
            #[trigger] crate::dataclass::dc_refs(dc)[i],
        )
}

/// Accumulates the printed lines of one document.
pub struct SchemaPrinter {
    lines: Vec<String>,
}

impl SchemaPrinter {
    /// Appends one finished line.
    fn add_line(&mut self, s: String)
        ensures
            final(self).lines.deep_view() == old(self).lines.deep_view().push(s@),
    {
        push_line(&mut self.lines, s);
    }

    /// Appends the declaration of one registry definition.
    fn run_def(&mut self, name: &str, def: &Def)
        ensures
            final(self).lines.deep_view() == old(self).lines.deep_view() + render_def(
                name@,
                def@,
            ),
    {
        match def {
            Def::Alias(t) => {
                let text = t.get_type_name();
                self.add_line(
                    name.to_owned().concat(": TypeAlias = ").concat(text.as_str()),
                );
                proof {
                    assert(final(self).lines.deep_view() =~= old(self).lines.deep_view()
                        + render_def(name@, def@));
                }
            },
            Def::Dataclass(dc) => {
                self.run_dataclass(dc);
            },
        }
    }

    /// Appends the declaration of one record.
    fn run_dataclass(&mut self, dc: &Dataclass)
        ensures
            final(self).lines.deep_view() == old(self).lines.deep_view() + render_dataclass(dc@),
    {
        let ls = dataclass_lines(dc);
        let ghost lsv = ls.deep_view();
        let mut m: usize = 0;
        proof {
            assert(self.lines.deep_view() + lsv.take(0) =~= self.lines.deep_view());
        }
        #[verifier::loop_isolation(false)]
        while m < ls.len()
            invariant
                m <= ls.len(),
                self.lines.deep_view() == old(self).lines.deep_view() + lsv.take(m as int),
            decreases ls.len() - m,
        {
            self.add_line(ls[m].clone());
            proof {
                assert(lsv.take(m + 1) =~= lsv.take(m as int).push(lsv[m as int]));
                assert(self.lines.deep_view() =~= old(self).lines.deep_view() + lsv.take(m + 1));
            }
            m = m + 1;
        }
        proof {
            assert(lsv.take(ls@.len() as int) =~= lsv);
        }
    }

    /// Prints the whole document: the fixed preamble, every registry
    /// definition in dependency order, then the root record.  A cycle
    /// in the registry, a dependency that names no definition, or a
    /// reference of the root record that names no definition is an
    /// error, and nothing is printed.
    pub fn print(defs: &Defs, main: &Dataclass) -> (r: Result<String, SchemaError>)
        requires
            defs@.wf(),
        ensures
            r is Ok ==> crate::sorter::sort_spec(defs@.entries) is Ok && (r->Ok_0)@
                == print_text(
                defs@.entries,
                crate::sorter::sort_spec(defs@.entries)->Ok_0,
                main@,
            ),
            r is Ok ==> (exists|ord: Seq<Seq<char>>|
                crate::sorter::sorted_names_ok(defs@.entries, ord) && (r->Ok_0)@
                    == print_text(defs@.entries, ord, main@)),
            r == Err::<String, SchemaError>(SchemaError::CyclicDefinitions)
                ==> crate::sorter::has_cycle(defs@.entries),
            r is Ok ==> refs_resolved(defs@.entries, main@),
            r == Err::<String, SchemaError>(SchemaError::DanglingReference)
                ==> !crate::sorter::closed(defs@.entries) || !refs_resolved(
                    defs@.entries,
                    main@,
                ),
            r is Ok || r == Err::<String, SchemaError>(SchemaError::CyclicDefinitions)
                || r == Err::<String, SchemaError>(SchemaError::DanglingReference),
    {
        let ghost es = defs@.entries;
        let order = match crate::sorter::DefsSorter::compute_order(defs) {
            Ok(o) => o,
            Err(e) => {
                return Err(e);
            },
        };
        let ghost ordv = order.deep_view();
        let root_refs = main.get_refs();
        let ghost rr = root_refs.deep_view();
        let ghost mrefs = crate::dataclass::dc_refs(main@);
        let mut ri: usize = 0;
        #[verifier::loop_isolation(false)]
        while ri < root_refs.len()
            invariant
                ri <= root_refs.len(),
                forall|k: int| 0 <= k < ri ==> crate::sorter::has_entry(es, #[trigger] rr[k]),
            decreases root_refs.len() - ri,
        {
            let found = find_def(defs, root_refs[ri].as_str());
            match found {
                None => {
                    proof {
                        crate::dataclass::lemma_dedup_membership(
                            Seq::empty(),
                            mrefs,
                            rr[ri as int],
                        );
                        assert(rr.contains(rr[ri as int]));
                        assert(mrefs.contains(rr[ri as int]));
                        let j = choose|j: int| 0 <= j < mrefs.len() && mrefs[j] == rr[ri as int];
                        assert(!crate::sorter::has_entry(es, mrefs[j]));
                        assert(!refs_resolved(es, main@));
                    }
                    return Err(SchemaError::DanglingReference);
                },
                Some(_) => {},
            }
            ri = ri + 1;
        }
        proof {
            assert forall|j: int|
                0 <= j < mrefs.len() implies crate::sorter::has_entry(
                es,
                #[trigger] mrefs[j],
            ) by {
                crate::dataclass::lemma_dedup_membership(Seq::empty(), mrefs, mrefs[j]);
                assert(mrefs.contains(mrefs[j]));
                assert(rr.contains(mrefs[j]));
                let k = choose|k: int| 0 <= k < rr.len() && rr[k] == mrefs[j];
                assert(crate::sorter::has_entry(es, rr[k]));
            }
            assert(refs_resolved(es, main@));
        }
        let mut printer = SchemaPrinter { lines: Vec::new() };
        printer.add_line(String::from_str("from dataclasses import dataclass, field"));
        printer.add_line(String::from_str("from datetime import date"));
        printer.add_line(String::from_str("from enum import Enum"));
        printer.add_line(String::from_str("from typing import *"));
        printer.add_line(
            String::from_str("from dataclass_wizard import JSONWizard, json_field  # mypy: ignore"),
        );
        proof {
            assert(printer.lines.deep_view() =~= header_lines());
            assert(render_order(es, ordv.take(0)) =~= Seq::<Seq<char>>::empty());
            assert(printer.lines.deep_view() =~= header_lines() + render_order(es, ordv.take(0)));
        }
        let mut m: usize = 0;
        #[verifier::loop_isolation(false)]
        while m < order.len()
            invariant
                m <= order.len(),
                ordv == order.deep_view(),
                printer.lines.deep_view() == header_lines() + render_order(es, ordv.take(m as int)),
            decreases order.len() - m,
        {
            proof {
                assert(ordv.take(m + 1).drop_last() =~= ordv.take(m as int));
                assert(ordv.take(m + 1).last() == ordv[m as int]);
                assert(ordv[m as int] == order@[m as int]@);
            }
            let found = find_def(defs, order[m].as_str());
            match found {
                None => {
                    proof {
                        assert(crate::sorter::has_entry(es, ordv[m as int]));
                        assert(false);
                    }
                    return Err(SchemaError::DanglingReference);
                },
                Some(def) => {
                    printer.run_def(order[m].as_str(), def);
                    proof {
                        assert(printer.lines.deep_view() =~= header_lines()
                            + render_order(es, ordv.take(m + 1)));
                    }
                },
            }
            m = m + 1;
        }
        proof {
            assert(ordv.take(order@.len() as int) =~= ordv);
        }
        printer.run_dataclass(main);
        let text = join_lines(&printer.lines);
        proof {
            assert(text@ == print_text(es, ordv, main@));
        }
        Ok(text)
    }
}


/// Inserting a field adds exactly that field to the run.
proof fn lemma_insert_field_multiset(acc: Seq<FieldV>, f: FieldV)
    ensures
        insert_field(acc, f).to_multiset() == acc.to_multiset().insert(f),
    decreases acc.len(),
{
    broadcast use vstd::seq_lib::lemma_multiset_commutative;
    broadcast use vstd::seq_lib::group_to_multiset_ensures;
    broadcast use vstd::multiset::group_multiset_axioms;

    if acc.len() == 0 {
        assert(seq![f] =~= Seq::<FieldV>::empty().push(f));
        assert(insert_field(acc, f).to_multiset() =~= acc.to_multiset().insert(f));
    } else if lex_le(acc[0].json_key, f.json_key) {
        lemma_insert_field_multiset(acc.drop_first(), f);
        assert(seq![acc[0]] =~= Seq::<FieldV>::empty().push(acc[0]));
        assert(seq![acc[0]] + acc.drop_first() =~= acc);
        assert(insert_field(acc, f).to_multiset() =~= acc.to_multiset().insert(f));
    } else {
        assert(seq![f] =~= Seq::<FieldV>::empty().push(f));
        assert(insert_field(acc, f).to_multiset() =~= acc.to_multiset().insert(f));
    }
}

/// Sorting keeps exactly the same fields.
proof fn lemma_sort_fields_multiset(fs: Seq<FieldV>)
    ensures
        sort_fields(fs).to_multiset() == fs.to_multiset(),
    decreases fs.len(),
{
    broadcast use vstd::seq_lib::group_to_multiset_ensures;

    if fs.len() > 0 {
        lemma_sort_fields_multiset(fs.drop_last());
        lemma_insert_field_multiset(sort_fields(fs.drop_last()), fs.last());
        assert(fs.drop_last().push(fs.last()) =~= fs);
    }
}

/// The two groups split the fields exactly.
proof fn lemma_filter_req_split(fs: Seq<FieldV>)
    ensures
        filter_req(fs, true).to_multiset().add(filter_req(fs, false).to_multiset())
            == fs.to_multiset(),
    decreases fs.len(),
{
    broadcast use vstd::seq_lib::group_to_multiset_ensures;
    broadcast use vstd::multiset::group_multiset_axioms;

    if fs.len() > 0 {
        lemma_filter_req_split(fs.drop_last());
        assert(fs.drop_last().push(fs.last()) =~= fs);
        if fs.last().required {
            assert(filter_req(fs, true).to_multiset()
                =~= filter_req(fs.drop_last(), true).to_multiset().insert(fs.last()));
            assert(filter_req(fs, true).to_multiset().add(filter_req(fs, false).to_multiset())
                =~= fs.to_multiset());
        } else {
            assert(filter_req(fs, false).to_multiset()
                =~= filter_req(fs.drop_last(), false).to_multiset().insert(fs.last()));
            assert(filter_req(fs, true).to_multiset().add(filter_req(fs, false).to_multiset())
                =~= fs.to_multiset());
        }
    }
}

/// Every field of a group carries the group's flag.
proof fn lemma_filter_req_flag(fs: Seq<FieldV>, want: bool)
    ensures
        forall|i: int|
            0 <= i < filter_req(fs, want).len()
                ==> (#[trigger] filter_req(fs, want)[i]).required == want,
    decreases fs.len(),
{
    if fs.len() > 0 {
        lemma_filter_req_flag(fs.drop_last(), want);
    }
}

/// Sorting keeps membership, so it keeps the group's flag.
proof fn lemma_sort_fields_flag(fs: Seq<FieldV>, want: bool)
    requires
        forall|i: int| 0 <= i < fs.len() ==> (#[trigger] fs[i]).required == want,
    ensures
        forall|i: int|
            0 <= i < sort_fields(fs).len()
                ==> (#[trigger] sort_fields(fs)[i]).required == want,
{
    broadcast use vstd::seq_lib::group_to_multiset_ensures;

    lemma_sort_fields_multiset(fs);
    assert forall|i: int| 0 <= i < sort_fields(fs).len()
        implies (#[trigger] sort_fields(fs)[i]).required == want by {
        let x = sort_fields(fs)[i];
        assert(sort_fields(fs).contains(x));
        assert(sort_fields(fs).to_multiset().count(x) > 0);
        assert(fs.to_multiset().count(x) > 0);
        assert(fs.contains(x));
        let k = choose|k: int| 0 <= k < fs.len() && fs[k] == x;
        assert(fs[k].required == want);
    }
}

/// The printed field list of a record holds exactly the record's
/// fields, each once, with every required field before every
/// optional field.
pub proof fn lemma_printed_fields(fs: Seq<FieldV>)
    ensures
        printed_fields(fs).to_multiset() == fs.to_multiset(),
        forall|i: int, j: int|
            0 <= i < j < printed_fields(fs).len() && !(#[trigger] printed_fields(fs)[i]).required
                ==> !(#[trigger] printed_fields(fs)[j]).required,
{
    broadcast use vstd::seq_lib::lemma_multiset_commutative;

    let req = sort_fields(filter_req(fs, true));
    let opt = sort_fields(filter_req(fs, false));
    lemma_sort_fields_multiset(filter_req(fs, true));
    lemma_sort_fields_multiset(filter_req(fs, false));
    lemma_filter_req_split(fs);
    assert(printed_fields(fs).to_multiset() =~= fs.to_multiset());
    lemma_filter_req_flag(fs, true);
    lemma_filter_req_flag(fs, false);
    lemma_sort_fields_flag(filter_req(fs, true), true);
    lemma_sort_fields_flag(filter_req(fs, false), false);
    assert forall|i: int, j: int|
        0 <= i < j < printed_fields(fs).len() && !(#[trigger] printed_fields(fs)[i]).required
        implies !(#[trigger] printed_fields(fs)[j]).required by {
        if i < req.len() {
            assert(printed_fields(fs)[i] == req[i]);
            assert(printed_fields(fs)[i].required);
        } else {
            assert(printed_fields(fs)[j] == opt[j - req.len()]);
        }
    }
}


/// A run of fields in non-decreasing key order.
pub open spec fn fields_sorted(fs: Seq<FieldV>) -> bool {
    forall|i: int, j: int|
        0 <= i < j < fs.len() ==> lex_le(#[trigger] fs[i].json_key, #[trigger] fs[j].json_key)
}

/// Insertion keeps a run sorted.
proof fn lemma_insert_field_sorted(acc: Seq<FieldV>, f: FieldV)
    requires
        fields_sorted(acc),
    ensures
        fields_sorted(insert_field(acc, f)),
    decreases acc.len(),
{
    broadcast use vstd::seq_lib::group_to_multiset_ensures;

    let out = insert_field(acc, f);
    if acc.len() == 0 {
    } else if lex_le(acc[0].json_key, f.json_key) {
        assert(fields_sorted(acc.drop_first()));
        lemma_insert_field_sorted(acc.drop_first(), f);
        let rest = insert_field(acc.drop_first(), f);
        lemma_insert_field_multiset(acc.drop_first(), f);
        assert forall|i: int, j: int|
            0 <= i < j < out.len() implies lex_le(
            #[trigger] out[i].json_key,
            #[trigger] out[j].json_key,
        ) by {
            if i == 0 {
                let x = rest[j - 1];
                assert(rest.contains(x));
                assert(rest.to_multiset().count(x) > 0);
                if x == f {
                    assert(lex_le(acc[0].json_key, f.json_key));
                } else {
                    assert(acc.drop_first().to_multiset().count(x) > 0);
                    assert(acc.drop_first().contains(x));
                    let m = choose|m: int|
                        0 <= m < acc.drop_first().len() && acc.drop_first()[m] == x;
                    assert(acc[m + 1] == x);
                    assert(lex_le(acc[0].json_key, acc[m + 1].json_key));
                }
            } else {
                assert(out[i] == rest[i - 1] && out[j] == rest[j - 1]);
            }
        }
    } else {
        crate::strutil::lemma_lex_le_total(acc[0].json_key, f.json_key);
        assert forall|i: int, j: int|
            0 <= i < j < out.len() implies lex_le(
            #[trigger] out[i].json_key,
            #[trigger] out[j].json_key,
        ) by {
            if i == 0 {
                assert(out[0] == f && out[j] == acc[j - 1]);
                if j > 1 {
                    assert(lex_le(acc[0].json_key, acc[j - 1].json_key));
                    crate::strutil::lemma_lex_le_trans(
                        f.json_key,
                        acc[0].json_key,
                        acc[j - 1].json_key,
                    );
                }
            } else {
                assert(out[i] == acc[i - 1] && out[j] == acc[j - 1]);
            }
        }
    }
}

/// The printed field groups really are sorted by schema key.
pub proof fn lemma_sort_fields_sorted(fs: Seq<FieldV>)
    ensures
        fields_sorted(sort_fields(fs)),
    decreases fs.len(),
{
    if fs.len() > 0 {
        lemma_sort_fields_sorted(fs.drop_last());
        lemma_insert_field_sorted(sort_fields(fs.drop_last()), fs.last());
    }
}


/// What one record contributes to the printed lines (the same
/// function renders every nested record, so this holds of each):
/// after the decorator, the class header, and the nested records come
/// exactly two field groups, and together the groups render each of
/// the record's fields exactly once, with every required field's line
/// standing before every optional field's line.
pub proof fn lemma_render_dataclass_fields(dc: DataclassV)
    ensures
        ({
            let req = sort_fields(filter_req(dc.fields, true));
            let opt = sort_fields(filter_req(dc.fields, false));
            let tail = if dc.subclasses.len() == 0 && dc.fields.len() == 0 {
                seq!["  pass"@]
            } else {
                Seq::<Seq<char>>::empty()
            };
            &&& render_dataclass(dc) == seq![
                "@dataclass"@,
                "class "@ + dc.name + "(JSONWizard):"@,
            ] + indent_lines(render_dc_list(dc.subclasses)) + seq!["  # required fields:"@]
                + group_lines(req) + seq!["  # optional fields:"@] + group_lines(opt) + tail
            &&& (req + opt).to_multiset() == dc.fields.to_multiset()
            &&& (forall|i: int| 0 <= i < req.len() ==> (#[trigger] req[i]).required)
            &&& (forall|i: int| 0 <= i < opt.len() ==> !(#[trigger] opt[i]).required)
        }),
{
    broadcast use vstd::seq_lib::lemma_multiset_commutative;

    lemma_sort_fields_multiset(filter_req(dc.fields, true));
    lemma_sort_fields_multiset(filter_req(dc.fields, false));
    lemma_filter_req_split(dc.fields);
    lemma_filter_req_flag(dc.fields, true);
    lemma_filter_req_flag(dc.fields, false);
    lemma_sort_fields_flag(filter_req(dc.fields, true), true);
    lemma_sort_fields_flag(filter_req(dc.fields, false), false);
    assert((sort_fields(filter_req(dc.fields, true)) + sort_fields(filter_req(dc.fields, false)))
        .to_multiset() =~= dc.fields.to_multiset());
}

} // verus!
