//! Decoding a tag-tree document into a typed value, by the wire conventions:
//! scalar tags hold text tokens, strings may use a literal block, optional
//! values are lenient, sequences repeat `item` wrappers, maps repeat
//! `entry` wrappers with `key` and `value` sub-tags, and variant types
//! dispatch on the outer tag name.
//!
//! `dec_document` is the mathematical decoder; every executable function is
//! proved to return exactly what it says.

use vstd::prelude::*;
use crate::coerce::{in_range, in_true_bucket, in_false_bucket, is_float_literal, parse_int};
use crate::error::{DecodeError, DecodeErrModel, strs_of, lemma_strs_of};
use crate::shape::{Shape, EnumShape, FieldShape, VariantShape, Value, Model,
    shape_size, fields_size, variants_size, lemma_fields_size_index, lemma_variants_size_index,
    models_of, pair_models_of, field_models_of, lemma_models_of, lemma_pair_models_of,
    lemma_field_models_of, lemma_models_of_push, lemma_pair_models_of_push, pairs_to_map};
use crate::strutil::{trimmed, lowered};
use crate::tree::{Element, ElemModel, elem_size, elems_size, em_size, ems_size, ems, find_child,
    lemma_elems_size_index, lemma_ems};

verus! {

broadcast use vstd::std_specs::vec::group_vec_axioms;

/// First declared variant with the given name.
pub open spec fn find_variant(vs: Seq<VariantShape>, name: Seq<char>) -> Option<VariantShape>
    decreases vs.len(),
{
    if vs.len() == 0 {
        None
    } else if vs[0].name@ == name {
        Some(vs[0])
    } else {
        find_variant(vs.skip(1), name)
    }
}

pub proof fn lemma_find_variant_member(vs: Seq<VariantShape>, name: Seq<char>)
    requires
        find_variant(vs, name) is Some,
    ensures
        exists|i: int| 0 <= i < vs.len() && vs[i] == find_variant(vs, name).unwrap(),
    decreases vs.len(),
{
    if vs.len() > 0 && vs[0].name@ != name {
        lemma_find_variant_member(vs.skip(1), name);
        let i = choose|i: int|
            0 <= i < vs.skip(1).len() && vs.skip(1)[i] == find_variant(vs.skip(1), name).unwrap();
        assert(vs[i + 1] == vs.skip(1)[i]);
    }
}

/// Some pair of the list has this key.
pub open spec fn has_key(ps: Seq<(Model, Model)>, k: Model) -> bool {
    exists|i: int| 0 <= i < ps.len() && ps[i].0 == k
}

/// `i` is the first position whose pair has this key.
pub open spec fn key_at(ps: Seq<(Model, Model)>, k: Model, i: int) -> bool {
    0 <= i < ps.len() && ps[i].0 == k && (forall|j: int| 0 <= j < i ==> ps[j].0 != k)
}

/// Inserts or replaces: an existing key keeps its position and takes the new
/// value; a new key is appended.
pub open spec fn upsert(ps: Seq<(Model, Model)>, k: Model, v: Model) -> Seq<(Model, Model)> {
    if has_key(ps, k) {
        ps.update(choose|i: int| key_at(ps, k, i), (k, v))
    } else {
        ps.push((k, v))
    }
}

pub proof fn lemma_key_at_unique(ps: Seq<(Model, Model)>, k: Model, i: int, j: int)
    requires
        key_at(ps, k, i),
        key_at(ps, k, j),
    ensures
        i == j,
{
}

/// The pair list after last-write-wins deduplication, entries applied in
/// document order.
pub open spec fn dedup_pairs(ps: Seq<(Model, Model)>) -> Seq<(Model, Model)>
    decreases ps.len(),
{
    if ps.len() == 0 {
        Seq::empty()
    } else {
        upsert(dedup_pairs(ps.drop_last()), ps.last().0, ps.last().1)
    }
}

/// The mathematical decoder: the value a document content denotes under a
/// shape, or the exact failure when the document violates the shape's
/// convention.
pub open spec fn dec(sh: Shape, em: ElemModel) -> Result<Model, DecodeErrModel>
    decreases shape_size(sh), em_size(em),
{
    match sh {
        Shape::BoolShape => {
            if em.children.len() == 0 {
                let tok = lowered(trimmed(em.text));
                if in_true_bucket(tok) {
                    Ok(Model::BoolM(true))
                } else if in_false_bucket(tok) {
                    Ok(Model::BoolM(false))
                } else {
                    Err(DecodeErrModel::BoolTokM(trimmed(em.text)))
                }
            } else {
                Err(DecodeErrModel::UnexpectedChildM(em.children[0].name))
            }
        },
        Shape::IntShape(k) => {
            if em.children.len() == 0 {
                match parse_int(trimmed(em.text)) {
                    Some(v) => if in_range(k, v) {
                        Ok(Model::IntM(k, v))
                    } else {
                        Err(DecodeErrModel::IntTokM(trimmed(em.text), k))
                    },
                    None => Err(DecodeErrModel::IntTokM(trimmed(em.text), k)),
                }
            } else {
                Err(DecodeErrModel::UnexpectedChildM(em.children[0].name))
            }
        },
        Shape::FloatShape(fk) => {
            if em.children.len() > 0 {
                Err(DecodeErrModel::UnexpectedChildM(em.children[0].name))
            } else if is_float_literal(trimmed(em.text)) {
                Ok(Model::FloatM(fk, trimmed(em.text)))
            } else {
                Err(DecodeErrModel::FloatTokM(trimmed(em.text)))
            }
        },
        Shape::StrShape => {
            if em.children.len() == 0 {
                Ok(Model::StrM(trimmed(em.text)))
            } else if em.children.len() == 1 && em.children[0].name == "lit"@ {
                Ok(Model::StrM(trimmed(em.children[0].text)))
            } else {
                Err(DecodeErrModel::UnexpectedChildM(em.children[0].name))
            }
        },
        Shape::OptionOf(t) => match dec(*t, em) {
            Ok(m) => Ok(Model::SomeM(Box::new(m))),
            Err(_) => Ok(Model::NoneM),
        },
        Shape::SeqOf(t) => {
            if trimmed(em.text).len() == 0 {
                match dec_items(*t, em.children) {
                    Ok(ms) => Ok(Model::SeqM(ms)),
                    Err(e) => Err(e),
                }
            } else {
                Err(DecodeErrModel::SequenceShapeM(trimmed(em.text)))
            }
        },
        Shape::MapOf(kt, vt) => match dec_entries(*kt, *vt, em.children) {
            Ok(ps) => Ok(Model::MapM(dedup_pairs(ps))),
            Err(e) => Err(e),
        },
        Shape::StructOf(ss) => match dec_fields(ss.fields@, em) {
            Ok(fs) => Ok(Model::StructM(fs)),
            Err(e) => Err(e),
        },
        Shape::EnumOf(es) => {
            if em.children.len() == 1 {
                dec_variant(es, em.children[0])
            } else {
                Err(DecodeErrModel::UnexpectedChildM(em.name))
            }
        },
        Shape::Described(d) => dec(*d.inner, em),
    }
}

/// Decodes repeated `item` wrappers into the sequence of their contents; any
/// child that is not an `item`, or any malformed item, fails the whole
/// sequence.
pub open spec fn dec_items(t: Shape, items: Seq<ElemModel>) -> Result<
    Seq<Model>,
    DecodeErrModel,
>
    decreases shape_size(t), ems_size(items),
{
    if items.len() == 0 {
        Ok(Seq::empty())
    } else if items[0].name == "item"@ {
        match dec(t, items[0]) {
            Ok(m) => match dec_items(t, items.skip(1)) {
                Ok(rest) => Ok(seq![m] + rest),
                Err(e) => Err(e),
            },
            Err(e) => Err(e),
        }
    } else {
        Err(DecodeErrModel::SequenceShapeM(items[0].name))
    }
}

/// Decodes one `entry` wrapper through its `key` and `value` sub-tags.
pub open spec fn dec_entry(kt: Shape, vt: Shape, e: ElemModel) -> Result<
    (Model, Model),
    DecodeErrModel,
>
    decreases shape_size(kt) + shape_size(vt), em_size(e),
{
    match find_child(e.children, "key"@) {
        Some(kc) => match find_child(e.children, "value"@) {
            Some(vc) => match dec(kt, kc) {
                Ok(km) => match dec(vt, vc) {
                    Ok(vm) => Ok((km, vm)),
                    Err(e1) => Err(e1),
                },
                Err(e1) => Err(e1),
            },
            None => Err(DecodeErrModel::EntryShapeM("value"@)),
        },
        None => Err(DecodeErrModel::EntryShapeM("key"@)),
    }
}

/// Decodes the `entry` children in document order, ignoring children of any
/// other name; the raw pairs are returned before deduplication.
pub open spec fn dec_entries(kt: Shape, vt: Shape, els: Seq<ElemModel>) -> Result<
    Seq<(Model, Model)>,
    DecodeErrModel,
>
    decreases shape_size(kt) + shape_size(vt), ems_size(els),
{
    if els.len() == 0 {
        Ok(Seq::empty())
    } else if els[0].name == "entry"@ {
        match dec_entry(kt, vt, els[0]) {
            Ok(p) => match dec_entries(kt, vt, els.skip(1)) {
                Ok(rest) => Ok(seq![p] + rest),
                Err(e) => Err(e),
            },
            Err(e) => Err(e),
        }
    } else {
        dec_entries(kt, vt, els.skip(1))
    }
}

/// Decodes declared fields in order. A field's tag is looked up among the
/// children; an absent tag is `NoneM` for an optional field and a failure
/// otherwise. Unknown children and stray text are ignored.
pub open spec fn dec_fields(fields: Seq<FieldShape>, em: ElemModel) -> Result<
    Seq<(Seq<char>, Model)>,
    DecodeErrModel,
>
    decreases fields_size(fields), em_size(em),
{
    if fields.len() == 0 {
        Ok(Seq::empty())
    } else {
        let f = fields[0];
        let head: Result<Model, DecodeErrModel> = match find_child(em.children, f.name@) {
            Some(c) => dec(f.shape, c),
            None => if f.shape is OptionOf {
                Ok(Model::NoneM)
            } else {
                Err(DecodeErrModel::MissingFieldM(f.name@))
            },
        };
        match head {
            Err(e) => Err(e),
            Ok(m) => match dec_fields(fields.skip(1), em) {
                Err(e) => Err(e),
                Ok(rest) => Ok(seq![(f.name@, m)] + rest),
            },
        }
    }
}

/// Decodes a variant document: the element's own tag name is the
/// discriminant; an unrecognized tag is a failure.
pub open spec fn dec_variant(es: EnumShape, em: ElemModel) -> Result<Model, DecodeErrModel>
    decreases variants_size(es.variants@), em_size(em)
        via dec_variant_decreases
{
    match find_variant(es.variants@, em.name) {
        Some(v) => match dec_fields(v.fields@, em) {
            Ok(fs) => Ok(Model::EnumM(v.name@, fs)),
            Err(e) => Err(e),
        },
        None => Err(DecodeErrModel::UnknownVariantM(em.name, variant_names_of(es.variants@))),
    }
}

/// The declared variant names, in order.
pub open spec fn variant_names_of(vs: Seq<VariantShape>) -> Seq<Seq<char>>
    decreases vs,
{
    if vs.len() == 0 {
        Seq::empty()
    } else {
        seq![vs[0].name@] + variant_names_of(vs.skip(1))
    }
}

pub proof fn lemma_variant_names_of(vs: Seq<VariantShape>)
    ensures
        variant_names_of(vs).len() == vs.len(),
        forall|i: int| 0 <= i < vs.len() ==> variant_names_of(vs)[i] == #[trigger] vs[i].name@,
    decreases vs.len(),
{
    if vs.len() > 0 {
        lemma_variant_names_of(vs.skip(1));
        assert(forall|i: int| 1 <= i < vs.len() ==> vs.skip(1)[i - 1] == #[trigger] vs[i]);
    }
}

#[via_fn]
proof fn dec_variant_decreases(es: EnumShape, em: ElemModel) {
    if find_variant(es.variants@, em.name) is Some {
        lemma_find_variant_member(es.variants@, em.name);
        let i = choose|i: int|
            0 <= i < es.variants@.len() && es.variants@[i] == find_variant(
                es.variants@,
                em.name,
            ).unwrap();
        lemma_variants_size_index(es.variants@, i);
    }
}

/// Decodes a whole document: for a variant type the root element itself
/// carries the discriminant; for every other shape the root element holds the
/// value's content.
pub open spec fn dec_document(sh: Shape, em: ElemModel) -> Result<Model, DecodeErrModel>
    decreases shape_size(sh),
{
    match sh {
        Shape::EnumOf(es) => dec_variant(es, em),
        Shape::Described(d) => dec_document(*d.inner, em),
        _ => dec(sh, em),
    }
}

/// Decodes the content of `el` as a value of shape `sh`: returns exactly the
/// value the mathematical decoder denotes, or an error naming what violated
/// the wire convention.
pub fn decode(sh: &Shape, el: &Element) -> (r: Result<Value, DecodeError>)
    ensures
        r is Ok <==> dec(*sh, el.model()) is Ok,
        r matches Ok(v) ==> dec(*sh, el.model()) == Ok::<Model, DecodeErrModel>(v.model()),
        r matches Err(e) ==> dec(*sh, el.model()) == Err::<Model, DecodeErrModel>(e.model()),
        sh is OptionOf ==> r is Ok,
    decreases shape_size(*sh), elem_size(*el),
{
    proof {
        lemma_ems(el.children@);
        assert(el.model().children == ems(el.children@));
        assert(el.model().text == el.text@);
        assert(el.model().children.len() == el.children@.len());
        if el.children@.len() > 0 {
            assert(ems(el.children@)[0] == el.children@[0].model());
            assert(el.children@[0].model().name == el.children@[0].name@);
            assert(el.children@[0].model().text == el.children@[0].text@);
        }
    }
    match sh {
        Shape::BoolShape => {
            if el.children.len() > 0 {
                Err(DecodeError::UnexpectedChild { name: el.children[0].name.clone() })
            } else {
                match crate::coerce::coerce_bool(el.text.as_str()) {
                    Ok(b) => Ok(Value::BoolVal(b)),
                    Err(e) => Err(e),
                }
            }
        },
        Shape::IntShape(k) => {
            if el.children.len() > 0 {
                Err(DecodeError::UnexpectedChild { name: el.children[0].name.clone() })
            } else {
                let node = crate::coerce::ScalarNode::Text(el.text.clone());
                match crate::coerce::coerce_int(k, &node) {
                    Ok(x) => Ok(Value::IntVal(*k, x)),
                    Err(e) => Err(e),
                }
            }
        },
        Shape::FloatShape(fk) => {
            if el.children.len() > 0 {
                Err(DecodeError::UnexpectedChild { name: el.children[0].name.clone() })
            } else {
                match crate::coerce::coerce_float(el.text.as_str()) {
                    Ok(t) => Ok(Value::FloatVal(*fk, t)),
                    Err(e) => Err(e),
                }
            }
        },
        Shape::StrShape => {
            if el.children.len() == 0 {
                Ok(Value::StrVal(crate::strutil::trim_str(el.text.as_str())))
            } else if el.children.len() == 1 && crate::strutil::str_eq(
                el.children[0].name.as_str(),
                "lit",
            ) {
                Ok(Value::StrVal(crate::strutil::trim_str(el.children[0].text.as_str())))
            } else {
                Err(DecodeError::UnexpectedChild { name: el.children[0].name.clone() })
            }
        },
        Shape::OptionOf(t) => {
            match decode(t, el) {
                Ok(v) => Ok(Value::SomeVal(Box::new(v))),
                Err(_) => Ok(Value::NoneVal),
            }
        },
        Shape::SeqOf(t) => {
            let tt = crate::strutil::trim_str(el.text.as_str());
            if tt.as_str().unicode_len() > 0 {
                Err(DecodeError::SequenceShape { found: tt })
            } else {
                match decode_items(t, &el.children) {
                    Ok(vs) => Ok(Value::SeqVal(vs)),
                    Err(e) => Err(e),
                }
            }
        },
        Shape::MapOf(kt, vt) => {
            match decode_entries(kt, vt, &el.children) {
                Ok(ps) => Ok(Value::MapVal(ps)),
                Err(e) => Err(e),
            }
        },
        Shape::StructOf(ss) => {
            match decode_fields(&ss.fields, el) {
                Ok(fs) => Ok(Value::StructVal(fs)),
                Err(e) => Err(e),
            }
        },
        Shape::EnumOf(es) => {
            if el.children.len() == 1 {
                proof {
                    lemma_elems_size_index(el.children@, 0);
                }
                decode_variant(es, &el.children[0])
            } else {
                Err(DecodeError::UnexpectedChild { name: el.name.clone() })
            }
        },
        Shape::Described(dsh) => decode(&dsh.inner, el),
    }
}

/// Decodes the repeated `item` children of a sequence tag.
fn decode_items(t: &Shape, items: &Vec<Element>) -> (r: Result<Vec<Value>, DecodeError>)
    ensures
        r is Ok <==> dec_items(*t, ems(items@)) is Ok,
        r matches Ok(vs) ==> dec_items(*t, ems(items@)) == Ok::<Seq<Model>, DecodeErrModel>(
            models_of(vs@),
        ),
        r matches Err(e) ==> dec_items(*t, ems(items@)) == Err::<Seq<Model>, DecodeErrModel>(
            e.model(),
        ),
    decreases shape_size(*t), elems_size(items@),
{
    let ghost im = ems(items@);
    let n = items.len();
    let mut out: Vec<Value> = Vec::new();
    let mut i: usize = 0;
    proof {
        lemma_ems(items@);
        assert(im.skip(0) =~= im);
        assert(models_of(out@) =~= Seq::<Model>::empty());
    }
    while i < n
        invariant
            0 <= i <= n,
            n == items@.len(),
            im == ems(items@),
            im.len() == n,
            forall|k: int| 0 <= k < n ==> im[k] == #[trigger] items@[k].model(),
            dec_items(*t, im) == match dec_items(*t, im.skip(i as int)) {
                Ok(rest) => Ok(models_of(out@) + rest),
                Err(e) => Err::<Seq<Model>, DecodeErrModel>(e),
            },
        decreases n - i,
    {
        let c = &items[i];
        proof {
            assert(im.skip(i as int)[0] == im[i as int]);
        }
        if !crate::strutil::str_eq(c.name.as_str(), "item") {
            proof {
                assert(im[i as int] == items@[i as int].model());
                assert(items@[i as int].model().name == items@[i as int].name@);
            }
            return Err(DecodeError::SequenceShape { found: c.name.clone() });
        }
        proof {
            lemma_elems_size_index(items@, i as int);
        }
        match decode(t, c) {
            Ok(v) => {
                proof {
                    assert(im.skip(i as int).skip(1) =~= im.skip(i as int + 1));
                    lemma_models_of_push(out@, v);
                    match dec_items(*t, im.skip(i as int + 1)) {
                        Ok(rest) => {
                            assert(models_of(out@) + (seq![v.model()] + rest) =~= models_of(
                                out@,
                            ).push(v.model()) + rest);
                        },
                        Err(_) => {},
                    }
                }
                out.push(v);
            },
            Err(e) => {
                return Err(e);
            },
        }
        i = i + 1;
    }
    proof {
        assert(im.skip(n as int) =~= Seq::<ElemModel>::empty());
        assert(models_of(out@) + Seq::<Model>::empty() =~= models_of(out@));
    }
    Ok(out)
}

/// Decodes one `entry` wrapper through its `key` and `value` sub-tags.
fn decode_entry(kt: &Shape, vt: &Shape, e: &Element) -> (r: Result<(Value, Value), DecodeError>)
    ensures
        r is Ok <==> dec_entry(*kt, *vt, e.model()) is Ok,
        r matches Ok(p) ==> dec_entry(*kt, *vt, e.model()) == Ok::<
            (Model, Model),
            DecodeErrModel,
        >((p.0.model(), p.1.model())),
        r matches Err(e1) ==> dec_entry(*kt, *vt, e.model()) == Err::<
            (Model, Model),
            DecodeErrModel,
        >(e1.model()),
    decreases shape_size(*kt) + shape_size(*vt), elem_size(*e),
{
    proof {
        crate::shape::lemma_shape_size_pos(*kt);
        crate::shape::lemma_shape_size_pos(*vt);
    }
    let kc = match e.child_named("key") {
        Some(c) => c,
        None => {
            return Err(DecodeError::EntryShape { missing: String::from_str("key") });
        },
    };
    let vc = match e.child_named("value") {
        Some(c) => c,
        None => {
            return Err(DecodeError::EntryShape { missing: String::from_str("value") });
        },
    };
    let kv = match decode(kt, kc) {
        Ok(v) => v,
        Err(e1) => {
            return Err(e1);
        },
    };
    let vv = match decode(vt, vc) {
        Ok(v) => v,
        Err(e1) => {
            return Err(e1);
        },
    };
    Ok((kv, vv))
}

/// Inserts a decoded pair into the accumulated mapping: an existing key (by
/// deep value equality) keeps its position and takes the new value; a new key
/// is appended.
fn upsert_pair(out: &mut Vec<(Value, Value)>, p: (Value, Value))
    ensures
        pair_models_of(final(out)@) == upsert(
            pair_models_of(old(out)@),
            p.0.model(),
            p.1.model(),
        ),
{
    let ghost pm = pair_models_of(out@);
    let ghost km = p.0.model();
    proof {
        lemma_pair_models_of(out@);
    }
    let n = out.len();
    let mut j: usize = 0;
    while j < n
        invariant
            0 <= j <= n,
            n == out@.len(),
            pm == pair_models_of(out@),
            pm == pair_models_of(old(out)@),
            km == p.0.model(),
            pm.len() == n,
            forall|l: int| 0 <= l < n ==> pm[l] == (#[trigger] out@[l].0.model(), out@[l].1.model()),
            forall|l: int| 0 <= l < j ==> #[trigger] pm[l].0 != km,
        decreases n - j,
    {
        if value_eq(&out[j].0, &p.0) {
            proof {
                assert(key_at(pm, km, j as int));
                assert(has_key(pm, km));
                let ci = choose|i: int| key_at(pm, km, i);
                assert(key_at(pm, km, ci));
                lemma_key_at_unique(pm, km, ci, j as int);
            }
            let ghost prev = out@;
            out.set(j, p);
            proof {
                lemma_pair_models_of(out@);
                assert forall|l: int| 0 <= l < pm.len() implies pair_models_of(out@)[l]
                    == pm.update(j as int, (km, p.1.model()))[l] by {
                    assert(pair_models_of(out@)[l] == (out@[l].0.model(), out@[l].1.model()));
                    if l == j as int {
                        assert(out@[l] == p);
                    } else {
                        assert(out@[l] == prev[l]);
                        assert(pm[l] == (prev[l].0.model(), prev[l].1.model()));
                    }
                }
                assert(pair_models_of(out@) =~= pm.update(j as int, (km, p.1.model())));
                assert(pm == pair_models_of(old(out)@));
                let ci2 = choose|i: int| key_at(pm, km, i);
                lemma_key_at_unique(pm, km, ci2, j as int);
                assert(upsert(pm, km, p.1.model()) == pm.update(j as int, (km, p.1.model())));
                assert(pair_models_of(out@) == upsert(pm, km, p.1.model()));
            }
            return ;
        }
        j = j + 1;
    }
    proof {
        assert(!has_key(pm, km));
        lemma_pair_models_of_push(out@, p);
    }
    out.push(p);
}

/// Decodes the `entry` children of a map tag into a deduplicated mapping:
/// last write wins, first-occurrence order.
fn decode_entries(kt: &Shape, vt: &Shape, els: &Vec<Element>) -> (r: Result<
    Vec<(Value, Value)>,
    DecodeError,
>)
    ensures
        r is Ok <==> dec_entries(*kt, *vt, ems(els@)) is Ok,
        r matches Ok(ps) ==> dec_entries(*kt, *vt, ems(els@)) matches Ok(raw)
            && pair_models_of(ps@) == dedup_pairs(raw),
        r matches Err(e) ==> dec_entries(*kt, *vt, ems(els@)) == Err::<
            Seq<(Model, Model)>,
            DecodeErrModel,
        >(e.model()),
    decreases shape_size(*kt) + shape_size(*vt), elems_size(els@),
{
    let ghost im = ems(els@);
    let n = els.len();
    let mut out: Vec<(Value, Value)> = Vec::new();
    let ghost mut raw: Seq<(Model, Model)> = Seq::empty();
    let mut i: usize = 0;
    proof {
        lemma_ems(els@);
        assert(im.skip(0) =~= im);
        assert(pair_models_of(out@) =~= Seq::<(Model, Model)>::empty());
        assert(dedup_pairs(raw) =~= Seq::<(Model, Model)>::empty());
    }
    while i < n
        invariant
            0 <= i <= n,
            n == els@.len(),
            im == ems(els@),
            im.len() == n,
            forall|k: int| 0 <= k < n ==> im[k] == #[trigger] els@[k].model(),
            pair_models_of(out@) == dedup_pairs(raw),
            dec_entries(*kt, *vt, im) == match dec_entries(*kt, *vt, im.skip(i as int)) {
                Ok(rest) => Ok(raw + rest),
                Err(e) => Err::<Seq<(Model, Model)>, DecodeErrModel>(e),
            },
        decreases n - i,
    {
        let c = &els[i];
        proof {
            assert(im.skip(i as int)[0] == im[i as int]);
            assert(im.skip(i as int).skip(1) =~= im.skip(i as int + 1));
        }
        if crate::strutil::str_eq(c.name.as_str(), "entry") {
            proof {
                lemma_elems_size_index(els@, i as int);
            }
            match decode_entry(kt, vt, c) {
                Ok(p) => {
                    let ghost pmodel = (p.0.model(), p.1.model());
                    proof {
                        match dec_entries(*kt, *vt, im.skip(i as int + 1)) {
                            Ok(rest) => {
                                assert(raw + (seq![pmodel] + rest) =~= raw.push(pmodel) + rest);
                            },
                            Err(_) => {},
                        }
                        assert(raw.push(pmodel).drop_last() =~= raw);
                        assert(raw.push(pmodel).last() == pmodel);
                    }
                    upsert_pair(&mut out, p);
                    proof {
                        raw = raw.push(pmodel);
                        assert(dedup_pairs(raw) == upsert(
                            dedup_pairs(raw.drop_last()),
                            pmodel.0,
                            pmodel.1,
                        ));
                    }
                },
                Err(e) => {
                    return Err(e);
                },
            }
        }
        i = i + 1;
    }
    proof {
        assert(im.skip(n as int) =~= Seq::<ElemModel>::empty());
        assert(raw + Seq::<(Model, Model)>::empty() =~= raw);
    }
    Ok(out)
}

/// Decodes the declared fields of a struct or variant body in order; an
/// absent tag is `None` for an optional field and a missing-field error
/// otherwise.
fn decode_fields(fields: &Vec<FieldShape>, el: &Element) -> (r: Result<
    Vec<(String, Value)>,
    DecodeError,
>)
    ensures
        r is Ok <==> dec_fields(fields@, el.model()) is Ok,
        r matches Ok(fs) ==> dec_fields(fields@, el.model()) == Ok::<
            Seq<(Seq<char>, Model)>,
            DecodeErrModel,
        >(field_models_of(fs@)),
        r matches Err(e) ==> dec_fields(fields@, el.model()) == Err::<
            Seq<(Seq<char>, Model)>,
            DecodeErrModel,
        >(e.model()),
    decreases fields_size(fields@), elem_size(*el),
{
    let n = fields.len();
    let mut out: Vec<(String, Value)> = Vec::new();
    let mut i: usize = 0;
    proof {
        assert(fields@.skip(0) =~= fields@);
        assert(field_models_of(out@) =~= Seq::<(Seq<char>, Model)>::empty());
    }
    while i < n
        invariant
            0 <= i <= n,
            n == fields@.len(),
            dec_fields(fields@, el.model()) == match dec_fields(
                fields@.skip(i as int),
                el.model(),
            ) {
                Ok(rest) => Ok(field_models_of(out@) + rest),
                Err(e) => Err::<Seq<(Seq<char>, Model)>, DecodeErrModel>(e),
            },
        decreases n - i,
    {
        let f = &fields[i];
        proof {
            assert(fields@.skip(i as int)[0] == fields@[i as int]);
            assert(fields@.skip(i as int).skip(1) =~= fields@.skip(i as int + 1));
        }
        let head: Value = match el.child_named(f.name.as_str()) {
            Some(c) => {
                proof {
                    lemma_fields_size_index(fields@, i as int);
                }
                match decode(&f.shape, c) {
                    Ok(v) => v,
                    Err(e) => {
                        return Err(e);
                    },
                }
            },
            None => {
                let is_opt = match &f.shape {
                    Shape::OptionOf(_) => true,
                    _ => false,
                };
                if is_opt {
                    Value::NoneVal
                } else {
                    return Err(DecodeError::MissingField { name: f.name.clone() });
                }
            },
        };
        let name_copy = f.name.clone();
        proof {
            let ghost entry = (f.name@, head.model());
            match dec_fields(fields@.skip(i as int + 1), el.model()) {
                Ok(rest) => {
                    assert(field_models_of(out@) + (seq![entry] + rest) =~= field_models_of(
                        out@,
                    ).push(entry) + rest);
                },
                Err(_) => {},
            }
            crate::shape::lemma_field_models_of_push(out@, (name_copy, head));
        }
        out.push((name_copy, head));
        i = i + 1;
    }
    proof {
        assert(fields@.skip(n as int) =~= Seq::<FieldShape>::empty());
        assert(field_models_of(out@) + Seq::<(Seq<char>, Model)>::empty() =~= field_models_of(
            out@,
        ));
    }
    Ok(out)
}

/// The declared variant names, for diagnostics.
fn variant_names(es: &EnumShape) -> (r: Vec<String>)
    ensures
        r@.len() == es.variants@.len(),
        forall|i: int| 0 <= i < r@.len() ==> #[trigger] r@[i]@ == es.variants@[i].name@,
{
    let n = es.variants.len();
    let mut out: Vec<String> = Vec::new();
    let mut i: usize = 0;
    while i < n
        invariant
            0 <= i <= n,
            n == es.variants@.len(),
            out@.len() == i,
            forall|j: int| 0 <= j < i ==> #[trigger] out@[j]@ == es.variants@[j].name@,
        decreases n - i,
    {
        out.push(es.variants[i].name.clone());
        i = i + 1;
    }
    out
}

/// Decodes a variant document whose outer tag selects the variant. An
/// unrecognized tag is an error naming the tag found and every accepted
/// variant name.
pub fn decode_variant(es: &EnumShape, el: &Element) -> (r: Result<Value, DecodeError>)
    ensures
        r is Ok <==> dec_variant(*es, el.model()) is Ok,
        r matches Ok(v) ==> dec_variant(*es, el.model()) == Ok::<Model, DecodeErrModel>(
            v.model(),
        ),
        r matches Err(e1) ==> dec_variant(*es, el.model()) == Err::<Model, DecodeErrModel>(
            e1.model(),
        ),
        find_variant(es.variants@, el.name@) is None ==> (r matches Err(e)
            && (e matches DecodeError::UnknownVariant { found, accepted } && found@ == el.name@
            && accepted@.len() == es.variants@.len() && (forall|i: int|
            0 <= i < accepted@.len() ==> #[trigger] accepted@[i]@ == es.variants@[i].name@))),
    decreases variants_size(es.variants@), elem_size(*el),
{
    let n = es.variants.len();
    let mut i: usize = 0;
    proof {
        assert(es.variants@.skip(0) =~= es.variants@);
    }
    while i < n
        invariant
            0 <= i <= n,
            n == es.variants@.len(),
            find_variant(es.variants@, el.name@) == find_variant(
                es.variants@.skip(i as int),
                el.name@,
            ),
        decreases n - i,
    {
        proof {
            assert(es.variants@.skip(i as int)[0] == es.variants@[i as int]);
            assert(es.variants@.skip(i as int).skip(1) =~= es.variants@.skip(i as int + 1));
        }
        let v = &es.variants[i];
        if crate::strutil::str_eq(v.name.as_str(), el.name.as_str()) {
            proof {
                lemma_variants_size_index(es.variants@, i as int);
            }
            return match decode_fields(&v.fields, el) {
                Ok(fs) => Ok(Value::EnumVal(v.name.clone(), fs)),
                Err(e) => Err(e),
            };
        }
        i = i + 1;
    }
    let names = variant_names(es);
    proof {
        lemma_strs_of(names@);
        lemma_variant_names_of(es.variants@);
        assert forall|i: int| 0 <= i < names@.len() implies strs_of(names@)[i]
            == variant_names_of(es.variants@)[i] by {
            assert(strs_of(names@)[i] == names@[i]@);
            assert(variant_names_of(es.variants@)[i] == es.variants@[i].name@);
            assert(names@[i]@ == es.variants@[i].name@);
        }
        assert(strs_of(names@) =~= variant_names_of(es.variants@));
    }
    Err(DecodeError::UnknownVariant { found: el.name.clone(), accepted: names })
}

/// Decodes a whole document: for a variant type the root element itself
/// carries the discriminant; for every other shape the root element holds the
/// value's content.
pub fn decode_document(sh: &Shape, el: &Element) -> (r: Result<Value, DecodeError>)
    ensures
        r is Ok <==> dec_document(*sh, el.model()) is Ok,
        r matches Ok(v) ==> dec_document(*sh, el.model()) == Ok::<Model, DecodeErrModel>(
            v.model(),
        ),
        r matches Err(e) ==> dec_document(*sh, el.model()) == Err::<Model, DecodeErrModel>(
            e.model(),
        ),
    decreases shape_size(*sh),
{
    match sh {
        Shape::EnumOf(es) => decode_variant(es, el),
        Shape::Described(dsh) => decode_document(&dsh.inner, el),
        _ => decode(sh, el),
    }
}

/// Optional round-trip and leniency law: decoding an optional never fails;
/// a present tag whose content decodes under the inner shape yields exactly
/// that inner value, and a present tag with invalid inner content downgrades
/// to absence instead of failing.
pub proof fn lemma_optional_leniency(t: Shape, em: ElemModel)
    ensures
        dec(Shape::OptionOf(Box::new(t)), em) is Ok,
        dec(t, em) matches Ok(m) ==> dec(Shape::OptionOf(Box::new(t)), em) == Ok::<
            Model,
            DecodeErrModel,
        >(Model::SomeM(Box::new(m))),
        dec(t, em) is Err ==> dec(Shape::OptionOf(Box::new(t)), em) == Ok::<
            Model,
            DecodeErrModel,
        >(Model::NoneM),
{
}

/// An absent optional field decodes to absence: a struct body without the
/// field's tag gives the field the value `NoneM`.
pub proof fn lemma_optional_absent_field(f: FieldShape, em: ElemModel)
    requires
        f.shape is OptionOf,
        find_child(em.children, f.name@) is None,
    ensures
        dec_fields(seq![f], em) == Ok::<Seq<(Seq<char>, Model)>, DecodeErrModel>(
            seq![(f.name@, Model::NoneM)],
        ),
{
    let fs = seq![f];
    assert(fs[0] == f);
    assert(fs.skip(1) =~= Seq::<FieldShape>::empty());
    assert(dec_fields(fs.skip(1), em) == Ok::<Seq<(Seq<char>, Model)>, DecodeErrModel>(
        Seq::empty(),
    ));
    assert(seq![(f.name@, Model::NoneM)] + Seq::<(Seq<char>, Model)>::empty() =~= seq![
        (f.name@, Model::NoneM),
    ]);
}

/// Sequence round-trip: zero `item` children decode to the empty sequence,
/// and N well-formed `item` children decode to the sequence of their
/// contents, of length N, in document order.
pub proof fn lemma_sequence_items(t: Shape, items: Seq<ElemModel>)
    requires
        forall|i: int| 0 <= i < items.len() ==> (#[trigger] items[i]).name == "item"@,
        forall|i: int| 0 <= i < items.len() ==> (#[trigger] dec(t, items[i])) is Ok,
    ensures
        dec_items(t, items) is Ok,
        dec_items(t, items)->Ok_0.len() == items.len(),
        forall|i: int|
            0 <= i < items.len() ==> dec_items(t, items)->Ok_0[i] == (#[trigger] dec(
                t,
                items[i],
            ))->Ok_0,
    decreases items.len(),
{
    if items.len() == 0 {
    } else {
        assert(forall|i: int|
            0 <= i < items.skip(1).len() ==> #[trigger] items.skip(1)[i] == items[i + 1]);
        lemma_sequence_items(t, items.skip(1));
        let m = dec(t, items[0])->Ok_0;
        let rest = dec_items(t, items.skip(1))->Ok_0;
        assert(dec_items(t, items) == Ok::<Seq<Model>, DecodeErrModel>(seq![m] + rest));
        assert forall|i: int| 0 <= i < items.len() implies (seq![m] + rest)[i] == (#[trigger] dec(
            t,
            items[i],
        ))->Ok_0 by {
            if i > 0 {
                assert((seq![m] + rest)[i] == rest[i - 1]);
                assert(items.skip(1)[i - 1] == items[i]);
            }
        }
    }
}

/// Map round-trip: a pair of well-formed entries with distinct keys decodes
/// to the mapping holding exactly those two pairs, whichever order the two
/// entries appear in.
pub proof fn lemma_map_entry_order(kt: Shape, vt: Shape, e1: ElemModel, e2: ElemModel)
    requires
        e1.name == "entry"@,
        e2.name == "entry"@,
        dec_entry(kt, vt, e1) is Ok,
        dec_entry(kt, vt, e2) is Ok,
        (dec_entry(kt, vt, e1)->Ok_0).0 != (dec_entry(kt, vt, e2)->Ok_0).0,
    ensures
        dec_entries(kt, vt, seq![e1, e2]) is Ok,
        dec_entries(kt, vt, seq![e2, e1]) is Ok,
        pairs_to_map(dedup_pairs(dec_entries(kt, vt, seq![e1, e2])->Ok_0)) == pairs_to_map(
            dedup_pairs(dec_entries(kt, vt, seq![e2, e1])->Ok_0),
        ),
        pairs_to_map(dedup_pairs(dec_entries(kt, vt, seq![e1, e2])->Ok_0)) == Map::<
            Model,
            Model,
        >::empty().insert(
            (dec_entry(kt, vt, e1)->Ok_0).0,
            (dec_entry(kt, vt, e1)->Ok_0).1,
        ).insert((dec_entry(kt, vt, e2)->Ok_0).0, (dec_entry(kt, vt, e2)->Ok_0).1),
{
    let p1 = dec_entry(kt, vt, e1)->Ok_0;
    let p2 = dec_entry(kt, vt, e2)->Ok_0;
    lemma_two_entries(kt, vt, e1, e2);
    lemma_two_entries(kt, vt, e2, e1);
    lemma_dedup_two(p1, p2);
    lemma_dedup_two(p2, p1);
    let m12 = pairs_to_map(seq![p1, p2]);
    let m21 = pairs_to_map(seq![p2, p1]);
    lemma_pairs_to_map_two(p1, p2);
    lemma_pairs_to_map_two(p2, p1);
    assert(m12 =~= m21);
}

proof fn lemma_two_entries(kt: Shape, vt: Shape, e1: ElemModel, e2: ElemModel)
    requires
        e1.name == "entry"@,
        e2.name == "entry"@,
        dec_entry(kt, vt, e1) is Ok,
        dec_entry(kt, vt, e2) is Ok,
    ensures
        dec_entries(kt, vt, seq![e1, e2]) == Ok::<Seq<(Model, Model)>, DecodeErrModel>(
            seq![dec_entry(kt, vt, e1)->Ok_0, dec_entry(kt, vt, e2)->Ok_0],
        ),
{
    let els = seq![e1, e2];
    assert(els[0] == e1);
    assert(els.skip(1) =~= seq![e2]);
    assert(seq![e2][0] == e2);
    assert(seq![e2].skip(1) =~= Seq::<ElemModel>::empty());
    let p1 = dec_entry(kt, vt, e1)->Ok_0;
    let p2 = dec_entry(kt, vt, e2)->Ok_0;
    assert(dec_entries(kt, vt, Seq::<ElemModel>::empty()) == Ok::<
        Seq<(Model, Model)>,
        DecodeErrModel,
    >(Seq::empty()));
    assert(dec_entries(kt, vt, seq![e2]) == Ok::<Seq<(Model, Model)>, DecodeErrModel>(
        seq![p2] + Seq::<(Model, Model)>::empty(),
    ));
    assert(seq![p2] + Seq::<(Model, Model)>::empty() =~= seq![p2]);
    assert(dec_entries(kt, vt, els) == Ok::<Seq<(Model, Model)>, DecodeErrModel>(
        seq![p1] + seq![p2],
    ));
    assert(seq![p1] + seq![p2] =~= seq![p1, p2]);
}

proof fn lemma_dedup_two(p1: (Model, Model), p2: (Model, Model))
    requires
        p1.0 != p2.0,
    ensures
        dedup_pairs(seq![p1, p2]) == seq![p1, p2],
{
    let ps = seq![p1, p2];
    assert(ps.drop_last() =~= seq![p1]);
    assert(seq![p1].drop_last() =~= Seq::<(Model, Model)>::empty());
    assert(dedup_pairs(Seq::<(Model, Model)>::empty()) == Seq::<(Model, Model)>::empty());
    assert(!has_key(Seq::<(Model, Model)>::empty(), p1.0));
    assert(dedup_pairs(seq![p1]) == Seq::<(Model, Model)>::empty().push(p1));
    assert(Seq::<(Model, Model)>::empty().push(p1) =~= seq![p1]);
    assert(!has_key(seq![p1], p2.0)) by {
        assert(seq![p1][0] == p1);
    }
    assert(dedup_pairs(ps) == seq![p1].push(p2));
    assert(seq![p1].push(p2) =~= seq![p1, p2]);
}

proof fn lemma_pairs_to_map_two(p1: (Model, Model), p2: (Model, Model))
    ensures
        pairs_to_map(seq![p1, p2]) == Map::<Model, Model>::empty().insert(p1.0, p1.1).insert(
            p2.0,
            p2.1,
        ),
{
    let ps = seq![p1, p2];
    assert(ps.drop_last() =~= seq![p1]);
    assert(ps.last() == p2);
    assert(seq![p1].drop_last() =~= Seq::<(Model, Model)>::empty());
    assert(seq![p1].last() == p1);
    assert(pairs_to_map(Seq::<(Model, Model)>::empty()) == Map::<Model, Model>::empty());
    assert(pairs_to_map(seq![p1]) == Map::<Model, Model>::empty().insert(p1.0, p1.1));
    assert(pairs_to_map(ps) == pairs_to_map(seq![p1]).insert(p2.0, p2.1));
}

/// Deep equality of decoded values: true exactly when the mathematical images
/// coincide.
pub fn value_eq(a: &Value, b: &Value) -> (r: bool)
    ensures
        r == (a.model() == b.model()),
    decreases *a,
{
    match (a, b) {
        (Value::BoolVal(x), Value::BoolVal(y)) => *x == *y,
        (Value::IntVal(k1, v1), Value::IntVal(k2, v2)) => *k1 == *k2 && *v1 == *v2,
        (Value::FloatVal(k1, t1), Value::FloatVal(k2, t2)) => *k1 == *k2 && crate::strutil::str_eq(
            t1.as_str(),
            t2.as_str(),
        ),
        (Value::StrVal(s1), Value::StrVal(s2)) => crate::strutil::str_eq(s1.as_str(), s2.as_str()),
        (Value::NoneVal, Value::NoneVal) => true,
        (Value::SomeVal(x), Value::SomeVal(y)) => value_eq(&**x, &**y),
        (Value::SeqVal(v1), Value::SeqVal(v2)) => seq_vals_eq(v1, v2),
        (Value::MapVal(p1), Value::MapVal(p2)) => pair_vals_eq(p1, p2),
        (Value::StructVal(f1), Value::StructVal(f2)) => field_vals_eq(f1, f2),
        (Value::EnumVal(n1, f1), Value::EnumVal(n2, f2)) => crate::strutil::str_eq(
            n1.as_str(),
            n2.as_str(),
        ) && field_vals_eq(f1, f2),
        _ => false,
    }
}

fn seq_vals_eq(v1: &Vec<Value>, v2: &Vec<Value>) -> (r: bool)
    ensures
        r == (models_of(v1@) == models_of(v2@)),
    decreases *v1,
{
    proof {
        lemma_models_of(v1@);
        lemma_models_of(v2@);
    }
    let n = v1.len();
    if n != v2.len() {
        return false;
    }
    let mut i: usize = 0;
    while i < n
        invariant
            0 <= i <= n,
            n == v1@.len() == v2@.len(),
            models_of(v1@).len() == n && models_of(v2@).len() == n,
            forall|j: int| 0 <= j < n ==> models_of(v1@)[j] == #[trigger] v1@[j].model(),
            forall|j: int| 0 <= j < n ==> models_of(v2@)[j] == #[trigger] v2@[j].model(),
            forall|j: int| 0 <= j < i ==> models_of(v1@)[j] == models_of(v2@)[j],
        decreases n - i,
    {
        if !value_eq(&v1[i], &v2[i]) {
            return false;
        }
        i = i + 1;
    }
    proof {
        assert(models_of(v1@) =~= models_of(v2@));
    }
    true
}

fn pair_vals_eq(p1: &Vec<(Value, Value)>, p2: &Vec<(Value, Value)>) -> (r: bool)
    ensures
        r == (pair_models_of(p1@) == pair_models_of(p2@)),
    decreases *p1,
{
    proof {
        lemma_pair_models_of(p1@);
        lemma_pair_models_of(p2@);
    }
    let n = p1.len();
    if n != p2.len() {
        return false;
    }
    let mut i: usize = 0;
    while i < n
        invariant
            0 <= i <= n,
            n == p1@.len() == p2@.len(),
            pair_models_of(p1@).len() == n && pair_models_of(p2@).len() == n,
            forall|j: int|
                0 <= j < n ==> pair_models_of(p1@)[j] == (
                #[trigger] p1@[j].0.model(),
                p1@[j].1.model(),
                ),
            forall|j: int|
                0 <= j < n ==> pair_models_of(p2@)[j] == (
                #[trigger] p2@[j].0.model(),
                p2@[j].1.model(),
                ),
            forall|j: int| 0 <= j < i ==> pair_models_of(p1@)[j] == pair_models_of(p2@)[j],
        decreases n - i,
    {
        if !value_eq(&p1[i].0, &p2[i].0) {
            return false;
        }
        if !value_eq(&p1[i].1, &p2[i].1) {
            return false;
        }
        i = i + 1;
    }
    proof {
        assert(pair_models_of(p1@) =~= pair_models_of(p2@));
    }
    true
}

fn field_vals_eq(f1: &Vec<(String, Value)>, f2: &Vec<(String, Value)>) -> (r: bool)
    ensures
        r == (field_models_of(f1@) == field_models_of(f2@)),
    decreases *f1,
{
    proof {
        lemma_field_models_of(f1@);
        lemma_field_models_of(f2@);
    }
    let n = f1.len();
    if n != f2.len() {
        return false;
    }
    let mut i: usize = 0;
    while i < n
        invariant
            0 <= i <= n,
            n == f1@.len() == f2@.len(),
            field_models_of(f1@).len() == n && field_models_of(f2@).len() == n,
            forall|j: int|
                0 <= j < n ==> field_models_of(f1@)[j] == (
                #[trigger] f1@[j].0@,
                f1@[j].1.model(),
                ),
            forall|j: int|
                0 <= j < n ==> field_models_of(f2@)[j] == (
                #[trigger] f2@[j].0@,
                f2@[j].1.model(),
                ),
            forall|j: int| 0 <= j < i ==> field_models_of(f1@)[j] == field_models_of(f2@)[j],
        decreases n - i,
    {
        if !crate::strutil::str_eq(f1[i].0.as_str(), f2[i].0.as_str()) {
            return false;
        }
        if !value_eq(&f1[i].1, &f2[i].1) {
            return false;
        }
        i = i + 1;
    }
    proof {
        assert(field_models_of(f1@) =~= field_models_of(f2@));
    }
    true
}

} // verus!
