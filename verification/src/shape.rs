//! Type shapes and decoded values. A `Shape` is the structural description of
//! a target type — the registry derives schema text from it and the decoder
//! dispatches on it. A `Value` is a decoded document, and `Model` is its
//! mathematical image, which every decoding contract speaks of.

use vstd::prelude::*;
use crate::coerce::IntKind;

verus! {

broadcast use vstd::std_specs::vec::group_vec_axioms;

/// The floating-point kinds. Their values are carried as validated literal
/// text; converting the text to a machine float happens outside the library.
#[derive(Debug, Clone, Copy, PartialEq, Eq, Structural)]
pub enum FloatKind {
    F32,
    F64,
}

/// One named field of a struct shape or of a variant, with its human-authored
/// description (empty when none was supplied).
#[derive(Debug)]
pub struct FieldShape {
    pub name: String,
    pub desc: String,
    pub shape: Shape,
}

/// A struct shape: its root tag name and its fields in declaration order.
#[derive(Debug)]
pub struct StructShape {
    pub name: String,
    pub fields: Vec<FieldShape>,
}

/// One alternative of a variant (sum) type.
#[derive(Debug)]
pub struct VariantShape {
    pub name: String,
    pub desc: String,
    pub fields: Vec<FieldShape>,
}

/// A variant type: its alternatives in declaration order.
#[derive(Debug)]
pub struct EnumShape {
    pub variants: Vec<VariantShape>,
}

/// A hand-authored override of a type's schema fragment and root tag, with
/// the shape its documents decode under — the analogue of implementing the
/// schema capability by hand instead of deriving it.
#[derive(Debug)]
pub struct DescribedShape {
    pub schema: String,
    pub root: String,
    pub inner: Box<Shape>,
}

/// The structural description of a decodable type.
#[derive(Debug)]
pub enum Shape {
    BoolShape,
    IntShape(IntKind),
    FloatShape(FloatKind),
    StrShape,
    OptionOf(Box<Shape>),
    SeqOf(Box<Shape>),
    MapOf(Box<Shape>, Box<Shape>),
    StructOf(StructShape),
    EnumOf(EnumShape),
    Described(DescribedShape),
}

/// Size of a shape: every proper part has a strictly smaller size, which
/// bounds the decoder's recursion.
pub open spec fn shape_size(sh: Shape) -> nat
    decreases sh,
{
    match sh {
        Shape::BoolShape => 1,
        Shape::IntShape(_) => 1,
        Shape::FloatShape(_) => 1,
        Shape::StrShape => 1,
        Shape::OptionOf(t) => 1 + shape_size(*t),
        Shape::SeqOf(t) => 1 + shape_size(*t),
        Shape::MapOf(k, v) => 1 + shape_size(*k) + shape_size(*v),
        Shape::StructOf(ss) => 1 + fields_size(ss.fields@),
        Shape::EnumOf(es) => 1 + variants_size(es.variants@),
        Shape::Described(d) => 1 + shape_size(*d.inner),
    }
}

pub open spec fn fields_size(fields: Seq<FieldShape>) -> nat
    decreases fields,
{
    if fields.len() == 0 {
        0
    } else {
        1 + shape_size(fields[0].shape) + fields_size(fields.skip(1))
    }
}

pub open spec fn variants_size(vs: Seq<VariantShape>) -> nat
    decreases vs,
{
    if vs.len() == 0 {
        0
    } else {
        1 + fields_size(vs[0].fields@) + variants_size(vs.skip(1))
    }
}

/// Every field's shape is strictly smaller than the field list.
pub proof fn lemma_fields_size_index(fields: Seq<FieldShape>, i: int)
    requires
        0 <= i < fields.len(),
    ensures
        shape_size(fields[i].shape) < fields_size(fields),
    decreases fields.len(),
{
    if i > 0 {
        lemma_fields_size_index(fields.skip(1), i - 1);
        assert(fields.skip(1)[i - 1] == fields[i]);
    }
}

/// Every variant's field list is strictly smaller than the variant list.
pub proof fn lemma_variants_size_index(vs: Seq<VariantShape>, i: int)
    requires
        0 <= i < vs.len(),
    ensures
        fields_size(vs[i].fields@) < variants_size(vs),
    decreases vs.len(),
{
    if i > 0 {
        lemma_variants_size_index(vs.skip(1), i - 1);
        assert(vs.skip(1)[i - 1] == vs[i]);
    }
}

/// A decoded value.
#[derive(Debug, PartialEq)]
pub enum Value {
    BoolVal(bool),
    IntVal(IntKind, i128),
    /// A float as its validated literal text; conversion to a machine float
    /// happens at the caller's boundary.
    FloatVal(FloatKind, String),
    StrVal(String),
    NoneVal,
    SomeVal(Box<Value>),
    SeqVal(Vec<Value>),
    /// Key–value pairs with unique keys: first occurrence order, last write
    /// wins.
    MapVal(Vec<(Value, Value)>),
    /// Field name–value pairs in declaration order.
    StructVal(Vec<(String, Value)>),
    /// The selected variant's name and its field values.
    EnumVal(String, Vec<(String, Value)>),
}

/// The mathematical image of a decoded value.
pub enum Model {
    BoolM(bool),
    IntM(IntKind, int),
    FloatM(FloatKind, Seq<char>),
    StrM(Seq<char>),
    NoneM,
    SomeM(Box<Model>),
    SeqM(Seq<Model>),
    MapM(Seq<(Model, Model)>),
    StructM(Seq<(Seq<char>, Model)>),
    EnumM(Seq<char>, Seq<(Seq<char>, Model)>),
}

impl Value {
    /// The value's mathematical image.
    pub open spec fn model(self) -> Model
        decreases self,
    {
        match self {
            Value::BoolVal(b) => Model::BoolM(b),
            Value::IntVal(k, v) => Model::IntM(k, v as int),
            Value::FloatVal(k, t) => Model::FloatM(k, t@),
            Value::StrVal(s) => Model::StrM(s@),
            Value::NoneVal => Model::NoneM,
            Value::SomeVal(b) => Model::SomeM(Box::new((*b).model())),
            Value::SeqVal(v) => Model::SeqM(models_of(v@)),
            Value::MapVal(ps) => Model::MapM(pair_models_of(ps@)),
            Value::StructVal(fs) => Model::StructM(field_models_of(fs@)),
            Value::EnumVal(n, fs) => Model::EnumM(n@, field_models_of(fs@)),
        }
    }
}

/// Images of a sequence of values, in order.
pub open spec fn models_of(s: Seq<Value>) -> Seq<Model>
    decreases s,
{
    if s.len() == 0 {
        Seq::empty()
    } else {
        seq![s[0].model()] + models_of(s.skip(1))
    }
}

/// Images of a sequence of key–value pairs, in order.
pub open spec fn pair_models_of(s: Seq<(Value, Value)>) -> Seq<(Model, Model)>
    decreases s,
{
    if s.len() == 0 {
        Seq::empty()
    } else {
        seq![(s[0].0.model(), s[0].1.model())] + pair_models_of(s.skip(1))
    }
}

/// Images of a sequence of named values, in order.
pub open spec fn field_models_of(s: Seq<(String, Value)>) -> Seq<(Seq<char>, Model)>
    decreases s,
{
    if s.len() == 0 {
        Seq::empty()
    } else {
        seq![(s[0].0@, s[0].1.model())] + field_models_of(s.skip(1))
    }
}

pub proof fn lemma_models_of(s: Seq<Value>)
    ensures
        models_of(s).len() == s.len(),
        forall|i: int| 0 <= i < s.len() ==> models_of(s)[i] == #[trigger] s[i].model(),
    decreases s.len(),
{
    if s.len() > 0 {
        lemma_models_of(s.skip(1));
        assert(forall|i: int| 1 <= i < s.len() ==> s.skip(1)[i - 1] == #[trigger] s[i]);
    }
}

pub proof fn lemma_pair_models_of(s: Seq<(Value, Value)>)
    ensures
        pair_models_of(s).len() == s.len(),
        forall|i: int|
            0 <= i < s.len() ==> pair_models_of(s)[i] == (
            #[trigger] s[i].0.model(),
            s[i].1.model(),
            ),
    decreases s.len(),
{
    if s.len() > 0 {
        lemma_pair_models_of(s.skip(1));
        assert(forall|i: int| 1 <= i < s.len() ==> s.skip(1)[i - 1] == #[trigger] s[i]);
    }
}

pub proof fn lemma_field_models_of(s: Seq<(String, Value)>)
    ensures
        field_models_of(s).len() == s.len(),
        forall|i: int|
            0 <= i < s.len() ==> field_models_of(s)[i] == (
            #[trigger] s[i].0@,
            s[i].1.model(),
            ),
    decreases s.len(),
{
    if s.len() > 0 {
        lemma_field_models_of(s.skip(1));
        assert(forall|i: int| 1 <= i < s.len() ==> s.skip(1)[i - 1] == #[trigger] s[i]);
    }
}

/// Every shape has positive size.
pub proof fn lemma_shape_size_pos(sh: Shape)
    ensures
        shape_size(sh) >= 1,
{
    match sh {
        Shape::BoolShape => {},
        Shape::IntShape(_) => {},
        Shape::FloatShape(_) => {},
        Shape::StrShape => {},
        Shape::OptionOf(_) => {},
        Shape::SeqOf(_) => {},
        Shape::MapOf(_, _) => {},
        Shape::StructOf(_) => {},
        Shape::EnumOf(_) => {},
        Shape::Described(_) => {},
    }
}

pub proof fn lemma_models_of_push(s: Seq<Value>, v: Value)
    ensures
        models_of(s.push(v)) == models_of(s).push(v.model()),
{
    lemma_models_of(s);
    lemma_models_of(s.push(v));
    assert forall|i: int| 0 <= i < s.len() + 1 implies models_of(s.push(v))[i] == models_of(
        s,
    ).push(v.model())[i] by {
        if i < s.len() {
            assert(s.push(v)[i] == s[i]);
            assert(models_of(s.push(v))[i] == s.push(v)[i].model());
            assert(models_of(s)[i] == s[i].model());
        } else {
            assert(s.push(v)[i] == v);
            assert(models_of(s.push(v))[i] == s.push(v)[i].model());
        }
    }
    assert(models_of(s.push(v)) =~= models_of(s).push(v.model()));
}

pub proof fn lemma_pair_models_of_push(s: Seq<(Value, Value)>, p: (Value, Value))
    ensures
        pair_models_of(s.push(p)) == pair_models_of(s).push((p.0.model(), p.1.model())),
{
    lemma_pair_models_of(s);
    lemma_pair_models_of(s.push(p));
    assert forall|i: int| 0 <= i < s.len() + 1 implies pair_models_of(s.push(p))[i]
        == pair_models_of(s).push((p.0.model(), p.1.model()))[i] by {
        if i < s.len() {
            assert(s.push(p)[i] == s[i]);
            assert(pair_models_of(s.push(p))[i] == (s.push(p)[i].0.model(), s.push(
                p,
            )[i].1.model()));
            assert(pair_models_of(s)[i] == (s[i].0.model(), s[i].1.model()));
        } else {
            assert(s.push(p)[i] == p);
            assert(pair_models_of(s.push(p))[i] == (s.push(p)[i].0.model(), s.push(
                p,
            )[i].1.model()));
        }
    }
    assert(pair_models_of(s.push(p)) =~= pair_models_of(s).push((p.0.model(), p.1.model())));
}

pub proof fn lemma_field_models_of_push(s: Seq<(String, Value)>, f: (String, Value))
    ensures
        field_models_of(s.push(f)) == field_models_of(s).push((f.0@, f.1.model())),
{
    lemma_field_models_of(s);
    lemma_field_models_of(s.push(f));
    assert forall|i: int| 0 <= i < s.len() + 1 implies field_models_of(s.push(f))[i]
        == field_models_of(s).push((f.0@, f.1.model()))[i] by {
        if i < s.len() {
            assert(s.push(f)[i] == s[i]);
            assert(field_models_of(s.push(f))[i] == (s.push(f)[i].0@, s.push(f)[i].1.model()));
            assert(field_models_of(s)[i] == (s[i].0@, s[i].1.model()));
        } else {
            assert(s.push(f)[i] == f);
            assert(field_models_of(s.push(f))[i] == (s.push(f)[i].0@, s.push(f)[i].1.model()));
        }
    }
    assert(field_models_of(s.push(f)) =~= field_models_of(s).push((f.0@, f.1.model())));
}

/// The mapping a pair list denotes: later pairs shadow earlier ones.
pub open spec fn pairs_to_map(ps: Seq<(Model, Model)>) -> Map<Model, Model>
    decreases ps.len(),
{
    if ps.len() == 0 {
        Map::empty()
    } else {
        pairs_to_map(ps.drop_last()).insert(ps.last().0, ps.last().1)
    }
}

} // verus!
