//! Schema derivation: the human-readable structural description and the
//! canonical root tag of any shape. Struct schemas wrap one child tag per
//! field, each annotated with the field's description; variant schemas
//! enumerate every alternative behind a fixed preamble.

use vstd::prelude::*;
use crate::coerce::spec_kind_name;
use crate::shape::{Shape, FieldShape, VariantShape, shape_size, fields_size, variants_size};

verus! {

broadcast use vstd::std_specs::vec::group_vec_axioms;

/// `s` with two spaces inserted after every newline.
pub open spec fn indent2(s: Seq<char>) -> Seq<char>
    decreases s.len(),
{
    if s.len() == 0 {
        Seq::empty()
    } else if s.last() == '\n' {
        indent2(s.drop_last()) + seq!['\n', ' ', ' ']
    } else {
        indent2(s.drop_last()) + seq![s.last()]
    }
}

/// `s` as an indented block: every line, the first included, shifted right by
/// two spaces.
pub open spec fn indented_block(s: Seq<char>) -> Seq<char> {
    seq![' ', ' '] + indent2(s)
}

/// The schema fragment of one named field: a wrapper tag named after the
/// field, the inner schema indented, and an inline comment carrying the
/// field's description.
pub open spec fn spec_field_part(f: FieldShape) -> Seq<char>
    decreases shape_size(f.shape), 1nat,
{
    "<"@ + f.name@ + ">\n"@ + indented_block(spec_schema(f.shape)) + "\n</"@ + f.name@
        + "> <!-- "@ + f.desc@ + " -->"@
}

/// Field fragments joined by the given separator.
pub open spec fn spec_fields_joined(fields: Seq<FieldShape>, sep: Seq<char>) -> Seq<char>
    decreases fields_size(fields), 0nat,
{
    if fields.len() == 0 {
        Seq::empty()
    } else if fields.len() == 1 {
        spec_field_part(fields[0])
    } else {
        spec_field_part(fields[0]) + sep + spec_fields_joined(fields.skip(1), sep)
    }
}

/// The example block of one variant: self-closing with an inline comment when
/// it carries no fields, a nested block otherwise.
pub open spec fn spec_variant_part(v: VariantShape) -> Seq<char>
    decreases fields_size(v.fields@), 1nat,
{
    if v.fields@.len() == 0 {
        "<"@ + v.name@ + "/> <!-- "@ + v.desc@ + " -->"@
    } else {
        "<"@ + v.name@ + ">\n"@ + indented_block(spec_fields_joined(v.fields@, "\n"@)) + "\n</"@
            + v.name@ + "> <!-- "@ + v.desc@ + " -->"@
    }
}

/// One newline-prefixed variant block per declared variant.
pub open spec fn spec_variants_tail(vs: Seq<VariantShape>) -> Seq<char>
    decreases variants_size(vs), 0nat,
{
    if vs.len() == 0 {
        Seq::empty()
    } else {
        seq!['\n'] + spec_variant_part(vs[0]) + spec_variants_tail(vs.skip(1))
    }
}

/// The fixed preamble of every variant-type schema.
pub open spec fn variant_preamble() -> Seq<char> {
    "The following are possible XML structures for the current enum type:"@
}

/// The derived schema text of a shape.
pub open spec fn spec_schema(sh: Shape) -> Seq<char>
    decreases shape_size(sh), 0nat,
{
    match sh {
        Shape::BoolShape => "it is a boolean value, either `true` or `false`"@,
        Shape::IntShape(_) => "integer value, a whole number without a fractional part, e.g., 42, -7, or 0"@,
        Shape::FloatShape(_) => "float value, a number that can have a fractional part, e.g., 3.14, -0.001, or 2.0"@,
        Shape::StrShape => "return a string value. please use the format <![CDATA[{actual string content without any escaping}]]> to return the string content. Note that the CDATA tags must be exactly in this format, otherwise the parsing will fail. If you need to return an empty string, please return <![CDATA[]]>"@,
        Shape::OptionOf(t) => "Optional. if not provided, do not include any tags. If provided, the format is: "@
            + spec_schema(*t),
        Shape::SeqOf(t) => "A series(0 or more elements) of items where each item has the following format:<item>"@
            + spec_schema(*t)
            + "</item>\nNOTICE: Even a single item must be enclosed within <item></item> tags."@,
        Shape::MapOf(kt, vt) => "a sequence of key-value pairs, where each key is "@ + spec_schema(
            *kt,
        ) + " and each value is "@ + spec_schema(*vt)
            + ". The XML format should be: <entry><key>{key}</key><value>{value}</value></entry>, and this structure can be repeated multiple times."@,
        Shape::StructOf(ss) => "<"@ + ss.name@ + ">\n  "@ + spec_fields_joined(
            ss.fields@,
            "\n  "@,
        ) + "\n</"@ + ss.name@ + ">"@,
        Shape::EnumOf(es) => variant_preamble() + spec_variants_tail(es.variants@),
        Shape::Described(d) => d.schema@,
    }
}

/// The canonical root tag of a shape. A variant type's root tag is the empty
/// string: the document's own outer tag carries the discriminant, so no fixed
/// root name exists for it (this library settles on empty text rather than a
/// sentinel word).
pub open spec fn spec_root_tag(sh: Shape) -> Seq<char>
    decreases sh,
{
    match sh {
        Shape::BoolShape => "bool"@,
        Shape::IntShape(k) => spec_kind_name(k),
        Shape::FloatShape(fk) => match fk {
            crate::shape::FloatKind::F32 => "f32"@,
            crate::shape::FloatKind::F64 => "f64"@,
        },
        Shape::StrShape => "string"@,
        Shape::OptionOf(t) => "Option<"@ + spec_root_tag(*t) + ">"@,
        Shape::SeqOf(t) => "Vec<"@ + spec_root_tag(*t) + ">"@,
        Shape::MapOf(kt, vt) => "Map<"@ + spec_root_tag(*kt) + ", "@ + spec_root_tag(*vt) + ">"@,
        Shape::StructOf(ss) => ss.name@,
        Shape::EnumOf(_) => Seq::empty(),
        Shape::Described(d) => d.root@,
    }
}

/// Shifts every line of `s` right by two spaces.
fn indent_block_exec(s: &str) -> (r: String)
    ensures
        r@ == indented_block(s@),
{
    let n = s.unicode_len();
    let mut out = String::from_str("  ");
    let mut i: usize = 0;
    proof {
        reveal_strlit("  ");
        reveal_strlit("\n  ");
        assert("  "@ =~= seq![' ', ' ']);
        assert("\n  "@ =~= seq!['\n', ' ', ' ']);
        assert(indent2(s@.take(0)) =~= Seq::<char>::empty());
        assert(out@ =~= seq![' ', ' '] + indent2(s@.take(0)));
    }
    while i < n
        invariant
            0 <= i <= n,
            n == s@.len(),
            out@ == seq![' ', ' '] + indent2(s@.take(i as int)),
        decreases n - i,
    {
        proof {
            reveal_strlit("\n  ");
            assert("\n  "@ =~= seq!['\n', ' ', ' ']);
            assert(s@.take(i as int + 1).drop_last() =~= s@.take(i as int));
            assert(s@.take(i as int + 1).last() == s@[i as int]);
        }
        let c = s.get_char(i);
        if c == '\n' {
            out.append("\n  ");
            proof {
                assert(out@ =~= seq![' ', ' '] + indent2(s@.take(i as int + 1)));
            }
        } else {
            let piece = s.substring_char(i, i + 1);
            proof {
                assert(piece@ =~= seq![s@[i as int]]);
            }
            out.append(piece);
            proof {
                assert(out@ =~= seq![' ', ' '] + indent2(s@.take(i as int + 1)));
            }
        }
        i = i + 1;
    }
    proof {
        assert(s@.take(n as int) =~= s@);
    }
    out
}

/// The schema fragment of one field.
fn field_part(f: &FieldShape) -> (r: String)
    ensures
        r@ == spec_field_part(*f),
    decreases shape_size(f.shape), 1nat,
{
    let inner = schema_text(&f.shape);
    let block = indent_block_exec(inner.as_str());
    let mut out = String::from_str("<");
    out.append(f.name.as_str());
    out.append(">\n");
    out.append(block.as_str());
    out.append("\n</");
    out.append(f.name.as_str());
    out.append("> <!-- ");
    out.append(f.desc.as_str());
    out.append(" -->");
    out
}

/// Field fragments from `from` on, joined by `sep`.
fn fields_joined(fields: &Vec<FieldShape>, from: usize, sep: &str) -> (r: String)
    requires
        from <= fields@.len(),
    ensures
        r@ == spec_fields_joined(fields@.skip(from as int), sep@),
    decreases fields_size(fields@.skip(from as int)), 0nat,
{
    let n = fields.len();
    if from >= n {
        proof {
            assert(fields@.skip(from as int) =~= Seq::<FieldShape>::empty());
        }
        return String::new();
    }
    proof {
        assert(fields@.skip(from as int)[0] == fields@[from as int]);
    }
    let head = field_part(&fields[from]);
    if from + 1 >= n {
        proof {
            assert(fields@.skip(from as int).len() == 1);
        }
        return head;
    }
    proof {
        assert(fields@.skip(from as int).skip(1) =~= fields@.skip(from as int + 1));
    }
    let rest = fields_joined(fields, from + 1, sep);
    let mut out = head;
    out.append(sep);
    out.append(rest.as_str());
    out
}

/// The example block of one variant.
fn variant_part(v: &VariantShape) -> (r: String)
    ensures
        r@ == spec_variant_part(*v),
    decreases fields_size(v.fields@), 1nat,
{
    if v.fields.len() == 0 {
        let mut out = String::from_str("<");
        out.append(v.name.as_str());
        out.append("/> <!-- ");
        out.append(v.desc.as_str());
        out.append(" -->");
        out
    } else {
        proof {
            assert(v.fields@.skip(0) =~= v.fields@);
        }
        let inner = fields_joined(&v.fields, 0, "\n");
        let block = indent_block_exec(inner.as_str());
        let mut out = String::from_str("<");
        out.append(v.name.as_str());
        out.append(">\n");
        out.append(block.as_str());
        out.append("\n</");
        out.append(v.name.as_str());
        out.append("> <!-- ");
        out.append(v.desc.as_str());
        out.append(" -->");
        out
    }
}

/// Newline-prefixed variant blocks from `from` on.
fn variants_tail(vs: &Vec<VariantShape>, from: usize) -> (r: String)
    requires
        from <= vs@.len(),
    ensures
        r@ == spec_variants_tail(vs@.skip(from as int)),
    decreases variants_size(vs@.skip(from as int)), 0nat,
{
    let n = vs.len();
    if from >= n {
        proof {
            assert(vs@.skip(from as int) =~= Seq::<VariantShape>::empty());
        }
        return String::new();
    }
    proof {
        assert(vs@.skip(from as int)[0] == vs@[from as int]);
        assert(vs@.skip(from as int).skip(1) =~= vs@.skip(from as int + 1));
    }
    let mut out = String::from_str("\n");
    proof {
        reveal_strlit("\n");
        assert("\n"@ =~= seq!['\n']);
    }
    let head = variant_part(&vs[from]);
    out.append(head.as_str());
    let rest = variants_tail(vs, from + 1);
    out.append(rest.as_str());
    out
}

/// Derives the schema text of a shape: the full structural description used
/// to instruct the model.
pub fn schema_text(sh: &Shape) -> (r: String)
    ensures
        r@ == spec_schema(*sh),
    decreases shape_size(*sh), 0nat,
{
    match sh {
        Shape::BoolShape => String::from_str(
            "it is a boolean value, either `true` or `false`",
        ),
        Shape::IntShape(_) => String::from_str(
            "integer value, a whole number without a fractional part, e.g., 42, -7, or 0",
        ),
        Shape::FloatShape(_) => String::from_str(
            "float value, a number that can have a fractional part, e.g., 3.14, -0.001, or 2.0",
        ),
        Shape::StrShape => String::from_str(
            "return a string value. please use the format <![CDATA[{actual string content without any escaping}]]> to return the string content. Note that the CDATA tags must be exactly in this format, otherwise the parsing will fail. If you need to return an empty string, please return <![CDATA[]]>",
        ),
        Shape::OptionOf(t) => {
            let mut out = String::from_str(
                "Optional. if not provided, do not include any tags. If provided, the format is: ",
            );
            let inner = schema_text(t);
            out.append(inner.as_str());
            out
        },
        Shape::SeqOf(t) => {
            let mut out = String::from_str(
                "A series(0 or more elements) of items where each item has the following format:<item>",
            );
            let inner = schema_text(t);
            out.append(inner.as_str());
            out.append(
                "</item>\nNOTICE: Even a single item must be enclosed within <item></item> tags.",
            );
            out
        },
        Shape::MapOf(kt, vt) => {
            let mut out = String::from_str("a sequence of key-value pairs, where each key is ");
            let ks = schema_text(kt);
            out.append(ks.as_str());
            out.append(" and each value is ");
            let vsx = schema_text(vt);
            out.append(vsx.as_str());
            out.append(
                ". The XML format should be: <entry><key>{key}</key><value>{value}</value></entry>, and this structure can be repeated multiple times.",
            );
            out
        },
        Shape::StructOf(ss) => {
            proof {
                assert(ss.fields@.skip(0) =~= ss.fields@);
            }
            let mut out = String::from_str("<");
            out.append(ss.name.as_str());
            out.append(">\n  ");
            let inner = fields_joined(&ss.fields, 0, "\n  ");
            out.append(inner.as_str());
            out.append("\n</");
            out.append(ss.name.as_str());
            out.append(">");
            out
        },
        Shape::EnumOf(es) => {
            proof {
                assert(es.variants@.skip(0) =~= es.variants@);
            }
            let mut out = String::from_str(
                "The following are possible XML structures for the current enum type:",
            );
            let tail = variants_tail(&es.variants, 0);
            out.append(tail.as_str());
            out
        },
        Shape::Described(d) => d.schema.clone(),
    }
}

/// Derives the canonical root tag of a shape.
pub fn root_tag(sh: &Shape) -> (r: String)
    ensures
        r@ == spec_root_tag(*sh),
    decreases *sh,
{
    match sh {
        Shape::BoolShape => String::from_str("bool"),
        Shape::IntShape(k) => String::from_str(crate::coerce::kind_name(k)),
        Shape::FloatShape(fk) => match fk {
            crate::shape::FloatKind::F32 => String::from_str("f32"),
            crate::shape::FloatKind::F64 => String::from_str("f64"),
        },
        Shape::StrShape => String::from_str("string"),
        Shape::OptionOf(t) => {
            let mut out = String::from_str("Option<");
            let inner = root_tag(t);
            out.append(inner.as_str());
            out.append(">");
            out
        },
        Shape::SeqOf(t) => {
            let mut out = String::from_str("Vec<");
            let inner = root_tag(t);
            out.append(inner.as_str());
            out.append(">");
            out
        },
        Shape::MapOf(kt, vt) => {
            let mut out = String::from_str("Map<");
            let ks = root_tag(kt);
            out.append(ks.as_str());
            out.append(", ");
            let vsx = root_tag(vt);
            out.append(vsx.as_str());
            out.append(">");
            out
        },
        Shape::StructOf(ss) => {
            let mut out = String::new();
            out.append(ss.name.as_str());
            out
        },
        Shape::EnumOf(_) => {
            let out = String::new();
            proof {
                assert(out@ =~= Seq::<char>::empty());
            }
            out
        },
        Shape::Described(d) => d.root.clone(),
    }
}

/// A type's derived capabilities: its schema text, its canonical root tag,
/// and whether it is a variant type.
#[derive(Debug)]
pub struct TypeDescriptor {
    pub schema_text: String,
    pub root_tag: String,
    pub is_variant_type: bool,
}

/// Derives the full descriptor of a shape.
pub fn describe(sh: &Shape) -> (r: TypeDescriptor)
    ensures
        r.schema_text@ == spec_schema(*sh),
        r.root_tag@ == spec_root_tag(*sh),
        r.is_variant_type == (sh is EnumOf),
{
    let is_variant = match sh {
        Shape::EnumOf(_) => true,
        _ => false,
    };
    TypeDescriptor { schema_text: schema_text(sh), root_tag: root_tag(sh), is_variant_type: is_variant }
}

} // verus!
