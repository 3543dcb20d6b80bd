use llm_xml_caster::{
    decode, decode_document, describe, parse_document, value_eq, Cache, DecodeError, FieldShape,
    IntKind, ParseError, Shape, StructShape, Value,
};

fn field(name: &str, shape: Shape) -> FieldShape {
    FieldShape { name: name.to_string(), desc: "".to_string(), shape }
}

fn one_field_struct(tag: &str, name: &str, inner: Shape) -> Shape {
    Shape::StructOf(StructShape { name: tag.to_string(), fields: vec![field(name, inner)] })
}

#[test]
fn end_to_end_example() {
    // a literal block written as a <lit> child, lenient bool, numeric text
    let shape = Shape::StructOf(StructShape {
        name: "T".to_string(),
        fields: vec![
            field("name", Shape::StrShape),
            field("age", Shape::IntShape(IntKind::I32)),
            field("is_student", Shape::BoolShape),
        ],
    });
    let xml = "<T><name><lit>John</lit></name><age>30</age><is_student>yes</is_student></T>";
    let doc = parse_document(xml).unwrap();
    let decoded = decode_document(&shape, &doc).unwrap();
    assert_eq!(
        decoded,
        Value::StructVal(vec![
            ("name".to_string(), Value::StrVal("John".to_string())),
            ("age".to_string(), Value::IntVal(IntKind::I32, 30)),
            ("is_student".to_string(), Value::BoolVal(true)),
        ])
    );
}

#[test]
fn optional_round_trip() {
    let shape = one_field_struct("Doc", "n", Shape::OptionOf(Box::new(Shape::IntShape(
        IntKind::I32,
    ))));
    // absent tag decodes to absence
    let absent = parse_document("<Doc></Doc>").unwrap();
    assert_eq!(
        decode_document(&shape, &absent).unwrap(),
        Value::StructVal(vec![("n".to_string(), Value::NoneVal)])
    );
    // a present tag with valid inner content decodes to the inner value
    let present = parse_document("<Doc><n>7</n></Doc>").unwrap();
    assert_eq!(
        decode_document(&shape, &present).unwrap(),
        Value::StructVal(vec![
            ("n".to_string(), Value::SomeVal(Box::new(Value::IntVal(IntKind::I32, 7)))),
        ])
    );
    // the leniency law: malformed optional content downgrades to absence
    let malformed = parse_document("<Doc><n>seven</n></Doc>").unwrap();
    assert_eq!(
        decode_document(&shape, &malformed).unwrap(),
        Value::StructVal(vec![("n".to_string(), Value::NoneVal)])
    );
}

#[test]
fn leniency_is_only_for_optionals() {
    // the same malformed content fails a sequence rather than downgrading
    let shape = one_field_struct("Doc", "ns", Shape::SeqOf(Box::new(Shape::IntShape(
        IntKind::I32,
    ))));
    let malformed = parse_document("<Doc><ns><item>seven</item></ns></Doc>").unwrap();
    assert_eq!(
        decode_document(&shape, &malformed),
        Err(DecodeError::IntToken { token: "seven".to_string(), kind: IntKind::I32 })
    );
}

#[test]
fn sequence_round_trip() {
    let shape = Shape::SeqOf(Box::new(Shape::IntShape(IntKind::I32)));
    let empty = parse_document("<ns></ns>").unwrap();
    assert_eq!(decode(&shape, &empty).unwrap(), Value::SeqVal(vec![]));
    let three = parse_document("<ns><item>1</item><item>2</item><item>3</item></ns>").unwrap();
    assert_eq!(
        decode(&shape, &three).unwrap(),
        Value::SeqVal(vec![
            Value::IntVal(IntKind::I32, 1),
            Value::IntVal(IntKind::I32, 2),
            Value::IntVal(IntKind::I32, 3),
        ])
    );
    // a child that is not an item wrapper fails the whole sequence
    let stray = parse_document("<ns><item>1</item><other>2</other></ns>").unwrap();
    assert_eq!(
        decode(&shape, &stray),
        Err(DecodeError::SequenceShape { found: "other".to_string() })
    );
}

#[test]
fn map_round_trip_is_order_independent() {
    let shape = Shape::MapOf(Box::new(Shape::StrShape), Box::new(Shape::IntShape(IntKind::I32)));
    let ab = parse_document(
        "<m><entry><key>a</key><value>1</value></entry><entry><key>b</key><value>2</value></entry></m>",
    )
    .unwrap();
    let ba = parse_document(
        "<m><entry><key>b</key><value>2</value></entry><entry><key>a</key><value>1</value></entry></m>",
    )
    .unwrap();
    let d_ab = decode(&shape, &ab).unwrap();
    let d_ba = decode(&shape, &ba).unwrap();
    let pairs_of = |v: &Value| match v {
        Value::MapVal(ps) => ps.len(),
        _ => panic!("not a map"),
    };
    assert_eq!(pairs_of(&d_ab), 2);
    assert_eq!(pairs_of(&d_ba), 2);
    // both documents denote the same mapping: each pair of one occurs in the other
    let (ps_ab, ps_ba) = match (&d_ab, &d_ba) {
        (Value::MapVal(x), Value::MapVal(y)) => (x, y),
        _ => panic!("not maps"),
    };
    for (k, v) in ps_ab {
        assert!(ps_ba.iter().any(|(k2, v2)| value_eq(k, k2) && value_eq(v, v2)));
    }
}

#[test]
fn map_duplicate_keys_last_write_wins() {
    let shape = Shape::MapOf(Box::new(Shape::StrShape), Box::new(Shape::IntShape(IntKind::I32)));
    let doc = parse_document(
        "<m><entry><key>a</key><value>1</value></entry><entry><key>a</key><value>9</value></entry></m>",
    )
    .unwrap();
    assert_eq!(
        decode(&shape, &doc).unwrap(),
        Value::MapVal(vec![
            (Value::StrVal("a".to_string()), Value::IntVal(IntKind::I32, 9)),
        ])
    );
}

#[test]
fn map_entry_missing_value_is_error() {
    let shape = Shape::MapOf(Box::new(Shape::StrShape), Box::new(Shape::IntShape(IntKind::I32)));
    let doc = parse_document("<m><entry><key>a</key></entry></m>").unwrap();
    assert_eq!(
        decode(&shape, &doc),
        Err(DecodeError::EntryShape { missing: "value".to_string() })
    );
}

#[test]
fn missing_required_field_is_error() {
    let shape = one_field_struct("Doc", "age", Shape::IntShape(IntKind::I32));
    let doc = parse_document("<Doc></Doc>").unwrap();
    assert_eq!(
        decode_document(&shape, &doc),
        Err(DecodeError::MissingField { name: "age".to_string() })
    );
}

#[test]
fn scalar_with_child_is_error() {
    let shape = Shape::BoolShape;
    let doc = parse_document("<b><x/>true</b>").unwrap();
    assert_eq!(
        decode(&shape, &doc),
        Err(DecodeError::UnexpectedChild { name: "x".to_string() })
    );
}

#[test]
fn empty_literal_block_is_empty_string() {
    let shape = Shape::StrShape;
    let doc = parse_document("<s><![CDATA[]]></s>").unwrap();
    assert_eq!(decode(&shape, &doc).unwrap(), Value::StrVal("".to_string()));
    let doc2 = parse_document("<s><lit/></s>").unwrap();
    assert_eq!(decode(&shape, &doc2).unwrap(), Value::StrVal("".to_string()));
    let doc3 = parse_document("<s></s>").unwrap();
    assert_eq!(decode(&shape, &doc3).unwrap(), Value::StrVal("".to_string()));
}

#[test]
fn parser_rejects_malformed_markup() {
    assert_eq!(parse_document("<a><b></a>").unwrap_err(), ParseError::MismatchedClose {
        at: 6,
        expected: "b".to_string(),
        found: "a".to_string(),
    });
    assert_eq!(parse_document("<a>").unwrap_err(), ParseError::UnclosedElement {
        name: "a".to_string(),
    });
    assert_eq!(parse_document("").unwrap_err(), ParseError::NoRoot);
    assert_eq!(parse_document("<a/><b/>").unwrap_err(), ParseError::SecondRoot { at: 4 });
    assert_eq!(parse_document("stray").unwrap_err(), ParseError::TextOutsideRoot { at: 0 });
    assert_eq!(parse_document("<a").unwrap_err(), ParseError::UnclosedMarkup { at: 0 });
    assert_eq!(parse_document("</a>").unwrap_err(), ParseError::UnexpectedClose {
        at: 0,
        name: "a".to_string(),
    });
}

#[test]
fn parser_skips_comments_and_attributes() {
    let doc = parse_document("<!-- lead --><a id=\"1\"><!-- in --><b>x</b></a>").unwrap();
    assert_eq!(doc.name, "a");
    assert_eq!(doc.children.len(), 1);
    assert_eq!(doc.children[0].name, "b");
    assert_eq!(doc.children[0].text, "x");
}

#[test]
fn descriptor_reports_variant_flag() {
    let en = Shape::EnumOf(llm_xml_caster::EnumShape { variants: vec![] });
    let d = describe(&en);
    assert!(d.is_variant_type);
    assert_eq!(d.root_tag, "");
    let st = one_field_struct("Doc", "n", Shape::IntShape(IntKind::I32));
    let d2 = describe(&st);
    assert!(!d2.is_variant_type);
    assert_eq!(d2.root_tag, "Doc");
}

#[test]
fn composite_root_tags() {
    assert_eq!(llm_xml_caster::root_tag(&Shape::OptionOf(Box::new(Shape::StrShape))), "Option<string>");
    assert_eq!(
        llm_xml_caster::root_tag(&Shape::SeqOf(Box::new(Shape::IntShape(IntKind::I64)))),
        "Vec<i64>"
    );
    assert_eq!(
        llm_xml_caster::root_tag(&Shape::MapOf(Box::new(Shape::StrShape), Box::new(Shape::BoolShape))),
        "Map<string, bool>"
    );
}

#[test]
fn schema_cache_computes_once() {
    let shape = one_field_struct("Doc", "n", Shape::IntShape(IntKind::I32));
    let mut cache = Cache::new();
    let first = cache.schema_for(7, &shape);
    let second = cache.schema_for(7, &shape);
    assert_eq!(first, second);
    assert_eq!(cache.schema_computations(), 1);
    let r1 = cache.root_for(7, &shape);
    let r2 = cache.root_for(7, &shape);
    assert_eq!(r1, "Doc");
    assert_eq!(r1, r2);
    assert_eq!(cache.root_computations(), 1);
    // the snapshot view reflects exactly the stored fragments
    let inner = cache.get(7);
    assert_eq!(inner.prompt_schema.as_deref(), Some(first.as_str()));
    assert_eq!(inner.root_name.as_deref(), Some("Doc"));
    let missing = cache.get(8);
    assert!(missing.prompt_schema.is_none());
    assert!(missing.root_name.is_none());
}

#[test]
fn unknown_variant_names_all_accepted_tags() {
    let shape = Shape::EnumOf(llm_xml_caster::EnumShape {
        variants: vec![
            llm_xml_caster::VariantShape {
                name: "A".to_string(),
                desc: "".to_string(),
                fields: vec![],
            },
            llm_xml_caster::VariantShape {
                name: "B".to_string(),
                desc: "".to_string(),
                fields: vec![],
            },
        ],
    });
    let doc = parse_document("<C/>").unwrap();
    assert_eq!(
        decode_document(&shape, &doc),
        Err(DecodeError::UnknownVariant {
            found: "C".to_string(),
            accepted: vec!["A".to_string(), "B".to_string()],
        })
    );
}
