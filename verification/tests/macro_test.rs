use llm_xml_caster::{
    decode_document, parse_document, root_tag, schema_text, DescribedShape, EnumShape,
    FieldShape, FloatKind, IntKind, Shape, StructShape, Value, VariantShape,
};

fn field(name: &str, desc: &str, shape: Shape) -> FieldShape {
    FieldShape { name: name.to_string(), desc: desc.to_string(), shape }
}

fn simple_struct_shape() -> Shape {
    Shape::StructOf(StructShape {
        name: "SimpleStruct".to_string(),
        fields: vec![
            field("name", "The name of the person", Shape::StrShape),
            field("age", "The age of the person", Shape::IntShape(IntKind::I32)),
            field("is_student", "Whether the person is a student", Shape::BoolShape),
        ],
    })
}

fn nested_struct_shape() -> Shape {
    Shape::StructOf(StructShape {
        name: "NestedStruct".to_string(),
        fields: vec![
            field("person", "The person details", simple_struct_shape()),
            field("score", "The score of the person", Shape::FloatShape(FloatKind::F32)),
            field("state", "State", Shape::BoolShape),
        ],
    })
}

fn test_enum_shape() -> Shape {
    Shape::EnumOf(EnumShape {
        variants: vec![
            VariantShape {
                name: "Simple".to_string(),
                desc: "A simple variant".to_string(),
                fields: vec![],
            },
            VariantShape {
                name: "WithStringData".to_string(),
                desc: "A variant with data string".to_string(),
                fields: vec![field("value", "The value of the variant", Shape::StrShape)],
            },
            VariantShape {
                name: "WithFloatData".to_string(),
                desc: "A variant with data float".to_string(),
                fields: vec![
                    field(
                        "value",
                        "The float value of the variant",
                        Shape::FloatShape(FloatKind::F64),
                    ),
                ],
            },
            VariantShape {
                name: "WithIntData".to_string(),
                desc: "A variant with data int".to_string(),
                fields: vec![
                    field("value", "The int value of the variant", Shape::IntShape(IntKind::I64)),
                ],
            },
        ],
    })
}

fn collections_struct_shape() -> Shape {
    Shape::StructOf(StructShape {
        name: "CollectionsStruct".to_string(),
        fields: vec![
            field("tags", "A list of strings", Shape::SeqOf(Box::new(Shape::StrShape))),
            field(
                "description",
                "An optional description",
                Shape::OptionOf(Box::new(Shape::StrShape)),
            ),
        ],
    })
}

fn python_value_weak(depth: u32) -> Shape {
    Shape::Described(DescribedShape {
        schema: "<PythonValue>the type of the value is showed</PythonValue>".to_string(),
        root: "PythonValue".to_string(),
        inner: Box::new(python_value_shape(depth)),
    })
}

fn python_value_shape(depth: u32) -> Shape {
    let leaf = |d: u32| {
        if d == 0 {
            Shape::Described(DescribedShape {
                schema: "<PythonValue>the type of the value is showed</PythonValue>".to_string(),
                root: "PythonValue".to_string(),
                inner: Box::new(Shape::StrShape),
            })
        } else {
            python_value_weak(d - 1)
        }
    };
    Shape::EnumOf(EnumShape {
        variants: vec![
            VariantShape {
                name: "None".to_string(),
                desc: "python's None value".to_string(),
                fields: vec![],
            },
            VariantShape {
                name: "String".to_string(),
                desc: "python's str value".to_string(),
                fields: vec![field("val", "the value of the string", Shape::StrShape)],
            },
            VariantShape {
                name: "Int".to_string(),
                desc: "python's int value".to_string(),
                fields: vec![field("val", "the value of the int", Shape::IntShape(IntKind::I64))],
            },
            VariantShape {
                name: "Float".to_string(),
                desc: "python's float value".to_string(),
                fields: vec![
                    field("val", "the value of the float", Shape::FloatShape(FloatKind::F64)),
                ],
            },
            VariantShape {
                name: "Bool".to_string(),
                desc: "python's bool value".to_string(),
                fields: vec![field("val", "the value of the bool", Shape::BoolShape)],
            },
            VariantShape {
                name: "List".to_string(),
                desc: "python's list value".to_string(),
                fields: vec![
                    field("val", "the value of the list", Shape::SeqOf(Box::new(leaf(depth)))),
                ],
            },
            VariantShape {
                name: "Dict".to_string(),
                desc: "python's dict value".to_string(),
                fields: vec![
                    field(
                        "val",
                        "the value of the dict",
                        Shape::MapOf(Box::new(leaf(depth)), Box::new(leaf(depth))),
                    ),
                ],
            },
        ],
    })
}

fn decode_str(shape: &Shape, xml: &str) -> Value {
    let doc = parse_document(xml).unwrap();
    decode_document(shape, &doc).unwrap()
}

#[test]
fn test_simple_struct_schema() {
    let shape = simple_struct_shape();
    let schema = schema_text(&shape);
    println!("Schema :\n{}", schema);
    assert!(schema.contains("<SimpleStruct>"));
    assert!(schema.contains("<name>"));
    assert!(schema.contains("The name of the person"));
    assert!(schema.contains("<age>"));
    assert!(schema.contains("The age of the person"));
    assert!(schema.contains("<is_student>"));
    assert!(schema.contains("Whether the person is a student"));
    assert_eq!(root_tag(&shape), "SimpleStruct");
}

#[test]
fn test_simple_struct_deserialization() {
    // Lenient coercion: bool parsed from "yes", i32 from a text node.
    let xml = r#"
    <SimpleStruct>
        <name><![CDATA[John Doe]]></name>
        <age>30</age>
        <is_student>yes</is_student>
    </SimpleStruct>
    "#;
    let decoded = decode_str(&simple_struct_shape(), xml);
    assert_eq!(
        decoded,
        Value::StructVal(vec![
            ("name".to_string(), Value::StrVal("John Doe".to_string())),
            ("age".to_string(), Value::IntVal(IntKind::I32, 30)),
            ("is_student".to_string(), Value::BoolVal(true)),
        ])
    );
}

#[test]
fn test_nested_struct_schema() {
    let shape = nested_struct_shape();
    let schema = schema_text(&shape);
    println!("Schema :\n{}", schema);
    assert!(schema.contains("<NestedStruct>"));
    assert!(schema.contains("<person>"));
    assert!(schema.contains("<SimpleStruct>"));
    assert!(schema.contains("<score>"));
    assert!(schema.contains("The score of the person"));
    assert!(schema.contains("<state>"));
    assert!(schema.contains("State"));
    assert_eq!(root_tag(&shape), "NestedStruct");
}

#[test]
fn test_nested_struct_deserialization() {
    let xml = r#"
    <NestedStruct>
        <person>
            <name><![CDATA[Jane Doe]]></name>
            <age>25</age>
            <is_student>false</is_student>
        </person>
        <score>85.5</score>
        <state>true</state>
    </NestedStruct>
    "#;
    let decoded = decode_str(&nested_struct_shape(), xml);
    assert_eq!(
        decoded,
        Value::StructVal(vec![
            (
                "person".to_string(),
                Value::StructVal(vec![
                    ("name".to_string(), Value::StrVal("Jane Doe".to_string())),
                    ("age".to_string(), Value::IntVal(IntKind::I32, 25)),
                    ("is_student".to_string(), Value::BoolVal(false)),
                ])
            ),
            ("score".to_string(), Value::FloatVal(FloatKind::F32, "85.5".to_string())),
            ("state".to_string(), Value::BoolVal(true)),
        ])
    );
}

#[test]
fn test_enum_schema() {
    let shape = test_enum_shape();
    let schema = schema_text(&shape);
    assert!(
        schema.contains("The following are possible XML structures for the current enum type:")
    );
    assert!(schema.contains("<Simple/>"));
    assert!(schema.contains("A simple variant"));
    assert!(schema.contains("<WithStringData>"));
    assert!(schema.contains("<value>"));
    assert!(schema.contains("A variant with data string"));
    assert!(schema.contains("The value of the variant"));
    assert!(schema.contains("<WithFloatData>"));
    assert!(schema.contains("A variant with data float"));
    assert!(schema.contains("<WithIntData>"));
    assert!(schema.contains("A variant with data int"));
    assert_eq!(root_tag(&shape), "");
}

#[test]
fn test_enum_deserialization() {
    let shape = test_enum_shape();
    let xml_simple = r#"<Simple/>"#;
    let decoded_simple = decode_str(&shape, xml_simple);
    assert_eq!(decoded_simple, Value::EnumVal("Simple".to_string(), vec![]));

    let xml_data_string = r#"<WithStringData>
    <value>aaa</value>
    </WithStringData>"#;
    let decoded_data = decode_str(&shape, xml_data_string);
    assert_eq!(
        decoded_data,
        Value::EnumVal(
            "WithStringData".to_string(),
            vec![("value".to_string(), Value::StrVal("aaa".to_string()))]
        )
    );
    let xml_data_float = r#"<WithFloatData>
    <value>2.33</value>
    </WithFloatData>"#;
    let decoded_data_float = decode_str(&shape, xml_data_float);
    assert_eq!(
        decoded_data_float,
        Value::EnumVal(
            "WithFloatData".to_string(),
            vec![("value".to_string(), Value::FloatVal(FloatKind::F64, "2.33".to_string()))]
        )
    );
    let xml_data_int = r#"<WithIntData>
    <value>114514</value>
    </WithIntData>"#;
    let decoded_data_int = decode_str(&shape, xml_data_int);
    assert_eq!(
        decoded_data_int,
        Value::EnumVal(
            "WithIntData".to_string(),
            vec![("value".to_string(), Value::IntVal(IntKind::I64, 114514))]
        )
    );
}

#[test]
fn test_collections_schema() {
    let shape = collections_struct_shape();
    let schema = schema_text(&shape);
    println!("Schema :\n{}", schema);
    assert!(schema.contains("<tags>"));
    assert!(schema.contains("<item>"));
    assert!(schema.contains("A series(0 or more elements) of items where "));
    assert!(schema.contains("<description>"));
    assert!(schema.contains("Optional. if not provided"));
}

#[test]
fn test_collections_deserialization() {
    let shape = collections_struct_shape();
    let xml = r#"
    <CollectionsStruct>
        <tags>
            <item><![CDATA[tag1]]></item>
            <item><![CDATA[tag2]]></item>
        </tags>
        <description><![CDATA[Hello World]]></description>
    </CollectionsStruct>
    "#;
    let decoded = decode_str(&shape, xml);
    println!("Decoded: {:?}", decoded);
    assert_eq!(
        decoded,
        Value::StructVal(vec![
            (
                "tags".to_string(),
                Value::SeqVal(vec![
                    Value::StrVal("tag1".to_string()),
                    Value::StrVal("tag2".to_string()),
                ])
            ),
            (
                "description".to_string(),
                Value::SomeVal(Box::new(Value::StrVal("Hello World".to_string())))
            ),
        ])
    );

    let xml_empty = r#"
    <CollectionsStruct>
        <tags></tags>
    </CollectionsStruct>
    "#;
    let decoded_empty = decode_str(&shape, xml_empty);
    println!("Decoded empty: {:?}", decoded_empty);
    assert_eq!(
        decoded_empty,
        Value::StructVal(vec![
            ("tags".to_string(), Value::SeqVal(vec![])),
            ("description".to_string(), Value::NoneVal),
        ])
    );
}

#[test]
fn test_ordered_float_deserialization() {
    let shape = Shape::StructOf(StructShape {
        name: "OrderedFloatStruct".to_string(),
        fields: vec![
            field("value", "An ordered float value", Shape::FloatShape(FloatKind::F64)),
        ],
    });
    let xml = r#"
    <OrderedFloatStruct>
        <value>114.514</value>
    </OrderedFloatStruct>
    "#;
    let decoded = decode_str(&shape, xml);
    assert_eq!(
        decoded,
        Value::StructVal(vec![
            ("value".to_string(), Value::FloatVal(FloatKind::F64, "114.514".to_string())),
        ])
    );
}

#[test]
fn test_complex_struct_deserialization() {
    let shape = Shape::StructOf(StructShape {
        name: "ComplexStruct".to_string(),
        fields: vec![
            field("nested", "A nested struct", nested_struct_shape()),
            field("enum_list", "A list of enums", Shape::SeqOf(Box::new(test_enum_shape()))),
            field(
                "optional_float",
                "An optional ordered float value",
                Shape::OptionOf(Box::new(Shape::FloatShape(FloatKind::F32))),
            ),
        ],
    });
    let xml = r#"
    <ComplexStruct>
        <nested>
            <person>
                <name><![CDATA[Alice]]></name>
                <age>28</age>
                <is_student>false</is_student>
            </person>
            <score>92.0</score>
            <state>true</state>
        </nested>
        <enum_list>
            <item><Simple/></item>
            <item><WithIntData><value>456</value></WithIntData></item>
        </enum_list>
        <optional_float>19.19</optional_float>
    </ComplexStruct>
    "#;
    let decoded = decode_str(&shape, xml);
    assert_eq!(
        decoded,
        Value::StructVal(vec![
            (
                "nested".to_string(),
                Value::StructVal(vec![
                    (
                        "person".to_string(),
                        Value::StructVal(vec![
                            ("name".to_string(), Value::StrVal("Alice".to_string())),
                            ("age".to_string(), Value::IntVal(IntKind::I32, 28)),
                            ("is_student".to_string(), Value::BoolVal(false)),
                        ])
                    ),
                    ("score".to_string(), Value::FloatVal(FloatKind::F32, "92.0".to_string())),
                    ("state".to_string(), Value::BoolVal(true)),
                ])
            ),
            (
                "enum_list".to_string(),
                Value::SeqVal(vec![
                    Value::EnumVal("Simple".to_string(), vec![]),
                    Value::EnumVal(
                        "WithIntData".to_string(),
                        vec![("value".to_string(), Value::IntVal(IntKind::I64, 456))]
                    ),
                ])
            ),
            (
                "optional_float".to_string(),
                Value::SomeVal(Box::new(Value::FloatVal(FloatKind::F32, "19.19".to_string())))
            ),
        ])
    );
}

#[test]
fn test_third_struct_deserialization() {
    let shape = Shape::StructOf(StructShape {
        name: "ThirdStruct".to_string(),
        fields: vec![
            field(
                "optional_list",
                "An optional list of strings",
                Shape::OptionOf(Box::new(Shape::SeqOf(Box::new(Shape::StrShape)))),
            ),
        ],
    });
    let xml_with_list = r#"
    <ThirdStruct>
        <optional_list>
            <item><![CDATA[item1]]></item>
            <item><![CDATA[item2]]></item>
        </optional_list>
    </ThirdStruct>
    "#;
    let decoded_with_list = decode_str(&shape, xml_with_list);
    assert_eq!(
        decoded_with_list,
        Value::StructVal(vec![
            (
                "optional_list".to_string(),
                Value::SomeVal(Box::new(Value::SeqVal(vec![
                    Value::StrVal("item1".to_string()),
                    Value::StrVal("item2".to_string()),
                ])))
            ),
        ])
    );

    let xml_without_list = r#"
    <ThirdStruct>
    </ThirdStruct>
    "#;
    let decoded_without_list = decode_str(&shape, xml_without_list);
    assert_eq!(
        decoded_without_list,
        Value::StructVal(vec![("optional_list".to_string(), Value::NoneVal)])
    );
}

#[test]
fn test_python_value_schema() {
    let shape = python_value_shape(1);
    let schema = schema_text(&shape);
    println!("Schema :\n{}", schema);
    assert!(schema.contains("<PythonValue>"));
    assert!(schema.contains("the type of the value is showed"));
    assert_eq!(root_tag(&shape), "");
}

#[test]
fn test_python_value_deserialization() {
    let shape = python_value_shape(2);
    let xml_string = r#"<String><val><![CDATA[test]]></val></String>"#;
    let decoded_string = decode_str(&shape, xml_string);
    assert_eq!(
        decoded_string,
        Value::EnumVal(
            "String".to_string(),
            vec![("val".to_string(), Value::StrVal("test".to_string()))]
        )
    );
    let xml_int = r#"<Int><val>42</val></Int>"#;
    let decoded_int = decode_str(&shape, xml_int);
    assert_eq!(
        decoded_int,
        Value::EnumVal(
            "Int".to_string(),
            vec![("val".to_string(), Value::IntVal(IntKind::I64, 42))]
        )
    );

    let xml_float = r#"<Float><val>1.14</val></Float>"#;
    let decoded_float = decode_str(&shape, xml_float);
    assert_eq!(
        decoded_float,
        Value::EnumVal(
            "Float".to_string(),
            vec![("val".to_string(), Value::FloatVal(FloatKind::F64, "1.14".to_string()))]
        )
    );
    let xml_bool = r#"<Bool><val>true</val></Bool>"#;
    let decoded_bool = decode_str(&shape, xml_bool);
    assert_eq!(
        decoded_bool,
        Value::EnumVal(
            "Bool".to_string(),
            vec![("val".to_string(), Value::BoolVal(true))]
        )
    );

    let pv_float = || Value::EnumVal(
        "Float".to_string(),
        vec![("val".to_string(), Value::FloatVal(FloatKind::F64, "1.14".to_string()))],
    );
    let pv_bool = || Value::EnumVal(
        "Bool".to_string(),
        vec![("val".to_string(), Value::BoolVal(true))],
    );
    let xml_list = r#"<List>
    <val>
        <item><Float><val>1.14</val></Float></item>
        <item><Bool><val>true</val></Bool></item>
    </val>
</List>"#;
    let decoded_list = decode_str(&shape, xml_list);
    assert_eq!(
        decoded_list,
        Value::EnumVal(
            "List".to_string(),
            vec![(
                "val".to_string(),
                Value::SeqVal(vec![pv_float(), pv_bool()])
            )]
        )
    );

    let key1 = || Value::EnumVal(
        "String".to_string(),
        vec![("val".to_string(), Value::StrVal("key1".to_string()))],
    );
    let val1 = || Value::EnumVal(
        "Int".to_string(),
        vec![("val".to_string(), Value::IntVal(IntKind::I64, 100))],
    );
    let xml_map = r#"
    <Dict>
        <val>
            <entry>
                <key><String><val><![CDATA[key1]]></val></String></key>
                <value><Int><val>100</val></Int></value>
            </entry>
        </val>
    </Dict>
    "#;
    let decoded_map = decode_str(&shape, xml_map);
    assert_eq!(
        decoded_map,
        Value::EnumVal(
            "Dict".to_string(),
            vec![(
                "val".to_string(),
                Value::MapVal(vec![(key1(), val1())])
            )]
        )
    );

    let xml_full = r#"
    <Dict>
        <val>
            <entry>
                <key><String><val><![CDATA[key1]]></val></String></key>
                <value><Int><val>100</val></Int></value>
            </entry>
            <entry>
                <key><String><val><![CDATA[key2]]></val></String></key>
                <value><List>
                    <val>
                        <item>
                            <Float><val>1.14</val></Float>
                        </item>
                        <item>
                            <Bool><val>true</val></Bool>
                        </item>
                    </val>
                </List></value>
            </entry>
        </val>
    </Dict>
    "#;
    let key2 = Value::EnumVal(
        "String".to_string(),
        vec![("val".to_string(), Value::StrVal("key2".to_string()))],
    );
    let val2 = Value::EnumVal(
        "List".to_string(),
        vec![("val".to_string(), Value::SeqVal(vec![pv_float(), pv_bool()]))],
    );
    let decoded = decode_str(&shape, xml_full);
    assert_eq!(
        decoded,
        Value::EnumVal(
            "Dict".to_string(),
            vec![("val".to_string(), Value::MapVal(vec![(key1(), val1()), (key2, val2)]))]
        )
    );
}

#[test]
fn test_hashmap_deserialization() {
    let shape = Shape::EnumOf(EnumShape {
        variants: vec![VariantShape {
            name: "HashMapVariant".to_string(),
            desc: "A hashmap variant".to_string(),
            fields: vec![
                field(
                    "val",
                    "The hashmap value",
                    Shape::MapOf(
                        Box::new(Shape::StrShape),
                        Box::new(Shape::IntShape(IntKind::I32)),
                    ),
                ),
            ],
        }],
    });
    let xml = r#"
    <HashMapVariant>
        <val>
            <entry>
                <key><![CDATA[key1]]></key>
                <value>100</value>
            </entry>
            <entry>
                <key><![CDATA[key2]]></key>
                <value>200</value>
            </entry>
        </val>
    </HashMapVariant>
    "#;
    let decoded = decode_str(&shape, xml);
    assert_eq!(
        decoded,
        Value::EnumVal(
            "HashMapVariant".to_string(),
            vec![(
                "val".to_string(),
                Value::MapVal(vec![
                    (Value::StrVal("key1".to_string()), Value::IntVal(IntKind::I32, 100)),
                    (Value::StrVal("key2".to_string()), Value::IntVal(IntKind::I32, 200)),
                ])
            )]
        )
    );
}
