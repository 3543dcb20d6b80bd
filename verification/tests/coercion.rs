use llm_xml_caster::{
    coerce_bool, coerce_float, coerce_int, is_float_token, kind_name, wrap_int, DecodeError,
    IntKind, ScalarNode,
};

#[test]
fn bool_true_bucket_tokens() {
    for tok in ["true", "1", "yes", "y", "t", "on", "checked", "selected"] {
        assert_eq!(coerce_bool(tok), Ok(true));
    }
    // case-insensitive, surrounding whitespace ignored
    assert_eq!(coerce_bool("  TRUE \n"), Ok(true));
    assert_eq!(coerce_bool("Yes"), Ok(true));
    assert_eq!(coerce_bool("\tON\t"), Ok(true));
    // locale-affirmative token
    assert_eq!(coerce_bool("\u{771f}"), Ok(true));
}

#[test]
fn bool_false_bucket_tokens() {
    for tok in ["false", "0", "no", "n", "f", "off", "null", "none", ""] {
        assert_eq!(coerce_bool(tok), Ok(false));
    }
    assert_eq!(coerce_bool("  OFF  "), Ok(false));
    assert_eq!(coerce_bool("   "), Ok(false));
    // locale-negative token
    assert_eq!(coerce_bool("\u{5047}"), Ok(false));
}

#[test]
fn bool_other_tokens_are_errors() {
    assert_eq!(
        coerce_bool(" maybe "),
        Err(DecodeError::BoolToken { token: "maybe".to_string() })
    );
    assert_eq!(
        coerce_bool("truee"),
        Err(DecodeError::BoolToken { token: "truee".to_string() })
    );
    // no partial matches
    assert_eq!(
        coerce_bool("tru"),
        Err(DecodeError::BoolToken { token: "tru".to_string() })
    );
}

#[test]
fn numeric_node_and_text_agree() {
    // the same value decodes identically from a native node and from text
    for (kind, v) in [
        (IntKind::I8, -7i128),
        (IntKind::I16, 1234),
        (IntKind::I32, -2147483648),
        (IntKind::I64, 9007199254740991),
        (IntKind::U8, 255),
        (IntKind::U16, 65535),
        (IntKind::U32, 4294967295),
        (IntKind::U64, 18446744073709551615),
    ] {
        let from_node = coerce_int(&kind, &ScalarNode::Num(v)).unwrap();
        let from_text = coerce_int(&kind, &ScalarNode::Text(v.to_string())).unwrap();
        assert_eq!(from_node, v);
        assert_eq!(from_text, v);
    }
}

#[test]
fn numeric_text_trimming_and_signs() {
    assert_eq!(coerce_int(&IntKind::I32, &ScalarNode::Text("  30 ".to_string())), Ok(30));
    assert_eq!(coerce_int(&IntKind::I32, &ScalarNode::Text("+30".to_string())), Ok(30));
    assert_eq!(coerce_int(&IntKind::I32, &ScalarNode::Text("-30".to_string())), Ok(-30));
}

#[test]
fn numeric_text_out_of_range_is_error() {
    assert_eq!(
        coerce_int(&IntKind::I8, &ScalarNode::Text("128".to_string())),
        Err(DecodeError::IntToken { token: "128".to_string(), kind: IntKind::I8 })
    );
    assert_eq!(
        coerce_int(&IntKind::U8, &ScalarNode::Text("-1".to_string())),
        Err(DecodeError::IntToken { token: "-1".to_string(), kind: IntKind::U8 })
    );
    // far beyond any supported width
    assert_eq!(
        coerce_int(&IntKind::U64, &ScalarNode::Text("99999999999999999999999".to_string())),
        Err(DecodeError::IntToken {
            token: "99999999999999999999999".to_string(),
            kind: IntKind::U64,
        })
    );
}

#[test]
fn numeric_text_garbage_is_error() {
    assert_eq!(
        coerce_int(&IntKind::I32, &ScalarNode::Text("12a".to_string())),
        Err(DecodeError::IntToken { token: "12a".to_string(), kind: IntKind::I32 })
    );
    assert_eq!(
        coerce_int(&IntKind::I32, &ScalarNode::Text("".to_string())),
        Err(DecodeError::IntToken { token: "".to_string(), kind: IntKind::I32 })
    );
    assert_eq!(
        coerce_int(&IntKind::I32, &ScalarNode::Text("-".to_string())),
        Err(DecodeError::IntToken { token: "-".to_string(), kind: IntKind::I32 })
    );
}

#[test]
fn numeric_native_node_wraps_like_a_cast() {
    // out-of-range native numeric nodes convert lossily, as a cast would
    assert_eq!(coerce_int(&IntKind::I8, &ScalarNode::Num(300)), Ok(44));
    assert_eq!(coerce_int(&IntKind::I8, &ScalarNode::Num(-129)), Ok(127));
    assert_eq!(coerce_int(&IntKind::U8, &ScalarNode::Num(-1)), Ok(255));
    assert_eq!(wrap_int(&IntKind::U16, 65536), 0);
    assert_eq!(wrap_int(&IntKind::I16, 32768), -32768);
}

#[test]
fn float_literal_syntax() {
    for good in ["2.33", "-0.001", "3.", ".5", "2", "+19.19", "1e9", "2.5E-3", "inf", "NaN",
        "Infinity"] {
        assert!(is_float_token(good), "expected float syntax: {}", good);
    }
    for bad in ["", ".", "e9", "2.5e", "1.2.3", "abc", "--1", "2 .5"] {
        assert!(!is_float_token(bad), "expected rejection: {}", bad);
    }
}

#[test]
fn float_coercion_trims_and_validates() {
    assert_eq!(coerce_float(" 114.514 "), Ok("114.514".to_string()));
    assert_eq!(
        coerce_float(" fast "),
        Err(DecodeError::FloatToken { token: "fast".to_string() })
    );
}

#[test]
fn kind_names() {
    assert_eq!(kind_name(&IntKind::I8), "i8");
    assert_eq!(kind_name(&IntKind::U64), "u64");
}
