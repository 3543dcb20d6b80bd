use llm_xml_caster::{
    run_session, ChatMsg, ChatRole, FieldShape, IntKind, RequestError, Round, Session, Shape,
    StructShape, Value,
};

fn target_shape() -> Shape {
    Shape::StructOf(StructShape {
        name: "Doc".to_string(),
        fields: vec![
            FieldShape {
                name: "n".to_string(),
                desc: "".to_string(),
                shape: Shape::IntShape(IntKind::I32),
            },
        ],
    })
}

fn seed() -> Vec<ChatMsg> {
    vec![ChatMsg { role: ChatRole::User, content: "give me a number".to_string() }]
}

const GOOD: &str = "sure:\n<Doc><n>42</n></Doc>\ndone";
const NO_ROOT: &str = "I would rather chat.";
const BAD_PAYLOAD: &str = "<Doc><n>forty-two</n></Doc>";

fn expected_value() -> Value {
    Value::StructVal(vec![("n".to_string(), Value::IntVal(IntKind::I32, 42))])
}

#[test]
fn session_appends_instruction_to_seed() {
    let s = Session::new(seed(), target_shape(), "<Doc><n>1</n></Doc>".to_string(), 3);
    assert_eq!(s.conversation.len(), 2);
    assert_eq!(s.conversation[0].role, ChatRole::User);
    assert_eq!(s.conversation[1].role, ChatRole::System);
    assert!(s.conversation[1].content.starts_with(
        "You must respond with a valid XML document(root name is Doc)"
    ));
    assert!(s.conversation[1].content.contains("<Doc>"));
}

#[test]
fn retry_convergence() {
    // fails twice, then succeeds: exactly two corrective message pairs, in
    // order (diagnostic, example), and the successful round appends nothing
    let example = "<Doc><n>1</n></Doc>".to_string();
    let mut s = Session::new(seed(), target_shape(), example.clone(), 5);
    let base = s.conversation.len();

    let (r1, _) = s.on_response(Some(NO_ROOT.to_string()));
    assert!(matches!(r1, Round::Retry));
    assert_eq!(s.conversation.len(), base + 2);
    assert_eq!(s.conversation[base].role, ChatRole::Assistant);
    assert!(s.conversation[base].content.starts_with(
        "The error was: cannot find the root Doc of the structure"
    ));
    assert_eq!(
        s.conversation[base + 1].content,
        format!("Here is a valid example for your reference:\n{}", example)
    );

    let (r2, _) = s.on_response(Some(BAD_PAYLOAD.to_string()));
    assert!(matches!(r2, Round::Retry));
    assert_eq!(s.conversation.len(), base + 4);
    assert!(s.conversation[base + 2].content.starts_with(
        "The last time you responded, the XML content was: <Doc><n>forty-two</n></Doc>"
    ));
    assert!(s.conversation[base + 2].content.contains(
        "can not parse 'forty-two' as a i32 value"
    ));
    assert_eq!(
        s.conversation[base + 3].content,
        format!("Here is a valid example for your reference:\n{}", example)
    );
    assert_eq!(s.errors.len(), 2);

    let (r3, _) = s.on_response(Some(GOOD.to_string()));
    match r3 {
        Round::Done(v) => assert_eq!(v, expected_value()),
        _ => panic!("expected success on the third attempt"),
    }
    // success appends nothing
    assert_eq!(s.conversation.len(), base + 4);
    assert_eq!(s.errors.len(), 2);
    assert_eq!(s.attempts_used, 3);
}

#[test]
fn budget_exhaustion() {
    // a response that never decodes: every attempt is consumed and recorded
    let responses = vec![
        Some(NO_ROOT.to_string()),
        Some(BAD_PAYLOAD.to_string()),
        Some(NO_ROOT.to_string()),
    ];
    let r = run_session(
        seed(),
        target_shape(),
        "<Doc><n>1</n></Doc>".to_string(),
        3,
        responses,
    );
    match r {
        Err(RequestError::RetryLimitExceeded(errs)) => {
            assert_eq!(errs.len(), 3);
            assert!(matches!(errs[0], RequestError::XmlExtraction(_)));
            assert!(matches!(errs[1], RequestError::XmlDeserialization(_)));
            assert!(matches!(errs[2], RequestError::XmlExtraction(_)));
        },
        _ => panic!("expected the retry limit to be exceeded"),
    }
}

#[test]
fn skipped_empty_responses_record_no_error() {
    let mut s = Session::new(seed(), target_shape(), "<Doc><n>1</n></Doc>".to_string(), 3);
    let base = s.conversation.len();
    let (r, _) = s.on_response(None);
    assert!(matches!(r, Round::Skip));
    assert_eq!(s.errors.len(), 0);
    assert_eq!(s.conversation.len(), base);
    assert_eq!(s.attempts_used, 1);
}

#[test]
fn run_session_succeeds_mid_budget() {
    let responses = vec![None, Some(GOOD.to_string()), Some(NO_ROOT.to_string())];
    let r = run_session(
        seed(),
        target_shape(),
        "<Doc><n>1</n></Doc>".to_string(),
        3,
        responses,
    );
    assert_eq!(r.unwrap(), expected_value());
}

#[test]
fn extraction_prefers_outermost_span() {
    // nested same-named tags in prose: first opening, last closing
    let text = "note <Doc><n> <Doc><n>1</n></Doc> </n></Doc> tail".to_string();
    let shape = Shape::StructOf(StructShape {
        name: "Doc".to_string(),
        fields: vec![
            FieldShape {
                name: "n".to_string(),
                desc: "".to_string(),
                shape: Shape::OptionOf(Box::new(Shape::IntShape(IntKind::I32))),
            },
        ],
    });
    let mut s = Session::new(seed(), shape, "<Doc></Doc>".to_string(), 1);
    let (r, _) = s.on_response(Some(text));
    // the sliced payload is the outermost <Doc>...</Doc>; its inner content
    // is a nested Doc element, which the optional field downgrades to absence
    match r {
        Round::Done(v) => assert_eq!(
            v,
            Value::StructVal(vec![("n".to_string(), Value::NoneVal)])
        ),
        _ => panic!("expected the outermost span to decode"),
    }
}

#[test]
fn closing_before_opening_is_an_extraction_failure() {
    let mut s = Session::new(seed(), target_shape(), "<Doc><n>1</n></Doc>".to_string(), 1);
    let (r, _) = s.on_response(Some("</Doc> and then <Doc>".to_string()));
    assert!(matches!(r, Round::Retry));
    assert_eq!(s.errors.len(), 1);
    assert!(matches!(s.errors[0], RequestError::XmlExtraction(_)));
}

#[test]
fn transport_failures_are_terminal() {
    let e = RequestError::ChatRequest("connection reset".to_string());
    assert!(e.is_terminal());
    let d = RequestError::XmlExtraction("cannot find the root Doc of the structure".to_string());
    assert!(!d.is_terminal());
}
