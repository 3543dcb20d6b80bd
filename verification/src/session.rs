//! The extraction protocol: a bounded sequence of request/response rounds.
//! The session owns the evolving conversation; each response is located by
//! root-tag boundaries, decoded, and on failure two corrective messages are
//! appended before the next attempt. The transport itself stays outside: the
//! caller sends the conversation and hands each outcome back in.

use vstd::prelude::*;
use crate::decode::{dec_document, decode_document};
use crate::error::{DecodeError, RequestError};
use crate::schema::{spec_schema, spec_root_tag, schema_text, root_tag};
use crate::shape::{Shape, Value};
use crate::strutil::{matches_at, find_sub, rfind_sub};
use crate::error::{DecodeErrModel, strs_of, lemma_strs_of};
use crate::xml::{ParseError, ParseErrModel, parse_document, spec_parse};
use crate::coerce::spec_kind_name;

verus! {

broadcast use vstd::std_specs::vec::group_vec_axioms;

/// Who a conversation message is from.
#[derive(Debug, Clone, Copy, PartialEq, Eq, Structural)]
pub enum ChatRole {
    System,
    User,
    Assistant,
}

/// One conversation message.
#[derive(Debug, Clone)]
pub struct ChatMsg {
    pub role: ChatRole,
    pub content: String,
}

/// The mathematical image of a message list.
pub open spec fn msgs_of(s: Seq<ChatMsg>) -> Seq<(ChatRole, Seq<char>)>
    decreases s,
{
    if s.len() == 0 {
        Seq::empty()
    } else {
        seq![(s[0].role, s[0].content@)] + msgs_of(s.skip(1))
    }
}

pub proof fn lemma_msgs_of(s: Seq<ChatMsg>)
    ensures
        msgs_of(s).len() == s.len(),
        forall|i: int|
            0 <= i < s.len() ==> msgs_of(s)[i] == (#[trigger] s[i].role, s[i].content@),
    decreases s.len(),
{
    if s.len() > 0 {
        lemma_msgs_of(s.skip(1));
        assert(forall|i: int| 1 <= i < s.len() ==> s.skip(1)[i - 1] == #[trigger] s[i]);
    }
}

pub proof fn lemma_msgs_of_push(s: Seq<ChatMsg>, m: ChatMsg)
    ensures
        msgs_of(s.push(m)) == msgs_of(s).push((m.role, m.content@)),
{
    lemma_msgs_of(s);
    lemma_msgs_of(s.push(m));
    assert forall|i: int| 0 <= i < s.len() + 1 implies msgs_of(s.push(m))[i] == msgs_of(s).push(
        (m.role, m.content@),
    )[i] by {
        assert(msgs_of(s.push(m))[i] == (s.push(m)[i].role, s.push(m)[i].content@));
        if i < s.len() {
            assert(s.push(m)[i] == s[i]);
            assert(msgs_of(s)[i] == (s[i].role, s[i].content@));
        } else {
            assert(s.push(m)[i] == m);
        }
    }
    assert(msgs_of(s.push(m)) =~= msgs_of(s).push((m.role, m.content@)));
}

/// The mathematical image of a recorded error.
pub enum ErrModel {
    ChatM(Seq<char>),
    LimitM(Seq<ErrModel>),
    DeserM(Seq<char>),
    ExtractM(Seq<char>),
}

impl RequestError {
    /// The error's mathematical image.
    pub open spec fn model(self) -> ErrModel
        decreases self,
    {
        match self {
            RequestError::ChatRequest(s) => ErrModel::ChatM(s@),
            RequestError::RetryLimitExceeded(v) => ErrModel::LimitM(err_models_of(v@)),
            RequestError::XmlDeserialization(s) => ErrModel::DeserM(s@),
            RequestError::XmlExtraction(s) => ErrModel::ExtractM(s@),
        }
    }
}

/// Images of a list of recorded errors, in order.
pub open spec fn err_models_of(s: Seq<RequestError>) -> Seq<ErrModel>
    decreases s,
{
    if s.len() == 0 {
        Seq::empty()
    } else {
        seq![s[0].model()] + err_models_of(s.skip(1))
    }
}

pub proof fn lemma_err_models_of(s: Seq<RequestError>)
    ensures
        err_models_of(s).len() == s.len(),
        forall|i: int| 0 <= i < s.len() ==> err_models_of(s)[i] == #[trigger] s[i].model(),
    decreases s.len(),
{
    if s.len() > 0 {
        lemma_err_models_of(s.skip(1));
        assert(forall|i: int| 1 <= i < s.len() ==> s.skip(1)[i - 1] == #[trigger] s[i]);
    }
}

pub proof fn lemma_err_models_of_push(s: Seq<RequestError>, e: RequestError)
    ensures
        err_models_of(s.push(e)) == err_models_of(s).push(e.model()),
{
    lemma_err_models_of(s);
    lemma_err_models_of(s.push(e));
    assert forall|i: int| 0 <= i < s.len() + 1 implies err_models_of(s.push(e))[i]
        == err_models_of(s).push(e.model())[i] by {
        assert(err_models_of(s.push(e))[i] == s.push(e)[i].model());
        if i < s.len() {
            assert(s.push(e)[i] == s[i]);
            assert(err_models_of(s)[i] == s[i].model());
        } else {
            assert(s.push(e)[i] == e);
        }
    }
    assert(err_models_of(s.push(e)) =~= err_models_of(s).push(e.model()));
}

/// The instruction appended to the seed conversation.
pub open spec fn system_prompt_text(root: Seq<char>, schema: Seq<char>) -> Seq<char> {
    "You must respond with a valid XML document(root name is "@ + root
        + ") that adheres to the following schema: "@ + schema
}

/// The recorded reason when the root-tag boundaries are missing.
pub open spec fn extract_err_text(root: Seq<char>) -> Seq<char> {
    "cannot find the root "@ + root + " of the structure"@
}

/// The diagnostic message after a failed extraction.
pub open spec fn extract_diag_text(root: Seq<char>, schema: Seq<char>) -> Seq<char> {
    "The error was: cannot find the root "@ + root
        + " of the structure\nPlease ensure your response strictly follows the required XML format.\n The format body is: "@
        + schema
}

/// The diagnostic message after a failed decode.
pub open spec fn decode_diag_text(payload: Seq<char>, detail: Seq<char>, schema: Seq<char>)
    -> Seq<char> {
    "The last time you responded, the XML content was: "@ + payload + "\nThe error was: "@
        + detail
        + "\nPlease ensure your response strictly follows the required XML format.\nThe format body is: "@
        + schema
}

/// The message carrying the caller-supplied valid example.
pub open spec fn example_text(example: Seq<char>) -> Seq<char> {
    "Here is a valid example for your reference:\n"@ + example
}

fn build_system_prompt(root: &str, schema: &str) -> (r: String)
    ensures
        r@ == system_prompt_text(root@, schema@),
{
    let mut out = String::from_str("You must respond with a valid XML document(root name is ");
    out.append(root);
    out.append(") that adheres to the following schema: ");
    out.append(schema);
    out
}

fn build_extract_err(root: &str) -> (r: String)
    ensures
        r@ == extract_err_text(root@),
{
    let mut out = String::from_str("cannot find the root ");
    out.append(root);
    out.append(" of the structure");
    out
}

fn build_extract_diag(root: &str, schema: &str) -> (r: String)
    ensures
        r@ == extract_diag_text(root@, schema@),
{
    let mut out = String::from_str("The error was: cannot find the root ");
    out.append(root);
    out.append(
        " of the structure\nPlease ensure your response strictly follows the required XML format.\n The format body is: ",
    );
    out.append(schema);
    out
}

fn build_decode_diag(payload: &str, detail: &str, schema: &str) -> (r: String)
    ensures
        r@ == decode_diag_text(payload@, detail@, schema@),
{
    let mut out = String::from_str("The last time you responded, the XML content was: ");
    out.append(payload);
    out.append("\nThe error was: ");
    out.append(detail);
    out.append(
        "\nPlease ensure your response strictly follows the required XML format.\nThe format body is: ",
    );
    out.append(schema);
    out
}

fn build_example_msg(example: &str) -> (r: String)
    ensures
        r@ == example_text(example@),
{
    let mut out = String::from_str("Here is a valid example for your reference:\n");
    out.append(example);
    out
}

/// Names joined by a comma and a space, from `from` on.
pub open spec fn names_list_text(names: Seq<Seq<char>>, from: int) -> Seq<char>
    decreases names.len() - from when 0 <= from <= names.len()
{
    if from >= names.len() {
        Seq::empty()
    } else if from == names.len() - 1 {
        names[from]
    } else {
        names[from] + ", "@ + names_list_text(names, from + 1)
    }
}

fn names_joined(s: &Vec<String>, from: usize) -> (r: String)
    requires
        from <= s@.len(),
    ensures
        r@ == names_list_text(strs_of(s@), from as int),
    decreases s@.len() - from,
{
    proof {
        lemma_strs_of(s@);
    }
    let n = s.len();
    if from >= n {
        let out = String::new();
        proof {
            assert(out@ =~= Seq::<char>::empty());
        }
        return out;
    }
    if from + 1 >= n {
        return s[from].clone();
    }
    let mut out = s[from].clone();
    out.append(", ");
    let rest = names_joined(s, from + 1);
    out.append(rest.as_str());
    out
}

/// The diagnostic text of a decode failure.
pub open spec fn decode_err_detail(e: DecodeErrModel) -> Seq<char> {
    match e {
        DecodeErrModel::BoolTokM(token) => "can not parse '"@ + token
            + "' as a boolean value"@,
        DecodeErrModel::IntTokM(token, kind) => "can not parse '"@ + token + "' as a "@
            + spec_kind_name(kind) + " value"@,
        DecodeErrModel::FloatTokM(token) => "can not parse '"@ + token + "' as a float value"@,
        DecodeErrModel::UnexpectedChildM(name) => "unexpected child tag <"@ + name + ">"@,
        DecodeErrModel::SequenceShapeM(found) => "the sequence must consist of <item> elements; found "@
            + found,
        DecodeErrModel::EntryShapeM(missing) => "an entry is missing its <"@ + missing
            + "> sub-tag"@,
        DecodeErrModel::MissingFieldM(name) => "missing field <"@ + name + ">"@,
        DecodeErrModel::UnknownVariantM(found, accepted) => "unknown variant tag <"@ + found
            + ">, accepted variants: "@ + names_list_text(accepted, 0),
    }
}

/// Renders a decode failure for corrective feedback.
pub fn decode_error_text(e: &DecodeError) -> (r: String)
    ensures
        r@ == decode_err_detail(e.model()),
{
    match e {
        DecodeError::BoolToken { token } => {
            let mut out = String::from_str("can not parse '");
            out.append(token.as_str());
            out.append("' as a boolean value");
            out
        },
        DecodeError::IntToken { token, kind } => {
            let mut out = String::from_str("can not parse '");
            out.append(token.as_str());
            out.append("' as a ");
            out.append(crate::coerce::kind_name(kind));
            out.append(" value");
            out
        },
        DecodeError::FloatToken { token } => {
            let mut out = String::from_str("can not parse '");
            out.append(token.as_str());
            out.append("' as a float value");
            out
        },
        DecodeError::UnexpectedChild { name } => {
            let mut out = String::from_str("unexpected child tag <");
            out.append(name.as_str());
            out.append(">");
            out
        },
        DecodeError::SequenceShape { found } => {
            let mut out = String::from_str(
                "the sequence must consist of <item> elements; found ",
            );
            out.append(found.as_str());
            out
        },
        DecodeError::EntryShape { missing } => {
            let mut out = String::from_str("an entry is missing its <");
            out.append(missing.as_str());
            out.append("> sub-tag");
            out
        },
        DecodeError::MissingField { name } => {
            let mut out = String::from_str("missing field <");
            out.append(name.as_str());
            out.append(">");
            out
        },
        DecodeError::UnknownVariant { found, accepted } => {
            let mut out = String::from_str("unknown variant tag <");
            out.append(found.as_str());
            out.append(">, accepted variants: ");
            let joined = names_joined(accepted, 0);
            out.append(joined.as_str());
            out
        },
    }
}

/// The opening boundary of a payload: `<` root `>`.
pub open spec fn start_pat(root: Seq<char>) -> Seq<char> {
    "<"@ + root + ">"@
}

/// The closing boundary of a payload: `</` root `>`.
pub open spec fn end_pat(root: Seq<char>) -> Seq<char> {
    "</"@ + root + ">"@
}

pub open spec fn has_occurrence(s: Seq<char>, p: Seq<char>) -> bool {
    exists|i: int| matches_at(s, p, i)
}

pub open spec fn is_first_at(s: Seq<char>, p: Seq<char>, i: int) -> bool {
    matches_at(s, p, i) && (forall|j: int| 0 <= j < i ==> !matches_at(s, p, j))
}

pub open spec fn is_last_at(s: Seq<char>, p: Seq<char>, i: int) -> bool {
    matches_at(s, p, i) && (forall|j: int| i < j ==> !matches_at(s, p, j))
}

pub proof fn lemma_first_at_unique(s: Seq<char>, p: Seq<char>, i: int, j: int)
    requires
        is_first_at(s, p, i),
        is_first_at(s, p, j),
    ensures
        i == j,
{
}

pub proof fn lemma_last_at_unique(s: Seq<char>, p: Seq<char>, i: int, j: int)
    requires
        is_last_at(s, p, i),
        is_last_at(s, p, j),
    ensures
        i == j,
{
}

/// The payload sliced out of a response: from the first occurrence of the
/// opening boundary through the last occurrence of the closing boundary,
/// inclusive — the outermost span, tolerating nested same-named tags in
/// surrounding prose. Nothing is located when either boundary is missing or
/// the last closing boundary ends before the first opening one.
pub open spec fn located_payload(t: Seq<char>, root: Seq<char>) -> Option<Seq<char>> {
    if has_occurrence(t, start_pat(root)) && has_occurrence(t, end_pat(root)) {
        let a = choose|i: int| is_first_at(t, start_pat(root), i);
        let b = choose|i: int| is_last_at(t, end_pat(root), i);
        if b + end_pat(root).len() > a {
            Some(t.subrange(a, b + end_pat(root).len()))
        } else {
            None
        }
    } else {
        None
    }
}

/// The value a located payload denotes: the parsed document decoded under
/// the shape.
pub open spec fn payload_value(sh: Shape, p: Seq<char>) -> Option<crate::shape::Model> {
    match spec_parse(p) {
        Ok(em) => match dec_document(sh, em) {
            Ok(m) => Some(m),
            Err(_) => None,
        },
        Err(_) => None,
    }
}

/// The diagnostic detail a located payload earns when it does not decode:
/// the rendered text of the exact reading or decoding failure.
pub open spec fn payload_diag_detail(sh: Shape, p: Seq<char>) -> Seq<char> {
    match spec_parse(p) {
        Ok(em) => match dec_document(sh, em) {
            Err(e) => decode_err_detail(e),
            Ok(_) => Seq::empty(),
        },
        Err(pe) => parse_err_detail(pe),
    }
}

/// A response succeeds when its located payload parses and decodes.
pub open spec fn response_decodes(sh: Shape, root: Seq<char>, text: Seq<char>) -> bool {
    located_payload(text, root) matches Some(p) && payload_value(sh, p) is Some
}

/// What one round did, for the session's transition relation.
pub enum RoundEvent {
    /// The model returned no text: the attempt passes through.
    SkipEv,
    /// The root-tag boundaries were missing: an extraction error is recorded
    /// and a corrective round is scheduled.
    ExtractFailEv,
    /// A payload was located but failed to decode; carries the payload and
    /// the diagnostic detail.
    DecodeFailEv(Seq<char>, Seq<char>),
    /// The payload decoded; the session is over.
    SuccessEv,
}

pub open spec fn is_failure_event(e: RoundEvent) -> bool {
    e is ExtractFailEv || e is DecodeFailEv
}

/// The error a failure round records.
pub open spec fn event_err(e: RoundEvent, root: Seq<char>) -> ErrModel {
    match e {
        RoundEvent::ExtractFailEv => ErrModel::ExtractM(extract_err_text(root)),
        RoundEvent::DecodeFailEv(_, detail) => ErrModel::DeserM(detail),
        _ => ErrModel::ChatM(Seq::empty()),
    }
}

/// The diagnostic message a failure round appends.
pub open spec fn event_diag(e: RoundEvent, root: Seq<char>, schema: Seq<char>) -> Seq<char> {
    match e {
        RoundEvent::ExtractFailEv => extract_diag_text(root, schema),
        RoundEvent::DecodeFailEv(payload, detail) => decode_diag_text(payload, detail, schema),
        _ => Seq::empty(),
    }
}

/// The mathematical state of a session.
pub struct SessionModel {
    pub conversation: Seq<(ChatRole, Seq<char>)>,
    pub errors: Seq<ErrModel>,
    pub attempts: int,
    pub max_attempts: int,
    pub root: Seq<char>,
    pub schema: Seq<char>,
    pub example: Seq<char>,
}

/// The transition one round makes: every round consumes one attempt; a
/// failure round records its error and appends its diagnostic message and
/// the example message, in that order; nothing else ever changes the
/// conversation — it only grows.
pub open spec fn step(m: SessionModel, e: RoundEvent) -> SessionModel {
    match e {
        RoundEvent::SkipEv => SessionModel { attempts: m.attempts + 1, ..m },
        RoundEvent::SuccessEv => SessionModel { attempts: m.attempts + 1, ..m },
        _ => SessionModel {
            attempts: m.attempts + 1,
            errors: m.errors.push(event_err(e, m.root)),
            conversation: m.conversation.push(
                (ChatRole::Assistant, event_diag(e, m.root, m.schema)),
            ).push((ChatRole::Assistant, example_text(m.example))),
            ..m
        },
    }
}

/// The state after a whole sequence of rounds.
pub open spec fn run_steps(m: SessionModel, events: Seq<RoundEvent>) -> SessionModel
    decreases events.len(),
{
    if events.len() == 0 {
        m
    } else {
        run_steps(step(m, events[0]), events.skip(1))
    }
}

pub proof fn lemma_run_steps_snoc(m: SessionModel, es: Seq<RoundEvent>, e: RoundEvent)
    ensures
        run_steps(m, es.push(e)) == step(run_steps(m, es), e),
    decreases es.len(),
{
    if es.len() == 0 {
        assert(es.push(e)[0] == e);
        assert(es.push(e).skip(1) =~= Seq::<RoundEvent>::empty());
        assert(run_steps(step(m, e), Seq::<RoundEvent>::empty()) == step(m, e));
        assert(run_steps(m, es) == m);
    } else {
        assert(es.push(e)[0] == es[0]);
        assert(es.push(e).skip(1) =~= es.skip(1).push(e));
        lemma_run_steps_snoc(step(m, es[0]), es.skip(1), e);
    }
}

/// Budget exhaustion: a sequence of failure rounds consumes exactly one
/// attempt per round and records exactly one error per round, in order; the
/// conversation keeps its prefix and grows by exactly the two corrective
/// messages per round — the diagnostic, then the example.
pub proof fn lemma_budget_exhaustion(m: SessionModel, events: Seq<RoundEvent>)
    requires
        forall|i: int| 0 <= i < events.len() ==> is_failure_event(#[trigger] events[i]),
    ensures
        run_steps(m, events).attempts == m.attempts + events.len(),
        run_steps(m, events).errors.len() == m.errors.len() + events.len(),
        run_steps(m, events).conversation.len() == m.conversation.len() + 2 * events.len(),
        run_steps(m, events).root == m.root,
        run_steps(m, events).schema == m.schema,
        run_steps(m, events).example == m.example,
        run_steps(m, events).max_attempts == m.max_attempts,
        forall|j: int|
            0 <= j < m.errors.len() ==> run_steps(m, events).errors[j] == m.errors[j],
        forall|j: int|
            0 <= j < m.conversation.len() ==> run_steps(m, events).conversation[j]
                == m.conversation[j],
        forall|i: int|
            0 <= i < events.len() ==> run_steps(m, events).errors[m.errors.len() + i]
                == event_err(#[trigger] events[i], m.root),
        forall|i: int|
            0 <= i < events.len() ==> run_steps(m, events).conversation[m.conversation.len() + 2
                * i] == (ChatRole::Assistant, event_diag(#[trigger] events[i], m.root, m.schema))
                && run_steps(m, events).conversation[m.conversation.len() + 2 * i + 1] == (
            ChatRole::Assistant,
            example_text(m.example),
            ),
    decreases events.len(),
{
    if events.len() == 0 {
        assert(run_steps(m, events) == m);
    } else {
        let m1 = step(m, events[0]);
        lemma_budget_exhaustion(m1, events.skip(1));
        assert(forall|i: int|
            1 <= i < events.len() ==> events.skip(1)[i - 1] == #[trigger] events[i]);
        let f = run_steps(m, events);
        assert(f == run_steps(m1, events.skip(1)));
        assert forall|j: int| 0 <= j < m.errors.len() implies f.errors[j] == m.errors[j] by {
            assert(f.errors[j] == m1.errors[j]);
            assert(m1.errors[j] == m.errors[j]);
        }
        assert forall|j: int| 0 <= j < m.conversation.len() implies f.conversation[j]
            == m.conversation[j] by {
            assert(f.conversation[j] == m1.conversation[j]);
            assert(m1.conversation[j] == m.conversation[j]);
        }
        assert forall|i: int| 0 <= i < events.len() implies f.errors[m.errors.len() + i]
            == event_err(#[trigger] events[i], m.root) by {
            if i == 0 {
                assert(f.errors[m1.errors.len() - 1] == m1.errors[m1.errors.len() - 1]);
            } else {
                assert(f.errors[m1.errors.len() + (i - 1)] == event_err(
                    events.skip(1)[i - 1],
                    m1.root,
                ));
            }
        }
        assert forall|i: int| 0 <= i < events.len() implies f.conversation[m.conversation.len()
            + 2 * i] == (ChatRole::Assistant, event_diag(
            #[trigger] events[i],
            m.root,
            m.schema,
        )) && f.conversation[m.conversation.len() + 2 * i + 1] == (
            ChatRole::Assistant,
            example_text(m.example),
        ) by {
            if i == 0 {
                assert(f.conversation[m1.conversation.len() - 2] == m1.conversation[m1.conversation.len()
                    - 2]);
                assert(f.conversation[m1.conversation.len() - 1] == m1.conversation[m1.conversation.len()
                    - 1]);
            } else {
                assert(f.conversation[m1.conversation.len() + 2 * (i - 1)] == (
                    ChatRole::Assistant,
                    event_diag(events.skip(1)[i - 1], m1.root, m1.schema),
                ));
                assert(f.conversation[m1.conversation.len() + 2 * (i - 1) + 1] == (
                    ChatRole::Assistant,
                    example_text(m1.example),
                ));
            }
        }
    }
}

/// Retry convergence: rounds that fail `k` times and then succeed consume
/// `k + 1` attempts, record exactly `k` errors, and append exactly `2 k`
/// corrective messages — for each failed attempt its diagnostic, then the
/// example, in order — while the earlier conversation stays untouched.
pub proof fn lemma_retry_convergence(m: SessionModel, events: Seq<RoundEvent>)
    requires
        events.len() >= 1,
        events.last() == RoundEvent::SuccessEv,
        forall|i: int| 0 <= i < events.len() - 1 ==> is_failure_event(#[trigger] events[i]),
    ensures
        run_steps(m, events).attempts == m.attempts + events.len(),
        run_steps(m, events).errors.len() == m.errors.len() + events.len() - 1,
        run_steps(m, events).conversation.len() == m.conversation.len() + 2 * (events.len() - 1),
        forall|j: int|
            0 <= j < m.conversation.len() ==> run_steps(m, events).conversation[j]
                == m.conversation[j],
        forall|i: int|
            0 <= i < events.len() - 1 ==> run_steps(m, events).conversation[m.conversation.len()
                + 2 * i] == (ChatRole::Assistant, event_diag(
                #[trigger] events[i],
                m.root,
                m.schema,
            )) && run_steps(m, events).conversation[m.conversation.len() + 2 * i + 1] == (
            ChatRole::Assistant,
            example_text(m.example),
            ),
        forall|i: int|
            0 <= i < events.len() - 1 ==> run_steps(m, events).errors[m.errors.len() + i]
                == event_err(#[trigger] events[i], m.root),
{
    let fails = events.drop_last();
    assert(events =~= fails.push(events.last()));
    lemma_run_steps_snoc(m, fails, events.last());
    lemma_budget_exhaustion(m, fails);
    assert(forall|i: int| 0 <= i < fails.len() ==> #[trigger] fails[i] == events[i]);
    assert(run_steps(m, events) == step(run_steps(m, fails), RoundEvent::SuccessEv));
}

/// The diagnostic text of a markup failure.
pub open spec fn parse_err_detail(e: ParseErrModel) -> Seq<char> {
    match e {
        ParseErrModel::UnclosedMarkupM => "the markup is not closed"@,
        ParseErrModel::EmptyTagNameM => "a tag has no name"@,
        ParseErrModel::UnexpectedCloseM(name) => "closing tag </"@ + name
            + "> has no open element"@,
        ParseErrModel::MismatchedCloseM(expected, found) => "closing tag </"@ + found
            + "> does not match open element <"@ + expected + ">"@,
        ParseErrModel::UnclosedElementM(name) => "element <"@ + name + "> is never closed"@,
        ParseErrModel::TextOutsideRootM => "text outside the root element"@,
        ParseErrModel::SecondRootM => "more than one root element"@,
        ParseErrModel::NoRootM => "no root element"@,
    }
}

/// Renders a markup failure for corrective feedback.
pub fn parse_error_text(e: &ParseError) -> (r: String)
    ensures
        r@ == parse_err_detail(e.model()),
{
    match e {
        ParseError::UnclosedMarkup { at: _ } => String::from_str("the markup is not closed"),
        ParseError::EmptyTagName { at: _ } => String::from_str("a tag has no name"),
        ParseError::UnexpectedClose { at: _, name } => {
            let mut out = String::from_str("closing tag </");
            out.append(name.as_str());
            out.append("> has no open element");
            out
        },
        ParseError::MismatchedClose { at: _, expected, found } => {
            let mut out = String::from_str("closing tag </");
            out.append(found.as_str());
            out.append("> does not match open element <");
            out.append(expected.as_str());
            out.append(">");
            out
        },
        ParseError::UnclosedElement { name } => {
            let mut out = String::from_str("element <");
            out.append(name.as_str());
            out.append("> is never closed");
            out
        },
        ParseError::TextOutsideRoot { at: _ } => String::from_str(
            "text outside the root element",
        ),
        ParseError::SecondRoot { at: _ } => String::from_str("more than one root element"),
        ParseError::NoRoot => String::from_str("no root element"),
    }
}

/// A decoded round's visible outcome.
#[derive(Debug)]
pub enum Round {
    /// The payload decoded to this value; the session is over.
    Done(Value),
    /// The attempt failed; corrective messages were appended.
    Retry,
    /// No text came back; the attempt passes through.
    Skip,
}

/// One extraction session: the evolving conversation, the errors recorded so
/// far, and the attempt budget. The caller performs each send and hands the
/// outcome to `on_response`.
pub struct Session {
    /// The conversation, append-only: seed, instruction, then two corrective
    /// messages per failed attempt.
    pub conversation: Vec<ChatMsg>,
    /// Every recorded error, in attempt order; skipped attempts record none.
    pub errors: Vec<RequestError>,
    /// Attempts consumed so far.
    pub attempts_used: usize,
    /// The attempt budget.
    pub max_attempts: usize,
    /// The target type's root tag.
    pub root_tag: String,
    /// The target type's derived schema text.
    pub schema: String,
    /// The caller-supplied valid example document.
    pub example: String,
    shape: Shape,
}

impl Session {
    /// The target type's shape.
    pub closed spec fn shape_spec(self) -> Shape {
        self.shape
    }

    /// The session's mathematical state.
    pub closed spec fn model(self) -> SessionModel {
        SessionModel {
            conversation: msgs_of(self.conversation@),
            errors: err_models_of(self.errors@),
            attempts: self.attempts_used as int,
            max_attempts: self.max_attempts as int,
            root: self.root_tag@,
            schema: self.schema@,
            example: self.example@,
        }
    }

    /// The stored tag and schema are the ones derived from the shape, and
    /// the budget is not overspent.
    pub closed spec fn wf(self) -> bool {
        &&& self.root_tag@ == spec_root_tag(self.shape)
        &&& self.schema@ == spec_schema(self.shape)
        &&& self.attempts_used <= self.max_attempts
    }

    /// Opens a session: derives the schema and root tag of the target shape
    /// and appends the instruction message to the caller's seed conversation.
    pub fn new(seed: Vec<ChatMsg>, shape: Shape, example: String, max_attempts: usize) -> (r:
        Session)
        ensures
            r.wf(),
            r.shape_spec() == shape,
            r.model().conversation == msgs_of(seed@).push(
                (
                    ChatRole::System,
                    system_prompt_text(spec_root_tag(shape), spec_schema(shape)),
                ),
            ),
            r.model().errors == Seq::<ErrModel>::empty(),
            r.model().attempts == 0,
            r.model().max_attempts == max_attempts as int,
            r.model().root == spec_root_tag(shape),
            r.model().schema == spec_schema(shape),
            r.model().example == example@,
    {
        let rt = root_tag(&shape);
        let st = schema_text(&shape);
        let sys = build_system_prompt(rt.as_str(), st.as_str());
        let mut conversation = seed;
        proof {
            lemma_msgs_of_push(
                conversation@,
                ChatMsg { role: ChatRole::System, content: sys },
            );
        }
        conversation.push(ChatMsg { role: ChatRole::System, content: sys });
        let errors: Vec<RequestError> = Vec::new();
        proof {
            assert(err_models_of(errors@) =~= Seq::<ErrModel>::empty());
        }
        Session {
            conversation,
            errors,
            attempts_used: 0,
            max_attempts,
            root_tag: rt,
            schema: st,
            example,
            shape,
        }
    }

    /// Records a failed attempt: pushes the error and appends the diagnostic
    /// and example messages.
    fn push_corrective(&mut self, err: RequestError, diag: String)
        ensures
            final(self).errors@ == old(self).errors@.push(err),
            msgs_of(final(self).conversation@) == msgs_of(old(self).conversation@).push(
                (ChatRole::Assistant, diag@),
            ).push((ChatRole::Assistant, example_text(old(self).example@))),
            final(self).attempts_used == old(self).attempts_used,
            final(self).max_attempts == old(self).max_attempts,
            final(self).root_tag == old(self).root_tag,
            final(self).schema == old(self).schema,
            final(self).example == old(self).example,
            final(self).shape_spec() == old(self).shape_spec(),
    {
        let ex = build_example_msg(self.example.as_str());
        self.errors.push(err);
        proof {
            lemma_msgs_of_push(
                self.conversation@,
                ChatMsg { role: ChatRole::Assistant, content: diag },
            );
        }
        let dmsg = ChatMsg { role: ChatRole::Assistant, content: diag };
        self.conversation.push(dmsg);
        proof {
            lemma_msgs_of_push(
                self.conversation@,
                ChatMsg { role: ChatRole::Assistant, content: ex },
            );
        }
        let emsg = ChatMsg { role: ChatRole::Assistant, content: ex };
        self.conversation.push(emsg);
    }

    /// Consumes one attempt on a response. No text is a pass-through; a
    /// response without the root-tag boundaries records an extraction error
    /// and schedules a corrective retry; a located payload that fails to
    /// parse or decode records a decode error and schedules a corrective
    /// retry; a payload that decodes ends the session with its value. The
    /// new state is exactly `step` of the old state under the returned
    /// event.
    pub fn on_response(&mut self, text: Option<String>) -> (r: (Round, Ghost<RoundEvent>))
        requires
            old(self).wf(),
            old(self).model().attempts < old(self).model().max_attempts,
        ensures
            final(self).wf(),
            final(self).shape_spec() == old(self).shape_spec(),
            final(self).model() == step(old(self).model(), r.1@),
            r.0 is Skip <==> r.1@ is SkipEv,
            r.0 is Done ==> r.1@ is SuccessEv,
            r.0 is Retry <==> is_failure_event(r.1@),
            (r.1@ is SkipEv) <==> text is None,
            text matches Some(t) ==> ((r.1@ is ExtractFailEv) <==> located_payload(
                t@,
                old(self).model().root,
            ) is None),
            r.1@ matches RoundEvent::DecodeFailEv(p, d) ==> text matches Some(t)
                && located_payload(t@, old(self).model().root) == Some(p) && payload_value(
                old(self).shape_spec(),
                p,
            ) is None && d == payload_diag_detail(old(self).shape_spec(), p),
            r.0 is Done <==> (text matches Some(t) && response_decodes(
                old(self).shape_spec(),
                old(self).model().root,
                t@,
            )),
            r.0 matches Round::Done(v) ==> (text matches Some(t) && located_payload(
                t@,
                old(self).model().root,
            ) matches Some(p) && payload_value(old(self).shape_spec(), p) == Some(v.model())),
    {
        self.attempts_used = self.attempts_used + 1;
        let ghost m0 = old(self).model();
        let text = match text {
            None => {
                proof {
                    assert(self.model() == step(m0, RoundEvent::SkipEv));
                }
                return (Round::Skip, Ghost(RoundEvent::SkipEv));
            },
            Some(t) => t,
        };
        let mut sp = String::from_str("<");
        sp.append(self.root_tag.as_str());
        sp.append(">");
        let mut ep = String::from_str("</");
        ep.append(self.root_tag.as_str());
        ep.append(">");
        proof {
            assert(sp@ == start_pat(self.root_tag@));
            assert(ep@ == end_pat(self.root_tag@));
        }
        let tl = text.as_str().unicode_len();
        let fo = find_sub(text.as_str(), sp.as_str());
        let lo = rfind_sub(text.as_str(), ep.as_str());
        let located: Option<(usize, usize)> = match (fo, lo) {
            (Some(a), Some(b)) => {
                let eplen = ep.as_str().unicode_len();
                proof {
                    assert(matches_at(text@, ep@, b as int));
                    assert(b + eplen <= tl);
                }
                if b + eplen > a {
                    Some((a, b + eplen))
                } else {
                    None
                }
            },
            _ => None,
        };
        proof {
            let rootv = self.root_tag@;
            match fo {
                None => {
                    assert(!has_occurrence(text@, start_pat(rootv)));
                },
                Some(a0) => {
                    assert(is_first_at(text@, start_pat(rootv), a0 as int));
                    match lo {
                        None => {
                            assert(!has_occurrence(text@, end_pat(rootv)));
                        },
                        Some(b0) => {
                            assert(is_last_at(text@, end_pat(rootv), b0 as int));
                            let ca = choose|i: int| is_first_at(text@, start_pat(rootv), i);
                            lemma_first_at_unique(text@, start_pat(rootv), ca, a0 as int);
                            let cb = choose|i: int| is_last_at(text@, end_pat(rootv), i);
                            lemma_last_at_unique(text@, end_pat(rootv), cb, b0 as int);
                        },
                    }
                },
            }
            match located {
                None => {
                    assert(located_payload(text@, rootv) is None);
                },
                Some(p) => {
                    assert(located_payload(text@, rootv) == Some(
                        text@.subrange(p.0 as int, p.1 as int),
                    ));
                },
            }
        }
        let (a, end) = match located {
            None => {
                let err = build_extract_err(self.root_tag.as_str());
                let diag = build_extract_diag(self.root_tag.as_str(), self.schema.as_str());
                self.push_corrective(RequestError::XmlExtraction(err), diag);
                proof {
                    let e = self.errors@.last();
                    assert(self.errors@ == old(self).errors@.push(e));
                    lemma_err_models_of_push(old(self).errors@, e);
                    assert(e.model() == ErrModel::ExtractM(extract_err_text(m0.root)));
                    assert(self.model() == step(m0, RoundEvent::ExtractFailEv));
                }
                return (Round::Retry, Ghost(RoundEvent::ExtractFailEv));
            },
            Some(p) => p,
        };
        let payload = text.as_str().substring_char(a, end).to_owned();
        proof {
            assert(payload@ == located_payload(text@, self.root_tag@).unwrap());
        }
        let detail: String = match parse_document(payload.as_str()) {
            Err(pe) => {
                proof {
                    assert(spec_parse(payload@) == Err::<
                        crate::tree::ElemModel,
                        ParseErrModel,
                    >(pe.model()));
                    assert(payload_value(self.shape, payload@) is None);
                    assert(payload_diag_detail(self.shape, payload@) == parse_err_detail(
                        pe.model(),
                    ));
                }
                parse_error_text(&pe)
            },
            Ok(el) => {
                match decode_document(&self.shape, &el) {
                    Ok(v) => {
                        proof {
                            assert(spec_parse(payload@) == Ok::<
                                crate::tree::ElemModel,
                                ParseErrModel,
                            >(el.model()));
                            assert(payload_value(self.shape, payload@) == Some(v.model()));
                            assert(self.model() == step(m0, RoundEvent::SuccessEv));
                        }
                        return (Round::Done(v), Ghost(RoundEvent::SuccessEv));
                    },
                    Err(de) => {
                        proof {
                            assert(spec_parse(payload@) == Ok::<
                                crate::tree::ElemModel,
                                ParseErrModel,
                            >(el.model()));
                            assert(dec_document(self.shape, el.model()) is Err);
                            assert(payload_value(self.shape, payload@) is None);
                        }
                        decode_error_text(&de)
                    },
                }
            },
        };
        let ghost ev = RoundEvent::DecodeFailEv(payload@, detail@);
        let diag = build_decode_diag(payload.as_str(), detail.as_str(), self.schema.as_str());
        let err = RequestError::XmlDeserialization(detail);
        self.push_corrective(err, diag);
        proof {
            let e = self.errors@.last();
            assert(self.errors@ == old(self).errors@.push(e));
            lemma_err_models_of_push(old(self).errors@, e);
            assert(e.model() == event_err(ev, m0.root));
            assert(self.model() == step(m0, ev));
        }
        (Round::Retry, Ghost(ev))
    }

    /// Closes an exhausted session: the terminal failure carrying every
    /// recorded error, in attempt order.
    pub fn finish(self) -> (r: RequestError)
        ensures
            r matches RequestError::RetryLimitExceeded(es) && err_models_of(es@)
                == self.model().errors,
            r.model() == ErrModel::LimitM(self.model().errors),
    {
        RequestError::RetryLimitExceeded(self.errors)
    }
}

/// The first attempt index whose response decodes, at or after `from`.
pub open spec fn first_success(
    sh: Shape,
    root: Seq<char>,
    resps: Seq<Option<String>>,
    from: int,
) -> Option<int>
    decreases resps.len() - from + 1,
{
    if from < 0 || from >= resps.len() {
        None
    } else if resps[from] matches Some(t) && response_decodes(sh, root, t@) {
        Some(from)
    } else {
        first_success(sh, root, resps, from + 1)
    }
}

/// The error a response records when it carries text and does not decode:
/// the extraction error when the boundaries are missing, else the decode
/// error rendered from the payload's exact failure.
pub open spec fn response_err(sh: Shape, root: Seq<char>, t: Seq<char>) -> ErrModel {
    match located_payload(t, root) {
        Some(p) => ErrModel::DeserM(payload_diag_detail(sh, p)),
        None => ErrModel::ExtractM(extract_err_text(root)),
    }
}

/// The errors the first `upto` responses record when none of them decodes:
/// one per response that carries text, in attempt order; skipped empty
/// responses record none.
pub open spec fn errs_of_responses(
    sh: Shape,
    root: Seq<char>,
    resps: Seq<Option<String>>,
    upto: int,
) -> Seq<ErrModel>
    decreases upto,
{
    if upto <= 0 {
        Seq::empty()
    } else {
        let pre = errs_of_responses(sh, root, resps, upto - 1);
        match resps[upto - 1] {
            Some(t) => pre.push(response_err(sh, root, t@)),
            None => pre,
        }
    }
}

/// Runs a whole session against a fixed list of per-attempt outcomes — entry
/// `i` is what the transport's send returned on attempt `i + 1` (`None` for
/// a response without text). Success is owed: the result is the decoded
/// value of the first response whose located payload parses and decodes,
/// and the terminal failure — carrying one recorded error per attempt that
/// returned text — exactly when no response decodes.
pub fn run_session(
    seed: Vec<ChatMsg>,
    shape: Shape,
    example: String,
    max_attempts: usize,
    responses: Vec<Option<String>>,
) -> (r: Result<Value, RequestError>)
    requires
        responses@.len() == max_attempts as int,
    ensures
        r is Ok <==> first_success(shape, spec_root_tag(shape), responses@, 0) is Some,
        r matches Ok(v) ==> (first_success(shape, spec_root_tag(shape), responses@, 0)
            matches Some(ix) && responses@[ix] matches Some(t) && located_payload(
            t@,
            spec_root_tag(shape),
        ) matches Some(p) && payload_value(shape, p) == Some(v.model())),
        r matches Err(e) ==> e matches RequestError::RetryLimitExceeded(es) && err_models_of(
            es@,
        ) == errs_of_responses(shape, spec_root_tag(shape), responses@, max_attempts as int),
{
    let ghost root = spec_root_tag(shape);
    let ghost rs = responses@;
    let mut s = Session::new(seed, shape, example, max_attempts);
    let mut i: usize = 0;
    proof {
        assert(s.model().errors.len() == 0);
    }
    while i < max_attempts
        invariant
            s.wf(),
            s.model().attempts == i as int,
            s.model().max_attempts == max_attempts as int,
            s.model().root == root,
            s.shape_spec() == shape,
            root == spec_root_tag(shape),
            i <= max_attempts,
            rs == responses@,
            rs.len() == max_attempts as int,
            first_success(shape, root, rs, 0) == first_success(shape, root, rs, i as int),
            s.model().errors == errs_of_responses(shape, root, rs, i as int),
        decreases max_attempts - i,
    {
        let t: Option<String> = match &responses[i] {
            Some(x) => Some(x.clone()),
            None => None,
        };
        let (round, ev) = s.on_response(t);
        match round {
            Round::Done(v) => {
                proof {
                    assert(rs[i as int] is Some);
                    assert(first_success(shape, root, rs, i as int) == Some(i as int));
                }
                return Ok(v);
            },
            _ => {
                proof {
                    match rs[i as int] {
                        Some(x) => {
                            assert(!response_decodes(shape, root, x@));
                            assert(ev@ is ExtractFailEv || ev@ is DecodeFailEv);
                            match ev@ {
                                RoundEvent::ExtractFailEv => {
                                    assert(located_payload(x@, root) is None);
                                    assert(event_err(ev@, root) == response_err(
                                        shape,
                                        root,
                                        x@,
                                    ));
                                },
                                RoundEvent::DecodeFailEv(p, d) => {
                                    assert(located_payload(x@, root) == Some(p));
                                    assert(d == payload_diag_detail(shape, p));
                                    assert(event_err(ev@, root) == response_err(
                                        shape,
                                        root,
                                        x@,
                                    ));
                                },
                                _ => {},
                            }
                        },
                        None => {
                            assert(ev@ is SkipEv);
                        },
                    }
                    assert(first_success(shape, root, rs, i as int) == first_success(
                        shape,
                        root,
                        rs,
                        i as int + 1,
                    ));
                    assert(s.model().errors == errs_of_responses(shape, root, rs, i as int + 1));
                }
            },
        }
        i = i + 1;
    }
    proof {
        assert(first_success(shape, root, rs, max_attempts as int) is None);
    }
    let fin = s.finish();
    Err(fin)
}

} // verus!
