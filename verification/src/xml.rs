//! A small markup reader for the wire format: open, close and self-closing
//! tags, character data, literal (no-escape) blocks, comments and
//! processing instructions. It produces the tag tree the decoder consumes.
//! Attribute text inside a tag is skipped; a tag's name runs to the first
//! whitespace. Character references pass through as written: the wire format
//! puts arbitrary text inside literal blocks instead of escaping it.
//!
//! `spec_parse` is the mathematical reader; `parse_document` is proved to
//! return exactly the tree it denotes, and an error exactly when it denotes
//! none.

use vstd::prelude::*;
use crate::strutil::{str_eq, matches_at, is_space, is_space_char, trim_str, trimmed};
use crate::tree::{Element, ElemModel, ems, elem_named, elems_named, lemma_elems_named_push,
    lemma_ems, lemma_ems_push, lemma_ems_update, lemma_ems_drop_last};

verus! {

broadcast use vstd::std_specs::vec::group_vec_axioms;

/// Why a document could not be read into a tag tree.
#[derive(Debug, PartialEq, Eq)]
pub enum ParseError {
    /// A `<` with no closing `>`, or an unterminated comment, literal block
    /// or processing instruction starting at this character position.
    UnclosedMarkup { at: usize },
    /// A tag with no name.
    EmptyTagName { at: usize },
    /// A closing tag with no element open.
    UnexpectedClose { at: usize, name: String },
    /// A closing tag that does not match the innermost open element.
    MismatchedClose { at: usize, expected: String, found: String },
    /// The document ended while this element was still open.
    UnclosedElement { name: String },
    /// Non-whitespace text outside the root element.
    TextOutsideRoot { at: usize },
    /// A second element at the top level.
    SecondRoot { at: usize },
    /// No element at all.
    NoRoot,
}

/// The mathematical image of a reading failure. Character positions are
/// diagnostics only and carry no weight here.
pub enum ParseErrModel {
    UnclosedMarkupM,
    EmptyTagNameM,
    UnexpectedCloseM(Seq<char>),
    MismatchedCloseM(Seq<char>, Seq<char>),
    UnclosedElementM(Seq<char>),
    TextOutsideRootM,
    SecondRootM,
    NoRootM,
}

impl ParseError {
    /// The failure's mathematical image.
    pub open spec fn model(self) -> ParseErrModel {
        match self {
            ParseError::UnclosedMarkup { at } => ParseErrModel::UnclosedMarkupM,
            ParseError::EmptyTagName { at } => ParseErrModel::EmptyTagNameM,
            ParseError::UnexpectedClose { at, name } => ParseErrModel::UnexpectedCloseM(name@),
            ParseError::MismatchedClose { at, expected, found } => ParseErrModel::MismatchedCloseM(
                expected@,
                found@,
            ),
            ParseError::UnclosedElement { name } => ParseErrModel::UnclosedElementM(name@),
            ParseError::TextOutsideRoot { at } => ParseErrModel::TextOutsideRootM,
            ParseError::SecondRoot { at } => ParseErrModel::SecondRootM,
            ParseError::NoRoot => ParseErrModel::NoRootM,
        }
    }
}

/// First position at or after `from` where `p` occurs, or nothing when it
/// never does.
pub open spec fn scan_to(s: Seq<char>, p: Seq<char>, from: int) -> Option<int>
    decreases s.len() - from + 1,
{
    if from < 0 || from + p.len() > s.len() {
        None
    } else if matches_at(s, p, from) {
        Some(from)
    } else {
        scan_to(s, p, from + 1)
    }
}

pub proof fn lemma_scan_to_bounds(s: Seq<char>, p: Seq<char>, from: int)
    ensures
        scan_to(s, p, from) matches Some(j) ==> from <= j && j + p.len() <= s.len(),
    decreases s.len() - from + 1,
{
    if 0 <= from && from + p.len() <= s.len() && !matches_at(s, p, from) {
        lemma_scan_to_bounds(s, p, from + 1);
    }
}

/// Position of the first `<` at or after `from` (the length when none).
pub open spec fn scan_text_end(s: Seq<char>, from: int) -> int
    decreases s.len() - from,
{
    if from >= s.len() {
        s.len() as int
    } else if s[from] == '<' {
        from
    } else {
        scan_text_end(s, from + 1)
    }
}

pub proof fn lemma_scan_text_end_bounds(s: Seq<char>, from: int)
    requires
        0 <= from <= s.len(),
    ensures
        from <= scan_text_end(s, from) <= s.len(),
    decreases s.len() - from,
{
    if from < s.len() && s[from] != '<' {
        lemma_scan_text_end_bounds(s, from + 1);
    }
}

/// End of a tag's name: the first whitespace at or after `from`, capped at
/// `lim`.
pub open spec fn scan_name_end(s: Seq<char>, from: int, lim: int) -> int
    decreases lim - from,
{
    if from >= lim {
        lim
    } else if 0 <= from < s.len() && is_space(s[from]) {
        from
    } else {
        scan_name_end(s, from + 1, lim)
    }
}

/// The image of the root slot.
pub open spec fn root_model(r: Option<Element>) -> Option<ElemModel> {
    match r {
        Some(el) => Some(el.model()),
        None => None,
    }
}

/// One reading step at position `i` with the open elements `st` (outermost
/// first) and the root read so far. The result is the document's root
/// element, or nothing when the text is not a well-formed document: stray
/// non-whitespace text outside the root, an unterminated construct, an empty
/// tag name, a mismatched or unexpected closing tag, a second root, an
/// unclosed element or a missing root all denote nothing.
pub open spec fn spec_parse_loop(
    s: Seq<char>,
    i: int,
    st: Seq<ElemModel>,
    root: Option<ElemModel>,
) -> Result<ElemModel, ParseErrModel>
    decreases s.len() - i
        via spec_parse_loop_decreases
{
    if i < 0 || i >= s.len() {
        if st.len() > 0 {
            Err(ParseErrModel::UnclosedElementM(st.last().name))
        } else {
            match root {
                Some(r) => Ok(r),
                None => Err(ParseErrModel::NoRootM),
            }
        }
    } else if s[i] != '<' {
        let j = scan_text_end(s, i + 1);
        let run = s.subrange(i, j);
        if st.len() == 0 {
            if trimmed(run).len() > 0 {
                Err(ParseErrModel::TextOutsideRootM)
            } else {
                spec_parse_loop(s, j, st, root)
            }
        } else {
            let top = st.last();
            let st2 = st.update(st.len() - 1, ElemModel { text: top.text + run, ..top });
            spec_parse_loop(s, j, st2, root)
        }
    } else if matches_at(s, "<!--"@, i) {
        match scan_to(s, "-->"@, i) {
            Some(j) => spec_parse_loop(s, j + 3, st, root),
            None => Err(ParseErrModel::UnclosedMarkupM),
        }
    } else if matches_at(s, "<![CDATA["@, i) {
        match scan_to(s, "]]>"@, i + 9) {
            Some(j) => {
                let content = s.subrange(i + 9, j);
                if st.len() == 0 {
                    if trimmed(content).len() > 0 {
                        Err(ParseErrModel::TextOutsideRootM)
                    } else {
                        spec_parse_loop(s, j + 3, st, root)
                    }
                } else {
                    let top = st.last();
                    let st2 = st.update(
                        st.len() - 1,
                        ElemModel { text: top.text + content, ..top },
                    );
                    spec_parse_loop(s, j + 3, st2, root)
                }
            },
            None => Err(ParseErrModel::UnclosedMarkupM),
        }
    } else if matches_at(s, "<!"@, i) || matches_at(s, "<?"@, i) {
        match scan_to(s, ">"@, i) {
            Some(j) => spec_parse_loop(s, j + 1, st, root),
            None => Err(ParseErrModel::UnclosedMarkupM),
        }
    } else if matches_at(s, "</"@, i) {
        match scan_to(s, ">"@, i) {
            None => Err(ParseErrModel::UnclosedMarkupM),
            Some(j) => {
                let name = trimmed(s.subrange(i + 2, j));
                if name.len() == 0 {
                    Err(ParseErrModel::EmptyTagNameM)
                } else if st.len() == 0 {
                    Err(ParseErrModel::UnexpectedCloseM(name))
                } else {
                    let top = st.last();
                    if top.name != name {
                        Err(ParseErrModel::MismatchedCloseM(top.name, name))
                    } else if st.len() == 1 {
                        if root is Some {
                            Err(ParseErrModel::SecondRootM)
                        } else {
                            spec_parse_loop(s, j + 1, st.drop_last(), Some(top))
                        }
                    } else {
                        let parent = st[st.len() - 2];
                        let st2 = st.drop_last().update(
                            st.len() - 2,
                            ElemModel { children: parent.children.push(top), ..parent },
                        );
                        spec_parse_loop(s, j + 1, st2, root)
                    }
                }
            },
        }
    } else {
        match scan_to(s, ">"@, i) {
            None => Err(ParseErrModel::UnclosedMarkupM),
            Some(j) => {
                let self_closing = j > i + 1 && s[j - 1] == '/';
                let inner_end: int = if self_closing {
                    j - 1
                } else {
                    j
                };
                let k = scan_name_end(s, i + 1, inner_end);
                let name = s.subrange(i + 1, k);
                if name.len() == 0 {
                    Err(ParseErrModel::EmptyTagNameM)
                } else {
                    let el = ElemModel { name, children: Seq::empty(), text: Seq::empty() };
                    if self_closing {
                        if st.len() == 0 {
                            if root is Some {
                                Err(ParseErrModel::SecondRootM)
                            } else {
                                spec_parse_loop(s, j + 1, st, Some(el))
                            }
                        } else {
                            let top = st.last();
                            let st2 = st.update(
                                st.len() - 1,
                                ElemModel { children: top.children.push(el), ..top },
                            );
                            spec_parse_loop(s, j + 1, st2, root)
                        }
                    } else {
                        if st.len() == 0 && root is Some {
                            Err(ParseErrModel::SecondRootM)
                        } else {
                            spec_parse_loop(s, j + 1, st.push(el), root)
                        }
                    }
                }
            },
        }
    }
}

#[via_fn]
proof fn spec_parse_loop_decreases(
    s: Seq<char>,
    i: int,
    st: Seq<ElemModel>,
    root: Option<ElemModel>,
) {
    if 0 <= i < s.len() {
        assert("-->"@.len() == 3) by {
            reveal_strlit("-->");
        }
        assert("]]>"@.len() == 3) by {
            reveal_strlit("]]>");
        }
        assert(">"@.len() == 1) by {
            reveal_strlit(">");
        }
        lemma_scan_text_end_bounds(s, i + 1);
        lemma_scan_to_bounds(s, "-->"@, i);
        lemma_scan_to_bounds(s, "]]>"@, i + 9);
        lemma_scan_to_bounds(s, ">"@, i);
    }
}

/// The document a text denotes under the wire grammar: its single root
/// element, or the exact failure when the text is not a well-formed
/// document.
pub open spec fn spec_parse(s: Seq<char>) -> Result<ElemModel, ParseErrModel> {
    spec_parse_loop(s, 0, Seq::empty(), None)
}

/// First occurrence of `pat` at or after `from`, as a character position.
fn find_from(s: &str, n: usize, from: usize, pat: &str) -> (r: Option<usize>)
    requires
        from <= n,
        n == s@.len(),
    ensures
        r matches Some(i) ==> from <= i && matches_at(s@, pat@, i as int) && scan_to(
            s@,
            pat@,
            from as int,
        ) == Some(i as int),
        r is None ==> scan_to(s@, pat@, from as int) is None,
{
    let m = pat.unicode_len();
    if m > n - from {
        return None;
    }
    if m == 0 {
        proof {
            assert(s@.subrange(from as int, from as int) =~= pat@);
            assert(matches_at(s@, pat@, from as int));
        }
        return Some(from);
    }
    let mut cur = from;
    while cur <= n - m
        invariant
            from <= cur <= n - m + 1,
            0 < m <= n - from,
            n == s@.len(),
            m == pat@.len(),
            scan_to(s@, pat@, from as int) == scan_to(s@, pat@, cur as int),
        decreases n - cur,
    {
        if starts_at(s, n, cur, pat) {
            return Some(cur);
        }
        cur = cur + 1;
    }
    None
}

/// Whether `pat` occurs at position `i` of `s`.
fn starts_at(s: &str, n: usize, i: usize, pat: &str) -> (r: bool)
    requires
        i <= n,
        n == s@.len(),
    ensures
        r == matches_at(s@, pat@, i as int),
{
    let m = pat.unicode_len();
    if m > n - i {
        return false;
    }
    let cand = s.substring_char(i, i + m);
    str_eq(cand, pat)
}

/// Reads the document in `s` into its tag tree: exactly the tree the wire
/// grammar denotes, with every tag carrying a non-empty name, or an error
/// naming the first violation when the text denotes no document.
pub fn parse_document(s: &str) -> (r: Result<Element, ParseError>)
    ensures
        r matches Ok(el) ==> spec_parse(s@) == Ok::<ElemModel, ParseErrModel>(el.model())
            && elem_named(el),
        r matches Err(e) ==> spec_parse(s@) == Err::<ElemModel, ParseErrModel>(e.model()),
        r is Err <==> spec_parse(s@) is Err,
{
    let n = s.unicode_len();
    let mut stack: Vec<Element> = Vec::new();
    let mut root: Option<Element> = None;
    let mut i: usize = 0;
    proof {
        assert(ems(stack@) =~= Seq::<ElemModel>::empty());
    }
    while i < n
        invariant
            i <= n,
            n == s@.len(),
            forall|k: int|
                0 <= k < stack@.len() ==> (#[trigger] stack@[k]).name@.len() > 0 && elems_named(
                    stack@[k].children@,
                ),
            root matches Some(el) ==> elem_named(el),
            spec_parse(s@) == spec_parse_loop(s@, i as int, ems(stack@), root_model(root)),
        decreases n - i,
    {
        let ghost st0 = stack@;
        let ghost stm0 = ems(stack@);
        let ghost rm0 = root_model(root);
        proof {
            lemma_ems(st0);
        }
        let c = s.get_char(i);
        if c != '<' {
            // character data up to the next tag
            let mut j = i + 1;
            while j < n && s.get_char(j) != '<'
                invariant
                    i < j <= n,
                    n == s@.len(),
                    scan_text_end(s@, i as int + 1) == scan_text_end(s@, j as int),
                decreases n - j,
            {
                j = j + 1;
            }
            proof {
                assert(scan_text_end(s@, i as int + 1) == j as int);
            }
            let run = s.substring_char(i, j);
            if stack.len() == 0 {
                let t = trim_str(run);
                if t.as_str().unicode_len() > 0 {
                    proof {
                        assert(spec_parse(s@) == Err::<ElemModel, ParseErrModel>(
                            ParseErrModel::TextOutsideRootM,
                        ));
                    }
                    return Err(ParseError::TextOutsideRoot { at: i });
                }
            } else {
                let mut top = match stack.pop() {
                    Some(e) => e,
                    None => {
                        return Err(ParseError::NoRoot);
                    },
                };
                top.text.append(run);
                stack.push(top);
                proof {
                    assert(stack@ =~= st0.update(st0.len() - 1, stack@.last()));
                    assert(stack@.last().name@ == st0.last().name@);
                    assert(stack@.last().children@ == st0.last().children@);
                    lemma_ems_update(st0, st0.len() - 1, stack@.last());
                    assert(stm0[st0.len() - 1] == st0.last().model());
                    assert(stm0.last() == st0.last().model());
                    assert(stack@.last().model() == ElemModel {
                        text: stm0.last().text + run@,
                        ..stm0.last()
                    });
                    assert(ems(stack@) == stm0.update(
                        stm0.len() - 1,
                        ElemModel { text: stm0.last().text + run@, ..stm0.last() },
                    ));
                }
            }
            i = j;
        } else if starts_at(s, n, i, "<!--") {
            match find_from(s, n, i, "-->") {
                Some(j) => {
                    proof {
                        assert("-->"@.len() == 3) by {
                            reveal_strlit("-->");
                        }
                    }
                    i = j + 3;
                },
                None => {
                    proof {
                        assert(spec_parse(s@) == Err::<ElemModel, ParseErrModel>(
                            ParseErrModel::UnclosedMarkupM,
                        ));
                    }
                    return Err(ParseError::UnclosedMarkup { at: i });
                },
            }
        } else if starts_at(s, n, i, "<![CDATA[") {
            proof {
                assert("<![CDATA["@.len() == 9) by {
                    reveal_strlit("<![CDATA[");
                }
            }
            let start = i + 9;
            match find_from(s, n, start, "]]>") {
                Some(j) => {
                    proof {
                        assert("]]>"@.len() == 3) by {
                            reveal_strlit("]]>");
                        }
                    }
                    let content = s.substring_char(start, j);
                    if stack.len() == 0 {
                        let t = trim_str(content);
                        if t.as_str().unicode_len() > 0 {
                            proof {
                                assert(spec_parse(s@) == Err::<ElemModel, ParseErrModel>(
                                    ParseErrModel::TextOutsideRootM,
                                ));
                            }
                            return Err(ParseError::TextOutsideRoot { at: i });
                        }
                    } else {
                        let mut top = match stack.pop() {
                            Some(e) => e,
                            None => {
                                return Err(ParseError::NoRoot);
                            },
                        };
                        top.text.append(content);
                        stack.push(top);
                        proof {
                            assert(stack@ =~= st0.update(st0.len() - 1, stack@.last()));
                            assert(stack@.last().name@ == st0.last().name@);
                            assert(stack@.last().children@ == st0.last().children@);
                            lemma_ems_update(st0, st0.len() - 1, stack@.last());
                            assert(stm0[st0.len() - 1] == st0.last().model());
                            assert(stm0.last() == st0.last().model());
                            assert(stack@.last().model() == ElemModel {
                                text: stm0.last().text + content@,
                                ..stm0.last()
                            });
                            assert(ems(stack@) == stm0.update(
                                stm0.len() - 1,
                                ElemModel { text: stm0.last().text + content@, ..stm0.last() },
                            ));
                        }
                    }
                    i = j + 3;
                },
                None => {
                    proof {
                        assert(spec_parse(s@) == Err::<ElemModel, ParseErrModel>(
                            ParseErrModel::UnclosedMarkupM,
                        ));
                    }
                    return Err(ParseError::UnclosedMarkup { at: i });
                },
            }
        } else if starts_at(s, n, i, "<!") || starts_at(s, n, i, "<?") {
            match find_from(s, n, i, ">") {
                Some(j) => {
                    proof {
                        assert(">"@.len() == 1) by {
                            reveal_strlit(">");
                        }
                    }
                    i = j + 1;
                },
                None => {
                    proof {
                        assert(spec_parse(s@) == Err::<ElemModel, ParseErrModel>(
                            ParseErrModel::UnclosedMarkupM,
                        ));
                    }
                    return Err(ParseError::UnclosedMarkup { at: i });
                },
            }
        } else if starts_at(s, n, i, "</") {
            let j = match find_from(s, n, i, ">") {
                Some(j) => j,
                None => {
                    proof {
                        assert(spec_parse(s@) == Err::<ElemModel, ParseErrModel>(
                            ParseErrModel::UnclosedMarkupM,
                        ));
                    }
                    return Err(ParseError::UnclosedMarkup { at: i });
                },
            };
            proof {
                assert(">"@.len() == 1 && ">"@[0] == '>') by {
                    reveal_strlit(">");
                }
                assert(matches_at(s@, "</"@, i as int));
                assert("</"@.len() == 2 && "</"@[0] == '<' && "</"@[1] == '/') by {
                    reveal_strlit("</");
                }
                assert(s@.subrange(i as int, i + 2)[0] == '<');
                assert(s@.subrange(i as int, i + 2)[1] == '/');
                assert(s@.subrange(j as int, j + 1)[0] == '>');
                assert(s@[i as int] == '<' && s@[i + 1] == '/' && s@[j as int] == '>');
                assert(j >= i + 2);
            }
            let raw = s.substring_char(i + 2, j);
            let name = trim_str(raw);
            if name.as_str().unicode_len() == 0 {
                proof {
                    assert(spec_parse(s@) == Err::<ElemModel, ParseErrModel>(
                        ParseErrModel::EmptyTagNameM,
                    ));
                }
                return Err(ParseError::EmptyTagName { at: i });
            }
            match stack.pop() {
                None => {
                    proof {
                        assert(stm0.len() == 0);
                        assert(spec_parse(s@) == Err::<ElemModel, ParseErrModel>(
                            ParseErrModel::UnexpectedCloseM(name@),
                        ));
                    }
                    return Err(ParseError::UnexpectedClose { at: i, name });
                },
                Some(top) => {
                    proof {
                        assert(top == st0.last());
                        assert(stm0.last() == st0.last().model());
                    }
                    if !str_eq(top.name.as_str(), name.as_str()) {
                        proof {
                            assert(stm0.last().name != name@);
                            assert(spec_parse(s@) == Err::<ElemModel, ParseErrModel>(
                                ParseErrModel::MismatchedCloseM(stm0.last().name, name@),
                            ));
                            assert(stm0.last().name == top.name@);
                        }
                        return Err(
                            ParseError::MismatchedClose { at: i, expected: top.name, found: name },
                        );
                    }
                    proof {
                        assert(elem_named(top));
                        lemma_ems_drop_last(st0);
                    }
                    if stack.len() == 0 {
                        if root.is_some() {
                            proof {
                                assert(spec_parse(s@) == Err::<ElemModel, ParseErrModel>(
                                    ParseErrModel::SecondRootM,
                                ));
                            }
                            return Err(ParseError::SecondRoot { at: i });
                        }
                        root = Some(top);
                        proof {
                            assert(ems(stack@) =~= stm0.drop_last());
                            assert(root_model(root) == Some(stm0.last()));
                        }
                    } else {
                        let ghost st1 = stack@;
                        let mut parent = match stack.pop() {
                            Some(e) => e,
                            None => {
                                return Err(ParseError::NoRoot);
                            },
                        };
                        let ghost pc = parent.children@;
                        parent.children.push(top);
                        stack.push(parent);
                        proof {
                            lemma_elems_named_push(pc, top);
                            assert(stack@ =~= st1.update(st1.len() - 1, stack@.last()));
                            assert(stack@.last().name@ == st1.last().name@);
                            assert(stack@.last().children@ == pc.push(top));
                            // the new innermost element at the model level
                            assert(st1 =~= st0.drop_last());
                            let pm = stm0[stm0.len() - 2];
                            assert(st0.drop_last().last() == st0[st0.len() - 2]);
                            assert(stm0[stm0.len() - 2] == st0[st0.len() - 2].model());
                            lemma_ems_push(pc, top);
                            assert(stack@.last().model() == ElemModel {
                                children: pm.children.push(stm0.last()),
                                ..pm
                            });
                            lemma_ems_update(st1, st1.len() - 1, stack@.last());
                            assert(ems(st1) =~= stm0.drop_last());
                            assert(ems(stack@) == stm0.drop_last().update(
                                stm0.len() - 2,
                                ElemModel { children: pm.children.push(stm0.last()), ..pm },
                            ));
                        }
                    }
                },
            }
            i = j + 1;
        } else {
            // an open or self-closing tag
            let j = match find_from(s, n, i, ">") {
                Some(j) => j,
                None => {
                    proof {
                        assert(spec_parse(s@) == Err::<ElemModel, ParseErrModel>(
                            ParseErrModel::UnclosedMarkupM,
                        ));
                    }
                    return Err(ParseError::UnclosedMarkup { at: i });
                },
            };
            proof {
                assert(">"@.len() == 1 && ">"@[0] == '>') by {
                    reveal_strlit(">");
                }
                assert(s@.subrange(j as int, j + 1)[0] == '>');
                assert(s@[j as int] == '>');
                assert(j >= i + 1);
            }
            let mut inner_end = j;
            let mut self_closing = false;
            if j > i + 1 && s.get_char(j - 1) == '/' {
                self_closing = true;
                inner_end = j - 1;
            }
            // the name runs from after '<' to the first whitespace
            let name_start = i + 1;
            let mut k = name_start;
            while k < inner_end && !is_space_char(s.get_char(k))
                invariant
                    name_start <= k <= inner_end,
                    inner_end <= n,
                    n == s@.len(),
                    scan_name_end(s@, name_start as int, inner_end as int) == scan_name_end(
                        s@,
                        k as int,
                        inner_end as int,
                    ),
                decreases inner_end - k,
            {
                k = k + 1;
            }
            proof {
                assert(scan_name_end(s@, name_start as int, inner_end as int) == k as int);
            }
            let name = s.substring_char(name_start, k).to_owned();
            if name.as_str().unicode_len() == 0 {
                proof {
                    assert(spec_parse(s@) == Err::<ElemModel, ParseErrModel>(
                        ParseErrModel::EmptyTagNameM,
                    ));
                }
                return Err(ParseError::EmptyTagName { at: i });
            }
            let el = Element { name, children: Vec::new(), text: String::new() };
            proof {
                assert(el.children@ =~= Seq::<Element>::empty());
                assert(elem_named(el));
                assert(ems(el.children@) =~= Seq::<ElemModel>::empty());
                assert(el.model() == ElemModel {
                    name: s@.subrange(name_start as int, k as int),
                    children: Seq::<ElemModel>::empty(),
                    text: Seq::<char>::empty(),
                });
            }
            if self_closing {
                if stack.len() == 0 {
                    if root.is_some() {
                        proof {
                            assert(spec_parse(s@) == Err::<ElemModel, ParseErrModel>(
                                ParseErrModel::SecondRootM,
                            ));
                        }
                        return Err(ParseError::SecondRoot { at: i });
                    }
                    root = Some(el);
                } else {
                    let ghost st1 = stack@;
                    let ghost el0 = el;
                    let mut parent = match stack.pop() {
                        Some(e) => e,
                        None => {
                            return Err(ParseError::NoRoot);
                        },
                    };
                    let ghost pc = parent.children@;
                    parent.children.push(el);
                    stack.push(parent);
                    proof {
                        lemma_elems_named_push(pc, el0);
                        assert(stack@ =~= st1.update(st1.len() - 1, stack@.last()));
                        assert(stack@.last().name@ == st1.last().name@);
                        assert(stack@.last().children@ == pc.push(el0));
                        assert(stm0.last() == st0.last().model());
                        lemma_ems_push(pc, el0);
                        assert(stack@.last().model() == ElemModel {
                            children: stm0.last().children.push(el0.model()),
                            ..stm0.last()
                        });
                        lemma_ems_update(st1, st1.len() - 1, stack@.last());
                        assert(ems(stack@) == stm0.update(
                            stm0.len() - 1,
                            ElemModel {
                                children: stm0.last().children.push(el0.model()),
                                ..stm0.last()
                            },
                        ));
                    }
                }
            } else {
                if stack.len() == 0 && root.is_some() {
                    proof {
                        assert(spec_parse(s@) == Err::<ElemModel, ParseErrModel>(
                            ParseErrModel::SecondRootM,
                        ));
                    }
                    return Err(ParseError::SecondRoot { at: i });
                }
                let ghost el0 = el;
                stack.push(el);
                proof {
                    lemma_ems_push(st0, el0);
                    assert(ems(stack@) == stm0.push(el0.model()));
                }
            }
            i = j + 1;
        }
    }
    proof {
        assert(i == n);
    }
    let ghost stf = stack@;
    match stack.pop() {
        Some(top) => {
            proof {
                lemma_ems(stf);
                assert(ems(stf).len() > 0);
                assert(top == stf.last());
                assert(ems(stf).last() == stf.last().model());
                assert(spec_parse(s@) == Err::<ElemModel, ParseErrModel>(
                    ParseErrModel::UnclosedElementM(top.name@),
                ));
            }
            Err(ParseError::UnclosedElement { name: top.name })
        },
        None => match root {
            Some(el) => {
                proof {
                    assert(spec_parse(s@) == Ok::<ElemModel, ParseErrModel>(el.model()));
                }
                Ok(el)
            },
            None => {
                proof {
                    assert(spec_parse(s@) == Err::<ElemModel, ParseErrModel>(
                        ParseErrModel::NoRootM,
                    ));
                }
                Err(ParseError::NoRoot)
            },
        },
    }
}

} // verus!
