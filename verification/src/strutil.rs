//! Character-level string utilities: whitespace trimming, case-insensitive
//! comparison, and substring search, each against an exact mathematical
//! statement over `Seq<char>`.

use vstd::prelude::*;

verus! {

broadcast use vstd::string::group_string_axioms;

/// The whitespace characters that trimming removes.
pub open spec fn is_space(c: char) -> bool {
    c == ' ' || c == '\t' || c == '\n' || c == '\r'
}

/// `s` without its leading whitespace.
pub open spec fn trim_front(s: Seq<char>) -> Seq<char>
    decreases s.len(),
{
    if s.len() == 0 {
        s
    } else if is_space(s[0]) {
        trim_front(s.skip(1))
    } else {
        s
    }
}

/// `s` without its trailing whitespace.
pub open spec fn trim_back(s: Seq<char>) -> Seq<char>
    decreases s.len(),
{
    if s.len() == 0 {
        s
    } else if is_space(s.last()) {
        trim_back(s.drop_last())
    } else {
        s
    }
}

/// `s` without surrounding whitespace.
pub open spec fn trimmed(s: Seq<char>) -> Seq<char> {
    trim_back(trim_front(s))
}

/// Trimming leaves a string untouched when neither end is whitespace.
pub proof fn lemma_trim_noop(s: Seq<char>)
    requires
        s.len() > 0,
        !is_space(s[0]),
        !is_space(s.last()),
    ensures
        trimmed(s) == s,
{
}

pub fn is_space_char(c: char) -> (r: bool)
    ensures
        r == is_space(c),
{
    c == ' ' || c == '\t' || c == '\n' || c == '\r'
}

/// Returns `s` with surrounding whitespace removed.
pub fn trim_str(s: &str) -> (r: String)
    ensures
        r@ == trimmed(s@),
{
    let n = s.unicode_len();
    let mut i: usize = 0;
    proof {
        assert(s@.skip(0) =~= s@);
    }
    while i < n && is_space_char(s.get_char(i))
        invariant
            i <= n,
            n == s@.len(),
            trim_front(s@) == trim_front(s@.skip(i as int)),
        decreases n - i,
    {
        proof {
            assert(s@.skip(i as int).skip(1) =~= s@.skip(i as int + 1));
        }
        i = i + 1;
    }
    let ghost t = s@.skip(i as int);
    proof {
        if i < n {
            assert(trim_front(s@) == t);
        } else {
            assert(t =~= Seq::<char>::empty());
            assert(trim_front(s@) == t);
        }
    }
    let mut j: usize = n;
    proof {
        assert(t.take(n - i as int) =~= t);
    }
    while j > i && is_space_char(s.get_char(j - 1))
        invariant
            i <= j <= n,
            n == s@.len(),
            t == s@.skip(i as int),
            trim_back(t) == trim_back(t.take(j - i as int)),
        decreases j,
    {
        proof {
            let u = t.take(j - i as int);
            assert(u.last() == s@[j - 1]);
            assert(u.drop_last() =~= t.take(j - 1 - i as int));
        }
        j = j - 1;
    }
    proof {
        let u = t.take(j - i as int);
        if j > i {
            assert(u.last() == s@[j - 1]);
            assert(trim_back(u) == u);
        } else {
            assert(u =~= Seq::<char>::empty());
            assert(trim_back(u) == u);
        }
        assert(u =~= s@.subrange(i as int, j as int));
    }
    let r = s.substring_char(i, j);
    r.to_owned()
}

/// Character-for-character equality of two string slices.
pub fn str_eq(a: &str, b: &str) -> (r: bool)
    ensures
        r == (a@ == b@),
{
    let na = a.unicode_len();
    let nb = b.unicode_len();
    if na != nb {
        proof {
            assert(a@.len() != b@.len());
        }
        return false;
    }
    let mut i: usize = 0;
    while i < na
        invariant
            i <= na,
            na == a@.len(),
            na == b@.len(),
            forall|k: int| 0 <= k < i ==> a@[k] == b@[k],
        decreases na - i,
    {
        if a.get_char(i) != b.get_char(i) {
            return false;
        }
        i = i + 1;
    }
    proof {
        assert(a@ =~= b@);
    }
    true
}

/// ASCII lower-casing of one character; all others pass through unchanged.
pub open spec fn lower_char(c: char) -> char {
    if 'A' <= c && c <= 'Z' {
        (((c as u8) + 32) as char)
    } else {
        c
    }
}

/// ASCII lower-casing of a character sequence.
pub open spec fn lowered(s: Seq<char>) -> Seq<char> {
    s.map_values(|c: char| lower_char(c))
}

pub fn lower_char_exec(c: char) -> (r: char)
    ensures
        r == lower_char(c),
{
    if 'A' <= c && c <= 'Z' {
        ((c as u8) + 32) as char
    } else {
        c
    }
}

/// True when `a`, lower-cased, equals `b` (which callers pass already in
/// lower case).
pub fn eq_lower(a: &str, b: &str) -> (r: bool)
    ensures
        r == (lowered(a@) == b@),
{
    let na = a.unicode_len();
    let nb = b.unicode_len();
    if na != nb {
        proof {
            assert(lowered(a@).len() == a@.len());
        }
        return false;
    }
    let mut i: usize = 0;
    while i < na
        invariant
            i <= na,
            na == a@.len(),
            na == b@.len(),
            forall|k: int| 0 <= k < i ==> lower_char(a@[k]) == b@[k],
        decreases na - i,
    {
        if lower_char_exec(a.get_char(i)) != b.get_char(i) {
            proof {
                assert(lowered(a@)[i as int] == lower_char(a@[i as int]));
            }
            return false;
        }
        i = i + 1;
    }
    proof {
        assert(lowered(a@) =~= b@);
    }
    true
}

/// The pattern `p` occurs in `s` starting at character position `i`.
pub open spec fn matches_at(s: Seq<char>, p: Seq<char>, i: int) -> bool {
    0 <= i && i + p.len() <= s.len() && s.subrange(i, i + p.len()) == p
}

/// First occurrence of `p` in `s`, by character position.
pub fn find_sub(s: &str, p: &str) -> (r: Option<usize>)
    ensures
        r matches Some(i) ==> matches_at(s@, p@, i as int) && (forall|j: int|
            0 <= j < i ==> !matches_at(s@, p@, j)),
        r is None ==> forall|j: int| !matches_at(s@, p@, j),
{
    let n = s.unicode_len();
    let m = p.unicode_len();
    if m > n {
        return None;
    }
    if m == 0 {
        proof {
            assert(s@.subrange(0, 0) =~= p@);
        }
        return Some(0);
    }
    let mut i: usize = 0;
    while i <= n - m
        invariant
            0 <= i <= n - m + 1,
            0 < m <= n,
            n == s@.len(),
            m == p@.len(),
            forall|j: int| 0 <= j < i ==> !matches_at(s@, p@, j),
        decreases n - i,
    {
        let cand = s.substring_char(i, i + m);
        if str_eq(cand, p) {
            proof {
                assert(matches_at(s@, p@, i as int));
            }
            return Some(i);
        }
        proof {
            assert(!matches_at(s@, p@, i as int));
        }
        i = i + 1;
    }
    proof {
        assert(forall|j: int| j > n - m ==> !matches_at(s@, p@, j));
    }
    None
}

/// Last occurrence of `p` in `s`, by character position.
pub fn rfind_sub(s: &str, p: &str) -> (r: Option<usize>)
    ensures
        r matches Some(i) ==> matches_at(s@, p@, i as int) && (forall|j: int|
            i < j ==> !matches_at(s@, p@, j)),
        r is None ==> forall|j: int| !matches_at(s@, p@, j),
{
    let n = s.unicode_len();
    let m = p.unicode_len();
    if m > n {
        return None;
    }
    let mut i: usize = n - m;
    loop
        invariant
            0 <= i <= n - m,
            m <= n,
            n == s@.len(),
            m == p@.len(),
            forall|j: int| i < j ==> !matches_at(s@, p@, j),
        decreases i + 1,
    {
        let cand = s.substring_char(i, i + m);
        if str_eq(cand, p) {
            proof {
                assert(matches_at(s@, p@, i as int));
            }
            return Some(i);
        }
        proof {
            assert(!matches_at(s@, p@, i as int));
        }
        if i == 0 {
            return None;
        }
        i = i - 1;
    }
}

} // verus!
