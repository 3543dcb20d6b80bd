//! Lenient per-primitive coercion: boolean word buckets, integer parsing from
//! native numeric nodes or numeric-looking text, and floating-point literal
//! syntax checking.

use vstd::prelude::*;
use crate::error::DecodeError;
use crate::strutil::{lowered, trimmed, trim_str, eq_lower, is_space};

verus! {

/// The integer kinds a document can target.
#[derive(Debug, Clone, Copy, PartialEq, Eq, Structural)]
pub enum IntKind {
    I8,
    I16,
    I32,
    I64,
    U8,
    U16,
    U32,
    U64,
}

/// A raw scalar handed to the coercion layer: either a native numeric node or
/// a text token.
#[derive(Debug, Clone, PartialEq, Eq)]
pub enum ScalarNode {
    Num(i128),
    Text(String),
}

pub open spec fn kind_min(k: IntKind) -> int {
    match k {
        IntKind::I8 => -0x80,
        IntKind::I16 => -0x8000,
        IntKind::I32 => -0x8000_0000,
        IntKind::I64 => -0x8000_0000_0000_0000,
        IntKind::U8 => 0,
        IntKind::U16 => 0,
        IntKind::U32 => 0,
        IntKind::U64 => 0,
    }
}

pub open spec fn kind_max(k: IntKind) -> int {
    match k {
        IntKind::I8 => 0x7f,
        IntKind::I16 => 0x7fff,
        IntKind::I32 => 0x7fff_ffff,
        IntKind::I64 => 0x7fff_ffff_ffff_ffff,
        IntKind::U8 => 0xff,
        IntKind::U16 => 0xffff,
        IntKind::U32 => 0xffff_ffff,
        IntKind::U64 => 0xffff_ffff_ffff_ffff,
    }
}

pub open spec fn in_range(k: IntKind, v: int) -> bool {
    kind_min(k) <= v <= kind_max(k)
}

/// Number of distinct values of the kind: 2 to the power of its bit width.
pub open spec fn modulus(k: IntKind) -> int {
    match k {
        IntKind::I8 => 0x100,
        IntKind::I16 => 0x1_0000,
        IntKind::I32 => 0x1_0000_0000,
        IntKind::I64 => 0x1_0000_0000_0000_0000,
        IntKind::U8 => 0x100,
        IntKind::U16 => 0x1_0000,
        IntKind::U32 => 0x1_0000_0000,
        IntKind::U64 => 0x1_0000_0000_0000_0000,
    }
}

pub open spec fn is_signed(k: IntKind) -> bool {
    match k {
        IntKind::I8 | IntKind::I16 | IntKind::I32 | IntKind::I64 => true,
        IntKind::U8 | IntKind::U16 | IntKind::U32 | IntKind::U64 => false,
    }
}

/// Two's-complement wrap of an arbitrary integer into the kind's range: the
/// lossy conversion a native numeric cast performs.
pub open spec fn wrap_to(k: IntKind, v: int) -> int {
    let r = v % modulus(k);
    if is_signed(k) && r >= modulus(k) / 2 {
        r - modulus(k)
    } else {
        r
    }
}

pub fn kind_signed(k: &IntKind) -> (r: bool)
    ensures
        r == is_signed(*k),
{
    match k {
        IntKind::I8 | IntKind::I16 | IntKind::I32 | IntKind::I64 => true,
        IntKind::U8 | IntKind::U16 | IntKind::U32 | IntKind::U64 => false,
    }
}

fn kind_modulus(k: &IntKind) -> (r: i128)
    ensures
        r as int == modulus(*k),
{
    match k {
        IntKind::I8 => 0x100,
        IntKind::I16 => 0x1_0000,
        IntKind::I32 => 0x1_0000_0000,
        IntKind::I64 => 0x1_0000_0000_0000_0000,
        IntKind::U8 => 0x100,
        IntKind::U16 => 0x1_0000,
        IntKind::U32 => 0x1_0000_0000,
        IntKind::U64 => 0x1_0000_0000_0000_0000,
    }
}

fn kind_bounds(k: &IntKind) -> (r: (i128, i128))
    ensures
        r.0 as int == kind_min(*k),
        r.1 as int == kind_max(*k),
{
    match k {
        IntKind::I8 => (-0x80, 0x7f),
        IntKind::I16 => (-0x8000, 0x7fff),
        IntKind::I32 => (-0x8000_0000, 0x7fff_ffff),
        IntKind::I64 => (-0x8000_0000_0000_0000, 0x7fff_ffff_ffff_ffff),
        IntKind::U8 => (0, 0xff),
        IntKind::U16 => (0, 0xffff),
        IntKind::U32 => (0, 0xffff_ffff),
        IntKind::U64 => (0, 0xffff_ffff_ffff_ffff),
    }
}

/// The kind's conventional name, as it appears in schema root tags and
/// diagnostics.
pub open spec fn spec_kind_name(k: IntKind) -> Seq<char> {
    match k {
        IntKind::I8 => "i8"@,
        IntKind::I16 => "i16"@,
        IntKind::I32 => "i32"@,
        IntKind::I64 => "i64"@,
        IntKind::U8 => "u8"@,
        IntKind::U16 => "u16"@,
        IntKind::U32 => "u32"@,
        IntKind::U64 => "u64"@,
    }
}

pub fn kind_name(k: &IntKind) -> (r: &'static str)
    ensures
        r@ == spec_kind_name(*k),
{
    match k {
        IntKind::I8 => "i8",
        IntKind::I16 => "i16",
        IntKind::I32 => "i32",
        IntKind::I64 => "i64",
        IntKind::U8 => "u8",
        IntKind::U16 => "u16",
        IntKind::U32 => "u32",
        IntKind::U64 => "u64",
    }
}

/// Wraps `v` into the kind's range, as a native numeric cast would.
pub fn wrap_int(k: &IntKind, v: i128) -> (r: i128)
    ensures
        r as int == wrap_to(*k, v as int),
{
    let m = kind_modulus(k);
    let r = match v.checked_rem_euclid(m) {
        Some(x) => x,
        None => 0,
    };
    if kind_signed(k) && r >= m / 2 {
        r - m
    } else {
        r
    }
}

/// Boolean word buckets. A token (already trimmed and lower-cased) is
/// affirmative when it is one of these words.
pub open spec fn in_true_bucket(tok: Seq<char>) -> bool {
    ||| tok == "true"@
    ||| tok == "1"@
    ||| tok == "yes"@
    ||| tok == "y"@
    ||| tok == "t"@
    ||| tok == "on"@
    ||| tok == "\u{771f}"@
    ||| tok == "checked"@
    ||| tok == "selected"@
}

/// A token (already trimmed and lower-cased) is negative when it is one of
/// these words or the empty string.
pub open spec fn in_false_bucket(tok: Seq<char>) -> bool {
    ||| tok == "false"@
    ||| tok == "0"@
    ||| tok == "no"@
    ||| tok == "n"@
    ||| tok == "f"@
    ||| tok == "off"@
    ||| tok == "\u{5047}"@
    ||| tok == "null"@
    ||| tok == "none"@
    ||| tok == Seq::<char>::empty()
}

/// Coerces a text token to a boolean through the two word buckets,
/// case-insensitively and ignoring surrounding whitespace. Any other token is
/// a coercion error naming the trimmed token.
pub fn coerce_bool(raw: &str) -> (r: Result<bool, DecodeError>)
    ensures
        r == Ok::<bool, DecodeError>(true) <==> in_true_bucket(lowered(trimmed(raw@))),
        r == Ok::<bool, DecodeError>(false) <==> in_false_bucket(lowered(trimmed(raw@))),
        r matches Err(e) ==> e matches DecodeError::BoolToken { token } && token@ == trimmed(
            raw@,
        ),
{
    let t = trim_str(raw);
    let ts = t.as_str();
    if eq_lower(ts, "true") || eq_lower(ts, "1") || eq_lower(ts, "yes") || eq_lower(ts, "y")
        || eq_lower(ts, "t") || eq_lower(ts, "on") || eq_lower(ts, "\u{771f}") || eq_lower(
        ts,
        "checked",
    ) || eq_lower(ts, "selected") {
        proof {
            lemma_buckets_disjoint(lowered(trimmed(raw@)));
        }
        Ok(true)
    } else if eq_lower(ts, "false") || eq_lower(ts, "0") || eq_lower(ts, "no") || eq_lower(ts, "n")
        || eq_lower(ts, "f") || eq_lower(ts, "off") || eq_lower(ts, "\u{5047}") || eq_lower(
        ts,
        "null",
    ) || eq_lower(ts, "none") || ts.unicode_len() == 0 {
        proof {
            if t@.len() == 0 {
                assert(lowered(t@) =~= Seq::<char>::empty());
            }
            lemma_buckets_disjoint(lowered(trimmed(raw@)));
        }
        Ok(false)
    } else {
        proof {
            assert(lowered(t@).len() == t@.len());
        }
        Err(DecodeError::BoolToken { token: t })
    }
}

/// No token is in both buckets.
pub proof fn lemma_buckets_disjoint(tok: Seq<char>)
    ensures
        !(in_true_bucket(tok) && in_false_bucket(tok)),
{
    reveal_strlit("true");
    reveal_strlit("1");
    reveal_strlit("yes");
    reveal_strlit("y");
    reveal_strlit("t");
    reveal_strlit("on");
    reveal_strlit("checked");
    reveal_strlit("selected");
    reveal_strlit("false");
    reveal_strlit("0");
    reveal_strlit("no");
    reveal_strlit("n");
    reveal_strlit("f");
    reveal_strlit("off");
    reveal_strlit("null");
    reveal_strlit("none");
    reveal_strlit("\u{771f}");
    reveal_strlit("\u{5047}");
    assert("true"@.len() == 4 && "1"@.len() == 1 && "yes"@.len() == 3 && "y"@.len() == 1
        && "t"@.len() == 1 && "on"@.len() == 2 && "checked"@.len() == 7 && "selected"@.len() == 8);
    assert("false"@.len() == 5 && "0"@.len() == 1 && "no"@.len() == 2 && "n"@.len() == 1
        && "f"@.len() == 1 && "off"@.len() == 3 && "null"@.len() == 4 && "none"@.len() == 4);
    assert("\u{771f}"@.len() == 1 && "\u{5047}"@.len() == 1);
    assert("\u{771f}"@[0] != "0"@[0] && "\u{771f}"@[0] != "n"@[0] && "\u{771f}"@[0] != "f"@[0]
        && "\u{771f}"@[0] != "\u{5047}"@[0]);
    assert("1"@[0] != "\u{5047}"@[0] && "y"@[0] != "\u{5047}"@[0] && "t"@[0] != "\u{5047}"@[0]);
    assert("1"@[0] != "0"@[0] && "1"@[0] != "n"@[0] && "1"@[0] != "f"@[0]);
    assert("y"@[0] != "0"@[0] && "y"@[0] != "n"@[0] && "y"@[0] != "f"@[0]);
    assert("t"@[0] != "0"@[0] && "t"@[0] != "n"@[0] && "t"@[0] != "f"@[0]);
    assert("on"@[0] != "no"@[0]);
    assert("yes"@[0] != "off"@[0]);
    assert("true"@[0] != "null"@[0] && "true"@[0] != "none"@[0]);
}

pub open spec fn is_digit(c: char) -> bool {
    '0' <= c && c <= '9'
}

pub open spec fn digit_val(c: char) -> int {
    c as u32 - 48
}

pub open spec fn all_digits(s: Seq<char>) -> bool {
    forall|i: int| 0 <= i < s.len() ==> is_digit(#[trigger] s[i])
}

/// Value of a string of decimal digits.
pub open spec fn digits_val(s: Seq<char>) -> int
    decreases s.len(),
{
    if s.len() == 0 {
        0
    } else {
        digits_val(s.drop_last()) * 10 + digit_val(s.last())
    }
}

/// A non-empty all-digit string parses to its value; anything else does not
/// parse.
pub open spec fn parse_digits(s: Seq<char>) -> Option<int> {
    if s.len() > 0 && all_digits(s) {
        Some(digits_val(s))
    } else {
        None
    }
}

/// Locale-independent integer parsing: an optional sign followed by decimal
/// digits.
pub open spec fn parse_int(s: Seq<char>) -> Option<int> {
    if s.len() == 0 {
        None
    } else if s[0] == '-' {
        match parse_digits(s.skip(1)) {
            Some(v) => Some(-v),
            None => None,
        }
    } else if s[0] == '+' {
        parse_digits(s.skip(1))
    } else {
        parse_digits(s)
    }
}

pub proof fn lemma_digits_val_nonneg(s: Seq<char>)
    requires
        all_digits(s),
    ensures
        digits_val(s) >= 0,
    decreases s.len(),
{
    if s.len() > 0 {
        assert(all_digits(s.drop_last())) by {
            assert(forall|i: int|
                0 <= i < s.len() - 1 ==> #[trigger] s.drop_last()[i] == s[i]);
        }
        lemma_digits_val_nonneg(s.drop_last());
    }
}

/// Coerces a raw scalar to an integer of kind `k`. A native numeric node is
/// converted by two's-complement wrap, as a numeric cast would be; a text
/// token is trimmed and parsed, and is an error unless it parses to a value
/// in the kind's range.
pub fn coerce_int(k: &IntKind, node: &ScalarNode) -> (r: Result<i128, DecodeError>)
    ensures
        node matches ScalarNode::Num(v) ==> r matches Ok(x) && x as int == wrap_to(*k, v as int),
        node matches ScalarNode::Text(s) ==> {
            &&& (r is Ok <==> (parse_int(trimmed(s@)) matches Some(v) && in_range(*k, v)))
            &&& (r matches Ok(x) ==> parse_int(trimmed(s@)) == Some(x as int) && in_range(
                *k,
                x as int,
            ))
            &&& (r matches Err(e) ==> e matches DecodeError::IntToken { token, kind }
                && token@ == trimmed(s@) && kind == *k)
        },
{
    match node {
        ScalarNode::Num(v) => Ok(wrap_int(k, *v)),
        ScalarNode::Text(s) => {
            let t = trim_str(s.as_str());
            match parse_int_text(t.as_str()) {
                Some(v) => {
                    let (lo, hi) = kind_bounds(k);
                    if lo <= v && v <= hi {
                        Ok(v)
                    } else {
                        Err(DecodeError::IntToken { token: t, kind: *k })
                    }
                },
                None => Err(DecodeError::IntToken { token: t, kind: *k }),
            }
        },
    }
}

/// Parses an optional sign and decimal digits; `None` when the text is not an
/// integer or its magnitude cannot name a value of any supported kind.
fn parse_int_text(t: &str) -> (r: Option<i128>)
    ensures
        r matches Some(v) ==> parse_int(t@) == Some(v as int),
        r is None ==> match parse_int(t@) {
            Some(v) => v < -0xffff_ffff_ffff_ffff || v > 0xffff_ffff_ffff_ffff,
            None => true,
        },
{
    let n = t.unicode_len();
    if n == 0 {
        return None;
    }
    let c0 = t.get_char(0);
    let (neg, start): (bool, usize) = if c0 == '-' {
        (true, 1)
    } else if c0 == '+' {
        (false, 1)
    } else {
        (false, 0)
    };
    if start >= n {
        return None;
    }
    let ghost body = t@.skip(start as int);
    let mut acc: u128 = 0;
    let mut big: bool = false;
    let mut idx: usize = start;
    proof {
        assert(t@.subrange(start as int, start as int) =~= Seq::<char>::empty());
    }
    while idx < n
        invariant
            start <= idx <= n,
            n == t@.len(),
            start < n,
            c0 == t@[0],
            neg == (c0 == '-'),
            (c0 == '-' || c0 == '+') ==> start == 1,
            (c0 != '-' && c0 != '+') ==> start == 0,
            all_digits(t@.subrange(start as int, idx as int)),
            !big ==> acc as int == digits_val(t@.subrange(start as int, idx as int)) && acc
                <= 0xffff_ffff_ffff_ffffu128,
            big ==> digits_val(t@.subrange(start as int, idx as int))
                > 0xffff_ffff_ffff_ffff,
        decreases n - idx,
    {
        let c = t.get_char(idx);
        if !(c >= '0' && c <= '9') {
            proof {
                let bd = t@.skip(start as int);
                assert(bd[idx - start] == t@[idx as int]);
                assert(!all_digits(bd));
                if c0 != '-' && c0 != '+' {
                    assert(t@.skip(0) =~= t@);
                }
            }
            return None;
        }
        let d: u128 = (c as u32 - 48) as u128;
        proof {
            let pre = t@.subrange(start as int, idx as int);
            let post = t@.subrange(start as int, idx + 1 as int);
            assert(post.drop_last() =~= pre);
            assert(post.last() == t@[idx as int]);
            if big {
                lemma_digits_val_nonneg(pre);
            }
        }
        if !big {
            acc = acc * 10 + d;
            if acc > 0xffff_ffff_ffff_ffffu128 {
                big = true;
            }
        }
        idx = idx + 1;
    }
    proof {
        assert(t@.subrange(start as int, n as int) =~= body);
        lemma_digits_val_nonneg(body);
        if neg {
            assert(t@[0] == '-');
            assert(parse_int(t@) == Some(-digits_val(body)));
        } else if c0 == '+' {
            assert(parse_int(t@) == Some(digits_val(body)));
        } else {
            assert(t@.skip(0) =~= t@);
            assert(parse_int(t@) == Some(digits_val(body)));
        }
    }
    if big {
        return None;
    }
    let mag: i128 = acc as i128;
    let v: i128 = if neg {
        -mag
    } else {
        mag
    };
    Some(v)
}

/// The decimal digit character for `d`.
pub open spec fn digit_char(d: int) -> char {
    ((d + 48) as u8) as char
}

/// Canonical decimal rendering of a non-negative integer.
pub open spec fn int_to_digits(n: nat) -> Seq<char>
    decreases n,
{
    if n < 10 {
        seq![digit_char(n as int)]
    } else {
        int_to_digits(n / 10).push(digit_char((n % 10) as int))
    }
}

/// Canonical decimal rendering of an integer, with a leading minus sign when
/// negative.
pub open spec fn int_to_text(v: int) -> Seq<char> {
    if v < 0 {
        seq!['-'] + int_to_digits((-v) as nat)
    } else {
        int_to_digits(v as nat)
    }
}

proof fn lemma_render_digits(n: nat)
    ensures
        all_digits(int_to_digits(n)),
        int_to_digits(n).len() >= 1,
        digits_val(int_to_digits(n)) == n,
    decreases n,
{
    if n < 10 {
        let s = int_to_digits(n);
        assert(s.drop_last() =~= Seq::<char>::empty());
        assert(digits_val(Seq::<char>::empty()) == 0);
        assert(s.last() == digit_char(n as int));
        assert(digit_val(digit_char(n as int)) == n);
        assert(is_digit(digit_char(n as int)));
    } else {
        lemma_render_digits(n / 10);
        let r = int_to_digits(n / 10);
        let c = digit_char((n % 10) as int);
        let s = r.push(c);
        assert(s.drop_last() =~= r);
        assert(s.last() == c);
        assert(is_digit(c));
        assert(digit_val(c) == n % 10);
        assert(n / 10 * 10 + n % 10 == n) by {
            vstd::arithmetic::div_mod::lemma_fundamental_div_mod(n as int, 10);
        }
        assert(forall|i: int| 0 <= i < s.len() ==> is_digit(#[trigger] s[i])) by {
            assert(forall|i: int| 0 <= i < r.len() ==> s[i] == #[trigger] r[i]);
        }
    }
}

/// Numeric coercion agrees between a native numeric node and its textual
/// representation: for any value in the kind's range, the native node wraps
/// to itself and the canonical decimal text parses back to the same value, so
/// `coerce_int` returns the identical value for both inputs.
pub proof fn lemma_numeric_node_text_agree(k: IntKind, v: int)
    requires
        in_range(k, v),
    ensures
        wrap_to(k, v) == v,
        trimmed(int_to_text(v)) == int_to_text(v),
        parse_int(int_to_text(v)) == Some(v),
{
    let m = modulus(k);
    if v >= 0 {
        vstd::arithmetic::div_mod::lemma_small_mod(v as nat, m as nat);
        assert(wrap_to(k, v) == v);
    } else {
        vstd::arithmetic::div_mod::lemma_mod_add_multiples_vanish(v, m);
        vstd::arithmetic::div_mod::lemma_small_mod((v + m) as nat, m as nat);
        assert(v % m == v + m);
        assert(wrap_to(k, v) == v);
    }
    let s = int_to_text(v);
    if v >= 0 {
        lemma_render_digits(v as nat);
        assert(is_digit(s[0]));
        assert(!is_space(s[0]) && !is_space(s.last()));
        crate::strutil::lemma_trim_noop(s);
        assert(s[0] != '-' && s[0] != '+');
        assert(parse_int(s) == Some(v));
    } else {
        lemma_render_digits((-v) as nat);
        let d = int_to_digits((-v) as nat);
        assert(s[0] == '-');
        assert(s.last() == d.last());
        assert(is_digit(d.last()));
        assert(!is_space(s[0]) && !is_space(s.last()));
        crate::strutil::lemma_trim_noop(s);
        assert(s.skip(1) =~= d);
        assert(parse_int(s) == Some(-digits_val(d)));
    }
}

/// Index of the first character at or after `from` that is not a decimal
/// digit (the length when all remaining characters are digits).
pub open spec fn digits_end(s: Seq<char>, from: int) -> int
    decreases s.len() - from when 0 <= from <= s.len()
{
    if from >= s.len() {
        s.len() as int
    } else if is_digit(s[from]) {
        digits_end(s, from + 1)
    } else {
        from
    }
}

proof fn lemma_digits_end_bounds(s: Seq<char>, from: int)
    requires
        0 <= from <= s.len(),
    ensures
        from <= digits_end(s, from) <= s.len(),
    decreases s.len() - from,
{
    if from < s.len() && is_digit(s[from]) {
        lemma_digits_end_bounds(s, from + 1);
    }
}

/// End of the mantissa of a float literal whose digits begin at `i0`:
/// digits, optionally followed by a point and further digits, or a point
/// followed by at least one digit. `None` when there is no mantissa.
pub open spec fn mantissa_end(s: Seq<char>, i0: int) -> Option<int> {
    let d1 = digits_end(s, i0);
    if d1 > i0 {
        if d1 < s.len() && s[d1] == '.' {
            Some(digits_end(s, d1 + 1))
        } else {
            Some(d1)
        }
    } else if i0 < s.len() && s[i0] == '.' {
        let d2 = digits_end(s, i0 + 1);
        if d2 > i0 + 1 {
            Some(d2)
        } else {
            None
        }
    } else {
        None
    }
}

/// What may follow a mantissa ending at `i`: nothing, or an exponent marker
/// with an optional sign and at least one digit reaching the end.
pub open spec fn exp_ok(s: Seq<char>, i: int) -> bool {
    if i == s.len() {
        true
    } else if 0 <= i < s.len() && (s[i] == 'e' || s[i] == 'E') {
        let j = if i + 1 < s.len() && (s[i + 1] == '+' || s[i + 1] == '-') {
            i + 2
        } else {
            i + 1
        };
        j < s.len() && digits_end(s, j) == s.len()
    } else {
        false
    }
}

/// The decimal floating-point literal syntax accepted for float-kind scalars:
/// an optional sign, then either a mantissa with optional exponent or one of
/// the special words `inf`, `infinity`, `nan` (case-insensitive).
pub open spec fn is_float_literal(s: Seq<char>) -> bool {
    let i0: int = if s.len() > 0 && (s[0] == '+' || s[0] == '-') {
        1
    } else {
        0
    };
    let rest = s.skip(i0);
    ||| lowered(rest) == "inf"@
    ||| lowered(rest) == "infinity"@
    ||| lowered(rest) == "nan"@
    ||| match mantissa_end(s, i0) {
        Some(me) => exp_ok(s, me),
        None => false,
    }
}

fn digits_end_exec(s: &str, from: usize, n: usize) -> (r: usize)
    requires
        from <= n,
        n == s@.len(),
    ensures
        r as int == digits_end(s@, from as int),
        from <= r <= n,
{
    let mut i = from;
    while i < n && s.get_char(i) >= '0' && s.get_char(i) <= '9'
        invariant
            from <= i <= n,
            n == s@.len(),
            digits_end(s@, from as int) == digits_end(s@, i as int),
        decreases n - i,
    {
        i = i + 1;
    }
    proof {
        lemma_digits_end_bounds(s@, i as int);
    }
    i
}

/// Whether the trimmed token has floating-point literal syntax.
pub fn is_float_token(s: &str) -> (r: bool)
    ensures
        r == is_float_literal(s@),
{
    let n = s.unicode_len();
    let i0: usize = if n > 0 && {
        let c = s.get_char(0);
        c == '+' || c == '-'
    } {
        1
    } else {
        0
    };
    let rest = s.substring_char(i0, n);
    proof {
        assert(s@.subrange(i0 as int, n as int) =~= s@.skip(i0 as int));
    }
    if eq_lower(rest, "inf") || eq_lower(rest, "infinity") || eq_lower(rest, "nan") {
        return true;
    }
    let d1 = digits_end_exec(s, i0, n);
    let me: usize;
    if d1 > i0 {
        if d1 < n && s.get_char(d1) == '.' {
            me = digits_end_exec(s, d1 + 1, n);
        } else {
            me = d1;
        }
    } else if i0 < n && s.get_char(i0) == '.' {
        let d2 = digits_end_exec(s, i0 + 1, n);
        if d2 > i0 + 1 {
            me = d2;
        } else {
            return false;
        }
    } else {
        return false;
    }
    if me == n {
        return true;
    }
    let c = s.get_char(me);
    if c == 'e' || c == 'E' {
        let j: usize = if me + 1 < n && {
            let c1 = s.get_char(me + 1);
            c1 == '+' || c1 == '-'
        } {
            me + 2
        } else {
            me + 1
        };
        if j < n {
            let d3 = digits_end_exec(s, j, n);
            d3 == n
        } else {
            false
        }
    } else {
        false
    }
}

/// Validates a float-valued text token: the trimmed token is returned for the
/// caller to convert at the boundary, or a coercion error names it.
pub fn coerce_float(raw: &str) -> (r: Result<String, DecodeError>)
    ensures
        r is Ok <==> is_float_literal(trimmed(raw@)),
        r matches Ok(t) ==> t@ == trimmed(raw@),
        r matches Err(e) ==> e matches DecodeError::FloatToken { token } && token@ == trimmed(
            raw@,
        ),
{
    let t = trim_str(raw);
    if is_float_token(t.as_str()) {
        Ok(t)
    } else {
        Err(DecodeError::FloatToken { token: t })
    }
}

} // verus!
