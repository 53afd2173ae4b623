//! Route path patterns: `{param}` segments, converters, normalisation and
//! shadowing between literal and parameterised routes.
use vstd::prelude::*;
use crate::text::{
    chars_eq, count_char, count_chars, join_chars, join_with, slice_chars, split_chars, split_on,
    str_chars, string_from_chars, utf8_len_is, views,
};

verus! {

broadcast use vstd::string::group_string_axioms;

/// `{...}`: a segment that starts with `{` and ends with `}`.
pub open spec fn is_param_seg(s: Seq<char>) -> bool {
    s.len() >= 2 && s[0] == '{' && s.last() == '}'
}

/// Whether a path segment is a `{param}` placeholder.
pub fn is_param_chars(seg: &[char]) -> (r: bool)
    ensures
        r == is_param_seg(seg@),
{
    seg.len() >= 2 && seg[0] == '{' && seg[seg.len() - 1] == '}'
}

/// Whether a path segment is a `{param}` placeholder.
pub fn is_param_segment(seg: &str) -> (r: bool)
    ensures
        r == is_param_seg(seg@),
{
    let cs = str_chars(seg);
    is_param_chars(cs.as_slice())
}

/// The text between the braces of a `{...}` segment.
pub open spec fn param_inner(s: Seq<char>) -> Seq<char> {
    s.subrange(1, s.len() - 1)
}

/// A segment with any parameter replaced by `{}`.
pub open spec fn normalize_seg(s: Seq<char>) -> Seq<char> {
    if is_param_seg(s) {
        seq!['{', '}']
    } else {
        s
    }
}

/// A path with every `{param}` / `{param:converter}` segment replaced by `{}`.
pub open spec fn normalized(path: Seq<char>) -> Seq<char> {
    join_with(split_on(path, '/').map_values(|s: Seq<char>| normalize_seg(s)), seq!['/'])
}

/// Normalises a path for duplicate detection: parameter names do not matter, only structure.
pub fn normalize_path_chars(path: &[char]) -> (r: Vec<char>)
    ensures
        r@ == normalized(path@),
{
    let segs = split_chars(path, '/');
    let mut out: Vec<Vec<char>> = Vec::new();
    let mut i: usize = 0;
    while i < segs.len()
        invariant
            i <= segs@.len(),
            views(out@) == views(segs@).take(i as int).map_values(|s: Seq<char>| normalize_seg(s)),
        decreases segs@.len() - i,
    {
        let ghost before = out@;
        if is_param_chars(segs[i].as_slice()) {
            out.push(vec!['{', '}']);
        } else {
            out.push(segs[i].clone());
        }
        i += 1;
        assert(views(out@) == views(before).push(normalize_seg(views(segs@)[i - 1])));
        assert(views(segs@).take(i as int) == views(segs@).take(i - 1).push(views(segs@)[i - 1]));
        assert(views(out@) == views(segs@).take(i as int).map_values(|s: Seq<char>| normalize_seg(s)));
    }
    assert(views(segs@).take(segs@.len() as int) == views(segs@));
    let slash = vec!['/'];
    assert(slash@ == seq!['/']);
    join_chars(&out, slash.as_slice())
}

/// Normalises a path for duplicate detection.
pub fn normalize_path(path: &str) -> (r: String)
    ensures
        r@ == normalized(path@),
{
    let cs = str_chars(path);
    let n = normalize_path_chars(cs.as_slice());
    string_from_chars(n.as_slice())
}

// ── Numeric literals, as std's `FromStr` for `i64` and `f64` accepts them ────

pub open spec fn is_digit(c: char) -> bool {
    '0' <= c && c <= '9'
}

pub open spec fn digit_val(c: char) -> nat {
    (c as nat - '0' as nat) as nat
}

/// The value of a run of decimal digits.
pub open spec fn digits_value(s: Seq<char>) -> nat
    decreases s.len(),
{
    if s.len() == 0 {
        0
    } else {
        digits_value(s.drop_last()) * 10 + digit_val(s.last())
    }
}

pub open spec fn all_digits(s: Seq<char>) -> bool {
    forall|i: int| 0 <= i < s.len() ==> is_digit(#[trigger] s[i])
}

/// Whether `s` has a leading sign character.
pub open spec fn has_sign(s: Seq<char>) -> bool {
    s.len() > 0 && (s[0] == '+' || s[0] == '-')
}

/// `s` without its leading sign, if any.
pub open spec fn unsigned_part(s: Seq<char>) -> Seq<char> {
    if has_sign(s) {
        s.skip(1)
    } else {
        s
    }
}

/// `s.parse::<i64>().is_ok()`: an optional `+`/`-`, then one or more ASCII digits, with a
/// value that fits in an `i64`.
pub open spec fn parses_as_i64(s: Seq<char>) -> bool {
    let body = unsigned_part(s);
    &&& body.len() > 0
    &&& all_digits(body)
    &&& if s.len() > 0 && s[0] == '-' {
        digits_value(body) <= 0x8000_0000_0000_0000
    } else {
        digits_value(body) <= 0x7FFF_FFFF_FFFF_FFFF
    }
}

proof fn lemma_digits_value_grows(s: Seq<char>, i: int)
    requires
        0 <= i <= s.len(),
        all_digits(s),
    ensures
        digits_value(s.take(i)) <= digits_value(s),
    decreases s.len(),
{
    if i < s.len() {
        assert(s.drop_last().take(i) == s.take(i));
        assert(all_digits(s.drop_last()));
        lemma_digits_value_grows(s.drop_last(), i);
    } else {
        assert(s.take(i) == s);
    }
}

/// Whether `s` parses as an `i64`.
pub fn parses_i64(s: &[char]) -> (r: bool)
    ensures
        r == parses_as_i64(s@),
{
    let mut start: usize = 0;
    if s.len() > 0 && (s[0] == '+' || s[0] == '-') {
        start = 1;
    }
    let neg = s.len() > 0 && s[0] == '-';
    let ghost body = unsigned_part(s@);
    assert(body == s@.skip(start as int));
    if start >= s.len() {
        return false;
    }
    let limit: u64 = if neg { 0x8000_0000_0000_0000 } else { 0x7FFF_FFFF_FFFF_FFFF };
    let mut v: u64 = 0;
    let mut i: usize = start;
    while i < s.len()
        invariant
            start <= i <= s@.len(),
            start < s@.len(),
            body == s@.skip(start as int),
            body == unsigned_part(s@),
            all_digits(body.take(i - start)),
            v == digits_value(body.take(i - start)),
            v <= limit,
            limit >= 0x7FFF_FFFF_FFFF_FFFF,
            neg == (s@.len() > 0 && s@[0] == '-'),
            limit == (if neg { 0x8000_0000_0000_0000u64 } else { 0x7FFF_FFFF_FFFF_FFFFu64 }),
        decreases s@.len() - i,
    {
        let c = s[i];
        if !('0' <= c && c <= '9') {
            assert(body[i - start] == c);
            assert(!is_digit(body[i - start]));
            return false;
        }
        let d: u64 = ((c as u32) - ('0' as u32)) as u64;
        assert(d <= 9);
        assert(d == digit_val(c));
        assert(body.take(i + 1 - start).drop_last() == body.take(i - start));
        assert(body.take(i + 1 - start).last() == c);
        if v > (limit - d) / 10 {
            proof {
                assert(digits_value(body.take(i + 1 - start)) == v * 10 + d);
                assert(v * 10 + d > limit) by (nonlinear_arith)
                    requires v > (limit - d) / 10, d <= 9, d <= limit;
                assert(all_digits(body.take(i + 1 - start)));
                if all_digits(body) {
                    lemma_digits_value_grows(body, i + 1 - start);
                }
            }
            return false;
        }
        proof {
            assert(v * 10 + d <= limit) by (nonlinear_arith)
                requires v <= (limit - d) / 10, d <= 9, d <= limit;
        }
        v = v * 10 + d;
        i += 1;
        assert(all_digits(body.take(i - start)));
    }
    assert(body.take(i - start) == body);
    true
}

/// Length of the run of ASCII digits in `s` starting at `i`.
pub open spec fn digit_run(s: Seq<char>, i: int) -> nat
    decreases s.len() - i,
{
    if 0 <= i < s.len() && is_digit(s[i]) {
        1 + digit_run(s, i + 1)
    } else {
        0
    }
}

/// Whether `s` equals `lower` ignoring ASCII case, with `upper` the upper-case spelling.
pub open spec fn eq_either_case(s: Seq<char>, lower: Seq<char>, upper: Seq<char>) -> bool {
    s.len() == lower.len() && forall|i: int|
        0 <= i < s.len() ==> (s[i] == #[trigger] lower[i] || s[i] == upper[i])
}

/// `inf`, `infinity` or `nan`, in any ASCII case.
pub open spec fn is_special_float(s: Seq<char>) -> bool {
    ||| eq_either_case(s, seq!['i', 'n', 'f'], seq!['I', 'N', 'F'])
    ||| eq_either_case(
        s,
        seq!['i', 'n', 'f', 'i', 'n', 'i', 't', 'y'],
        seq!['I', 'N', 'F', 'I', 'N', 'I', 'T', 'Y'],
    )
    ||| eq_either_case(s, seq!['n', 'a', 'n'], seq!['N', 'A', 'N'])
}

/// The grammar `Number ::= (Digit+ | Digit+ '.' Digit* | Digit* '.' Digit+) Exp?`,
/// `Exp ::= [eE] Sign? Digit+`, starting at the start of `s` and covering all of it.
pub open spec fn is_decimal_number(s: Seq<char>) -> bool {
    let d1 = digit_run(s, 0);
    let has_dot = d1 < s.len() && s[d1 as int] == '.';
    let after_dot: int = if has_dot { d1 as int + 1 } else { d1 as int };
    let d2: nat = if has_dot { digit_run(s, after_dot) } else { 0 };
    let mant_end = after_dot + d2;
    let has_exp = mant_end < s.len() && (s[mant_end] == 'e' || s[mant_end] == 'E');
    let exp_digits_at: int = if has_exp {
        if mant_end + 1 < s.len() && (s[mant_end + 1] == '+' || s[mant_end + 1] == '-') {
            mant_end + 2
        } else {
            mant_end + 1
        }
    } else {
        mant_end
    };
    let d3: nat = if has_exp { digit_run(s, exp_digits_at) } else { 0 };
    &&& d1 + d2 > 0
    &&& (has_exp ==> d3 > 0)
    &&& exp_digits_at + d3 == s.len()
}

/// `s.parse::<f64>().is_ok()`: the grammar of std's `FromStr for f64`
/// (`Sign? ('inf' | 'infinity' | 'nan' | Number)`, the words in any ASCII case).
pub open spec fn parses_as_f64(s: Seq<char>) -> bool {
    let body = unsigned_part(s);
    is_special_float(body) || is_decimal_number(body)
}

/// Counts the digits of `s` starting at `i`.
fn count_digit_run(s: &[char], i: usize) -> (r: usize)
    requires
        i <= s@.len(),
    ensures
        r == digit_run(s@, i as int),
        i + r <= s@.len(),
{
    let mut j: usize = i;
    while j < s.len() && '0' <= s[j] && s[j] <= '9'
        invariant
            i <= j <= s@.len(),
            digit_run(s@, i as int) == (j - i) + digit_run(s@, j as int),
        decreases s@.len() - j,
    {
        j += 1;
    }
    j - i
}

fn eq_case(s: &[char], lower: &[char], upper: &[char]) -> (r: bool)
    requires
        lower@.len() == upper@.len(),
    ensures
        r == eq_either_case(s@, lower@, upper@),
{
    if s.len() != lower.len() {
        return false;
    }
    let mut i: usize = 0;
    while i < s.len()
        invariant
            i <= s@.len(),
            s@.len() == lower@.len(),
            lower@.len() == upper@.len(),
            forall|k: int| 0 <= k < i ==> (s@[k] == #[trigger] lower@[k] || s@[k] == upper@[k]),
        decreases s@.len() - i,
    {
        if s[i] != lower[i] && s[i] != upper[i] {
            return false;
        }
        i += 1;
    }
    true
}

/// Whether `s` parses as an `f64`.
pub fn parses_f64(s: &[char]) -> (r: bool)
    ensures
        r == parses_as_f64(s@),
{
    let start: usize = if s.len() > 0 && (s[0] == '+' || s[0] == '-') { 1 } else { 0 };
    let b = slice_chars(s, start, s.len());
    assert(b@ == unsigned_part(s@));
    let body = b.as_slice();
    let inf_l = vec!['i', 'n', 'f'];
    let inf_u = vec!['I', 'N', 'F'];
    let infinity_l = vec!['i', 'n', 'f', 'i', 'n', 'i', 't', 'y'];
    let infinity_u = vec!['I', 'N', 'F', 'I', 'N', 'I', 'T', 'Y'];
    let nan_l = vec!['n', 'a', 'n'];
    let nan_u = vec!['N', 'A', 'N'];
    if eq_case(body, inf_l.as_slice(), inf_u.as_slice())
        || eq_case(body, infinity_l.as_slice(), infinity_u.as_slice())
        || eq_case(body, nan_l.as_slice(), nan_u.as_slice())
    {
        return true;
    }
    let n = body.len();
    let d1 = count_digit_run(body, 0);
    let has_dot = d1 < n && body[d1] == '.';
    let after_dot: usize = if has_dot { d1 + 1 } else { d1 };
    let d2: usize = if has_dot { count_digit_run(body, after_dot) } else { 0 };
    let mant_end = after_dot + d2;
    let has_exp = mant_end < n && (body[mant_end] == 'e' || body[mant_end] == 'E');
    let exp_digits_at: usize = if has_exp {
        if mant_end + 1 < n && (body[mant_end + 1] == '+' || body[mant_end + 1] == '-') {
            mant_end + 2
        } else {
            mant_end + 1
        }
    } else {
        mant_end
    };
    let d3: usize = if has_exp { count_digit_run(body, exp_digits_at) } else { 0 };
    d1 + d2 > 0 && (!has_exp || d3 > 0) && exp_digits_at + d3 == n
}

// ── Converters ───────────────────────────────────────────────────────────────

/// The converter named in a `{name:converter}` segment, `str` when there is none.
pub open spec fn converter_name(param_seg: Seq<char>) -> Seq<char> {
    let parts = split_on(param_inner(param_seg), ':');
    if parts.len() >= 2 {
        parts[1]
    } else {
        seq!['s', 't', 'r']
    }
}

/// Whether the converter of a param segment accepts the literal text:
/// `int` and `float` accept what parses as `i64` / `f64`, `uuid` accepts 36 bytes with
/// four dashes, every other converter accepts anything.
pub open spec fn converter_accepts_spec(param_seg: Seq<char>, literal: Seq<char>) -> bool {
    let conv = converter_name(param_seg);
    if conv == seq!['i', 'n', 't'] {
        parses_as_i64(literal)
    } else if conv == seq!['f', 'l', 'o', 'a', 't'] {
        parses_as_f64(literal)
    } else if conv == seq!['u', 'u', 'i', 'd'] {
        vstd::utf8::encode_utf8(literal).len() == 36 && count_char(literal, '-') == 4
    } else {
        true
    }
}

/// Returns true if the converter of a param segment accepts the literal text.
pub fn converter_accepts_chars(param_seg: &[char], literal: &[char]) -> (r: bool)
    requires
        is_param_seg(param_seg@),
    ensures
        r == converter_accepts_spec(param_seg@, literal@),
{
    let inner = slice_chars(param_seg, 1, param_seg.len() - 1);
    let parts = split_chars(inner.as_slice(), ':');
    let int_name = vec!['i', 'n', 't'];
    let float_name = vec!['f', 'l', 'o', 'a', 't'];
    let uuid_name = vec!['u', 'u', 'i', 'd'];
    if parts.len() < 2 {
        proof {
            assert(converter_name(param_seg@) == seq!['s', 't', 'r']);
            assert(seq!['s', 't', 'r'] != seq!['i', 'n', 't']);
            assert(seq!['s', 't', 'r'] != seq!['f', 'l', 'o', 'a', 't']);
            assert(seq!['s', 't', 'r'] != seq!['u', 'u', 'i', 'd']);
        }
        return true;
    }
    let conv = parts[1].as_slice();
    assert(conv@ == converter_name(param_seg@));
    if chars_eq(conv, int_name.as_slice()) {
        assert(int_name@ == seq!['i', 'n', 't']);
        parses_i64(literal)
    } else if chars_eq(conv, float_name.as_slice()) {
        assert(float_name@ == seq!['f', 'l', 'o', 'a', 't']);
        proof {
            assert(seq!['f', 'l', 'o', 'a', 't'] != seq!['i', 'n', 't']);
        }
        parses_f64(literal)
    } else if chars_eq(conv, uuid_name.as_slice()) {
        assert(uuid_name@ == seq!['u', 'u', 'i', 'd']);
        proof {
            assert(seq!['u', 'u', 'i', 'd'] != seq!['i', 'n', 't']);
            assert(seq!['u', 'u', 'i', 'd'] != seq!['f', 'l', 'o', 'a', 't']);
        }
        utf8_len_is(literal, 36) && count_chars(literal, '-') == 4
    } else {
        assert(int_name@ == seq!['i', 'n', 't']);
        assert(float_name@ == seq!['f', 'l', 'o', 'a', 't']);
        assert(uuid_name@ == seq!['u', 'u', 'i', 'd']);
        true
    }
}

/// Returns true if the converter of a param segment accepts the literal text.
pub fn converter_accepts(param_seg: &str, literal: &str) -> (r: bool)
    requires
        is_param_seg(param_seg@),
    ensures
        r == converter_accepts_spec(param_seg@, literal@),
{
    let p = str_chars(param_seg);
    let l = str_chars(literal);
    converter_accepts_chars(p.as_slice(), l.as_slice())
}

/// Returns true when the literal path `literal` would be matched by the param route
/// `param_route`: same number of `/`-separated segments, literal segments equal, and each
/// param segment's converter accepting the literal text in that position.
pub open spec fn shadowed_by(literal: Seq<char>, param_route: Seq<char>) -> bool {
    let l = split_on(literal, '/');
    let p = split_on(param_route, '/');
    &&& l.len() == p.len()
    &&& forall|i: int|
        0 <= i < l.len() ==> if is_param_seg(#[trigger] p[i]) {
            converter_accepts_spec(p[i], l[i])
        } else {
            l[i] == p[i]
        }
}

pub fn literal_route_shadowed_by_chars(literal: &[char], param_route: &[char]) -> (r: bool)
    ensures
        r == shadowed_by(literal@, param_route@),
{
    let l = split_chars(literal, '/');
    let p = split_chars(param_route, '/');
    if l.len() != p.len() {
        return false;
    }
    let ghost lv = views(l@);
    let ghost pv = views(p@);
    let mut i: usize = 0;
    while i < l.len()
        invariant
            i <= l@.len(),
            l@.len() == p@.len(),
            lv == views(l@),
            pv == views(p@),
            lv == split_on(literal@, '/'),
            pv == split_on(param_route@, '/'),
            forall|k: int|
                0 <= k < i ==> if is_param_seg(#[trigger] pv[k]) {
                    converter_accepts_spec(pv[k], lv[k])
                } else {
                    lv[k] == pv[k]
                },
        decreases l@.len() - i,
    {
        let ls = l[i].as_slice();
        let ps = p[i].as_slice();
        assert(pv[i as int] == ps@ && lv[i as int] == ls@);
        assert(pv[i as int] == split_on(param_route@, '/')[i as int]);
        if is_param_chars(ps) {
            if !converter_accepts_chars(ps, ls) {
                return false;
            }
        } else if !chars_eq(ls, ps) {
            return false;
        }
        i += 1;
    }
    true
}

/// Returns true when the literal path `literal` would be matched by the param route
/// `param_route`.
pub fn literal_route_shadowed_by(literal: &str, param_route: &str) -> (r: bool)
    ensures
        r == shadowed_by(literal@, param_route@),
{
    let l = str_chars(literal);
    let p = str_chars(param_route);
    literal_route_shadowed_by_chars(l.as_slice(), p.as_slice())
}

} // verus!
