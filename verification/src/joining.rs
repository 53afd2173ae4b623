//! Building route paths out of pieces: prefix joining, completion snippets and the
//! common literal prefix of several routes.
use vstd::prelude::*;
use crate::paths::{is_param_chars, is_param_seg, param_inner};
use crate::text::{
    has_char, is_prefix, join_chars, join_with, push_all, slice_chars, split_chars, split_on,
    str_chars, string_from_chars, string_views, views,
};

verus! {

broadcast use vstd::string::group_string_axioms;

/// Whether `s` starts with `/`.
pub open spec fn starts_slash(s: Seq<char>) -> bool {
    s.len() > 0 && s[0] == '/'
}

/// Appends one prefix segment to an accumulated path, never doubling the `/` at the join.
pub open spec fn join_step(acc: Seq<char>, seg: Seq<char>) -> Seq<char> {
    if acc.len() == 0 {
        seg
    } else if acc.last() == '/' && starts_slash(seg) {
        acc + seg.skip(1)
    } else if acc.last() != '/' && !starts_slash(seg) {
        acc + seq!['/'] + seg
    } else {
        acc + seg
    }
}

/// The segments joined left to right with `join_step`.
pub open spec fn joined_path(segs: Seq<Seq<char>>) -> Seq<char>
    decreases segs.len(),
{
    if segs.len() == 0 {
        Seq::<char>::empty()
    } else {
        join_step(joined_path(segs.drop_last()), segs.last())
    }
}

/// Join path segments, collapsing any doubled `//` at joins.
pub fn join_path_segments(segments: &[String]) -> (r: String)
    ensures
        r@ == joined_path(string_views(segments@)),
{
    let ghost sv = string_views(segments@);
    let mut out: Vec<char> = Vec::new();
    let mut i: usize = 0;
    while i < segments.len()
        invariant
            i <= segments@.len(),
            sv == string_views(segments@),
            out@ == joined_path(sv.take(i as int)),
        decreases segments@.len() - i,
    {
        let seg = str_chars(segments[i].as_str());
        assert(seg@ == sv[i as int]);
        assert(sv.take(i + 1).drop_last() == sv.take(i as int));
        let seg_slash = seg.len() > 0 && seg[0] == '/';
        if out.len() == 0 {
            push_all(&mut out, seg.as_slice());
        } else if out[out.len() - 1] == '/' && seg_slash {
            let rest = slice_chars(seg.as_slice(), 1, seg.len());
            push_all(&mut out, rest.as_slice());
        } else if out[out.len() - 1] != '/' && !seg_slash {
            out.push('/');
            push_all(&mut out, seg.as_slice());
        } else {
            push_all(&mut out, seg.as_slice());
        }
        i += 1;
    }
    assert(sv.take(segments@.len() as int) == sv);
    string_from_chars(out.as_slice())
}

// ── Decimal numerals ─────────────────────────────────────────────────────────

pub open spec fn digit_char(d: nat) -> char {
    if d == 0 { '0' }
    else if d == 1 { '1' }
    else if d == 2 { '2' }
    else if d == 3 { '3' }
    else if d == 4 { '4' }
    else if d == 5 { '5' }
    else if d == 6 { '6' }
    else if d == 7 { '7' }
    else if d == 8 { '8' }
    else { '9' }
}

/// The decimal numeral of `n` (`n.to_string()`).
pub open spec fn decimal(n: nat) -> Seq<char>
    decreases n,
{
    if n < 10 {
        seq![digit_char(n)]
    } else {
        decimal(n / 10).push(digit_char(n % 10))
    }
}

/// Appends the decimal numeral of `n` to `out`.
pub fn push_decimal(out: &mut Vec<char>, n: usize)
    ensures
        final(out)@ == old(out)@ + decimal(n as nat),
    decreases n,
{
    if n >= 10 {
        push_decimal(out, n / 10);
    }
    let d = n % 10;
    let c = if d == 0 { '0' } else if d == 1 { '1' } else if d == 2 { '2' } else if d == 3 {
        '3'
    } else if d == 4 { '4' } else if d == 5 { '5' } else if d == 6 { '6' } else if d == 7 {
        '7'
    } else if d == 8 { '8' } else { '9' };
    out.push(c);
}

// ── Completion snippets ──────────────────────────────────────────────────────

/// The name of a `{name}` / `{name:converter}` segment.
pub open spec fn param_name(seg: Seq<char>) -> Seq<char> {
    split_on(param_inner(seg), ':')[0]
}

/// `${k:name}`: a numbered snippet placeholder.
pub open spec fn placeholder(seg: Seq<char>, k: nat) -> Seq<char> {
    seq!['$', '{'] + decimal(k) + seq![':'] + param_name(seg) + seq!['}']
}

/// The segments with each parameter turned into the next numbered placeholder, from `k` on.
pub open spec fn snippet_segs(segs: Seq<Seq<char>>, k: nat) -> Seq<Seq<char>>
    decreases segs.len(),
{
    if segs.len() == 0 {
        Seq::<Seq<char>>::empty()
    } else if is_param_seg(segs[0]) {
        seq![placeholder(segs[0], k)] + snippet_segs(segs.drop_first(), k + 1)
    } else {
        seq![segs[0]] + snippet_segs(segs.drop_first(), k)
    }
}

/// A route path as a completion snippet: `/items/{id}` becomes `/items/${1:id}`.
pub open spec fn snippet(path: Seq<char>) -> Seq<char> {
    join_with(snippet_segs(split_on(path, '/'), 1), seq!['/'])
}

proof fn lemma_snippet_step(segs: Seq<Seq<char>>, i: int, k: nat)
    requires
        0 <= i < segs.len(),
    ensures
        snippet_segs(segs.skip(i), k) == seq![
            if is_param_seg(segs[i]) { placeholder(segs[i], k) } else { segs[i] }
        ] + snippet_segs(segs.skip(i + 1), if is_param_seg(segs[i]) { k + 1 } else { k }),
{
    assert(segs.skip(i).drop_first() == segs.skip(i + 1));
    assert(segs.skip(i)[0] == segs[i]);
}

/// Turns a route path into a completion snippet with numbered placeholders.
pub fn path_to_snippet(path: &str) -> (r: String)
    ensures
        r@ == snippet(path@),
{
    let cs = str_chars(path);
    let segs = split_chars(cs.as_slice(), '/');
    let ghost sv = views(segs@);
    let mut out: Vec<Vec<char>> = Vec::new();
    let mut counter: usize = 0;
    let mut i: usize = 0;
    assert(sv.skip(0) == sv);
    while i < segs.len()
        invariant
            i <= segs@.len(),
            counter <= i,
            sv == views(segs@),
            sv == split_on(path@, '/'),
            views(out@) + snippet_segs(sv.skip(i as int), (counter + 1) as nat)
                == snippet_segs(sv, 1),
        decreases segs@.len() - i,
    {
        proof {
            lemma_snippet_step(sv, i as int, (counter + 1) as nat);
        }
        let seg = segs[i].as_slice();
        assert(seg@ == sv[i as int]);
        let ghost before = out@;
        if is_param_chars(seg) {
            counter += 1;
            let inner = slice_chars(seg, 1, seg.len() - 1);
            let parts = split_chars(inner.as_slice(), ':');
            proof {
                crate::text::lemma_split_on_nonempty(inner@, ':');
            }
            let mut p: Vec<char> = Vec::new();
            p.push('$');
            p.push('{');
            push_decimal(&mut p, counter);
            p.push(':');
            push_all(&mut p, parts[0].as_slice());
            p.push('}');
            assert(p@ == placeholder(sv[i as int], counter as nat));
            out.push(p);
        } else {
            out.push(segs[i].clone());
        }
        assert(views(out@) == views(before).push(views(out@).last()));
        i += 1;
        assert(views(out@) + snippet_segs(sv.skip(i as int), (counter + 1) as nat)
            == snippet_segs(sv, 1));
    }
    assert(sv.skip(segs@.len() as int) == Seq::<Seq<char>>::empty());
    assert(views(out@) + Seq::<Seq<char>>::empty() == views(out@));
    let slash = vec!['/'];
    assert(slash@ == seq!['/']);
    let joined = join_chars(&out, slash.as_slice());
    string_from_chars(joined.as_slice())
}

// ── Common literal prefix of several routes ─────────────────────────────────

/// The non-empty pieces of `segs`, in order.
pub open spec fn keep_nonempty(segs: Seq<Seq<char>>) -> Seq<Seq<char>>
    decreases segs.len(),
{
    if segs.len() == 0 {
        segs
    } else if segs.last().len() > 0 {
        keep_nonempty(segs.drop_last()).push(segs.last())
    } else {
        keep_nonempty(segs.drop_last())
    }
}

/// The non-empty `/`-separated segments of a path.
pub open spec fn path_segs_nonempty(p: Seq<char>) -> Seq<Seq<char>> {
    keep_nonempty(split_on(p, '/'))
}

/// Whether segment `i` is literal and shared by every path.
pub open spec fn agree_at(segs: Seq<Seq<Seq<char>>>, i: int) -> bool {
    &&& segs.len() > 0
    &&& forall|p: int| 0 <= p < segs.len() ==> i < (#[trigger] segs[p]).len()
    &&& !segs[0][i].contains('{')
    &&& forall|p: int| 0 <= p < segs.len() ==> (#[trigger] segs[p])[i] == segs[0][i]
}

/// Number of leading segments, from `i` on, that `agree_at` holds for.
pub open spec fn common_len(segs: Seq<Seq<Seq<char>>>, i: nat) -> nat
    decreases (if segs.len() > 0 { segs[0].len() } else { 0 }) - i,
{
    if segs.len() > 0 && i < segs[0].len() && agree_at(segs, i as int) {
        common_len(segs, i + 1)
    } else {
        i
    }
}

/// The longest common path prefix of `paths` at segment boundaries, literal segments only,
/// as `/a/b`; empty when there is none.
pub open spec fn common_literal_prefix(paths: Seq<Seq<char>>) -> Seq<char> {
    let segs = paths.map_values(|p: Seq<char>| path_segs_nonempty(p));
    let k = common_len(segs, 0);
    if paths.len() == 0 || k == 0 {
        Seq::<char>::empty()
    } else {
        seq!['/'] + join_with(segs[0].take(k as int), seq!['/'])
    }
}

fn nonempty_segments(p: &str) -> (r: Vec<Vec<char>>)
    ensures
        views(r@) == path_segs_nonempty(p@),
{
    let cs = str_chars(p);
    let all = split_chars(cs.as_slice(), '/');
    let ghost av = views(all@);
    let mut out: Vec<Vec<char>> = Vec::new();
    let mut i: usize = 0;
    while i < all.len()
        invariant
            i <= all@.len(),
            av == views(all@),
            views(out@) == keep_nonempty(av.take(i as int)),
        decreases all@.len() - i,
    {
        assert(av.take(i + 1).drop_last() == av.take(i as int));
        let ghost before = out@;
        if all[i].len() > 0 {
            out.push(all[i].clone());
            assert(views(out@) == views(before).push(av[i as int]));
        }
        i += 1;
    }
    assert(av.take(all@.len() as int) == av);
    out
}

/// Extracts the longest common literal path prefix of `paths` (stops at the first
/// parameterised segment); returns the empty string when there is none.
pub fn longest_common_literal_path_prefix(paths: &[&str]) -> (r: String)
    ensures
        r@ == common_literal_prefix(paths@.map_values(|p: &str| p@)),
{
    let ghost pv = paths@.map_values(|p: &str| p@);
    let ghost segs = pv.map_values(|p: Seq<char>| path_segs_nonempty(p));
    if paths.len() == 0 {
        return String::new();
    }
    let mut per: Vec<Vec<Vec<char>>> = Vec::new();
    let mut i: usize = 0;
    while i < paths.len()
        invariant
            i <= paths@.len(),
            per@.len() == i,
            pv == paths@.map_values(|p: &str| p@),
            segs == pv.map_values(|p: Seq<char>| path_segs_nonempty(p)),
            forall|k: int| 0 <= k < i ==> views(#[trigger] per@[k]@) == segs[k],
        decreases paths@.len() - i,
    {
        let s = nonempty_segments(paths[i]);
        per.push(s);
        i += 1;
    }
    let mut k: usize = 0;
    let first_len = per[0].len();
    loop
        invariant
            per@.len() == paths@.len() > 0,
            segs.len() == paths@.len(),
            forall|q: int| 0 <= q < per@.len() ==> views(#[trigger] per@[q]@) == segs[q],
            first_len == segs[0].len(),
            k <= first_len,
            common_len(segs, 0) == common_len(segs, k as nat),
        ensures
            k <= first_len,
            common_len(segs, 0) == k,
        decreases first_len - k,
    {
        if k >= first_len {
            assert(common_len(segs, k as nat) == k);
            break;
        }
        let seg = per[0][k].as_slice();
        assert(seg@ == segs[0][k as int]);
        let mut ok = !has_char(seg, '{');
        let mut q: usize = 0;
        while ok && q < per.len()
            invariant
                per@.len() == paths@.len() > 0,
                segs.len() == paths@.len(),
                forall|q2: int| 0 <= q2 < per@.len() ==> views(#[trigger] per@[q2]@) == segs[q2],
                k < first_len == segs[0].len(),
                seg@ == segs[0][k as int],
                q <= per@.len(),
                ok ==> !segs[0][k as int].contains('{'),
                ok ==> forall|p: int| 0 <= p < q ==> k < (#[trigger] segs[p]).len() && segs[p][k as int] == segs[0][k as int],
                !ok ==> !agree_at(segs, k as int),
            decreases per@.len() - q + (if ok { 1int } else { 0int }),
        {
            assert(views(per@[q as int]@) == segs[q as int]);
            if k < per[q].len() {
                let other = per[q][k].as_slice();
                assert(other@ == segs[q as int][k as int]);
                if !crate::text::chars_eq(other, seg) {
                    ok = false;
                }
            } else {
                ok = false;
            }
            q += 1;
        }
        if !ok {
            assert(common_len(segs, k as nat) == k);
            break;
        }
        assert(agree_at(segs, k as int));
        k += 1;
    }
    if k == 0 {
        return String::new();
    }
    let mut taken: Vec<Vec<char>> = Vec::new();
    let mut j: usize = 0;
    while j < k
        invariant
            per@.len() > 0,
            j <= k <= first_len,
            first_len == per@[0]@.len(),
            views(per@[0]@) == segs[0],
            views(taken@) == segs[0].take(j as int),
        decreases k - j,
    {
        let ghost before = taken@;
        taken.push(per[0][j].clone());
        assert(views(taken@) == views(before).push(segs[0][j as int]));
        j += 1;
        assert(views(taken@) == segs[0].take(j as int));
    }
    let slash = vec!['/'];
    assert(slash@ == seq!['/']);
    let body = join_chars(&taken, slash.as_slice());
    let mut out: Vec<char> = vec!['/'];
    push_all(&mut out, body.as_slice());
    string_from_chars(out.as_slice())
}

} // verus!
