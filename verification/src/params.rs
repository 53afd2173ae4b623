//! Path parameters that no handler argument binds (`route/param-missing-arg`), and
//! handler arguments that look like a misspelt path parameter (`route/arg-missing-param`).
use vstd::prelude::*;
use crate::position::{Range, Position};
use crate::offset::utf16_len;
use crate::text::{occurs_at, matches_at};
use crate::distance::{capped_distance, edit_distance};
use crate::checks::{somes, first_match, diag_view, diag_views, lemma_first_match_step, lemma_first_match_none, lemma_first_match_bound, in_file, dedup_views, dedup_diags, lemma_dedup_views, DiagView, resolved_refs, resolved_records, derefs};
use crate::diagnostics::{param_missing_arg_diag, arg_missing_param_diag, source_name};
use crate::report::{Severity, Tag};
use crate::report::Diagnostic;
use crate::routing::{RouteRecord, PathParam, ResolvedPath, RouteIndex};
use crate::text::{str_chars, string_from_chars, is_prefix, is_suffix, slice_chars, starts_with, ends_with, chars_eq};
use crate::pysource::{trim, trim_chars};

verus! {

broadcast use vstd::string::group_string_axioms;

/// `Depends(`.
pub open spec fn depends_open() -> Seq<char> {
    seq!['D', 'e', 'p', 'e', 'n', 'd', 's', '(']
}

/// The function named by a `Depends(name)` expression (surrounding white space allowed),
/// if it names one.
pub open spec fn depends_target(text: Seq<char>) -> Option<Seq<char>> {
    let t = trim(text);
    if is_prefix(depends_open(), t) && t.len() >= 9 && t.last() == ')' {
        let name = trim(t.subrange(8, t.len() - 1));
        if name.len() > 0 {
            Some(name)
        } else {
            None
        }
    } else {
        None
    }
}

/// Parses `Depends(fn_name)` (or `Depends(mod.fn_name)`) into the function's name.
pub fn parse_depends_fn_name(text: &str) -> (r: Option<String>)
    ensures
        match r {
            Some(s) => depends_target(text@) == Some(s@),
            None => depends_target(text@) is None,
        },
{
    let cs = str_chars(text);
    let t = trim_chars(cs.as_slice());
    let open: Vec<char> = vec!['D', 'e', 'p', 'e', 'n', 'd', 's', '('];
    assert(open@ == depends_open());
    if !starts_with(&t, &open) || t.len() < 9 || t[t.len() - 1] != ')' {
        return None;
    }
    let inner = slice_chars(&t, 8, t.len() - 1);
    let name = trim_chars(inner.as_slice());
    if name.len() == 0 {
        None
    } else {
        Some(string_from_chars(name.as_slice()))
    }
}


/// What the parameter checks know of the workspace's functions.
#[derive(Clone, Debug)]
pub struct ParamFacts {
    /// The `Depends(...)` text of every annotated parameter, with its function.
    pub annotated: Vec<(String, String)>,
    /// Type aliases that wrap a dependency (`Alias = Annotated[T, Depends(fn)]`): alias and
    /// dependency function; a later entry for the same alias replaces an earlier one.
    pub dep_type_aliases: Vec<(String, String)>,
    /// Parameters typed with a plain name (`p: Alias`): function and type name.
    pub plain_typed: Vec<(String, String)>,
    /// The parameter names of each dependency function (the first entry of a name counts).
    pub dep_params: Vec<(String, Vec<String>)>,
}

/// The dependencies that function `f` declares through `Depends(...)` in its signature.
pub open spec fn sig_deps(ann: Seq<(String, String)>, f: Seq<char>) -> Seq<Seq<char>>
    decreases ann.len(),
{
    if ann.len() == 0 {
        Seq::empty()
    } else {
        sig_deps(ann.drop_last(), f) + if ann.last().0@ == f && depends_target(ann.last().1@) is Some {
            seq![depends_target(ann.last().1@)->0]
        } else {
            Seq::empty()
        }
    }
}

/// Every dependency named by some annotated parameter.
pub open spec fn all_targets(ann: Seq<(String, String)>) -> Seq<Seq<char>>
    decreases ann.len(),
{
    if ann.len() == 0 {
        Seq::empty()
    } else {
        all_targets(ann.drop_last()) + if depends_target(ann.last().1@) is Some {
            seq![depends_target(ann.last().1@)->0]
        } else {
            Seq::empty()
        }
    }
}

proof fn lemma_sig_deps_in_targets(ann: Seq<(String, String)>, f: Seq<char>, x: Seq<char>)
    requires
        sig_deps(ann, f).contains(x),
    ensures
        all_targets(ann).contains(x),
    decreases ann.len(),
{
    if ann.len() > 0 {
        let prev = sig_deps(ann.drop_last(), f);
        let k = choose|k: int| 0 <= k < sig_deps(ann, f).len() && sig_deps(ann, f)[k] == x;
        if k < prev.len() {
            assert(prev[k] == x);
            lemma_sig_deps_in_targets(ann.drop_last(), f, x);
            let j = choose|j: int| 0 <= j < all_targets(ann.drop_last()).len() && all_targets(ann.drop_last())[j] == x;
            assert(all_targets(ann)[j] == x);
        } else {
            assert(all_targets(ann)[all_targets(ann.drop_last()).len() as int] == x);
        }
    }
}

/// The dependency that type alias `t` wraps (the last entry for `t`).
pub open spec fn alias_of(aliases: Seq<(String, String)>, t: Seq<char>) -> Option<Seq<char>>
    decreases aliases.len(),
{
    if aliases.len() == 0 {
        None
    } else if aliases.last().0@ == t {
        Some(aliases.last().1@)
    } else {
        alias_of(aliases.drop_last(), t)
    }
}

/// The plain type names of the parameters of function `f`.
pub open spec fn plain_types(pt: Seq<(String, String)>, f: Seq<char>) -> Seq<Seq<char>> {
    pt.filter(|p: (String, String)| p.0@ == f).map_values(|p: (String, String)| p.1@)
}

/// The dependencies reached through `f`'s plain-typed parameters whose type is a
/// dependency alias.
pub open spec fn alias_deps(pt: Seq<(String, String)>, aliases: Seq<(String, String)>, f: Seq<char>) -> Seq<Seq<char>>
    decreases pt.len(),
{
    if pt.len() == 0 {
        Seq::empty()
    } else {
        alias_deps(pt.drop_last(), aliases, f) + if pt.last().0@ == f && alias_of(aliases, pt.last().1@) is Some {
            seq![alias_of(aliases, pt.last().1@)->0]
        } else {
            Seq::empty()
        }
    }
}

/// The parameter names of dependency `d` (none when it is unknown).
pub open spec fn dep_params_of(dp: Seq<(String, Vec<String>)>, d: Seq<char>) -> Seq<Seq<char>>
    decreases dp.len(),
{
    if dp.len() == 0 {
        Seq::empty()
    } else if dp[0].0@ == d {
        dp[0].1@.map_values(|x: String| x@)
    } else {
        dep_params_of(dp.drop_first(), d)
    }
}

/// `s` without its leading `c` characters.
pub open spec fn trim_leading(s: Seq<char>, c: char) -> Seq<char>
    decreases s.len(),
{
    if s.len() > 0 && s[0] == c {
        trim_leading(s.drop_first(), c)
    } else {
        s
    }
}

/// The position of the last `c` in `s`.
pub open spec fn last_index(s: Seq<char>, c: char) -> Option<int>
    decreases s.len(),
{
    if s.len() == 0 {
        None
    } else if s.last() == c {
        Some(s.len() - 1)
    } else {
        last_index(s.drop_last(), c)
    }
}

/// The Python function that handles a route, read from its identifier
/// `<uri>:<function>:<METHOD>` (the route name when the identifier has another shape).
pub open spec fn handler_func(r: RouteRecord) -> Seq<char> {
    let id = r.id@;
    let u = r.handler.uri@;
    if is_prefix(u, id) {
        let rest = trim_leading(id.skip(u.len() as int), ':');
        match last_index(rest, ':') {
            Some(p) => rest.take(p),
            None => rest,
        }
    } else {
        r.name@
    }
}

/// Where the search for the dependencies that bind a route's parameters starts: the
/// decorator's `dependencies=[...]`, the handler's `Depends(...)` parameters, and the
/// dependencies behind the handler's alias-typed parameters.
pub open spec fn seeds_of(r: RouteRecord, f: ParamFacts) -> Seq<Seq<char>> {
    let h = handler_func(r);
    r.dependencies@.map_values(|x: String| x@) + sig_deps(f.annotated@, h) + alias_deps(f.plain_typed@, f.dep_type_aliases@, h)
}

/// A chain of dependencies, each declaring the next through `Depends(...)`.
pub open spec fn dep_walk(ann: Seq<(String, String)>, p: Seq<Seq<char>>) -> bool {
    &&& p.len() >= 1
    &&& forall|i: int| 0 <= i < p.len() - 1 ==> sig_deps(ann, #[trigger] p[i]).contains(p[i + 1])
}

/// Dependency `d` is reached from `seeds` through `Depends(...)` declarations.
pub open spec fn reached(ann: Seq<(String, String)>, seeds: Seq<Seq<char>>, d: Seq<char>) -> bool {
    exists|p: Seq<Seq<char>>| dep_walk(ann, p) && seeds.contains(p[0]) && p.last() == d
}

/// A distinct sequence drawn from `u` is no longer than `u`.
pub proof fn lemma_distinct_subseq_len<A>(a: Seq<A>, u: Seq<A>)
    requires
        a.no_duplicates(),
        forall|i: int| 0 <= i < a.len() ==> u.contains(#[trigger] a[i]),
    ensures
        a.len() <= u.len(),
    decreases a.len(),
{
    if a.len() > 0 {
        let x = a.last();
        let k = choose|k: int| 0 <= k < u.len() && u[k] == x;
        let u2 = u.remove(k);
        let a2 = a.drop_last();
        assert forall|i: int| 0 <= i < a2.len() implies u2.contains(#[trigger] a2[i]) by {
            assert(a2[i] == a[i]);
            assert(a[i] != x);
            let j = choose|j: int| 0 <= j < u.len() && u[j] == a[i];
            if j < k {
                assert(u2[j] == a[i]);
            } else {
                assert(j != k);
                assert(u2[j - 1] == a[i]);
            }
        }
        lemma_distinct_subseq_len(a2, u2);
    }
}


/// The views of a list of strings.
pub open spec fn svs(v: Seq<String>) -> Seq<Seq<char>> {
    v.map_values(|x: String| x@)
}

fn copy_strings(v: &[String]) -> (r: Vec<String>)
    ensures
        svs(r@) == svs(v@),
{
    let mut r: Vec<String> = Vec::new();
    let mut i: usize = 0;
    while i < v.len()
        invariant
            i <= v@.len(),
            svs(r@) == svs(v@).take(i as int),
        decreases v@.len() - i,
    {
        let ghost before = r@;
        r.push(v[i].clone());
        assert(svs(r@) =~= svs(before).push(v@[i as int]@));
        i += 1;
        assert(svs(v@).take(i as int) =~= svs(v@).take(i - 1).push(v@[i - 1]@));
    }
    assert(svs(v@).take(v@.len() as int) =~= svs(v@));
    r
}

fn append_strings(out: &mut Vec<String>, v: &[String])
    ensures
        svs(final(out)@) == svs(old(out)@) + svs(v@),
{
    let mut i: usize = 0;
    while i < v.len()
        invariant
            i <= v@.len(),
            svs(out@) == svs(old(out)@) + svs(v@).take(i as int),
        decreases v@.len() - i,
    {
        let ghost before = out@;
        out.push(v[i].clone());
        assert(svs(out@) =~= svs(before).push(v@[i as int]@));
        i += 1;
        assert(svs(v@).take(i as int) =~= svs(v@).take(i - 1).push(v@[i - 1]@));
    }
    assert(svs(v@).take(v@.len() as int) =~= svs(v@));
}

pub(crate) fn contains_string(v: &[String], x: &String) -> (b: bool)
    ensures
        b == svs(v@).contains(x@),
{
    let mut i: usize = 0;
    while i < v.len()
        invariant
            i <= v@.len(),
            forall|j: int| 0 <= j < i ==> (#[trigger] v@[j])@ != x@,
        decreases v@.len() - i,
    {
        if v[i] == *x {
            assert(svs(v@)[i as int] == x@);
            return true;
        }
        i += 1;
    }
    proof {
        if svs(v@).contains(x@) {
            let j = choose|j: int| 0 <= j < svs(v@).len() && #[trigger] svs(v@)[j] == x@;
            assert(v@[j]@ == x@);
        }
    }
    false
}

/// The dependencies that function `f` declares through `Depends(...)` (see `sig_deps`).
fn declared_deps(ann: &[(String, String)], f: &str) -> (r: Vec<String>)
    ensures
        svs(r@) == sig_deps(ann@, f@),
{
    let fs: String = f.to_owned();
    let mut r: Vec<String> = Vec::new();
    let mut i: usize = 0;
    while i < ann.len()
        invariant
            i <= ann@.len(),
            fs@ == f@,
            svs(r@) == sig_deps(ann@.take(i as int), f@),
        decreases ann@.len() - i,
    {
        assert(ann@.take(i + 1).drop_last() =~= ann@.take(i as int));
        if ann[i].0 == fs {
            match parse_depends_fn_name(ann[i].1.as_str()) {
                Some(t) => {
                    let ghost before = r@;
                    r.push(t);
                    assert(svs(r@) =~= svs(before).push(t@));
                },
                None => {
                    assert(svs(r@) =~= svs(r@) + Seq::<Seq<char>>::empty());
                },
            }
        } else {
            assert(svs(r@) =~= svs(r@) + Seq::<Seq<char>>::empty());
        }
        i += 1;
    }
    assert(ann@.take(ann@.len() as int) =~= ann@);
    r
}

proof fn lemma_walk_extend(ann: Seq<(String, String)>, p: Seq<Seq<char>>, y: Seq<char>)
    requires
        dep_walk(ann, p),
        sig_deps(ann, p.last()).contains(y),
    ensures
        dep_walk(ann, p.push(y)),
        p.push(y)[0] == p[0],
{
    let q = p.push(y);
    assert forall|i: int| 0 <= i < q.len() - 1 implies sig_deps(ann, #[trigger] q[i]).contains(q[i + 1]) by {
        if i < p.len() - 1 {
            assert(q[i] == p[i] && q[i + 1] == p[i + 1]);
        } else {
            assert(q[i] == p.last() && q[i + 1] == y);
        }
    }
}

/// A set (as a sequence) that holds the seeds and every declared dependency of its members
/// holds everything reached.
proof fn lemma_closed_holds_reached(ann: Seq<(String, String)>, seeds: Seq<Seq<char>>, q: Seq<Seq<char>>, d: Seq<char>)
    requires
        forall|i: int| 0 <= i < seeds.len() ==> q.contains(#[trigger] seeds[i]),
        forall|x: Seq<char>, y: Seq<char>| q.contains(x) && #[trigger] sig_deps(ann, x).contains(y) ==> q.contains(y),
        reached(ann, seeds, d),
    ensures
        q.contains(d),
{
    let p = choose|p: Seq<Seq<char>>| dep_walk(ann, p) && seeds.contains(p[0]) && p.last() == d;
    let k0 = choose|k: int| 0 <= k < seeds.len() && seeds[k] == p[0];
    assert(q.contains(seeds[k0]));
    lemma_walk_in_closed(ann, q, p, p.len() - 1);
}

proof fn lemma_walk_in_closed(ann: Seq<(String, String)>, q: Seq<Seq<char>>, p: Seq<Seq<char>>, i: int)
    requires
        dep_walk(ann, p),
        0 <= i < p.len(),
        q.contains(p[0]),
        forall|x: Seq<char>, y: Seq<char>| q.contains(x) && #[trigger] sig_deps(ann, x).contains(y) ==> q.contains(y),
    ensures
        q.contains(p[i]),
    decreases i,
{
    if i > 0 {
        lemma_walk_in_closed(ann, q, p, i - 1);
        assert(sig_deps(ann, p[i - 1]).contains(p[i]));
    }
}

/// The search state of `dep_closure`: queued and visited dependencies.
pub open spec fn bfs_inv(
    ann: Seq<(String, String)>,
    sv: Seq<Seq<char>>,
    u: Seq<Seq<char>>,
    q: Seq<Seq<char>>,
    v: Seq<Seq<char>>,
    head: int,
) -> bool {
    &&& 0 <= head <= q.len()
    &&& u == sv + all_targets(ann)
    &&& sv.len() <= q.len()
    &&& q.take(sv.len() as int) == sv
    &&& v.no_duplicates()
    &&& forall|j: int| 0 <= j < q.len() ==> reached(ann, sv, #[trigger] q[j])
    &&& forall|j: int| 0 <= j < q.len() ==> u.contains(#[trigger] q[j])
    &&& forall|j: int| 0 <= j < head ==> v.contains(#[trigger] q[j])
    &&& forall|x: Seq<char>| #[trigger] v.contains(x) ==> q.contains(x)
    &&& forall|x: Seq<char>, y: Seq<char>| v.contains(x) && #[trigger] sig_deps(ann, x).contains(y) ==> q.contains(y)
}

proof fn lemma_bfs_start(ann: Seq<(String, String)>, sv: Seq<Seq<char>>)
    ensures
        bfs_inv(ann, sv, sv + all_targets(ann), sv, Seq::empty(), 0),
{
    let u = sv + all_targets(ann);
    assert(sv.take(sv.len() as int) =~= sv);
    assert forall|j: int| 0 <= j < sv.len() implies reached(ann, sv, #[trigger] sv[j]) by {
        let p = seq![sv[j]];
        assert(dep_walk(ann, p));
        assert(sv.contains(p[0]));
        assert(p.last() == sv[j]);
    }
    assert forall|j: int| 0 <= j < sv.len() implies u.contains(#[trigger] sv[j]) by {
        assert(u[j] == sv[j]);
    }
}

proof fn lemma_bfs_skip(ann: Seq<(String, String)>, sv: Seq<Seq<char>>, u: Seq<Seq<char>>, q: Seq<Seq<char>>, v: Seq<Seq<char>>, head: int)
    requires
        bfs_inv(ann, sv, u, q, v, head),
        head < q.len(),
        v.contains(q[head]),
    ensures
        bfs_inv(ann, sv, u, q, v, head + 1),
{
}

proof fn lemma_bfs_visit(ann: Seq<(String, String)>, sv: Seq<Seq<char>>, u: Seq<Seq<char>>, q: Seq<Seq<char>>, v: Seq<Seq<char>>, head: int)
    requires
        bfs_inv(ann, sv, u, q, v, head),
        head < q.len(),
        !v.contains(q[head]),
    ensures
        bfs_inv(ann, sv, u, q + sig_deps(ann, q[head]), v.push(q[head]), head + 1),
        v.push(q[head]).len() <= u.len(),
{
    let d = q[head];
    let q1 = q + sig_deps(ann, d);
    let v1 = v.push(d);
    assert forall|i: int| 0 <= i < v1.len() implies u.contains(#[trigger] v1[i]) by {
        if i < v.len() {
            assert(v1[i] == v[i]);
            assert(v.contains(v[i]));
            let j = choose|j: int| 0 <= j < q.len() && q[j] == v[i];
            assert(u.contains(q[j]));
        } else {
            assert(u.contains(q[head]));
        }
    }
    lemma_distinct_subseq_len(v1, u);
    assert(q1.take(sv.len() as int) =~= q.take(sv.len() as int));
    assert forall|j: int| 0 <= j < q1.len() implies reached(ann, sv, #[trigger] q1[j]) by {
        if j >= q.len() {
            let y = q1[j];
            assert(sig_deps(ann, d)[j - q.len()] == y);
            assert(reached(ann, sv, q[head]));
            let p = choose|p: Seq<Seq<char>>| dep_walk(ann, p) && sv.contains(p[0]) && p.last() == d;
            lemma_walk_extend(ann, p, y);
            assert(p.push(y).last() == y);
        } else {
            assert(q1[j] == q[j]);
        }
    }
    assert forall|j: int| 0 <= j < q1.len() implies u.contains(#[trigger] q1[j]) by {
        if j >= q.len() {
            let y = q1[j];
            assert(sig_deps(ann, d)[j - q.len()] == y);
            lemma_sig_deps_in_targets(ann, d, y);
            let t = choose|t: int| 0 <= t < all_targets(ann).len() && all_targets(ann)[t] == y;
            assert(u[sv.len() + t] == y);
        } else {
            assert(q1[j] == q[j]);
        }
    }
    assert forall|j: int| 0 <= j < head + 1 implies v1.contains(#[trigger] q1[j]) by {
        assert(q1[j] == q[j]);
        if j < head {
            assert(v.contains(q[j]));
            let k = choose|k: int| 0 <= k < v.len() && v[k] == q[j];
            assert(v1[k] == q[j]);
        } else {
            assert(v1[v.len() as int] == q[j]);
        }
    }
    assert forall|x: Seq<char>| #[trigger] v1.contains(x) implies q1.contains(x) by {
        let k = choose|k: int| 0 <= k < v1.len() && v1[k] == x;
        if k < v.len() {
            assert(v[k] == x);
            assert(v.contains(x));
            let j = choose|j: int| 0 <= j < q.len() && q[j] == x;
            assert(q1[j] == x);
        } else {
            assert(q1[head] == x);
        }
    }
    assert forall|x: Seq<char>, y: Seq<char>| v1.contains(x) && #[trigger] sig_deps(ann, x).contains(y) implies q1.contains(y) by {
        let k = choose|k: int| 0 <= k < v1.len() && v1[k] == x;
        if k < v.len() {
            assert(v[k] == x);
            assert(v.contains(x));
            let j = choose|j: int| 0 <= j < q.len() && q[j] == y;
            assert(q1[j] == y);
        } else {
            assert(x == d);
            let t = choose|t: int| 0 <= t < sig_deps(ann, x).len() && sig_deps(ann, x)[t] == y;
            assert(q1[q.len() + t] == y);
        }
    }
}

proof fn lemma_bfs_done(ann: Seq<(String, String)>, sv: Seq<Seq<char>>, u: Seq<Seq<char>>, q: Seq<Seq<char>>, v: Seq<Seq<char>>)
    requires
        bfs_inv(ann, sv, u, q, v, q.len() as int),
    ensures
        forall|d: Seq<char>| v.contains(d) <==> reached(ann, sv, d),
{
    assert forall|d: Seq<char>| v.contains(d) <==> reached(ann, sv, d) by {
        if v.contains(d) {
            assert(q.contains(d));
            let j = choose|j: int| 0 <= j < q.len() && q[j] == d;
            assert(reached(ann, sv, q[j]));
        }
        if reached(ann, sv, d) {
            assert forall|i: int| 0 <= i < sv.len() implies v.contains(#[trigger] sv[i]) by {
                assert(q.take(sv.len() as int)[i] == sv[i]);
                assert(v.contains(q[i]));
            }
            assert forall|x: Seq<char>, y: Seq<char>| v.contains(x) && #[trigger] sig_deps(ann, x).contains(y) implies v.contains(y) by {
                assert(q.contains(y));
                let j = choose|j: int| 0 <= j < q.len() && q[j] == y;
                assert(v.contains(q[j]));
            }
            lemma_closed_holds_reached(ann, sv, v, d);
        }
    }
}

/// Every dependency reached from `seeds` (see `reached`), each once.
fn dep_closure(ann: &[(String, String)], seeds: &Vec<String>) -> (r: Vec<String>)
    ensures
        svs(r@).no_duplicates(),
        forall|d: Seq<char>| svs(r@).contains(d) <==> reached(ann@, svs(seeds@), d),
{
    let ghost sv = svs(seeds@);
    let ghost u = sv + all_targets(ann@);
    let mut queue = copy_strings(seeds.as_slice());
    let mut visited: Vec<String> = Vec::new();
    let mut head: usize = 0;
    proof {
        lemma_bfs_start(ann@, sv);
        assert(svs(visited@) =~= Seq::<Seq<char>>::empty());
    }
    while head < queue.len()
        invariant
            sv == svs(seeds@),
            u == sv + all_targets(ann@),
            bfs_inv(ann@, sv, u, svs(queue@), svs(visited@), head as int),
            visited@.len() <= u.len(),
        decreases u.len() - visited@.len(), queue@.len() - head,
    {
        let ghost q0 = svs(queue@);
        let ghost v0 = svs(visited@);
        let d = queue[head].clone();
        assert(d@ == q0[head as int]);
        if contains_string(visited.as_slice(), &d) {
            proof {
                lemma_bfs_skip(ann@, sv, u, q0, v0, head as int);
            }
            head += 1;
            continue;
        }
        proof {
            lemma_bfs_visit(ann@, sv, u, q0, v0, head as int);
        }
        let next = declared_deps(ann, d.as_str());
        visited.push(d);
        append_strings(&mut queue, next.as_slice());
        head += 1;
        proof {
            assert(svs(visited@) =~= v0.push(q0[head - 1]));
            assert(svs(queue@) =~= q0 + sig_deps(ann@, q0[head - 1]));
        }
    }
    proof {
        lemma_bfs_done(ann@, sv, u, svs(queue@), svs(visited@));
    }
    visited
}


fn handler_func_name(r: &RouteRecord) -> (h: String)
    ensures
        h@ == handler_func(*r),
{
    let id = str_chars(r.id.0.as_str());
    let u = str_chars(r.handler.uri.as_str());
    if !starts_with(&id, &u) {
        return r.name.clone();
    }
    let mut a = u.len();
    assert(trim_leading(id@.skip(u@.len() as int), ':') == trim_leading(id@.skip(a as int), ':')) by {
        assert(id@.skip(u@.len() as int) =~= id@.skip(a as int));
    }
    while a < id.len() && id[a] == ':'
        invariant
            u@.len() <= a <= id@.len(),
            trim_leading(id@.skip(u@.len() as int), ':') == trim_leading(id@.skip(a as int), ':'),
        decreases id@.len() - a,
    {
        assert(id@.skip(a as int).drop_first() =~= id@.skip(a + 1));
        a += 1;
    }
    let rest = slice_chars(&id, a, id.len());
    assert(rest@ =~= id@.skip(a as int));
    assert(rest@ == trim_leading(rest@, ':'));
    let mut b = rest.len();
    assert(rest@.take(b as int) =~= rest@);
    while b > 0 && rest[b - 1] != ':'
        invariant
            b <= rest@.len(),
            last_index(rest@, ':') == last_index(rest@.take(b as int), ':'),
        decreases b,
    {
        assert(rest@.take(b as int).drop_last() =~= rest@.take(b - 1));
        b -= 1;
    }
    if b == 0 {
        string_from_chars(rest.as_slice())
    } else {
        assert(rest@.take(b as int).last() == ':');
        let t = slice_chars(&rest, 0, b - 1);
        string_from_chars(t.as_slice())
    }
}

fn alias_target(aliases: &[(String, String)], t: &String) -> (r: Option<String>)
    ensures
        match r {
            Some(d) => alias_of(aliases@, t@) == Some(d@),
            None => alias_of(aliases@, t@) is None,
        },
{
    let mut k = aliases.len();
    assert(aliases@.take(k as int) =~= aliases@);
    while k > 0
        invariant
            k <= aliases@.len(),
            alias_of(aliases@, t@) == alias_of(aliases@.take(k as int), t@),
        decreases k,
    {
        assert(aliases@.take(k as int).drop_last() =~= aliases@.take(k - 1));
        if aliases[k - 1].0 == *t {
            return Some(aliases[k - 1].1.clone());
        }
        k -= 1;
    }
    None
}

fn alias_dependencies(pt: &[(String, String)], aliases: &[(String, String)], h: &String) -> (r: Vec<String>)
    ensures
        svs(r@) == alias_deps(pt@, aliases@, h@),
{
    let mut r: Vec<String> = Vec::new();
    let mut i: usize = 0;
    while i < pt.len()
        invariant
            i <= pt@.len(),
            svs(r@) == alias_deps(pt@.take(i as int), aliases@, h@),
        decreases pt@.len() - i,
    {
        assert(pt@.take(i + 1).drop_last() =~= pt@.take(i as int));
        let mut pushed = false;
        if pt[i].0 == *h {
            match alias_target(aliases, &pt[i].1) {
                Some(d) => {
                    let ghost before = r@;
                    r.push(d);
                    assert(svs(r@) =~= svs(before).push(d@));
                    pushed = true;
                },
                None => {},
            }
        }
        if !pushed {
            assert(svs(r@) =~= svs(r@) + Seq::<Seq<char>>::empty());
        }
        i += 1;
    }
    assert(pt@.take(pt@.len() as int) =~= pt@);
    r
}

pub(crate) fn params_of_dep<'a>(dp: &'a [(String, Vec<String>)], d: &String) -> (r: Option<&'a Vec<String>>)
    ensures
        match r {
            Some(l) => svs(l@) == dep_params_of(dp@, d@),
            None => dep_params_of(dp@, d@) == Seq::<Seq<char>>::empty(),
        },
{
    let mut i: usize = 0;
    assert(dp@.skip(0) =~= dp@);
    while i < dp.len()
        invariant
            i <= dp@.len(),
            dep_params_of(dp@, d@) == dep_params_of(dp@.skip(i as int), d@),
        decreases dp@.len() - i,
    {
        assert(dp@.skip(i as int).drop_first() =~= dp@.skip(i + 1));
        if dp[i].0 == *d {
            return Some(&dp[i].1);
        }
        i += 1;
    }
    None
}

/// Path parameter `name` of route `r` is bound: by a handler argument, or by a parameter
/// of a dependency reached from the route (see `seeds_of`, `reached`).
pub open spec fn param_bound(r: RouteRecord, f: ParamFacts, name: Seq<char>) -> bool {
    svs(r.handler_params@).contains(name) || exists|d: Seq<char>|
        reached(f.annotated@, seeds_of(r, f), d) && #[trigger] dep_params_of(f.dep_params@, d).contains(name)
}

pub(crate) fn bound_by(name: &String, handler_params: &[String], closure: &[String], dp: &[(String, Vec<String>)]) -> (b: bool)
    ensures
        b == (svs(handler_params@).contains(name@) || exists|k: int|
            0 <= k < closure@.len() && #[trigger] dep_params_of(dp@, closure@[k]@).contains(name@)),
{
    if contains_string(handler_params, name) {
        return true;
    }
    let mut k: usize = 0;
    while k < closure.len()
        invariant
            k <= closure@.len(),
            forall|j: int| 0 <= j < k ==> !(#[trigger] dep_params_of(dp@, closure@[j]@)).contains(name@),
        decreases closure@.len() - k,
    {
        match params_of_dep(dp, &closure[k]) {
            Some(ps) => {
                if contains_string(ps.as_slice(), name) {
                    return true;
                }
            },
            None => {},
        }
        k += 1;
    }
    false
}

/// The first position of `p` in `s`.
pub open spec fn find_in(s: Seq<char>, p: Seq<char>) -> Option<int> {
    first_match(Seq::new((s.len() + 1) as nat, |i: int| i), |i: int| occurs_at(p, s, i))
}

fn find_chars(s: &[char], p: &[char]) -> (r: Option<usize>)
    ensures
        match r {
            Some(i) => find_in(s@, p@) == Some(i as int),
            None => find_in(s@, p@) is None,
        },
{
    let ghost idx = Seq::new((s@.len() + 1) as nat, |i: int| i);
    let ghost pred = |i: int| occurs_at(p@, s@, i);
    let mut i: usize = 0;
    while i <= s.len()
        invariant
            i <= s@.len() + 1,
            idx == Seq::new((s@.len() + 1) as nat, |i: int| i),
            pred == (|i: int| occurs_at(p@, s@, i)),
            forall|j: int| 0 <= j < i ==> !pred(#[trigger] idx[j]),
        decreases s@.len() + 1 - i,
    {
        proof {
            lemma_first_match_step(idx, pred, i as int);
        }
        if matches_at(s, p, i) {
            return Some(i);
        }
        if i == s.len() {
            proof {
                lemma_first_match_none(idx, pred);
            }
            return None;
        }
        i += 1;
    }
    proof {
        lemma_first_match_none(idx, pred);
    }
    None
}

/// Where the `{name}` (or `{name:converter}`) token of a path starts and ends.
pub open spec fn token_span(path: Seq<char>, name: Seq<char>) -> Option<(int, int)> {
    let exact = seq!['{'] + name + seq!['}'];
    let colon = seq!['{'] + name + seq![':'];
    match find_in(path, exact) {
        Some(p) => Some((p, p + exact.len())),
        None => match find_in(path, colon) {
            Some(p) => Some((
                p,
                match find_in(path.skip(p), seq!['}']) {
                    Some(k) => p + k + 1,
                    None => p + colon.len(),
                },
            )),
            None => None,
        },
    }
}

/// The width of the opening quote of a route's path literal (1 when unknown).
pub open spec fn quote_width(r: RouteRecord) -> u32 {
    match r.path_quote_width {
        Some(w) => w,
        None => 1,
    }
}

/// The range of the `{name}` token inside the route's path literal, in UTF-16 columns; the
/// path literal's range when the token is not found; the handler's range when the literal's
/// range is unknown.
pub open spec fn segment_range(r: RouteRecord, name: Seq<char>) -> Range {
    match r.path_range {
        None => r.handler.range,
        Some(pr) => match token_span(r.decorator_path@, name) {
            None => pr,
            Some((a, b)) => {
                let path = r.decorator_path@;
                let start = pr.start.character + quote_width(r) + utf16_len(path.take(a));
                let end = start + utf16_len(path.subrange(a, b));
                Range {
                    start: Position { line: pr.start.line, character: start as u32 },
                    end: Position { line: pr.start.line, character: end as u32 },
                }
            },
        },
    }
}

proof fn lemma_utf16_len_split(cs: Seq<char>, a: int, b: int)
    requires
        0 <= a <= b <= cs.len(),
    ensures
        utf16_len(cs.take(a)) + utf16_len(cs.subrange(a, b)) <= utf16_len(cs),
        utf16_len(cs) <= 2 * cs.len(),
    decreases cs.len(),
{
    lemma_utf16_le_2(cs);
    lemma_utf16_concat(cs.take(a), cs.subrange(a, b));
    lemma_utf16_concat(cs.take(b), cs.skip(b));
    assert(cs.take(a) + cs.subrange(a, b) =~= cs.take(b));
    assert(cs.take(b) + cs.skip(b) =~= cs);
}

proof fn lemma_utf16_le_2(cs: Seq<char>)
    ensures
        utf16_len(cs) <= 2 * cs.len(),
    decreases cs.len(),
{
    if cs.len() > 0 {
        lemma_utf16_le_2(cs.drop_last());
    }
}

proof fn lemma_utf16_concat(x: Seq<char>, y: Seq<char>)
    ensures
        utf16_len(x + y) == utf16_len(x) + utf16_len(y),
    decreases y.len(),
{
    if y.len() > 0 {
        lemma_utf16_concat(x, y.drop_last());
        assert((x + y).drop_last() =~= x + y.drop_last());
    } else {
        assert(x + y =~= x);
    }
}

fn utf16_count_chars(cs: &[char]) -> (n: u64)
    requires
        cs@.len() <= u32::MAX,
    ensures
        n == utf16_len(cs@),
{
    let mut n: u64 = 0;
    let mut i: usize = 0;
    while i < cs.len()
        invariant
            i <= cs@.len() <= u32::MAX,
            n == utf16_len(cs@.take(i as int)),
            n <= 2 * i,
        decreases cs@.len() - i,
    {
        assert(cs@.take(i + 1).drop_last() =~= cs@.take(i as int));
        if (cs[i] as u32) >= 0x10000 {
            n += 2;
        } else {
            n += 1;
        }
        i += 1;
    }
    assert(cs@.take(cs@.len() as int) =~= cs@);
    n
}

/// The range of path parameter `param_name` in the route's decorator (see
/// `segment_range`).
pub fn param_segment_range(record: &RouteRecord, param_name: &str) -> (r: Range)
    requires
        record.path_range matches Some(pr) ==> pr.start.character + quote_width(*record) + 2
            * record.decorator_path@.len() <= u32::MAX,
    ensures
        r == segment_range(*record, param_name@),
{
    let pr = match record.path_range {
        Some(pr) => pr,
        None => return record.handler.range,
    };
    let path = str_chars(record.decorator_path.as_str());
    let name = str_chars(param_name);
    let mut exact: Vec<char> = Vec::new();
    exact.push('{');
    crate::text::push_all(&mut exact, name.as_slice());
    let mut colon = exact.clone();
    exact.push('}');
    colon.push(':');
    assert(exact@ =~= seq!['{'] + param_name@ + seq!['}']);
    assert(colon@ =~= seq!['{'] + param_name@ + seq![':']);
    let (a, b): (usize, usize) = match find_chars(&path, &exact) {
        Some(p) => {
            proof {
                lemma_first_match_bound(Seq::new((path@.len() + 1) as nat, |i: int| i), |i: int| occurs_at(exact@, path@, i));
            }
            (p, p + exact.len())
        },
        None => match find_chars(&path, &colon) {
            Some(p) => {
                proof {
                    lemma_first_match_bound(Seq::new((path@.len() + 1) as nat, |i: int| i), |i: int| occurs_at(colon@, path@, i));
                }
                let tail = slice_chars(&path, p, path.len());
                assert(tail@ =~= path@.skip(p as int));
                let close: Vec<char> = vec!['}'];
                assert(close@ =~= seq!['}']);
                let e = match find_chars(&tail, &close) {
                    Some(k) => {
                        proof {
                            lemma_first_match_bound(Seq::new((tail@.len() + 1) as nat, |i: int| i), |i: int| occurs_at(close@, tail@, i));
                        }
                        p + k + 1
                    },
                    None => p + colon.len(),
                };
                (p, e)
            },
            None => return pr,
        },
    };
    proof {
        lemma_utf16_len_split(path@, a as int, b as int);
    }
    let before = utf16_count_chars(slice_chars(&path, 0, a).as_slice());
    let token = utf16_count_chars(slice_chars(&path, a, b).as_slice());
    let qw: u32 = match record.path_quote_width {
        Some(w) => w,
        None => 1,
    };
    let start = pr.start.character + qw + before as u32;
    let end = start + token as u32;
    Range { start: Position { line: pr.start.line, character: start }, end: Position { line: pr.start.line, character: end } }
}

/// The position of `name` among the handler's parameters.
pub open spec fn handler_param_index(r: RouteRecord, name: Seq<char>) -> Option<int> {
    first_match(svs(r.handler_params@), |p: Seq<char>| p == name)
}

/// The range of handler parameter `name`, when its range is known; the handler's range
/// otherwise.
pub open spec fn handler_param_span(r: RouteRecord, name: Seq<char>) -> Range {
    match handler_param_index(r, name) {
        Some(i) => if i < r.handler_param_ranges@.len() {
            r.handler_param_ranges@[i]
        } else {
            r.handler.range
        },
        None => r.handler.range,
    }
}

/// The range of a handler parameter in the function signature (see `handler_param_span`).
pub fn handler_param_range(record: &RouteRecord, param_name: &str) -> (r: Range)
    ensures
        r == handler_param_span(*record, param_name@),
{
    let ghost hv = svs(record.handler_params@);
    let ghost pred = |p: Seq<char>| p == param_name@;
    let n: String = param_name.to_owned();
    let mut i: usize = 0;
    while i < record.handler_params.len()
        invariant
            i <= record.handler_params@.len(),
            n@ == param_name@,
            hv == svs(record.handler_params@),
            pred == (|p: Seq<char>| p == param_name@),
            forall|j: int| 0 <= j < i ==> !pred(#[trigger] hv[j]),
        decreases record.handler_params@.len() - i,
    {
        proof {
            lemma_first_match_step(hv, pred, i as int);
        }
        if record.handler_params[i] == n {
            if i < record.handler_param_ranges.len() {
                return record.handler_param_ranges[i];
            }
            return record.handler.range;
        }
        i += 1;
    }
    proof {
        lemma_first_match_none(hv, pred);
    }
    record.handler.range
}


/// The names of a route's path parameters.
pub open spec fn path_names(r: RouteRecord) -> Seq<Seq<char>> {
    r.path_params@.map_values(|p: PathParam| p.name@)
}

/// Handler argument `name` is a parameter of one of the decorator's dependencies.
pub open spec fn dep_contributed(r: RouteRecord, f: ParamFacts, name: Seq<char>) -> bool {
    exists|k: int| 0 <= k < r.dependencies@.len() && #[trigger] dep_params_of(f.dep_params@, r.dependencies@[k]@).contains(name)
}

/// The handler's arguments that are neither path parameters nor dependency parameters.
pub open spec fn free_handler_params(r: RouteRecord, f: ParamFacts) -> Seq<Seq<char>> {
    svs(r.handler_params@).filter(|h: Seq<char>| !path_names(r).contains(h) && !dep_contributed(r, f, h))
}

/// `route/param-missing-arg` for path parameter `p`, when nothing binds it.
pub open spec fn missing_view(r: RouteRecord, f: ParamFacts, p: PathParam) -> Option<DiagView> {
    if param_bound(r, f, p.name@) {
        None
    } else {
        Some(
            (
                segment_range(r, p.name@),
                Some(Severity::Warning),
                "route/param-missing-arg"@,
                Some(source_name()),
                "Unbound path parameter: "@ + p.name@ + "."@,
                Seq::empty(),
                Seq::empty(),
            ),
        )
    }
}

/// `route/arg-missing-param` for unbound path parameter `p`: the first free handler
/// argument within edit distance 2 of it.
pub open spec fn near_miss_view(r: RouteRecord, f: ParamFacts, p: PathParam) -> Option<DiagView> {
    if param_bound(r, f, p.name@) {
        None
    } else {
        let hs = free_handler_params(r, f);
        match first_match(hs, |h: Seq<char>| capped_distance(h, p.name@) <= 2) {
            Some(k) => Some(
                (
                    handler_param_span(r, hs[k]),
                    Some(Severity::Hint),
                    "route/arg-missing-param"@,
                    Some(source_name()),
                    "Handler parameter not in path: "@ + hs[k] + ". Did you mean {"@ + p.name@ + "}?"@,
                    Seq::empty(),
                    Seq::empty(),
                ),
            ),
            None => None,
        }
    }
}

/// The parameter diagnostics of one route: none when its handler's arguments are unknown or
/// include `*args`/`**kwargs`, or when it has no path parameter; else the unbound path
/// parameters, then the near misses.
pub open spec fn record_param_views(r: RouteRecord, f: ParamFacts) -> Seq<DiagView> {
    if !r.handler_params_known || r.handler_has_splat_args || r.path_params@.len() == 0 {
        Seq::empty()
    } else {
        somes(r.path_params@.map_values(|p: PathParam| missing_view(r, f, p))) + somes(
            r.path_params@.map_values(|p: PathParam| near_miss_view(r, f, p)),
        )
    }
}

/// The path-literal range of the record leaves room for its columns in a `u32`.
pub open spec fn columns_fit(r: RouteRecord) -> bool {
    r.path_range matches Some(pr) ==> pr.start.character + quote_width(r) + 2 * r.decorator_path@.len() <= u32::MAX
}

fn free_params(record: &RouteRecord, facts: &ParamFacts) -> (r: Vec<String>)
    ensures
        svs(r@) == free_handler_params(*record, *facts),
{
    let ghost pred = |h: Seq<char>| !path_names(*record).contains(h) && !dep_contributed(*record, *facts, h);
    let ghost hv = svs(record.handler_params@);
    let mut out: Vec<String> = Vec::new();
    let mut i: usize = 0;
    while i < record.handler_params.len()
        invariant
            i <= record.handler_params@.len(),
            hv == svs(record.handler_params@),
            pred == (|h: Seq<char>| !path_names(*record).contains(h) && !dep_contributed(*record, *facts, h)),
            svs(out@) == hv.take(i as int).filter(pred),
        decreases record.handler_params@.len() - i,
    {
        let h = &record.handler_params[i];
        assert(hv.take(i + 1) =~= hv.take(i as int).push(h@));
        proof {
            hv.take(i as int).lemma_filter_push(h@, pred);
        }
        let mut is_path = false;
        let mut k: usize = 0;
        while k < record.path_params.len()
            invariant
                k <= record.path_params@.len(),
                is_path == exists|j: int| 0 <= j < k && (#[trigger] record.path_params@[j]).name@ == h@,
            decreases record.path_params@.len() - k,
        {
            if record.path_params[k].name == *h {
                is_path = true;
            }
            k += 1;
        }
        proof {
            if is_path {
                let j = choose|j: int| 0 <= j < record.path_params@.len() && (#[trigger] record.path_params@[j]).name@ == h@;
                assert(path_names(*record)[j] == h@);
            }
            if path_names(*record).contains(h@) {
                let j = choose|j: int| 0 <= j < path_names(*record).len() && path_names(*record)[j] == h@;
                assert(record.path_params@[j].name@ == h@);
            }
        }
        let mut contributed = false;
        let mut k2: usize = 0;
        while k2 < record.dependencies.len()
            invariant
                k2 <= record.dependencies@.len(),
                contributed == exists|j: int|
                    0 <= j < k2 && #[trigger] dep_params_of(facts.dep_params@, record.dependencies@[j]@).contains(h@),
            decreases record.dependencies@.len() - k2,
        {
            match params_of_dep(facts.dep_params.as_slice(), &record.dependencies[k2]) {
                Some(ps) => {
                    if contains_string(ps.as_slice(), h) {
                        contributed = true;
                    }
                },
                None => {},
            }
            k2 += 1;
        }
        if !is_path && !contributed {
            let ghost before = out@;
            out.push(h.clone());
            assert(svs(out@) =~= svs(before).push(h@));
        }
        i += 1;
    }
    assert(hv.take(hv.len() as int) =~= hv);
    out
}

/// The parameter diagnostics of one route (see `record_param_views`).
pub fn record_param_diags(record: &RouteRecord, facts: &ParamFacts) -> (r: Vec<Diagnostic>)
    requires
        columns_fit(*record),
    ensures
        diag_views(r@) == record_param_views(*record, *facts),
{
    let mut out: Vec<Diagnostic> = Vec::new();
    if !record.handler_params_known || record.handler_has_splat_args || record.path_params.len() == 0 {
        return out;
    }
    let h = handler_func_name(record);
    let mut seeds = copy_strings(record.dependencies.as_slice());
    let sd = declared_deps(facts.annotated.as_slice(), h.as_str());
    append_strings(&mut seeds, sd.as_slice());
    let ad = alias_dependencies(facts.plain_typed.as_slice(), facts.dep_type_aliases.as_slice(), &h);
    append_strings(&mut seeds, ad.as_slice());
    assert(svs(seeds@) == seeds_of(*record, *facts));
    let closure = dep_closure(facts.annotated.as_slice(), &seeds);
    let ghost pps = record.path_params@;
    let ghost fm = |p: PathParam| missing_view(*record, *facts, p);
    let ghost fn_ = |p: PathParam| near_miss_view(*record, *facts, p);
    let mut bound: Vec<bool> = Vec::new();
    let mut i: usize = 0;
    while i < record.path_params.len()
        invariant
            i <= pps.len(),
            pps == record.path_params@,
            columns_fit(*record),
            forall|d: Seq<char>| svs(closure@).contains(d) <==> reached(facts.annotated@, seeds_of(*record, *facts), d),
            bound@.len() == i,
            forall|j: int| 0 <= j < i ==> bound@[j] == param_bound(*record, *facts, #[trigger] pps[j].name@),
            fm == (|p: PathParam| missing_view(*record, *facts, p)),
            diag_views(out@) == somes(pps.take(i as int).map_values(fm)),
        decreases pps.len() - i,
    {
        let name = &record.path_params[i].name;
        let b = bound_by(name, record.handler_params.as_slice(), closure.as_slice(), facts.dep_params.as_slice());
        proof {
            if exists|k: int| 0 <= k < closure@.len() && #[trigger] dep_params_of(facts.dep_params@, closure@[k]@).contains(name@) {
                let k = choose|k: int| 0 <= k < closure@.len() && #[trigger] dep_params_of(facts.dep_params@, closure@[k]@).contains(name@);
                assert(svs(closure@)[k] == closure@[k]@);
                assert(svs(closure@).contains(closure@[k]@));
            }
            if exists|d: Seq<char>| reached(facts.annotated@, seeds_of(*record, *facts), d) && #[trigger] dep_params_of(facts.dep_params@, d).contains(name@) {
                let d = choose|d: Seq<char>| reached(facts.annotated@, seeds_of(*record, *facts), d) && #[trigger] dep_params_of(facts.dep_params@, d).contains(name@);
                assert(svs(closure@).contains(d));
                let k = choose|k: int| 0 <= k < svs(closure@).len() && svs(closure@)[k] == d;
                assert(closure@[k]@ == d);
            }
            assert(b == param_bound(*record, *facts, name@));
            assert(pps.take(i + 1).map_values(fm) =~= pps.take(i as int).map_values(fm).push(fm(pps[i as int])));
            assert(pps.take(i + 1).map_values(fm).drop_last() =~= pps.take(i as int).map_values(fm));
        }
        bound.push(b);
        if !b {
            let range = param_segment_range(record, name.as_str());
            let d = param_missing_arg_diag(name.as_str(), range);
            let ghost before = diag_views(out@);
            proof {
                assert(d.tags@ =~= Seq::<Tag>::empty());
                assert(crate::diagnostics::related_views(d.related@) =~= Seq::<(Seq<char>, Range, Seq<char>)>::empty());
                assert(fm(pps[i as int]) == Some(diag_view(d)));
            }
            out.push(d);
            assert(diag_views(out@) =~= before.push(diag_view(d)));
        }
        i += 1;
    }
    assert(pps.take(pps.len() as int) =~= pps);
    let ghost first_part = diag_views(out@);
    let free = free_params(record, facts);
    let mut i2: usize = 0;
    while i2 < record.path_params.len()
        invariant
            i2 <= pps.len(),
            pps == record.path_params@,
            bound@.len() == pps.len(),
            forall|j: int| 0 <= j < pps.len() ==> bound@[j] == param_bound(*record, *facts, #[trigger] pps[j].name@),
            svs(free@) == free_handler_params(*record, *facts),
            fn_ == (|p: PathParam| near_miss_view(*record, *facts, p)),
            diag_views(out@) == first_part + somes(pps.take(i2 as int).map_values(fn_)),
        decreases pps.len() - i2,
    {
        let name = &record.path_params[i2].name;
        proof {
            assert(pps.take(i2 + 1).map_values(fn_) =~= pps.take(i2 as int).map_values(fn_).push(fn_(pps[i2 as int])));
            assert(pps.take(i2 + 1).map_values(fn_).drop_last() =~= pps.take(i2 as int).map_values(fn_));
        }
        let ghost prev = diag_views(out@);
        if !bound[i2] {
            let ghost hs = svs(free@);
            let ghost pred = |h: Seq<char>| capped_distance(h, name@) <= 2;
            let mut k: usize = 0;
            let mut found: Option<usize> = None;
            while k < free.len()
                invariant_except_break
                    found is None,
                invariant
                    k <= free@.len(),
                    hs == svs(free@),
                    pred == (|h: Seq<char>| capped_distance(h, name@) <= 2),
                    forall|j: int| 0 <= j < k ==> !pred(#[trigger] hs[j]),
                ensures
                    found is None ==> forall|j: int| 0 <= j < hs.len() ==> !pred(#[trigger] hs[j]),
                    found matches Some(j) ==> j < hs.len() && first_match(hs, pred) == Some(j as int),
                decreases free@.len() - k,
            {
                proof {
                    lemma_first_match_step(hs, pred, k as int);
                }
                if edit_distance(free[k].as_str(), name.as_str()) <= 2 {
                    found = Some(k);
                    break;
                }
                k += 1;
            }
            match found {
                Some(j) => {
                    let range = handler_param_range(record, free[j].as_str());
                    let d = arg_missing_param_diag(free[j].as_str(), name.as_str(), range);
                    proof {
                        assert(d.tags@ =~= Seq::<Tag>::empty());
                        assert(crate::diagnostics::related_views(d.related@) =~= Seq::<(Seq<char>, Range, Seq<char>)>::empty());
                        assert(fn_(pps[i2 as int]) == Some(diag_view(d)));
                    }
                    out.push(d);
                    assert(diag_views(out@) =~= prev.push(diag_view(d)));
                },
                None => {
                    proof {
                        lemma_first_match_none(hs, pred);
                    }
                    assert(fn_(pps[i2 as int]) is None);
                },
            }
        } else {
            assert(fn_(pps[i2 as int]) is None);
        }
        i2 += 1;
    }
    assert(pps.take(pps.len() as int) =~= pps);
    out
}

/// The parameter diagnostics of the routes of `all` handled in file `uri`, in order,
/// before deduplication.
pub open spec fn file_param_views(all: Seq<RouteRecord>, f: ParamFacts, uri: Seq<char>) -> Seq<DiagView>
    decreases all.len(),
{
    if all.len() == 0 {
        Seq::empty()
    } else {
        file_param_views(all.drop_last(), f, uri) + if in_file(all.last(), uri) {
            record_param_views(all.last(), f)
        } else {
            Seq::empty()
        }
    }
}

/// `route/param-missing-arg` and `route/arg-missing-param` for the resolved routes of
/// the index handled in file `uri`: the diagnostics of each route (`record_param_views`)
/// in index order, a diagnostic dropped where an earlier one has the same start and
/// message (a route mounted under several prefixes reports once).
pub fn route_param_checks(route_index: &RouteIndex, uri: &str, facts: &ParamFacts) -> (r: Vec<Diagnostic>)
    requires
        forall|j: int| 0 <= j < resolved_records(route_index@).len() && in_file(#[trigger] resolved_records(route_index@)[j], uri@)
            ==> columns_fit(resolved_records(route_index@)[j]),
    ensures
        diag_views(r@) == dedup_views(file_param_views(resolved_records(route_index@), *facts, uri@)),
{
    let all = resolved_refs(route_index);
    let ghost al = derefs(all@);
    let u: String = uri.to_owned();
    let mut diags: Vec<Diagnostic> = Vec::new();
    let mut i: usize = 0;
    while i < all.len()
        invariant
            i <= al.len(),
            al == derefs(all@),
            al == resolved_records(route_index@),
            u@ == uri@,
            forall|j: int| 0 <= j < al.len() && in_file(#[trigger] al[j], uri@) ==> columns_fit(al[j]),
            diag_views(diags@) == file_param_views(al.take(i as int), *facts, uri@),
        decreases al.len() - i,
    {
        let rec: &RouteRecord = all[i];
        assert(al.take(i + 1).drop_last() =~= al.take(i as int));
        assert(al[i as int] == *rec);
        let resolved = match &rec.resolved_path {
            ResolvedPath::Resolved(_) => true,
            ResolvedPath::Unresolved => false,
        };
        let ghost before = diags@;
        if resolved && rec.handler.uri == u {
            let mut more = record_param_diags(rec, facts);
            diags.append(&mut more);
            assert(diag_views(diags@) =~= diag_views(before) + record_param_views(*rec, *facts));
        } else {
            assert(file_param_views(al.take(i + 1), *facts, uri@) =~= file_param_views(al.take(i as int), *facts, uri@));
        }
        i += 1;
    }
    assert(al.take(al.len() as int) =~= al);
    let ghost ds = diags@;
    let r = dedup_diags(diags);
    proof {
        lemma_dedup_views(ds);
    }
    r
}

} // verus!
