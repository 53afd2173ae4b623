//! Checks across the routes of a workspace: duplicate routes, literal routes shadowed by
//! earlier placeholder routes, and route names shared by several handlers.
use vstd::prelude::*;
use crate::position::{Range, Location};
use crate::report::{Diagnostic, Severity, Code, RelatedInfo, Tag};
use crate::routing::{RouteRecord, ResolvedPath, Method, RouteId, RouteIndex};
use crate::paths::{normalized, normalize_path, is_param_seg, is_param_chars, shadowed_by, literal_route_shadowed_by};
use crate::text::{str_chars, split_chars, split_on, views, lemma_split_on_nonempty, push_all, string_from_chars};
use crate::diagnostics::{router_not_included_diag, route_duplicate_diag, route_shadowed_diag, route_duplicate_name_diag, route_duplicate_name_hint,
    related_views, source_name};

verus! {

broadcast use vstd::string::group_string_axioms;

/// `s` with `x` placed after every element whose ordinal is at most `x`'s.
pub open spec fn insert_by_ordinal(s: Seq<RouteRecord>, x: RouteRecord) -> Seq<RouteRecord>
    decreases s.len(),
{
    if s.len() == 0 || s.last().ordinal <= x.ordinal {
        s.push(x)
    } else {
        insert_by_ordinal(s.drop_last(), x).push(s.last())
    }
}

/// The records stably sorted by ordinal (`sort_by_key`): by ordinal, and in their given
/// order among equal ordinals.
pub open spec fn sorted_by_ordinal(s: Seq<RouteRecord>) -> Seq<RouteRecord>
    decreases s.len(),
{
    if s.len() == 0 {
        s
    } else {
        insert_by_ordinal(sorted_by_ordinal(s.drop_last()), s.last())
    }
}

proof fn lemma_insert_len(s: Seq<RouteRecord>, x: RouteRecord)
    ensures
        insert_by_ordinal(s, x).len() == s.len() + 1,
    decreases s.len(),
{
    if s.len() > 0 && s.last().ordinal > x.ordinal {
        lemma_insert_len(s.drop_last(), x);
    }
}

/// Inserts `x` into `v` as `insert_by_ordinal` does.
fn insert_record<'a>(v: &mut Vec<&'a RouteRecord>, x: &'a RouteRecord)
    ensures
        derefs(final(v)@) == insert_by_ordinal(derefs(old(v)@), *x),
{
    let mut k = v.len();
    let ghost s = derefs(v@);
    proof {
        assert(s.take(k as int) =~= s);
    }
    while k > 0 && v[k - 1].ordinal > x.ordinal
        invariant
            k <= s.len(),
            derefs(v@) == s,
            insert_by_ordinal(s, *x) == insert_by_ordinal(s.take(k as int), *x) + s.skip(k as int),
        decreases k,
    {
        proof {
            let t = s.take(k as int);
            assert(t.drop_last() =~= s.take(k - 1));
            assert(t.last() == s[k - 1]);
            assert(s.skip(k - 1) =~= seq![s[k - 1]] + s.skip(k as int));
            assert(insert_by_ordinal(s.take(k - 1), *x).push(s[k - 1]) + s.skip(k as int)
                =~= insert_by_ordinal(s.take(k - 1), *x) + s.skip(k - 1));
        }
        k -= 1;
    }
    proof {
        let t = s.take(k as int);
        assert(insert_by_ordinal(t, *x) == t.push(*x));
        assert(t.push(*x) + s.skip(k as int) =~= s.insert(k as int, *x));
    }
    let ghost before = v@;
    v.insert(k, x);
    assert(derefs(v@) =~= s.insert(k as int, *x));
}

/// Sorts route records stably by ordinal (see `sorted_by_ordinal`).
pub fn sort_by_ordinal<'a>(records: Vec<&'a RouteRecord>) -> (r: Vec<&'a RouteRecord>)
    ensures
        derefs(r@) == sorted_by_ordinal(derefs(records@)),
{
    let mut input = records;
    let ghost all = derefs(input@);
    let n0 = input.len();
    assert(all.len() == n0);
    let mut out: Vec<&RouteRecord> = Vec::new();
    let mut taken: usize = 0;
    while input.len() > 0
        invariant
            taken + input@.len() == all.len(),
            all.len() <= usize::MAX,
            derefs(input@) == all.skip(taken as int),
            derefs(out@) == sorted_by_ordinal(all.take(taken as int)),
        decreases input@.len(),
    {
        let ghost before = input@;
        let x = input.remove(0);
        proof {
            assert(all.take(taken + 1).drop_last() =~= all.take(taken as int));
            assert(derefs(before)[0] == *x);
            assert(all.take(taken + 1).last() == *x);
        }
        insert_record(&mut out, x);
        taken += 1;
        assert forall|j: int| 0 <= j < input@.len() implies #[trigger] derefs(input@)[j] == all.skip(taken as int)[j] by {
            assert(input@[j] == before[j + 1]);
            assert(derefs(before)[j + 1] == all.skip(taken - 1)[j + 1]);
        }
        assert(derefs(input@) =~= all.skip(taken as int));
    }
    assert(all.take(all.len() as int) =~= all);
    out
}

/// The path of a resolved route (empty for an unresolved one).
pub open spec fn path_of(r: RouteRecord) -> Seq<char> {
    match r.resolved_path {
        ResolvedPath::Resolved(p) => p@,
        ResolvedPath::Unresolved => Seq::empty(),
    }
}

/// The name of a method as diagnostics print it.
pub open spec fn method_name(m: Method) -> Seq<char> {
    match m {
        Method::Get => "GET"@,
        Method::Post => "POST"@,
        Method::Put => "PUT"@,
        Method::Patch => "PATCH"@,
        Method::Delete => "DELETE"@,
        Method::Head => "HEAD"@,
        Method::Options => "OPTIONS"@,
        Method::Trace => "TRACE"@,
        Method::Mount => "MOUNT"@,
    }
}

/// The name of a method as diagnostics print it.
pub fn method_str(m: Method) -> (r: &'static str)
    ensures
        r@ == method_name(m),
{
    match m {
        Method::Get => "GET",
        Method::Post => "POST",
        Method::Put => "PUT",
        Method::Patch => "PATCH",
        Method::Delete => "DELETE",
        Method::Head => "HEAD",
        Method::Options => "OPTIONS",
        Method::Trace => "TRACE",
        Method::Mount => "MOUNT",
    }
}

fn is_resolved(r: &RouteRecord) -> (b: bool)
    ensures
        b == (r.resolved_path is Resolved),
{
    match &r.resolved_path {
        ResolvedPath::Resolved(_) => true,
        ResolvedPath::Unresolved => false,
    }
}

fn path_str(r: &RouteRecord) -> (s: &str)
    ensures
        s@ == path_of(*r),
{
    match &r.resolved_path {
        ResolvedPath::Resolved(p) => p.as_str(),
        ResolvedPath::Unresolved => {
            proof {
                reveal_strlit("");
            }
            ""
        },
    }
}

/// Two records have the same handler (file and range).
pub open spec fn same_handler(a: RouteRecord, b: RouteRecord) -> bool {
    a.handler.uri@ == b.handler.uri@ && a.handler.range == b.handler.range
}

fn handlers_equal(a: &RouteRecord, b: &RouteRecord) -> (r: bool)
    ensures
        r == same_handler(*a, *b),
{
    a.handler.uri == b.handler.uri && a.handler.range == b.handler.range
}

/// The index of the first element of `s` that satisfies `p`.
pub open spec fn first_match<A>(s: Seq<A>, p: spec_fn(A) -> bool) -> Option<int>
    decreases s.len(),
{
    if s.len() == 0 {
        None
    } else if p(s[0]) {
        Some(0)
    } else {
        match first_match(s.drop_first(), p) {
            Some(k) => Some(k + 1),
            None => None,
        }
    }
}

pub proof fn lemma_first_match_step<A>(s: Seq<A>, p: spec_fn(A) -> bool, k: int)
    requires
        0 <= k < s.len(),
        forall|j: int| 0 <= j < k ==> !p(#[trigger] s[j]),
    ensures
        p(s[k]) ==> first_match(s, p) == Some(k),
        !p(s[k]) ==> forall|j: int| 0 <= j < k + 1 ==> !p(#[trigger] s[j]),
    decreases k,
{
    if k > 0 {
        assert forall|j: int| 0 <= j < k - 1 implies !p(#[trigger] s.drop_first()[j]) by {
            assert(s.drop_first()[j] == s[j + 1]);
        }
        lemma_first_match_step(s.drop_first(), p, k - 1);
        assert(!p(s[0]));
    }
}

pub proof fn lemma_first_match_none<A>(s: Seq<A>, p: spec_fn(A) -> bool)
    requires
        forall|j: int| 0 <= j < s.len() ==> !p(#[trigger] s[j]),
    ensures
        first_match(s, p) is None,
    decreases s.len(),
{
    if s.len() > 0 {
        assert forall|j: int| 0 <= j < s.len() - 1 implies !p(#[trigger] s.drop_first()[j]) by {
            assert(s.drop_first()[j] == s[j + 1]);
        }
        lemma_first_match_none(s.drop_first(), p);
        assert(!p(s[0]));
    }
}

pub proof fn lemma_first_match_bound<A>(s: Seq<A>, p: spec_fn(A) -> bool)
    ensures
        first_match(s, p) matches Some(k) ==> 0 <= k < s.len() && p(s[k]),
    decreases s.len(),
{
    if s.len() > 0 && !p(s[0]) {
        lemma_first_match_bound(s.drop_first(), p);
    }
}

/// What a client sees of a diagnostic: range, severity, code text, source, message,
/// related locations and tags.
pub open spec fn diag_view(d: Diagnostic) -> (Range, Option<Severity>, Seq<char>, Option<Seq<char>>, Seq<char>, Seq<(Seq<char>, Range, Seq<char>)>, Seq<Tag>) {
    (d.range, d.severity, crate::report::code_text(d.code), match d.source {
        Some(s) => Some(s@),
        None => None,
    }, d.message@, related_views(d.related@), d.tags@)
}

/// The views of a list of diagnostics.
pub open spec fn diag_views(ds: Seq<Diagnostic>) -> Seq<(Range, Option<Severity>, Seq<char>, Option<Seq<char>>, Seq<char>, Seq<(Seq<char>, Range, Seq<char>)>, Seq<Tag>)> {
    ds.map_values(|d: Diagnostic| diag_view(d))
}

/// Record `o` is an earlier registration of the same method and path pattern as `r`,
/// with another handler.
pub open spec fn duplicates(r: RouteRecord, o: RouteRecord) -> bool {
    &&& o.resolved_path is Resolved
    &&& o.ordinal < r.ordinal
    &&& o.method == r.method
    &&& normalized(path_of(o)) == normalized(path_of(r))
    &&& !same_handler(o, r)
}

/// The `route/duplicate` diagnostic of record `r` among `all`, if it has one.
pub open spec fn duplicate_view(all: Seq<RouteRecord>, r: RouteRecord) -> Option<(Range, Option<Severity>, Seq<char>, Option<Seq<char>>, Seq<char>, Seq<(Seq<char>, Range, Seq<char>)>, Seq<Tag>)> {
    match first_match(all, |o: RouteRecord| duplicates(r, o)) {
        Some(k) => Some(
            (
                r.handler.range,
                Some(Severity::Warning),
                "route/duplicate"@,
                Some(source_name()),
                "Duplicate route: "@ + method_name(r.method) + " "@ + path_of(r) + "."@,
                seq![(all[k].handler.uri@, all[k].handler.range, "first registration here"@)],
                Seq::<Tag>::empty(),
            ),
        ),
        None => None,
    }
}

/// The optional values of `s` that are present, in order.
pub open spec fn somes<A>(s: Seq<Option<A>>) -> Seq<A>
    decreases s.len(),
{
    if s.len() == 0 {
        Seq::empty()
    } else {
        match s.last() {
            Some(x) => somes(s.drop_last()).push(x),
            None => somes(s.drop_last()),
        }
    }
}

/// Whether a record is resolved and handled in file `uri`.
pub open spec fn in_file(r: RouteRecord, uri: Seq<char>) -> bool {
    r.resolved_path is Resolved && r.handler.uri@ == uri
}

/// `route/duplicate` for the records of file `uri`, in the order of `all`.
pub open spec fn duplicate_views(all: Seq<RouteRecord>, uri: Seq<char>) -> Seq<(Range, Option<Severity>, Seq<char>, Option<Seq<char>>, Seq<char>, Seq<(Seq<char>, Range, Seq<char>)>, Seq<Tag>)> {
    somes(all.map_values(|r: RouteRecord| if in_file(r, uri) {
        duplicate_view(all, r)
    } else {
        None
    }))
}

fn route_location(r: &RouteRecord) -> (l: Location)
    ensures
        l.uri@ == r.handler.uri@,
        l.range == r.handler.range,
{
    Location { uri: r.handler.uri.clone(), range: r.handler.range }
}

fn find_duplicate(all: &[&RouteRecord], r: &RouteRecord) -> (k: Option<usize>)
    ensures
        match k {
            Some(i) => first_match(derefs(all@), |o: RouteRecord| duplicates(*r, o)) == Some(i as int),
            None => first_match(derefs(all@), |o: RouteRecord| duplicates(*r, o)) is None,
        },
{
    let ghost p = |o: RouteRecord| duplicates(*r, o);
    let norm = normalize_path(path_str(r));
    let mut i: usize = 0;
    while i < all.len()
        invariant
            i <= derefs(all@).len(),
            norm@ == normalized(path_of(*r)),
            p == (|o: RouteRecord| duplicates(*r, o)),
            forall|j: int| 0 <= j < i ==> !p(#[trigger] derefs(all@)[j]),
        decreases derefs(all@).len() - i,
    {
        let o: &RouteRecord = all[i];
        let hit = is_resolved(o) && o.ordinal < r.ordinal && o.method == r.method && normalize_path(path_str(o)) == norm
            && !handlers_equal(o, r);
        proof {
            lemma_first_match_step(derefs(all@), p, i as int);
        }
        if hit {
            return Some(i);
        }
        i += 1;
    }
    proof {
        lemma_first_match_none(derefs(all@), p);
    }
    None
}

/// `route/duplicate` diagnostics for the routes handled in file `uri` (see `duplicates`);
/// `all` holds every route of the workspace in registration order.
pub fn route_duplicates(all: &[&RouteRecord], uri: &str) -> (r: Vec<Diagnostic>)
    ensures
        diag_views(r@) == duplicate_views(derefs(all@), uri@),
{
    let ghost f = |x: RouteRecord| if in_file(x, uri@) {
        duplicate_view(derefs(all@), x)
    } else {
        None
    };
    let u: String = uri.to_owned();
    let mut out: Vec<Diagnostic> = Vec::new();
    let mut i: usize = 0;
    while i < all.len()
        invariant
            i <= derefs(all@).len(),
            u@ == uri@,
            f == (|x: RouteRecord| if in_file(x, uri@) {
                duplicate_view(derefs(all@), x)
            } else {
                None
            }),
            diag_views(out@) == somes(derefs(all@).take(i as int).map_values(f)),
        decreases derefs(all@).len() - i,
    {
        let rec: &RouteRecord = all[i];
        proof {
            assert(derefs(all@).take(i + 1).map_values(f) =~= derefs(all@).take(i as int).map_values(f).push(f(derefs(all@)[i as int])));
            assert(derefs(all@).take(i + 1).map_values(f).drop_last() =~= derefs(all@).take(i as int).map_values(f));
        }
        let ghost prev_out = diag_views(out@);
        let resolved = match &rec.resolved_path {
            ResolvedPath::Resolved(_) => true,
            ResolvedPath::Unresolved => false,
        };
        if resolved && rec.handler.uri == u {
            match find_duplicate(all, rec) {
                Some(k) => {
                    proof {
                        lemma_first_match_bound(derefs(all@), |o: RouteRecord| duplicates(*rec, o));
                        reveal_strlit(" ");
                    }
                    let mut pattern = str_chars(method_str(rec.method));
                    pattern.push(' ');
                    let pc = str_chars(path_str(rec));
                    push_all(&mut pattern, pc.as_slice());
                    assert(pattern@ =~= method_name(rec.method) + " "@ + path_of(*rec));
                    let loc = route_location(all[k]);
                    let d = route_duplicate_diag(rec.handler.range, string_from_chars(pattern.as_slice()).as_str(), loc);
                    proof {
                        assert(d.tags@ =~= Seq::<Tag>::empty());
                        assert(diag_view(d) == duplicate_view(derefs(all@), *rec)->0);
                        assert(f(derefs(all@)[i as int]) == Some(diag_view(d)));
                    }
                    out.push(d);
                    proof {
                        assert(diag_views(out@) =~= prev_out.push(diag_view(d)));
                    }
                },
                None => {
                    assert(f(derefs(all@)[i as int]) is None);
                },
            }
        } else {
            assert(f(derefs(all@)[i as int]) is None);
        }
        i += 1;
    }
    assert(derefs(all@).take(derefs(all@).len() as int) =~= derefs(all@));
    out
}


/// Whether some `/`-separated segment of `path` is a placeholder.
pub open spec fn has_param(path: Seq<char>) -> bool {
    exists|i: int| 0 <= i < split_on(path, '/').len() && is_param_seg(#[trigger] split_on(path, '/')[i])
}

pub(crate) fn path_has_param(path: &str) -> (b: bool)
    ensures
        b == has_param(path@),
{
    let cs = str_chars(path);
    let segs = split_chars(&cs, '/');
    let ghost sv = views(segs@);
    let mut i: usize = 0;
    while i < segs.len()
        invariant
            i <= segs@.len(),
            sv == views(segs@),
            sv == split_on(path@, '/'),
            forall|j: int| 0 <= j < i ==> !is_param_seg(#[trigger] sv[j]),
        decreases segs@.len() - i,
    {
        if is_param_chars(segs[i].as_slice()) {
            assert(is_param_seg(sv[i as int]));
            return true;
        }
        i += 1;
    }
    false
}

/// Record `o` is an earlier registration, for the same method, of a placeholder route that
/// would serve requests for the literal route `r`.
pub open spec fn shadows(r: RouteRecord, o: RouteRecord) -> bool {
    &&& o.resolved_path is Resolved
    &&& o.ordinal < r.ordinal
    &&& o.method == r.method
    &&& has_param(path_of(o))
    &&& shadowed_by(path_of(r), path_of(o))
}

/// The `route/shadowed` diagnostic of record `r` among `all`, if it has one: only literal
/// routes are shadowed.
pub open spec fn shadowed_view(all: Seq<RouteRecord>, r: RouteRecord) -> Option<(Range, Option<Severity>, Seq<char>, Option<Seq<char>>, Seq<char>, Seq<(Seq<char>, Range, Seq<char>)>, Seq<Tag>)> {
    if has_param(path_of(r)) {
        None
    } else {
        match first_match(all, |o: RouteRecord| shadows(r, o)) {
            Some(k) => Some(
                (
                    r.handler.range,
                    Some(Severity::Warning),
                    "route/shadowed"@,
                    Some(source_name()),
                    "Shadowed route: "@ + path_of(r) + ". Shadowed by "@ + path_of(all[k]) + "."@,
                    seq![(all[k].handler.uri@, all[k].handler.range, "shadowing route registered here"@)],
                    Seq::<Tag>::empty(),
                ),
            ),
            None => None,
        }
    }
}

/// `route/shadowed` for the records of file `uri`, in the order of `all`.
pub open spec fn shadowed_views(all: Seq<RouteRecord>, uri: Seq<char>) -> Seq<(Range, Option<Severity>, Seq<char>, Option<Seq<char>>, Seq<char>, Seq<(Seq<char>, Range, Seq<char>)>, Seq<Tag>)> {
    somes(all.map_values(|r: RouteRecord| if in_file(r, uri) {
        shadowed_view(all, r)
    } else {
        None
    }))
}

fn find_shadower(all: &[&RouteRecord], r: &RouteRecord) -> (k: Option<usize>)
    ensures
        match k {
            Some(i) => first_match(derefs(all@), |o: RouteRecord| shadows(*r, o)) == Some(i as int),
            None => first_match(derefs(all@), |o: RouteRecord| shadows(*r, o)) is None,
        },
{
    let ghost p = |o: RouteRecord| shadows(*r, o);
    let mut i: usize = 0;
    while i < all.len()
        invariant
            i <= derefs(all@).len(),
            p == (|o: RouteRecord| shadows(*r, o)),
            forall|j: int| 0 <= j < i ==> !p(#[trigger] derefs(all@)[j]),
        decreases derefs(all@).len() - i,
    {
        let o: &RouteRecord = all[i];
        let hit = is_resolved(o) && o.ordinal < r.ordinal && o.method == r.method && path_has_param(path_str(o))
            && literal_route_shadowed_by(path_str(r), path_str(o));
        proof {
            lemma_first_match_step(derefs(all@), p, i as int);
        }
        if hit {
            return Some(i);
        }
        i += 1;
    }
    proof {
        lemma_first_match_none(derefs(all@), p);
    }
    None
}

/// `route/shadowed` diagnostics for the literal routes handled in file `uri` (see
/// `shadows`); `all` holds every route of the workspace in registration order.
pub fn route_shadowing(all: &[&RouteRecord], uri: &str) -> (r: Vec<Diagnostic>)
    ensures
        diag_views(r@) == shadowed_views(derefs(all@), uri@),
{
    let ghost f = |x: RouteRecord| if in_file(x, uri@) {
        shadowed_view(derefs(all@), x)
    } else {
        None
    };
    let u: String = uri.to_owned();
    let mut out: Vec<Diagnostic> = Vec::new();
    let mut i: usize = 0;
    while i < all.len()
        invariant
            i <= derefs(all@).len(),
            u@ == uri@,
            f == (|x: RouteRecord| if in_file(x, uri@) {
                shadowed_view(derefs(all@), x)
            } else {
                None
            }),
            diag_views(out@) == somes(derefs(all@).take(i as int).map_values(f)),
        decreases derefs(all@).len() - i,
    {
        let rec: &RouteRecord = all[i];
        proof {
            assert(derefs(all@).take(i + 1).map_values(f) =~= derefs(all@).take(i as int).map_values(f).push(f(derefs(all@)[i as int])));
            assert(derefs(all@).take(i + 1).map_values(f).drop_last() =~= derefs(all@).take(i as int).map_values(f));
        }
        let ghost prev_out = diag_views(out@);
        if is_resolved(rec) && rec.handler.uri == u && !path_has_param(path_str(rec)) {
            match find_shadower(all, rec) {
                Some(k) => {
                    proof {
                        lemma_first_match_bound(derefs(all@), |o: RouteRecord| shadows(*rec, o));
                    }
                    let loc = route_location(all[k]);
                    let d = route_shadowed_diag(rec.handler.range, path_str(rec), path_str(all[k]), loc);
                    proof {
                        assert(d.tags@ =~= Seq::<Tag>::empty());
                        assert(diag_view(d) == shadowed_view(derefs(all@), *rec)->0);
                        assert(f(derefs(all@)[i as int]) == Some(diag_view(d)));
                    }
                    out.push(d);
                    proof {
                        assert(diag_views(out@) =~= prev_out.push(diag_view(d)));
                    }
                },
                None => {
                    assert(f(derefs(all@)[i as int]) is None);
                },
            }
        } else {
            assert(f(derefs(all@)[i as int]) is None);
        }
        i += 1;
    }
    assert(derefs(all@).take(derefs(all@).len() as int) =~= derefs(all@));
    out
}

/// Record `o` is another handler registered under the same route name as `r`.
pub open spec fn shares_name(r: RouteRecord, o: RouteRecord) -> bool {
    o.resolved_path is Resolved && o.name@ == r.name@ && !same_handler(o, r)
}

/// The `route/duplicate-name` diagnostic of record `r` among `all`, if it has one: only
/// for names that some `url_for` uses; a warning on the later registration, a hint on the
/// earlier.
pub open spec fn duplicate_name_view(all: Seq<RouteRecord>, used: Seq<Seq<char>>, r: RouteRecord) -> Option<(Range, Option<Severity>, Seq<char>, Option<Seq<char>>, Seq<char>, Seq<(Seq<char>, Range, Seq<char>)>, Seq<Tag>)> {
    if r.name@.len() == 0 || !used.contains(r.name@) {
        None
    } else {
        match first_match(all, |o: RouteRecord| shares_name(r, o)) {
            Some(k) => if r.ordinal >= all[k].ordinal {
                Some(
                    (
                        r.handler.range,
                        Some(Severity::Warning),
                        "route/duplicate-name"@,
                        Some(source_name()),
                        "Duplicate route name: "@ + r.name@ + "."@,
                        seq![(all[k].handler.uri@, all[k].handler.range, "other handler with same name"@)],
                        Seq::<Tag>::empty(),
                    ),
                )
            } else {
                Some(
                    (
                        r.handler.range,
                        Some(Severity::Hint),
                        "route/duplicate-name"@,
                        Some(source_name()),
                        "Route name '"@ + r.name@ + "' first used here."@,
                        seq![(all[k].handler.uri@, all[k].handler.range, "re-used here"@)],
                        seq![Tag::Unnecessary],
                    ),
                )
            },
            None => None,
        }
    }
}

/// `route/duplicate-name` for the records of file `uri`, in the order of `all`.
pub open spec fn duplicate_name_views(all: Seq<RouteRecord>, used: Seq<Seq<char>>, uri: Seq<char>) -> Seq<(Range, Option<Severity>, Seq<char>, Option<Seq<char>>, Seq<char>, Seq<(Seq<char>, Range, Seq<char>)>, Seq<Tag>)> {
    somes(all.map_values(|r: RouteRecord| if in_file(r, uri) {
        duplicate_name_view(all, used, r)
    } else {
        None
    }))
}

fn find_same_name(all: &[&RouteRecord], r: &RouteRecord) -> (k: Option<usize>)
    ensures
        match k {
            Some(i) => first_match(derefs(all@), |o: RouteRecord| shares_name(*r, o)) == Some(i as int),
            None => first_match(derefs(all@), |o: RouteRecord| shares_name(*r, o)) is None,
        },
{
    let ghost p = |o: RouteRecord| shares_name(*r, o);
    let mut i: usize = 0;
    while i < all.len()
        invariant
            i <= derefs(all@).len(),
            p == (|o: RouteRecord| shares_name(*r, o)),
            forall|j: int| 0 <= j < i ==> !p(#[trigger] derefs(all@)[j]),
        decreases derefs(all@).len() - i,
    {
        let o: &RouteRecord = all[i];
        let hit = is_resolved(o) && o.name == r.name && !handlers_equal(o, r);
        proof {
            lemma_first_match_step(derefs(all@), p, i as int);
        }
        if hit {
            return Some(i);
        }
        i += 1;
    }
    proof {
        lemma_first_match_none(derefs(all@), p);
    }
    None
}

fn names_contain(names: &[String], n: &String) -> (b: bool)
    ensures
        b == names@.map_values(|x: String| x@).contains(n@),
{
    let mut i: usize = 0;
    while i < names.len()
        invariant
            i <= names@.len(),
            forall|j: int| 0 <= j < i ==> (#[trigger] names@[j])@ != n@,
        decreases names@.len() - i,
    {
        if names[i] == *n {
            assert(names@.map_values(|x: String| x@)[i as int] == n@);
            return true;
        }
        i += 1;
    }
    proof {
        let nv = names@.map_values(|x: String| x@);
        if nv.contains(n@) {
            let j = choose|j: int| 0 <= j < nv.len() && #[trigger] nv[j] == n@;
            assert(names@[j]@ == n@);
        }
    }
    false
}

/// `route/duplicate-name` diagnostics for the routes handled in file `uri` whose name
/// another handler also has and some `url_for` uses (`used_names`).
pub fn route_duplicate_names(all: &[&RouteRecord], used_names: &[String], uri: &str) -> (r: Vec<Diagnostic>)
    ensures
        diag_views(r@) == duplicate_name_views(derefs(all@), used_names@.map_values(|x: String| x@), uri@),
{
    let ghost used = used_names@.map_values(|x: String| x@);
    let ghost f = |x: RouteRecord| if in_file(x, uri@) {
        duplicate_name_view(derefs(all@), used, x)
    } else {
        None
    };
    let u: String = uri.to_owned();
    let mut out: Vec<Diagnostic> = Vec::new();
    let mut i: usize = 0;
    while i < all.len()
        invariant
            i <= derefs(all@).len(),
            u@ == uri@,
            used == used_names@.map_values(|x: String| x@),
            f == (|x: RouteRecord| if in_file(x, uri@) {
                duplicate_name_view(derefs(all@), used, x)
            } else {
                None
            }),
            diag_views(out@) == somes(derefs(all@).take(i as int).map_values(f)),
        decreases derefs(all@).len() - i,
    {
        let rec: &RouteRecord = all[i];
        proof {
            assert(derefs(all@).take(i + 1).map_values(f) =~= derefs(all@).take(i as int).map_values(f).push(f(derefs(all@)[i as int])));
            assert(derefs(all@).take(i + 1).map_values(f).drop_last() =~= derefs(all@).take(i as int).map_values(f));
        }
        let ghost prev_out = diag_views(out@);
        if is_resolved(rec) && rec.handler.uri == u && !rec.name.as_str().is_empty() && names_contain(used_names, &rec.name) {
            match find_same_name(all, rec) {
                Some(k) => {
                    proof {
                        lemma_first_match_bound(derefs(all@), |o: RouteRecord| shares_name(*rec, o));
                    }
                    let loc = route_location(all[k]);
                    let d = if rec.ordinal >= all[k].ordinal {
                        route_duplicate_name_diag(rec.handler.range, rec.name.as_str(), loc)
                    } else {
                        route_duplicate_name_hint(rec.handler.range, rec.name.as_str(), loc)
                    };
                    proof {
                        if rec.ordinal >= derefs(all@)[k as int].ordinal {
                            assert(d.tags@ =~= Seq::<Tag>::empty());
                        }
                        assert(diag_view(d) == duplicate_name_view(derefs(all@), used, *rec)->0);
                        assert(f(derefs(all@)[i as int]) == Some(diag_view(d)));
                    }
                    out.push(d);
                    proof {
                        assert(diag_views(out@) =~= prev_out.push(diag_view(d)));
                    }
                },
                None => {
                    assert(f(derefs(all@)[i as int]) is None);
                },
            }
        } else {
            assert(f(derefs(all@)[i as int]) is None);
        }
        i += 1;
    }
    assert(derefs(all@).take(derefs(all@).len() as int) =~= derefs(all@));
    out
}


/// A router (`APIRouter()`) declared in a file.
#[derive(Clone, Debug)]
pub struct RouterDecl {
    pub name: String,
    pub range: Range,
}

/// An `include_router(target)` call, with what `target` was imported as when it is an
/// import alias.
#[derive(Clone, Debug)]
pub struct IncludeFact {
    pub target: String,
    pub alias_original: Option<String>,
}

/// A reference `s` names the router `name`: directly or as `something.name`.
pub open spec fn names_router(s: Seq<char>, name: Seq<char>) -> bool {
    s == name || crate::text::is_suffix(seq!['.'] + name, s)
}

/// The name an include refers to once an import alias is undone.
pub open spec fn include_name(inc: IncludeFact) -> Seq<char> {
    match inc.alias_original {
        Some(o) => o@,
        None => inc.target@,
    }
}

/// An include reaches the router `name`.
pub open spec fn includes_router(inc: IncludeFact, name: Seq<char>) -> bool {
    names_router(include_name(inc), name) || names_router(inc.target@, name)
}

/// An include whose target is no known router or app, even through its alias.
pub open spec fn unresolved_include(inc: IncludeFact, known: Seq<Seq<char>>) -> bool {
    !known.contains(inc.target@) && !(inc.alias_original matches Some(o) && known.contains(o@))
}

/// `route/router-not-included` for a router: it fires when no include reaches the router,
/// unless (while some routes are unresolved) an unresolved include might be the one.
pub open spec fn not_included_view(r: RouterDecl, includes: Seq<IncludeFact>, known: Seq<Seq<char>>, has_unresolved: bool) -> Option<(Range, Option<Severity>, Seq<char>, Option<Seq<char>>, Seq<char>, Seq<(Seq<char>, Range, Seq<char>)>, Seq<Tag>)> {
    let suppressed = has_unresolved && exists|k: int|
        0 <= k < includes.len() && unresolved_include(#[trigger] includes[k], known) && names_router(includes[k].target@, r.name@);
    let included = exists|k: int| 0 <= k < includes.len() && includes_router(#[trigger] includes[k], r.name@);
    if suppressed || included {
        None
    } else {
        Some(
            (
                r.range,
                Some(Severity::Warning),
                "route/router-not-included"@,
                Some(source_name()),
                "Router not included: "@ + r.name@ + "."@,
                Seq::empty(),
                seq![Tag::Unnecessary],
            ),
        )
    }
}

fn refers_to_router(s: &str, name: &str) -> (b: bool)
    ensures
        b == names_router(s@, name@),
{
    let sc = str_chars(s);
    let nc = str_chars(name);
    let mut dotted: Vec<char> = Vec::new();
    dotted.push('.');
    push_all(&mut dotted, nc.as_slice());
    assert(dotted@ =~= seq!['.'] + name@);
    crate::text::chars_eq(sc.as_slice(), nc.as_slice()) || crate::text::ends_with(sc.as_slice(), dotted.as_slice())
}

fn include_is_unresolved(inc: &IncludeFact, known: &[String]) -> (b: bool)
    ensures
        b == unresolved_include(*inc, known@.map_values(|x: String| x@)),
{
    if names_contain(known, &inc.target) {
        return false;
    }
    match &inc.alias_original {
        Some(o) => !names_contain(known, o),
        None => true,
    }
}

fn include_reaches(inc: &IncludeFact, name: &str) -> (b: bool)
    ensures
        b == includes_router(*inc, name@),
{
    let resolved: &str = match &inc.alias_original {
        Some(o) => o.as_str(),
        None => inc.target.as_str(),
    };
    refers_to_router(resolved, name) || refers_to_router(inc.target.as_str(), name)
}

/// `route/router-not-included` diagnostics for the routers of a file (see
/// `not_included_view`); `includes` are all includes of the workspace, `known` the names of
/// all its routers and apps, `has_unresolved` whether some route is unresolved.
pub fn routers_not_included(routers: &[RouterDecl], includes: &[IncludeFact], known: &[String], has_unresolved: bool) -> (r: Vec<Diagnostic>)
    ensures
        diag_views(r@) == somes(routers@.map_values(|x: RouterDecl| not_included_view(x, includes@, known@.map_values(|y: String| y@), has_unresolved))),
{
    let ghost kn = known@.map_values(|y: String| y@);
    let ghost f = |x: RouterDecl| not_included_view(x, includes@, kn, has_unresolved);
    let mut out: Vec<Diagnostic> = Vec::new();
    let mut i: usize = 0;
    while i < routers.len()
        invariant
            i <= routers@.len(),
            kn == known@.map_values(|y: String| y@),
            f == (|x: RouterDecl| not_included_view(x, includes@, kn, has_unresolved)),
            diag_views(out@) == somes(routers@.take(i as int).map_values(f)),
        decreases routers@.len() - i,
    {
        let router = &routers[i];
        proof {
            assert(routers@.take(i + 1).map_values(f) =~= routers@.take(i as int).map_values(f).push(f(routers@[i as int])));
            assert(routers@.take(i + 1).map_values(f).drop_last() =~= routers@.take(i as int).map_values(f));
        }
        let ghost prev_out = diag_views(out@);
        let mut suppressed = false;
        let mut included = false;
        let mut k: usize = 0;
        while k < includes.len()
            invariant
                k <= includes@.len(),
                router == &routers@[i as int],
                kn == known@.map_values(|y: String| y@),
                suppressed == exists|j: int|
                    0 <= j < k && unresolved_include(#[trigger] includes@[j], kn) && names_router(includes@[j].target@, router.name@),
                included == exists|j: int| 0 <= j < k && includes_router(#[trigger] includes@[j], router.name@),
            decreases includes@.len() - k,
        {
            let inc = &includes[k];
            if include_is_unresolved(inc, known) && refers_to_router(inc.target.as_str(), router.name.as_str()) {
                suppressed = true;
            }
            if include_reaches(inc, router.name.as_str()) {
                included = true;
            }
            k += 1;
        }
        if !(has_unresolved && suppressed) && !included {
            let d = router_not_included_diag(router.name.as_str(), router.range);
            proof {
                assert(related_views(d.related@) =~= Seq::<(Seq<char>, Range, Seq<char>)>::empty());
                assert(f(routers@[i as int]) == Some(diag_view(d)));
            }
            out.push(d);
            proof {
                assert(diag_views(out@) =~= prev_out.push(diag_view(d)));
            }
        } else {
            assert(f(routers@[i as int]) is None);
        }
        i += 1;
    }
    assert(routers@.take(routers@.len() as int) =~= routers@);
    out
}


/// What a client sees of a diagnostic (see `diag_view`).
pub type DiagView = (Range, Option<Severity>, Seq<char>, Option<Seq<char>>, Seq<char>, Seq<(Seq<char>, Range, Seq<char>)>, Seq<Tag>);

/// The deduplication key of a diagnostic's view: start position and message.
pub open spec fn view_key(v: DiagView) -> (u32, u32, Seq<char>) {
    (v.0.start.line, v.0.start.character, v.4)
}

/// The views without those whose key an earlier one already has.
pub open spec fn dedup_views(vs: Seq<DiagView>) -> Seq<DiagView>
    decreases vs.len(),
{
    if vs.len() == 0 {
        vs
    } else {
        let prev = dedup_views(vs.drop_last());
        if prev.map_values(|v: DiagView| view_key(v)).contains(view_key(vs.last())) {
            prev
        } else {
            prev.push(vs.last())
        }
    }
}

/// Deduplicating diagnostics and then viewing them is viewing them and then deduplicating.
pub proof fn lemma_dedup_views(ds: Seq<Diagnostic>)
    ensures
        diag_views(dedup_spec(ds)) == dedup_views(diag_views(ds)),
    decreases ds.len(),
{
    if ds.len() > 0 {
        let prev = dedup_spec(ds.drop_last());
        lemma_dedup_views(ds.drop_last());
        assert(diag_views(ds).drop_last() =~= diag_views(ds.drop_last()));
        assert(prev.map_values(|d: Diagnostic| diag_key(d)) =~= diag_views(prev).map_values(|v: DiagView| view_key(v)));
        assert(diag_views(prev.push(ds.last())) =~= diag_views(prev).push(diag_view(ds.last())));
    }
}

/// What makes two diagnostics the same for deduplication: start position and message.
pub open spec fn diag_key(d: Diagnostic) -> (u32, u32, Seq<char>) {
    (d.range.start.line, d.range.start.character, d.message@)
}

/// The diagnostics without those whose key an earlier one already has.
pub open spec fn dedup_spec(ds: Seq<Diagnostic>) -> Seq<Diagnostic>
    decreases ds.len(),
{
    if ds.len() == 0 {
        ds
    } else {
        let prev = dedup_spec(ds.drop_last());
        if prev.map_values(|d: Diagnostic| diag_key(d)).contains(diag_key(ds.last())) {
            prev
        } else {
            prev.push(ds.last())
        }
    }
}

fn has_key(kept: &Vec<Diagnostic>, d: &Diagnostic) -> (b: bool)
    ensures
        b == kept@.map_values(|x: Diagnostic| diag_key(x)).contains(diag_key(*d)),
{
    let ghost ks = kept@.map_values(|x: Diagnostic| diag_key(x));
    let mut i: usize = 0;
    while i < kept.len()
        invariant
            i <= kept@.len(),
            ks == kept@.map_values(|x: Diagnostic| diag_key(x)),
            forall|j: int| 0 <= j < i ==> #[trigger] ks[j] != diag_key(*d),
        decreases kept@.len() - i,
    {
        let k = &kept[i];
        if k.range.start.line == d.range.start.line && k.range.start.character == d.range.start.character
            && k.message == d.message {
            assert(ks[i as int] == diag_key(*d));
            return true;
        }
        i += 1;
    }
    false
}

/// Removes repeated diagnostics (the same route mounted under several prefixes reports
/// the same problem once per mount): a diagnostic is dropped when an earlier one has the
/// same start position and message.
pub fn dedup_diags(diags: Vec<Diagnostic>) -> (r: Vec<Diagnostic>)
    ensures
        r@ == dedup_spec(diags@),
{
    let mut input = diags;
    let ghost all = input@;
    let n0 = input.len();
    assert(all.len() == n0);
    let mut out: Vec<Diagnostic> = Vec::new();
    let mut taken: usize = 0;
    while input.len() > 0
        invariant
            taken + input@.len() == all.len(),
            all.len() <= usize::MAX,
            input@ == all.skip(taken as int),
            out@ == dedup_spec(all.take(taken as int)),
        decreases input@.len(),
    {
        let d = input.remove(0);
        proof {
            assert(all.take(taken + 1).drop_last() =~= all.take(taken as int));
            assert(all.take(taken + 1).last() == d);
        }
        if !has_key(&out, &d) {
            out.push(d);
        }
        taken += 1;
        assert(input@ =~= all.skip(taken as int));
    }
    assert(all.take(all.len() as int) =~= all);
    out
}

/// The resolved records among `s`, in order.
pub open spec fn resolved_only(s: Seq<RouteRecord>) -> Seq<RouteRecord>
    decreases s.len(),
{
    if s.len() == 0 {
        Seq::empty()
    } else {
        resolved_only(s.drop_last()) + if s.last().resolved_path is Resolved {
            seq![s.last()]
        } else {
            Seq::<RouteRecord>::empty()
        }
    }
}

/// The resolved records of a route index, route by route.
pub open spec fn resolved_records(ix: Seq<(RouteId, Vec<RouteRecord>)>) -> Seq<RouteRecord>
    decreases ix.len(),
{
    if ix.len() == 0 {
        Seq::empty()
    } else {
        resolved_records(ix.drop_last()) + resolved_only(ix.last().1@)
    }
}

/// Some record of the index has no resolved path.
pub open spec fn has_unresolved(ix: Seq<(RouteId, Vec<RouteRecord>)>) -> bool {
    exists|i: int, j: int| 0 <= i < ix.len() && 0 <= j < ix[i].1@.len() && (#[trigger] ix[i].1@[j]).resolved_path is Unresolved
}

/// The records behind a list of references.
pub open spec fn derefs(s: Seq<&RouteRecord>) -> Seq<RouteRecord> {
    s.map_values(|r: &RouteRecord| *r)
}

/// All resolved records of the workspace, route by route (see `resolved_records`).
pub fn resolved_refs(route_index: &RouteIndex) -> (r: Vec<&RouteRecord>)
    ensures
        derefs(r@) == resolved_records(route_index@),
{
    let mut flat: Vec<&RouteRecord> = Vec::new();
    let mut i: usize = 0;
    while i < route_index.len()
        invariant
            i <= route_index@.len(),
            derefs(flat@) == resolved_records(route_index@.take(i as int)),
        decreases route_index@.len() - i,
    {
        let recs = &route_index[i].1;
        assert(route_index@.take(i + 1).drop_last() =~= route_index@.take(i as int));
        let ghost base = derefs(flat@);
        let mut j: usize = 0;
        while j < recs.len()
            invariant
                j <= recs@.len(),
                i < route_index@.len(),
                recs == &route_index@[i as int].1,
                derefs(flat@) == base + resolved_only(recs@.take(j as int)),
            decreases recs@.len() - j,
        {
            assert(recs@.take(j + 1).drop_last() =~= recs@.take(j as int));
            let ghost before = derefs(flat@);
            if is_resolved(&recs[j]) {
                flat.push(&recs[j]);
                assert(derefs(flat@) =~= before.push(recs@[j as int]));
            }
            j += 1;
        }
        assert(recs@.take(recs@.len() as int) =~= recs@);
        i += 1;
    }
    assert(route_index@.take(route_index@.len() as int) =~= route_index@);
    flat
}

/// Whether some record of the index has no resolved path.
pub fn any_unresolved(route_index: &RouteIndex) -> (b: bool)
    ensures
        b == has_unresolved(route_index@),
{
    let mut i: usize = 0;
    while i < route_index.len()
        invariant
            i <= route_index@.len(),
            forall|a: int, c: int| 0 <= a < i && 0 <= c < route_index@[a].1@.len() ==> !((#[trigger] route_index@[a].1@[c]).resolved_path is Unresolved),
        decreases route_index@.len() - i,
    {
        let recs = &route_index[i].1;
        let mut j: usize = 0;
        while j < recs.len()
            invariant
                j <= recs@.len(),
                i < route_index@.len(),
                recs == &route_index@[i as int].1,
                forall|c: int| 0 <= c < j ==> !((#[trigger] recs@[c]).resolved_path is Unresolved),
            decreases recs@.len() - j,
        {
            if !is_resolved(&recs[j]) {
                assert(route_index@[i as int].1@[j as int].resolved_path is Unresolved);
                return true;
            }
            j += 1;
        }
        i += 1;
    }
    false
}

/// The cross-route diagnostics of file `uri`: routers of the file that nothing includes,
/// then duplicate routes, shadowed literal routes and shared route names, each over all
/// resolved routes of the workspace in registration order.
pub open spec fn cross_route_views(
    ix: Seq<(RouteId, Vec<RouteRecord>)>,
    routers: Seq<RouterDecl>,
    includes: Seq<IncludeFact>,
    known: Seq<Seq<char>>,
    used: Seq<Seq<char>>,
    uri: Seq<char>,
    has_unresolved_routes: bool,
) -> Seq<DiagView> {
    let all = sorted_by_ordinal(resolved_records(ix));
    somes(routers.map_values(|x: RouterDecl| not_included_view(x, includes, known, has_unresolved_routes)))
        + duplicate_views(all, uri) + shadowed_views(all, uri) + duplicate_name_views(all, used, uri)
}

/// `route/router-not-included`, `route/duplicate`, `route/shadowed` and
/// `route/duplicate-name` for file `uri` (see `cross_route_views`): `routers` are the
/// routers declared in the file, `includes` every include of the workspace, `known` the
/// names of all its routers and apps, `used_names` the names that some `url_for` uses.
pub fn cross_route_diags(
    route_index: &RouteIndex,
    routers: &[RouterDecl],
    includes: &[IncludeFact],
    known: &[String],
    used_names: &[String],
    uri: &str,
    has_unresolved_routes: bool,
) -> (r: Vec<Diagnostic>)
    ensures
        diag_views(r@) == cross_route_views(route_index@, routers@, includes@, known@.map_values(|y: String| y@),
            used_names@.map_values(|x: String| x@), uri@, has_unresolved_routes),
{
    let mut diags = routers_not_included(routers, includes, known, has_unresolved_routes);
    let all = sort_by_ordinal(resolved_refs(route_index));
    let ghost head = diag_views(diags@);
    let mut dup = route_duplicates(all.as_slice(), uri);
    diags.append(&mut dup);
    let mut sh = route_shadowing(all.as_slice(), uri);
    diags.append(&mut sh);
    let mut names = route_duplicate_names(all.as_slice(), used_names, uri);
    let ghost mid = diags@;
    diags.append(&mut names);
    proof {
        let ds = diags@;
        assert(diag_views(ds) =~= diag_views(mid) + diag_views(ds.skip(mid.len() as int)));
    }
    assert(diag_views(diags@) =~= cross_route_views(route_index@, routers@, includes@, known@.map_values(|y: String| y@),
            used_names@.map_values(|x: String| x@), uri@, has_unresolved_routes));
    diags
}

/// An element of `somes(s)` is the value of some present element of `s`.
pub proof fn lemma_somes_member<A>(s: Seq<Option<A>>, x: A)
    requires
        somes(s).contains(x),
    ensures
        exists|i: int| 0 <= i < s.len() && s[i] == Some(x),
    decreases s.len(),
{
    if s.len() > 0 {
        let prev = somes(s.drop_last());
        match s.last() {
            Some(y) => {
                if x == y {
                    assert(s[s.len() - 1] == Some(x));
                } else {
                    let j = choose|j: int| 0 <= j < somes(s).len() && somes(s)[j] == x;
                    assert(somes(s) == prev.push(y));
                    assert(prev[j] == x);
                    lemma_somes_member(s.drop_last(), x);
                    let i = choose|i: int| 0 <= i < s.drop_last().len() && s.drop_last()[i] == Some(x);
                    assert(s[i] == Some(x));
                }
            },
            None => {
                lemma_somes_member(s.drop_last(), x);
                let i = choose|i: int| 0 <= i < s.drop_last().len() && s.drop_last()[i] == Some(x);
                assert(s[i] == Some(x));
            },
        }
    }
}

/// Law: a route is only ever reported as shadowed by an earlier route of the same HTTP
/// method. Every `route/shadowed` diagnostic of file `uri` sits on a literal route `all[i]`
/// of that file, names as its shadower a route `all[k]` registered before it for the same
/// method whose path has a placeholder, and points at that route's handler.
pub proof fn shadowing_route_has_same_method(all: Seq<RouteRecord>, uri: Seq<char>, d: DiagView)
    requires
        shadowed_views(all, uri).contains(d),
    ensures
        exists|i: int, k: int| {
            &&& 0 <= i < all.len()
            &&& 0 <= k < all.len()
            &&& all[i].handler.uri@ == uri
            &&& !has_param(path_of(all[i]))
            &&& all[k].method == all[i].method
            &&& all[k].ordinal < all[i].ordinal
            &&& has_param(path_of(all[k]))
            &&& d.0 == all[i].handler.range
            &&& d.2 == "route/shadowed"@
            &&& d.4 == "Shadowed route: "@ + path_of(all[i]) + ". Shadowed by "@ + path_of(all[k]) + "."@
            &&& d.5 == seq![(all[k].handler.uri@, all[k].handler.range, "shadowing route registered here"@)]
        },
{
    let f = |r: RouteRecord| if in_file(r, uri) {
        shadowed_view(all, r)
    } else {
        None
    };
    let m = all.map_values(f);
    assert(shadowed_views(all, uri) == somes(m));
    lemma_somes_member(m, d);
    let i = choose|i: int| 0 <= i < m.len() && m[i] == Some(d);
    let r = all[i];
    assert(m[i] == f(r));
    let p = |o: RouteRecord| shadows(r, o);
    lemma_first_match_bound(all, p);
    let k = first_match(all, p)->0;
    assert(shadows(r, all[k]));
}

/// Law: a router counts as included as soon as some include names it, directly or as
/// `something.name`, by its target or by what its target was imported as; such a router
/// gets no `route/router-not-included` diagnostic.
pub proof fn named_router_is_included(
    r: RouterDecl,
    includes: Seq<IncludeFact>,
    known: Seq<Seq<char>>,
    has_unresolved: bool,
    k: int,
    prefix: Seq<char>,
)
    requires
        0 <= k < includes.len(),
        ({
            let t = includes[k].target@;
            ||| t == r.name@
            ||| t == prefix + seq!['.'] + r.name@
            ||| includes[k].alias_original matches Some(o) && (o@ == r.name@ || o@ == prefix + seq!['.'] + r.name@)
        }),
    ensures
        not_included_view(r, includes, known, has_unresolved) is None,
{
    let n = r.name@;
    let dotted = seq!['.'] + n;
    let inc = includes[k];
    let t = inc.target@;
    if t == prefix + dotted {
        assert(t.skip(t.len() - dotted.len()) =~= dotted);
    }
    if t == prefix + seq!['.'] + n {
        assert(prefix + seq!['.'] + n =~= prefix + dotted);
        assert(t.skip(t.len() - dotted.len()) =~= dotted);
    }
    match inc.alias_original {
        Some(o) => {
            if o@ == prefix + seq!['.'] + n {
                assert(o@.skip(o@.len() - dotted.len()) =~= dotted);
            }
        },
        None => {},
    }
    assert(includes_router(includes[k], n));
}

/// `t` is `something.n`: it ends with a dot followed by `n`.
pub open spec fn ends_with_dot_name(t: Seq<char>, n: Seq<char>) -> bool {
    t.len() > n.len() && t[t.len() - n.len() - 1] == '.' && t.subrange(t.len() - n.len(), t.len() as int) == n
}

/// Law: when every route is resolved, a router that no include names (directly or as
/// `something.name`, by target or by what the target was imported as) is reported as
/// not included.
pub proof fn unnamed_router_is_reported(r: RouterDecl, includes: Seq<IncludeFact>, known: Seq<Seq<char>>)
    requires
        forall|k: int| 0 <= k < includes.len() ==> {
            &&& #[trigger] includes[k].target@ != r.name@
            &&& !ends_with_dot_name(includes[k].target@, r.name@)
            &&& (includes[k].alias_original matches Some(o) ==> o@ != r.name@ && !ends_with_dot_name(o@, r.name@))
        },
    ensures
        not_included_view(r, includes, known, false) matches Some(d) && d.0 == r.range && d.1 == Some(Severity::Warning)
            && d.2 == "route/router-not-included"@ && d.4 == "Router not included: "@ + r.name@ + "."@,
{
    let n = r.name@;
    let dotted = seq!['.'] + n;
    assert(dotted.drop_first() =~= n);
    assert(dotted[0] == '.');
    assert forall|k: int| 0 <= k < includes.len() implies !includes_router(#[trigger] includes[k], n) by {
        let t = includes[k].target@;
        assert(t != n && !ends_with_dot_name(t, n));
        if crate::text::is_suffix(dotted, t) {
            assert(t[t.len() - n.len() - 1] == t.skip(t.len() - dotted.len())[0]);
            assert(t.subrange(t.len() - n.len(), t.len() as int) =~= t.skip(t.len() - dotted.len()).drop_first());
            assert(ends_with_dot_name(t, n));
        }
        match includes[k].alias_original {
            Some(o) => {
                let ov = o@;
                if crate::text::is_suffix(dotted, ov) {
                    assert(ov[ov.len() - n.len() - 1] == ov.skip(ov.len() - dotted.len())[0]);
                    assert(ov.subrange(ov.len() - n.len(), ov.len() as int) =~= ov.skip(ov.len() - dotted.len()).drop_first());
                    assert(ends_with_dot_name(ov, n));
                }
                assert(!names_router(ov, n));
            },
            None => {},
        }
    }
}

proof fn lemma_first_match_found<A>(s: Seq<A>, p: spec_fn(A) -> bool, k: int)
    requires
        0 <= k < s.len(),
        p(s[k]),
    ensures
        first_match(s, p) is Some,
    decreases s.len(),
{
    if !p(s[0]) {
        assert(s.drop_first()[k - 1] == s[k]);
        lemma_first_match_found(s.drop_first(), p, k - 1);
    }
}

proof fn lemma_somes_has<A>(s: Seq<Option<A>>, i: int)
    requires
        0 <= i < s.len(),
        s[i] is Some,
    ensures
        somes(s).contains(s[i]->0),
    decreases s.len(),
{
    let x = s[i]->0;
    if i == s.len() - 1 {
        assert(somes(s) == somes(s.drop_last()).push(x));
        assert(somes(s)[somes(s).len() - 1] == x);
    } else {
        assert(s.drop_last()[i] == s[i]);
        lemma_somes_has(s.drop_last(), i);
        let prev = somes(s.drop_last());
        let w = choose|w: int| 0 <= w < prev.len() && prev[w] == x;
        match s.last() {
            Some(y) => {
                assert(somes(s) == prev.push(y));
                assert(somes(s)[w] == x);
            },
            None => {},
        }
    }
}

/// Law: a literal route of file `uri` is reported as shadowed when a route registered
/// before it for the same HTTP method has a placeholder path that would serve its
/// requests; the warning sits on the literal route's handler.
pub proof fn shadowed_literal_route_is_reported(all: Seq<RouteRecord>, uri: Seq<char>, i: int, k: int)
    requires
        0 <= i < all.len(),
        0 <= k < all.len(),
        all[i].resolved_path is Resolved,
        all[k].resolved_path is Resolved,
        all[i].handler.uri@ == uri,
        !has_param(path_of(all[i])),
        has_param(path_of(all[k])),
        all[k].method == all[i].method,
        all[k].ordinal < all[i].ordinal,
        shadowed_by(path_of(all[i]), path_of(all[k])),
    ensures
        exists|d: DiagView| #[trigger] shadowed_views(all, uri).contains(d) && d.0 == all[i].handler.range
            && d.1 == Some(Severity::Warning) && d.2 == "route/shadowed"@,
{
    let r = all[i];
    let f = |x: RouteRecord| if in_file(x, uri) {
        shadowed_view(all, x)
    } else {
        None
    };
    let m = all.map_values(f);
    let p = |o: RouteRecord| shadows(r, o);
    assert(p(all[k]));
    lemma_first_match_found(all, p, k);
    assert(m[i] == f(r));
    assert(m[i] is Some);
    lemma_somes_has(m, i);
    assert(shadowed_views(all, uri) == somes(m));
    assert(shadowed_views(all, uri).contains(m[i]->0));
}

} // verus!
