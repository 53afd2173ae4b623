//! The route-name index: each route name with the identifiers of the routes it names.
use vstd::prelude::*;
use crate::routing::{Method, RouteId};
use crate::checks::method_name;
use crate::mounts::{entries_of, push_keyed, pushed};
use crate::text::{str_chars, string_from_chars, push_all};

verus! {

broadcast use vstd::string::group_string_axioms;

/// What the route-name index reads of a route decorator.
pub struct NamedRoute {
    pub handler_name: String,
    /// The decorator's `name=`.
    pub route_name: Option<String>,
    pub methods: Vec<Method>,
}

/// The route decorators of one file.
pub struct NamedFile {
    pub uri: String,
    pub routes: Vec<NamedRoute>,
}

/// The identifier of a route: `<uri>:<handler>:<METHOD>`.
pub open spec fn route_id(uri: Seq<char>, handler: Seq<char>, m: Method) -> Seq<char> {
    uri + ":"@ + handler + ":"@ + method_name(m)
}

/// The name a route is known by: its `name=`, else its handler's name.
pub open spec fn name_of(r: NamedRoute) -> Seq<char> {
    match r.route_name {
        Some(n) => n@,
        None => r.handler_name@,
    }
}

/// A route enters the index unless it is a mount without a name.
pub open spec fn indexed(r: NamedRoute, m: Method) -> bool {
    m != Method::Mount || r.route_name is Some
}

/// The (name, identifier) pairs of one route, method by method.
pub open spec fn route_pairs(uri: Seq<char>, r: NamedRoute, ms: Seq<Method>) -> Seq<(Seq<char>, Seq<char>)>
    decreases ms.len(),
{
    if ms.len() == 0 {
        Seq::empty()
    } else {
        route_pairs(uri, r, ms.drop_last()) + if indexed(r, ms.last()) {
            seq![(name_of(r), route_id(uri, r.handler_name@, ms.last()))]
        } else {
            Seq::empty()
        }
    }
}

/// The pairs of a file's routes, in order.
pub open spec fn file_pairs(uri: Seq<char>, rs: Seq<NamedRoute>) -> Seq<(Seq<char>, Seq<char>)>
    decreases rs.len(),
{
    if rs.len() == 0 {
        Seq::empty()
    } else {
        file_pairs(uri, rs.drop_last()) + route_pairs(uri, rs.last(), rs.last().methods@)
    }
}

/// The pairs of all files, in order.
pub open spec fn all_pairs(fs: Seq<NamedFile>) -> Seq<(Seq<char>, Seq<char>)>
    decreases fs.len(),
{
    if fs.len() == 0 {
        Seq::empty()
    } else {
        all_pairs(fs.drop_last()) + file_pairs(fs.last().uri@, fs.last().routes@)
    }
}

/// The identifiers paired with `name`, in order; none when there are none.
pub open spec fn ids_named(ps: Seq<(Seq<char>, Seq<char>)>, name: Seq<char>) -> Option<Seq<Seq<char>>>
    decreases ps.len(),
{
    if ps.len() == 0 {
        None
    } else if ps.last().0 == name {
        match ids_named(ps.drop_last(), name) {
            Some(ids) => Some(ids.push(ps.last().1)),
            None => Some(seq![ps.last().1]),
        }
    } else {
        ids_named(ps.drop_last(), name)
    }
}

/// `a` comes before `b` in character order (which is the order of their UTF-8 bytes).
pub open spec fn lex_lt(a: Seq<char>, b: Seq<char>) -> bool
    decreases a.len(),
{
    if a.len() == 0 {
        b.len() > 0
    } else if b.len() == 0 {
        false
    } else if a[0] < b[0] {
        true
    } else if a[0] == b[0] {
        lex_lt(a.drop_first(), b.drop_first())
    } else {
        false
    }
}

/// `s` with `x` placed after every identifier that does not come after it.
pub open spec fn insert_lex(s: Seq<Seq<char>>, x: Seq<char>) -> Seq<Seq<char>>
    decreases s.len(),
{
    if s.len() == 0 || !lex_lt(x, s.last()) {
        s.push(x)
    } else {
        insert_lex(s.drop_last(), x).push(s.last())
    }
}

/// The identifiers in character order.
pub open spec fn sorted_ids(s: Seq<Seq<char>>) -> Seq<Seq<char>>
    decreases s.len(),
{
    if s.len() == 0 {
        s
    } else {
        insert_lex(sorted_ids(s.drop_last()), s.last())
    }
}

pub open spec fn id_views(v: Seq<RouteId>) -> Seq<Seq<char>> {
    v.map_values(|r: RouteId| r@)
}

/// The name index as a function of names: the identifiers under each name.
pub open spec fn index_views(m: Seq<(String, Vec<RouteId>)>, name: Seq<char>) -> Option<Seq<Seq<char>>> {
    match entries_of(m, name) {
        Some(v) => Some(id_views(v)),
        None => None,
    }
}

fn lex_less(a: &[char], b: &[char]) -> (r: bool)
    ensures
        r == lex_lt(a@, b@),
{
    let mut i: usize = 0;
    assert(a@.skip(0) =~= a@);
    assert(b@.skip(0) =~= b@);
    while i < a.len() && i < b.len() && a[i] == b[i]
        invariant
            i <= a@.len(),
            i <= b@.len(),
            lex_lt(a@, b@) == lex_lt(a@.skip(i as int), b@.skip(i as int)),
        decreases a@.len() - i,
    {
        assert(a@.skip(i as int).drop_first() =~= a@.skip(i + 1));
        assert(b@.skip(i as int).drop_first() =~= b@.skip(i + 1));
        i += 1;
    }
    if i == a.len() {
        return i < b.len();
    }
    if i == b.len() {
        return false;
    }
    assert(a@.skip(i as int)[0] == a@[i as int]);
    assert(b@.skip(i as int)[0] == b@[i as int]);
    a[i] < b[i]
}

proof fn lemma_insert_lex(s: Seq<Seq<char>>, x: Seq<char>, k: int)
    requires
        0 <= k <= s.len(),
        k == 0 || !lex_lt(x, s[k - 1]),
        forall|j: int| k <= j < s.len() ==> lex_lt(x, #[trigger] s[j]),
    ensures
        insert_lex(s, x) == s.take(k).push(x) + s.skip(k),
    decreases s.len() - k,
{
    if s.len() == k {
        assert(s.take(k) =~= s);
        assert(s.take(k).push(x) + s.skip(k) =~= s.push(x));
    } else {
        let d = s.drop_last();
        assert(forall|j: int| k <= j < d.len() ==> d[j] == s[j]);
        lemma_insert_lex(d, x, k);
        assert(d.take(k) =~= s.take(k));
        assert((d.take(k).push(x) + d.skip(k)).push(s.last()) =~= s.take(k).push(x) + s.skip(k));
    }
}

fn sort_ids(v: Vec<RouteId>) -> (r: Vec<RouteId>)
    ensures
        id_views(r@) == sorted_ids(id_views(v@)),
{
    let ghost vs = id_views(v@);
    let mut out: Vec<RouteId> = Vec::new();
    let mut i: usize = 0;
    while i < v.len()
        invariant
            i <= v@.len(),
            vs == id_views(v@),
            id_views(out@) == sorted_ids(vs.take(i as int)),
        decreases v@.len() - i,
    {
        let x = v[i].duplicate();
        assert(vs.take(i + 1).drop_last() =~= vs.take(i as int));
        assert(vs.take(i + 1).last() == x@);
        let ghost cur = id_views(out@);
        let xc = str_chars(x.0.as_str());
        let mut k = out.len();
        loop
            invariant
                k <= out@.len(),
                cur == id_views(out@),
                xc@ == x@,
                forall|j: int| k <= j < out@.len() ==> lex_lt(x@, #[trigger] cur[j]),
            ensures
                k <= out@.len(),
                k == 0 || !lex_lt(x@, cur[k - 1]),
                forall|j: int| k <= j < out@.len() ==> lex_lt(x@, #[trigger] cur[j]),
            decreases k,
        {
            if k == 0 {
                break;
            }
            let oc = str_chars(out[k - 1].0.as_str());
            assert(cur[k - 1] == oc@);
            if !lex_less(xc.as_slice(), oc.as_slice()) {
                break;
            }
            k -= 1;
        }
        proof {
            lemma_insert_lex(cur, x@, k as int);
        }
        out.insert(k, x);
        assert(id_views(out@) =~= cur.take(k as int).push(x@) + cur.skip(k as int));
        i += 1;
    }
    assert(vs.take(v@.len() as int) =~= vs);
    out
}

pub(crate) fn route_id_of(uri: &str, handler: &str, m: Method) -> (r: RouteId)
    ensures
        r@ == route_id(uri@, handler@, m),
{
    let mut t = str_chars(uri);
    let colon = str_chars(":");
    push_all(&mut t, colon.as_slice());
    let h = str_chars(handler);
    push_all(&mut t, h.as_slice());
    push_all(&mut t, colon.as_slice());
    let mn = str_chars(crate::checks::method_str(m));
    push_all(&mut t, mn.as_slice());
    RouteId(string_from_chars(t.as_slice()))
}

/// Under each name, the unsorted identifiers so far.
pub open spec fn unsorted_ok(m: Seq<(String, Vec<RouteId>)>, ps: Seq<(Seq<char>, Seq<char>)>) -> bool {
    forall|key: Seq<char>| #[trigger] index_views(m, key) == ids_named(ps, key)
}

fn add_route(m: &mut Vec<(String, Vec<RouteId>)>, uri: &String, r: &NamedRoute, Ghost(ps): Ghost<Seq<(Seq<char>, Seq<char>)>>)
    requires
        unsorted_ok(old(m)@, ps),
    ensures
        unsorted_ok(final(m)@, ps + route_pairs(uri@, *r, r.methods@)),
{
    let name: String = match &r.route_name {
        Some(n) => n.clone(),
        None => r.handler_name.clone(),
    };
    assert(name@ == name_of(*r));
    let mut j: usize = 0;
    while j < r.methods.len()
        invariant
            j <= r.methods@.len(),
            name@ == name_of(*r),
            unsorted_ok(m@, ps + route_pairs(uri@, *r, r.methods@.take(j as int))),
        decreases r.methods@.len() - j,
    {
        let meth = r.methods[j];
        assert(r.methods@.take(j + 1).drop_last() =~= r.methods@.take(j as int));
        assert(r.methods@.take(j + 1).last() == meth);
        let ghost before = ps + route_pairs(uri@, *r, r.methods@.take(j as int));
        let ghost m0 = m@;
        let is_mount = match meth {
            Method::Mount => true,
            _ => false,
        };
        if !is_mount || r.route_name.is_some() {
            let id = route_id_of(uri.as_str(), r.handler_name.as_str(), meth);
            let ghost idv = id@;
            push_keyed(m, name.as_str(), id);
            assert forall|key: Seq<char>| #[trigger] index_views(m@, key) == ids_named(before.push((name@, idv)), key) by {
                assert(entries_of(m@, key) == pushed(m0, name@, id, key));
                assert(before.push((name@, idv)).drop_last() =~= before);
                assert(index_views(m0, key) == ids_named(before, key));
                if key == name@ {
                    match entries_of(m0, key) {
                        Some(vs) => {
                            assert(id_views(vs.push(id)) =~= id_views(vs).push(idv));
                        },
                        None => {
                            assert(id_views(seq![id]) =~= seq![idv]);
                        },
                    }
                }
            }
            assert(ps + route_pairs(uri@, *r, r.methods@.take(j + 1)) =~= before.push((name@, idv)));
        } else {
            assert(ps + route_pairs(uri@, *r, r.methods@.take(j + 1)) =~= before);
        }
        j += 1;
    }
    assert(r.methods@.take(r.methods@.len() as int) =~= r.methods@);
}

/// The route-name index of the files' route decorators: under each name, the identifiers
/// of the routes it names (a mount only when it has a name), in character order; a name
/// with no route is absent.
pub fn build_route_names(files: &Vec<NamedFile>) -> (r: Vec<(String, Vec<RouteId>)>)
    ensures
        forall|key: Seq<char>| #[trigger] index_views(r@, key) == match ids_named(all_pairs(files@), key) {
            Some(ids) => Some(sorted_ids(ids)),
            None => None,
        },
{
    let mut m: Vec<(String, Vec<RouteId>)> = Vec::new();
    let mut i: usize = 0;
    while i < files.len()
        invariant
            i <= files@.len(),
            unsorted_ok(m@, all_pairs(files@.take(i as int))),
        decreases files@.len() - i,
    {
        let f = &files[i];
        assert(files@.take(i + 1).drop_last() =~= files@.take(i as int));
        assert(files@.take(i + 1).last() == *f);
        let ghost base = all_pairs(files@.take(i as int));
        let mut k: usize = 0;
        while k < f.routes.len()
            invariant
                k <= f.routes@.len(),
                unsorted_ok(m@, base + file_pairs(f.uri@, f.routes@.take(k as int))),
            decreases f.routes@.len() - k,
        {
            assert(f.routes@.take(k + 1).drop_last() =~= f.routes@.take(k as int));
            assert(f.routes@.take(k + 1).last() == f.routes@[k as int]);
            add_route(&mut m, &f.uri, &f.routes[k], Ghost(base + file_pairs(f.uri@, f.routes@.take(k as int))));
            assert(base + file_pairs(f.uri@, f.routes@.take(k + 1)) =~= base + file_pairs(f.uri@, f.routes@.take(k as int)) + route_pairs(f.uri@, f.routes@[k as int], f.routes@[k as int].methods@));
            k += 1;
        }
        assert(f.routes@.take(f.routes@.len() as int) =~= f.routes@);
        i += 1;
    }
    assert(files@.take(files@.len() as int) =~= files@);
    let ghost ps = all_pairs(files@);
    let mut out: Vec<(String, Vec<RouteId>)> = Vec::new();
    let mut j: usize = 0;
    while j < m.len()
        invariant
            j <= m@.len(),
            out@.len() == j,
            forall|t: int| 0 <= t < j ==> (#[trigger] out@[t]).0 == m@[t].0 && id_views(out@[t].1@) == sorted_ids(id_views(m@[t].1@)),
        decreases m@.len() - j,
    {
        let key = m[j].0.clone();
        let mut ids: Vec<RouteId> = Vec::new();
        let mut q: usize = 0;
        while q < m[j].1.len()
            invariant
                j < m@.len(),
                q <= m@[j as int].1@.len(),
                id_views(ids@) == id_views(m@[j as int].1@.take(q as int)),
            decreases m@[j as int].1@.len() - q,
        {
            ids.push(m[j].1[q].duplicate());
            assert(id_views(m@[j as int].1@.take(q + 1)) =~= id_views(m@[j as int].1@.take(q as int)).push(m@[j as int].1@[q as int]@));
            assert(id_views(ids@) =~= id_views(m@[j as int].1@.take(q + 1)));
            q += 1;
        }
        assert(m@[j as int].1@.take(m@[j as int].1@.len() as int) =~= m@[j as int].1@);
        let sorted = sort_ids(ids);
        out.push((key, sorted));
        j += 1;
    }
    proof {
        lemma_sorted_entries(m@, out@);
    }
    out
}

proof fn lemma_sorted_entries(m: Seq<(String, Vec<RouteId>)>, out: Seq<(String, Vec<RouteId>)>)
    requires
        out.len() == m.len(),
        forall|t: int| 0 <= t < m.len() ==> (#[trigger] out[t]).0 == m[t].0 && id_views(out[t].1@) == sorted_ids(id_views(m[t].1@)),
    ensures
        forall|key: Seq<char>| #[trigger] index_views(out, key) == match index_views(m, key) {
            Some(ids) => Some(sorted_ids(ids)),
            None => None,
        },
    decreases m.len(),
{
    if m.len() > 0 {
        let (md, od) = (m.drop_first(), out.drop_first());
        assert forall|t: int| 0 <= t < md.len() implies (#[trigger] od[t]).0 == md[t].0 && id_views(od[t].1@) == sorted_ids(id_views(md[t].1@)) by {
            assert(od[t] == out[t + 1] && md[t] == m[t + 1]);
        }
        lemma_sorted_entries(md, od);
        assert(out[0].0 == m[0].0);
        assert forall|key: Seq<char>| #[trigger] index_views(out, key) == match index_views(m, key) {
            Some(ids) => Some(sorted_ids(ids)),
            None => None,
        } by {
            if m[0].0@ != key {
                assert(index_views(out, key) == index_views(od, key));
                assert(index_views(m, key) == index_views(md, key));
            }
        }
    }
}

proof fn lemma_lex_order(a: Seq<char>, b: Seq<char>, c: Seq<char>)
    ensures
        lex_lt(a, b) ==> !lex_lt(b, a),
        lex_lt(a, b) || lex_lt(b, a) || a == b,
        lex_lt(a, b) && lex_lt(b, c) ==> lex_lt(a, c),
    decreases a.len(),
{
    if a.len() > 0 && b.len() > 0 {
        lemma_lex_order(a.drop_first(), b.drop_first(), if c.len() > 0 { c.drop_first() } else { c });
        if a[0] != b[0] {
            assert(a[0] < b[0] || b[0] < a[0]);
        }
        if a[0] == b[0] && a.drop_first() == b.drop_first() {
            assert(a =~= seq![a[0]] + a.drop_first());
            assert(b =~= seq![b[0]] + b.drop_first());
        }
    } else if a.len() == 0 && b.len() == 0 {
        assert(a =~= b);
    }
}

/// Identifiers in character order: none comes before an identifier placed ahead of it.
pub open spec fn in_lex_order(s: Seq<Seq<char>>) -> bool {
    forall|i: int, j: int| 0 <= i < j < s.len() ==> !lex_lt(#[trigger] s[j], #[trigger] s[i])
}

proof fn lemma_insert_lex_sorted(s: Seq<Seq<char>>, x: Seq<char>)
    requires
        in_lex_order(s),
    ensures
        in_lex_order(insert_lex(s, x)),
        insert_lex(s, x).len() == s.len() + 1,
        forall|k: int| 0 <= k < insert_lex(s, x).len() ==> #[trigger] insert_lex(s, x)[k] == x || s.contains(insert_lex(s, x)[k]),
        insert_lex(s, x).contains(x),
        forall|y: Seq<char>| s.contains(y) ==> #[trigger] insert_lex(s, x).contains(y),
    decreases s.len(),
{
    let r = insert_lex(s, x);
    if s.len() == 0 || !lex_lt(x, s.last()) {
        assert(r == s.push(x));
        assert(r[r.len() - 1] == x);
        assert forall|y: Seq<char>| s.contains(y) implies r.contains(y) by {
            let j = choose|j: int| 0 <= j < s.len() && s[j] == y;
            assert(r[j] == y);
        }
        assert forall|i: int, j: int| 0 <= i < j < r.len() implies !lex_lt(#[trigger] r[j], #[trigger] r[i]) by {
            assert(r[i] == s[i]);
            if j == r.len() - 1 {
                if i < s.len() - 1 {
                    assert(!lex_lt(s[s.len() - 1], s[i]));
                    lemma_lex_order(x, s[i], s[s.len() - 1]);
                    lemma_lex_order(s[i], s[s.len() - 1], s[s.len() - 1]);
                }
            } else {
                assert(r[j] == s[j]);
            }
        }
        assert forall|k: int| 0 <= k < r.len() implies #[trigger] r[k] == x || s.contains(r[k]) by {
            if k < s.len() {
                assert(s[k] == r[k]);
            }
        }
    } else {
        let d = s.drop_last();
        assert(in_lex_order(d)) by {
            assert forall|i: int, j: int| 0 <= i < j < d.len() implies !lex_lt(#[trigger] d[j], #[trigger] d[i]) by {
                assert(d[i] == s[i] && d[j] == s[j]);
            }
        }
        lemma_insert_lex_sorted(d, x);
        let t = insert_lex(d, x);
        assert(r == t.push(s.last()));
        assert forall|i: int, j: int| 0 <= i < j < r.len() implies !lex_lt(#[trigger] r[j], #[trigger] r[i]) by {
            if j == r.len() - 1 {
                assert(r[j] == s.last());
                assert(r[i] == t[i]);
                if t[i] != x {
                    assert(d.contains(t[i]));
                    let m = choose|m: int| 0 <= m < d.len() && d[m] == t[i];
                    assert(s[m] == t[i]);
                    assert(!lex_lt(s[s.len() - 1], s[m]));
                } else {
                    lemma_lex_order(x, s.last(), s.last());
                }
            } else {
                assert(r[i] == t[i] && r[j] == t[j]);
            }
        }
        assert forall|k: int| 0 <= k < r.len() implies #[trigger] r[k] == x || s.contains(r[k]) by {
            if k < t.len() {
                assert(r[k] == t[k]);
                if t[k] != x {
                    let m = choose|m: int| 0 <= m < d.len() && d[m] == t[k];
                    assert(s[m] == t[k]);
                }
            } else {
                assert(s[s.len() - 1] == r[k]);
            }
        }
        let ke = choose|k: int| 0 <= k < t.len() && t[k] == x;
        assert(r[ke] == x);
        assert forall|y: Seq<char>| s.contains(y) implies r.contains(y) by {
            let j = choose|j: int| 0 <= j < s.len() && s[j] == y;
            if j == s.len() - 1 {
                assert(r[r.len() - 1] == y);
            } else {
                assert(d[j] == y);
                assert(t.contains(y));
                let k = choose|k: int| 0 <= k < t.len() && t[k] == y;
                assert(r[k] == y);
            }
        }
    }
}

/// Law: the identifiers under a name are listed in character order, and the ordering
/// keeps every identifier: as many as were given, each of them, and no other.
pub proof fn route_name_ids_are_sorted(s: Seq<Seq<char>>)
    ensures
        in_lex_order(sorted_ids(s)),
        sorted_ids(s).len() == s.len(),
        forall|x: Seq<char>| s.contains(x) ==> #[trigger] sorted_ids(s).contains(x),
        forall|x: Seq<char>| sorted_ids(s).contains(x) ==> #[trigger] s.contains(x),
    decreases s.len(),
{
    if s.len() > 0 {
        let d = s.drop_last();
        route_name_ids_are_sorted(d);
        lemma_insert_lex_sorted(sorted_ids(d), s.last());
        let r = sorted_ids(s);
        assert forall|x: Seq<char>| s.contains(x) implies #[trigger] r.contains(x) by {
            let j = choose|j: int| 0 <= j < s.len() && s[j] == x;
            if j < s.len() - 1 {
                assert(d[j] == x);
                assert(d.contains(x));
            }
        }
        assert forall|x: Seq<char>| r.contains(x) implies #[trigger] s.contains(x) by {
            if x == s.last() {
                assert(s[s.len() - 1] == x);
            } else {
                assert(sorted_ids(d).contains(x));
                assert(d.contains(x));
                let m = choose|m: int| 0 <= m < d.len() && d[m] == x;
                assert(s[m] == x);
            }
        }
    }
}

} // verus!
