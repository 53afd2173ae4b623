//! The test-client calls that reach each route.
use vstd::prelude::*;
use crate::position::{Location, Range};
use crate::routing::{
    match_call, match_prefix, prefix_hits, routed, toggled_slash, wf_trie, id_views, Method, PathTrie,
    RouteId, RouteIndex,
};
use crate::goto::{calls_get, lv, test_refs_get};

verus! {

broadcast use vstd::string::group_string_axioms;

/// A test-client call as the workspace scan records it: the method, the path (or, for an
/// f-string with interpolations, its static prefix), and the range of the call.
#[derive(Clone, Debug)]
pub struct CallFact {
    pub method: Method,
    pub path: String,
    /// Whether `path` is only the static prefix of the real path.
    pub is_prefix: bool,
    /// For a prefix, the number of `/`-separated segments of the whole path, when known.
    pub path_depth: Option<usize>,
    pub range: Range,
}

/// The test-client calls of one file.
#[derive(Clone, Debug)]
pub struct CallFile {
    pub uri: String,
    pub calls: Vec<CallFact>,
}

/// The routes a call reaches: by prefix (`match_prefix`) for a prefix, else by path
/// (`match_call`).
pub open spec fn call_hits(trie: PathTrie, ix: Seq<(RouteId, Vec<crate::routing::RouteRecord>)>, c: CallFact) -> Seq<Seq<char>> {
    if c.is_prefix {
        if c.path@.len() == 0 {
            Seq::empty()
        } else {
            prefix_hits(ix, c.path@, c.method, c.path_depth)
        }
    } else if routed(trie, ix, c.path@, c.method).len() > 0 {
        routed(trie, ix, c.path@, c.method)
    } else {
        routed(trie, ix, toggled_slash(c.path@), c.method)
    }
}

/// Every (route, call location) pair: files in order, calls in order, and for each call
/// the routes it reaches in order.
pub open spec fn call_pairs(trie: PathTrie, ix: Seq<(RouteId, Vec<crate::routing::RouteRecord>)>, uri: Seq<char>, calls: Seq<CallFact>) -> Seq<(Seq<char>, (Seq<char>, Range))>
    decreases calls.len(),
{
    if calls.len() == 0 {
        Seq::empty()
    } else {
        let c = calls.last();
        call_pairs(trie, ix, uri, calls.drop_last()) + call_hits(trie, ix, c).map_values(|h: Seq<char>| (h, (uri, c.range)))
    }
}

pub open spec fn file_pairs(trie: PathTrie, ix: Seq<(RouteId, Vec<crate::routing::RouteRecord>)>, files: Seq<CallFile>) -> Seq<(Seq<char>, (Seq<char>, Range))>
    decreases files.len(),
{
    if files.len() == 0 {
        Seq::empty()
    } else {
        file_pairs(trie, ix, files.drop_last()) + call_pairs(trie, ix, files.last().uri@, files.last().calls@)
    }
}

/// The locations paired with route `id`, in order.
pub open spec fn locs_of(pairs: Seq<(Seq<char>, (Seq<char>, Range))>, id: Seq<char>) -> Seq<(Seq<char>, Range)>
    decreases pairs.len(),
{
    if pairs.len() == 0 {
        Seq::empty()
    } else {
        locs_of(pairs.drop_last(), id) + if pairs.last().0 == id {
            seq![pairs.last().1]
        } else {
            Seq::empty()
        }
    }
}

pub open spec fn has_key(pairs: Seq<(Seq<char>, (Seq<char>, Range))>, id: Seq<char>) -> bool {
    exists|j: int| 0 <= j < pairs.len() && #[trigger] pairs[j].0 == id
}

pub open spec fn keys_distinct(r: Seq<(RouteId, Vec<Location>)>) -> bool {
    forall|a: int, b: int| 0 <= a < b < r.len() ==> #[trigger] r[a].0@ != #[trigger] r[b].0@
}

/// The routes a call reaches (see `call_hits`).
pub fn call_routes(trie: &PathTrie, route_index: &RouteIndex, c: &CallFact) -> (r: Vec<RouteId>)
    requires
        wf_trie(trie.root),
    ensures
        id_views(r@) == call_hits(*trie, route_index@, *c),
{
    if c.is_prefix {
        match_prefix(route_index, c.path.as_str(), c.method, c.path_depth)
    } else {
        match_call(trie, route_index, c.path.as_str(), c.method)
    }
}

fn push_pairs(out: &mut Vec<(RouteId, Location)>, uri: &String, c: &CallFact, hits: &Vec<RouteId>)
    ensures
        final(out)@.map_values(|p: (RouteId, Location)| (p.0@, lv(p.1))) == old(out)@.map_values(|p: (RouteId, Location)| (p.0@, lv(p.1)))
            + id_views(hits@).map_values(|h: Seq<char>| (h, (uri@, c.range))),
{
    let ghost base = old(out)@.map_values(|p: (RouteId, Location)| (p.0@, lv(p.1)));
    let mut i: usize = 0;
    while i < hits.len()
        invariant
            i <= hits@.len(),
            out@.map_values(|p: (RouteId, Location)| (p.0@, lv(p.1))) == base + id_views(hits@).take(i as int).map_values(|h: Seq<char>| (h, (uri@, c.range))),
        decreases hits@.len() - i,
    {
        let ghost before = out@.map_values(|p: (RouteId, Location)| (p.0@, lv(p.1)));
        out.push((RouteId(hits[i].0.clone()), Location { uri: uri.clone(), range: c.range }));
        assert(out@.map_values(|p: (RouteId, Location)| (p.0@, lv(p.1))) =~= before.push((hits@[i as int]@, (uri@, c.range))));
        assert(id_views(hits@).take(i + 1) =~= id_views(hits@).take(i as int).push(hits@[i as int]@));
        assert(id_views(hits@).take(i + 1).map_values(|h: Seq<char>| (h, (uri@, c.range))) =~= id_views(hits@).take(i as int).map_values(|h: Seq<char>| (h, (uri@, c.range))).push((hits@[i as int]@, (uri@, c.range))));
        i += 1;
    }
    assert(id_views(hits@).take(hits@.len() as int) =~= id_views(hits@));
}

fn collect_pairs(files: &Vec<CallFile>, trie: &PathTrie, route_index: &RouteIndex) -> (r: Vec<(RouteId, Location)>)
    requires
        wf_trie(trie.root),
    ensures
        r@.map_values(|p: (RouteId, Location)| (p.0@, lv(p.1))) == file_pairs(*trie, route_index@, files@),
{
    let mut out: Vec<(RouteId, Location)> = Vec::new();
    let mut i: usize = 0;
    while i < files.len()
        invariant
            i <= files@.len(),
            wf_trie(trie.root),
            out@.map_values(|p: (RouteId, Location)| (p.0@, lv(p.1))) == file_pairs(*trie, route_index@, files@.take(i as int)),
        decreases files@.len() - i,
    {
        let f = &files[i];
        let ghost start = out@.map_values(|p: (RouteId, Location)| (p.0@, lv(p.1)));
        let mut j: usize = 0;
        while j < f.calls.len()
            invariant
                i < files@.len(),
                f == files@[i as int],
                j <= f.calls@.len(),
                wf_trie(trie.root),
                out@.map_values(|p: (RouteId, Location)| (p.0@, lv(p.1))) == start + call_pairs(*trie, route_index@, f.uri@, f.calls@.take(j as int)),
            decreases f.calls@.len() - j,
        {
            let c = &f.calls[j];
            let hits = call_routes(trie, route_index, c);
            push_pairs(&mut out, &f.uri, c, &hits);
            assert(f.calls@.take(j + 1).drop_last() =~= f.calls@.take(j as int));
            assert(f.calls@.take(j + 1).last() == *c);
            j += 1;
        }
        assert(f.calls@.take(f.calls@.len() as int) =~= f.calls@);
        assert(files@.take(i + 1).drop_last() =~= files@.take(i as int));
        assert(files@.take(i + 1).last() == *f);
        i += 1;
    }
    assert(files@.take(files@.len() as int) =~= files@);
    out
}

fn locations_of(pairs: &Vec<(RouteId, Location)>, id: &RouteId) -> (r: Vec<Location>)
    ensures
        r@.map_values(|l: Location| lv(l)) == locs_of(pairs@.map_values(|p: (RouteId, Location)| (p.0@, lv(p.1))), id@),
{
    let ghost pv = pairs@.map_values(|p: (RouteId, Location)| (p.0@, lv(p.1)));
    let mut r: Vec<Location> = Vec::new();
    let mut j: usize = 0;
    while j < pairs.len()
        invariant
            j <= pairs@.len(),
            pv == pairs@.map_values(|p: (RouteId, Location)| (p.0@, lv(p.1))),
            r@.map_values(|l: Location| lv(l)) == locs_of(pv.take(j as int), id@),
        decreases pairs@.len() - j,
    {
        assert(pv.take(j + 1).drop_last() =~= pv.take(j as int));
        assert(pv.take(j + 1).last() == pv[j as int]);
        let ghost before = r@.map_values(|l: Location| lv(l));
        if pairs[j].0.0 == id.0 {
            let l = &pairs[j].1;
            r.push(Location { uri: l.uri.clone(), range: l.range });
            assert(r@.map_values(|l: Location| lv(l)) =~= before + seq![pv[j as int].1]);
        } else {
            assert(before =~= before + Seq::<(Seq<char>, Range)>::empty());
        }
        j += 1;
    }
    assert(pv.take(pairs@.len() as int) =~= pv);
    r
}

proof fn lemma_locs_absent(pairs: Seq<(Seq<char>, (Seq<char>, Range))>, id: Seq<char>)
    requires
        !has_key(pairs, id),
    ensures
        locs_of(pairs, id) == Seq::<(Seq<char>, Range)>::empty(),
    decreases pairs.len(),
{
    if pairs.len() > 0 {
        assert(!has_key(pairs.drop_last(), id)) by {
            if has_key(pairs.drop_last(), id) {
                let j = choose|j: int| 0 <= j < pairs.drop_last().len() && #[trigger] pairs.drop_last()[j].0 == id;
                assert(pairs[j].0 == id);
            }
        }
        lemma_locs_absent(pairs.drop_last(), id);
        assert(pairs[pairs.len() - 1].0 != id);
    }
}

proof fn lemma_get_push(r: Seq<(RouteId, Vec<Location>)>, e: (RouteId, Vec<Location>), x: Seq<char>)
    ensures
        test_refs_get(r.push(e), x) == if exists|k: int| 0 <= k < r.len() && #[trigger] r[k].0@ == x {
            test_refs_get(r, x)
        } else if e.0@ == x {
            e.1@.map_values(|l: Location| lv(l))
        } else {
            Seq::empty()
        },
    decreases r.len(),
{
    if r.len() == 0 {
        assert(r.push(e)[0] == e);
        assert(r.push(e).drop_first().len() == 0);
        assert(test_refs_get(r.push(e).drop_first(), x) == Seq::<(Seq<char>, Range)>::empty());
        assert(test_refs_get(r, x) == Seq::<(Seq<char>, Range)>::empty());
    } else {
        assert(r.push(e).drop_first() =~= r.drop_first().push(e));
        assert(r.push(e)[0] == r[0]);
        lemma_get_push(r.drop_first(), e, x);
        if r[0].0@ != x {
            assert((exists|k: int| 0 <= k < r.len() && #[trigger] r[k].0@ == x) == (exists|k: int| 0 <= k < r.drop_first().len() && #[trigger] r.drop_first()[k].0@ == x)) by {
                if exists|k: int| 0 <= k < r.len() && #[trigger] r[k].0@ == x {
                    let k = choose|k: int| 0 <= k < r.len() && #[trigger] r[k].0@ == x;
                    assert(r.drop_first()[k - 1].0@ == x);
                }
                if exists|k: int| 0 <= k < r.drop_first().len() && #[trigger] r.drop_first()[k].0@ == x {
                    let k = choose|k: int| 0 <= k < r.drop_first().len() && #[trigger] r.drop_first()[k].0@ == x;
                    assert(r[k + 1].0@ == x);
                }
            }
        } else {
            assert(r[0].0@ == x);
        }
    }
}

fn has_entry(out: &Vec<(RouteId, Vec<Location>)>, id: &RouteId) -> (b: bool)
    ensures
        b == exists|k: int| 0 <= k < out@.len() && #[trigger] out@[k].0@ == id@,
{
    let mut k: usize = 0;
    while k < out.len()
        invariant
            k <= out@.len(),
            forall|q: int| 0 <= q < k ==> #[trigger] out@[q].0@ != id@,
        decreases out@.len() - k,
    {
        if out[k].0.0 == id.0 {
            assert(out@[k as int].0@ == id@);
            return true;
        }
        k += 1;
    }
    false
}

/// The test-client calls of the workspace that reach each route: one entry per route that
/// some call reaches, holding the location of each such call in file and call order (once
/// per time the call's match lists the route).
pub fn build_test_refs(files: &Vec<CallFile>, trie: &PathTrie, route_index: &RouteIndex) -> (r: Vec<(RouteId, Vec<Location>)>)
    requires
        wf_trie(trie.root),
    ensures
        keys_distinct(r@),
        forall|k: int| 0 <= k < r@.len() ==> (#[trigger] r@[k]).1@.len() > 0,
        forall|id: Seq<char>| #[trigger] test_refs_get(r@, id) == locs_of(file_pairs(*trie, route_index@, files@), id),
{
    let pairs = collect_pairs(files, trie, route_index);
    let ghost pv = pairs@.map_values(|p: (RouteId, Location)| (p.0@, lv(p.1)));
    let mut out: Vec<(RouteId, Vec<Location>)> = Vec::new();
    let mut i: usize = 0;
    while i < pairs.len()
        invariant
            i <= pairs@.len(),
            pv == pairs@.map_values(|p: (RouteId, Location)| (p.0@, lv(p.1))),
            keys_distinct(out@),
            forall|k: int| 0 <= k < out@.len() ==> (#[trigger] out@[k]).1@.len() > 0,
            forall|x: Seq<char>| (exists|k: int| 0 <= k < out@.len() && #[trigger] out@[k].0@ == x) <==> #[trigger] has_key(pv.take(i as int), x),
            forall|x: Seq<char>| #[trigger] test_refs_get(out@, x) == if has_key(pv.take(i as int), x) {
                locs_of(pv, x)
            } else {
                Seq::empty()
            },
        decreases pairs@.len() - i,
    {
        let id = &pairs[i].0;
        let ghost old_out = out@;
        assert(pv[i as int].0 == id@);
        assert forall|x: Seq<char>| #[trigger] has_key(pv.take(i + 1), x) <==> (has_key(pv.take(i as int), x) || x == id@) by {
            if has_key(pv.take(i + 1), x) {
                let j = choose|j: int| 0 <= j < pv.take(i + 1).len() && #[trigger] pv.take(i + 1)[j].0 == x;
                if j < i {
                    assert(pv.take(i as int)[j].0 == x);
                }
            }
            if has_key(pv.take(i as int), x) {
                let j = choose|j: int| 0 <= j < pv.take(i as int).len() && #[trigger] pv.take(i as int)[j].0 == x;
                assert(pv.take(i + 1)[j].0 == x);
            }
            if x == id@ {
                assert(pv.take(i + 1)[i as int].0 == x);
            }
        }
        if !has_entry(&out, id) {
            let locs = locations_of(&pairs, id);
            proof {
                assert(has_key(pv, id@)) by {
                    assert(pv[i as int].0 == id@);
                }
                if locs@.len() == 0 {
                    assert(locs@.map_values(|l: Location| lv(l)).len() == 0);
                    lemma_locs_nonempty(pv, id@);
                }
            }
            let entry = (RouteId(id.0.clone()), locs);
            out.push(entry);
            proof {
                assert forall|x: Seq<char>| #[trigger] test_refs_get(out@, x) == (if has_key(pv.take(i + 1), x) {
                    locs_of(pv, x)
                } else {
                    Seq::empty()
                }) by {
                    lemma_get_push(old_out, entry, x);
                    assert(out@ == old_out.push(entry));
                }
                assert forall|x: Seq<char>| (exists|k: int| 0 <= k < out@.len() && #[trigger] out@[k].0@ == x) <==> #[trigger] has_key(pv.take(i + 1), x) by {
                    if exists|k: int| 0 <= k < out@.len() && #[trigger] out@[k].0@ == x {
                        let k = choose|k: int| 0 <= k < out@.len() && #[trigger] out@[k].0@ == x;
                        if k < old_out.len() {
                            assert(old_out[k].0@ == x);
                        }
                    }
                    if exists|k: int| 0 <= k < old_out.len() && #[trigger] old_out[k].0@ == x {
                        let k = choose|k: int| 0 <= k < old_out.len() && #[trigger] old_out[k].0@ == x;
                        assert(out@[k].0@ == x);
                    }
                    if x == id@ {
                        assert(out@[old_out.len() as int].0@ == x);
                    }
                }
                assert forall|a: int, b: int| 0 <= a < b < out@.len() implies #[trigger] out@[a].0@ != #[trigger] out@[b].0@ by {
                    if b == old_out.len() {
                        assert(old_out[a].0@ != id@);
                    }
                }
            }
        }
        i += 1;
    }
    assert(pv.take(pairs@.len() as int) =~= pv);
    proof {
        assert forall|id: Seq<char>| #[trigger] test_refs_get(out@, id) == locs_of(file_pairs(*trie, route_index@, files@), id) by {
            if !has_key(pv, id) {
                lemma_locs_absent(pv, id);
            }
        }
    }
    out
}

proof fn lemma_locs_nonempty(pairs: Seq<(Seq<char>, (Seq<char>, Range))>, id: Seq<char>)
    requires
        has_key(pairs, id),
    ensures
        locs_of(pairs, id).len() > 0,
    decreases pairs.len(),
{
    if pairs.last().0 != id {
        assert(has_key(pairs.drop_last(), id)) by {
            let j = choose|j: int| 0 <= j < pairs.len() && #[trigger] pairs[j].0 == id;
            assert(pairs.drop_last()[j].0 == id);
        }
        lemma_locs_nonempty(pairs.drop_last(), id);
    }
}

/// Every (call location, route) pair of a test-reference table: entries in order, each
/// entry's locations in order.
pub open spec fn site_pairs(tr: Seq<(RouteId, Vec<Location>)>) -> Seq<((Seq<char>, Range), Seq<char>)>
    decreases tr.len(),
{
    if tr.len() == 0 {
        Seq::empty()
    } else {
        site_pairs(tr.drop_last()) + tr.last().1@.map_values(|l: Location| (lv(l), tr.last().0@))
    }
}

/// The routes paired with call location `key`, in order.
pub open spec fn ids_at(pairs: Seq<((Seq<char>, Range), Seq<char>)>, key: (Seq<char>, Range)) -> Seq<Seq<char>>
    decreases pairs.len(),
{
    if pairs.len() == 0 {
        Seq::empty()
    } else {
        ids_at(pairs.drop_last(), key) + if pairs.last().0 == key {
            seq![pairs.last().1]
        } else {
            Seq::empty()
        }
    }
}

pub open spec fn has_site(pairs: Seq<((Seq<char>, Range), Seq<char>)>, key: (Seq<char>, Range)) -> bool {
    exists|j: int| 0 <= j < pairs.len() && #[trigger] pairs[j].0 == key
}

pub open spec fn site_keys_distinct(r: Seq<((String, Range), Vec<RouteId>)>) -> bool {
    forall|a: int, b: int| 0 <= a < b < r.len() ==> (#[trigger] r[a]).0.0@ != (#[trigger] r[b]).0.0@ || r[a].0.1 != r[b].0.1
}

pub open spec fn sp_view(p: (Location, RouteId)) -> ((Seq<char>, Range), Seq<char>) {
    (lv(p.0), p.1@)
}

fn collect_site_pairs(tr: &Vec<(RouteId, Vec<Location>)>) -> (r: Vec<(Location, RouteId)>)
    ensures
        r@.map_values(|p: (Location, RouteId)| sp_view(p)) == site_pairs(tr@),
{
    let mut out: Vec<(Location, RouteId)> = Vec::new();
    let mut i: usize = 0;
    while i < tr.len()
        invariant
            i <= tr@.len(),
            out@.map_values(|p: (Location, RouteId)| sp_view(p)) == site_pairs(tr@.take(i as int)),
        decreases tr@.len() - i,
    {
        let e = &tr[i];
        let ghost start = out@.map_values(|p: (Location, RouteId)| sp_view(p));
        let mut j: usize = 0;
        while j < e.1.len()
            invariant
                i < tr@.len(),
                e == tr@[i as int],
                j <= e.1@.len(),
                out@.map_values(|p: (Location, RouteId)| sp_view(p)) == start + e.1@.take(j as int).map_values(|l: Location| (lv(l), e.0@)),
            decreases e.1@.len() - j,
        {
            let ghost before = out@.map_values(|p: (Location, RouteId)| sp_view(p));
            let l = &e.1[j];
            out.push((Location { uri: l.uri.clone(), range: l.range }, RouteId(e.0.0.clone())));
            assert(out@.map_values(|p: (Location, RouteId)| sp_view(p)) =~= before.push((lv(e.1@[j as int]), e.0@)));
            assert(e.1@.take(j + 1).map_values(|l: Location| (lv(l), e.0@)) =~= e.1@.take(j as int).map_values(|l: Location| (lv(l), e.0@)).push((lv(e.1@[j as int]), e.0@)));
            j += 1;
        }
        assert(e.1@.take(e.1@.len() as int) =~= e.1@);
        assert(tr@.take(i + 1).drop_last() =~= tr@.take(i as int));
        assert(tr@.take(i + 1).last() == *e);
        i += 1;
    }
    assert(tr@.take(tr@.len() as int) =~= tr@);
    out
}

fn ids_for(pairs: &Vec<(Location, RouteId)>, uri: &String, range: Range) -> (r: Vec<RouteId>)
    ensures
        id_views(r@) == ids_at(pairs@.map_values(|p: (Location, RouteId)| sp_view(p)), (uri@, range)),
{
    let ghost pv = pairs@.map_values(|p: (Location, RouteId)| sp_view(p));
    let mut r: Vec<RouteId> = Vec::new();
    let mut j: usize = 0;
    while j < pairs.len()
        invariant
            j <= pairs@.len(),
            pv == pairs@.map_values(|p: (Location, RouteId)| sp_view(p)),
            id_views(r@) == ids_at(pv.take(j as int), (uri@, range)),
        decreases pairs@.len() - j,
    {
        assert(pv.take(j + 1).drop_last() =~= pv.take(j as int));
        assert(pv.take(j + 1).last() == pv[j as int]);
        let ghost before = id_views(r@);
        if pairs[j].0.uri == *uri && pairs[j].0.range == range {
            r.push(RouteId(pairs[j].1.0.clone()));
            assert(id_views(r@) =~= before + seq![pv[j as int].1]);
        } else {
            assert(pv[j as int].0 != (uri@, range));
            assert(before =~= before + Seq::<Seq<char>>::empty());
        }
        j += 1;
    }
    assert(pv.take(pairs@.len() as int) =~= pv);
    r
}

proof fn lemma_ids_absent(pairs: Seq<((Seq<char>, Range), Seq<char>)>, key: (Seq<char>, Range))
    requires
        !has_site(pairs, key),
    ensures
        ids_at(pairs, key) == Seq::<Seq<char>>::empty(),
    decreases pairs.len(),
{
    if pairs.len() > 0 {
        assert(!has_site(pairs.drop_last(), key)) by {
            if has_site(pairs.drop_last(), key) {
                let j = choose|j: int| 0 <= j < pairs.drop_last().len() && #[trigger] pairs.drop_last()[j].0 == key;
                assert(pairs[j].0 == key);
            }
        }
        lemma_ids_absent(pairs.drop_last(), key);
        assert(pairs[pairs.len() - 1].0 != key);
    }
}

proof fn lemma_calls_get_push(r: Seq<((String, Range), Vec<RouteId>)>, e: ((String, Range), Vec<RouteId>), u: Seq<char>, rg: Range)
    ensures
        calls_get(r.push(e), u, rg) == if exists|k: int| 0 <= k < r.len() && #[trigger] r[k].0.0@ == u && r[k].0.1 == rg {
            calls_get(r, u, rg)
        } else if e.0.0@ == u && e.0.1 == rg {
            Some(e.1@)
        } else {
            None
        },
    decreases r.len(),
{
    if r.len() == 0 {
        assert(r.push(e)[0] == e);
        assert(r.push(e).drop_first().len() == 0);
        assert(calls_get(r.push(e).drop_first(), u, rg) is None);
    } else {
        assert(r.push(e).drop_first() =~= r.drop_first().push(e));
        assert(r.push(e)[0] == r[0]);
        lemma_calls_get_push(r.drop_first(), e, u, rg);
        if !(r[0].0.0@ == u && r[0].0.1 == rg) {
            assert((exists|k: int| 0 <= k < r.len() && #[trigger] r[k].0.0@ == u && r[k].0.1 == rg) == (exists|k: int| 0 <= k < r.drop_first().len() && #[trigger] r.drop_first()[k].0.0@ == u && r.drop_first()[k].0.1 == rg)) by {
                if exists|k: int| 0 <= k < r.len() && #[trigger] r[k].0.0@ == u && r[k].0.1 == rg {
                    let k = choose|k: int| 0 <= k < r.len() && #[trigger] r[k].0.0@ == u && r[k].0.1 == rg;
                    assert(r.drop_first()[k - 1].0.0@ == u);
                }
                if exists|k: int| 0 <= k < r.drop_first().len() && #[trigger] r.drop_first()[k].0.0@ == u && r.drop_first()[k].0.1 == rg {
                    let k = choose|k: int| 0 <= k < r.drop_first().len() && #[trigger] r.drop_first()[k].0.0@ == u && r.drop_first()[k].0.1 == rg;
                    assert(r[k + 1].0.0@ == u);
                }
            }
        } else {
            assert(r[0].0.0@ == u && r[0].0.1 == rg);
        }
    }
}

fn has_site_entry(out: &Vec<((String, Range), Vec<RouteId>)>, uri: &String, range: Range) -> (b: bool)
    ensures
        b == exists|k: int| 0 <= k < out@.len() && #[trigger] out@[k].0.0@ == uri@ && out@[k].0.1 == range,
{
    let mut k: usize = 0;
    while k < out.len()
        invariant
            k <= out@.len(),
            forall|q: int| 0 <= q < k ==> !(#[trigger] out@[q].0.0@ == uri@ && out@[q].0.1 == range),
        decreases out@.len() - k,
    {
        if out[k].0.0 == *uri && out[k].0.1 == range {
            assert(out@[k as int].0.0@ == uri@);
            return true;
        }
        k += 1;
    }
    false
}

/// The routes matched at each test-client call site, from the test-reference table: one
/// entry per call location that the table holds, listing the route of each table entry
/// that holds that location, in table order (once per time it holds it).
pub fn build_call_site_index(test_refs: &Vec<(RouteId, Vec<Location>)>) -> (r: Vec<((String, Range), Vec<RouteId>)>)
    ensures
        site_keys_distinct(r@),
        forall|k: int| 0 <= k < r@.len() ==> (#[trigger] r@[k]).1@.len() > 0,
        forall|u: Seq<char>, rg: Range| (#[trigger] calls_get(r@, u, rg) is Some) <==> has_site(site_pairs(test_refs@), (u, rg)),
        forall|u: Seq<char>, rg: Range| #[trigger] calls_get(r@, u, rg) matches Some(ids) ==> id_views(ids) == ids_at(site_pairs(test_refs@), (u, rg)),
{
    let pairs = collect_site_pairs(test_refs);
    let ghost pv = pairs@.map_values(|p: (Location, RouteId)| sp_view(p));
    let mut out: Vec<((String, Range), Vec<RouteId>)> = Vec::new();
    let mut i: usize = 0;
    while i < pairs.len()
        invariant
            i <= pairs@.len(),
            pv == pairs@.map_values(|p: (Location, RouteId)| sp_view(p)),
            site_keys_distinct(out@),
            forall|k: int| 0 <= k < out@.len() ==> (#[trigger] out@[k]).1@.len() > 0,
            forall|u: Seq<char>, rg: Range| (exists|k: int| 0 <= k < out@.len() && #[trigger] out@[k].0.0@ == u && out@[k].0.1 == rg) <==> #[trigger] has_site(pv.take(i as int), (u, rg)),
            forall|u: Seq<char>, rg: Range| #[trigger] calls_get(out@, u, rg) matches Some(ids) ==> has_site(pv.take(i as int), (u, rg)) && id_views(ids) == ids_at(pv, (u, rg)),
            forall|u: Seq<char>, rg: Range| #[trigger] calls_get(out@, u, rg) is None ==> !has_site(pv.take(i as int), (u, rg)),
        decreases pairs@.len() - i,
    {
        let l = &pairs[i].0;
        let ghost key = (l.uri@, l.range);
        let ghost old_out = out@;
        assert(pv[i as int].0 == key);
        assert forall|u: Seq<char>, rg: Range| #[trigger] has_site(pv.take(i + 1), (u, rg)) <==> (has_site(pv.take(i as int), (u, rg)) || (u, rg) == key) by {
            if has_site(pv.take(i + 1), (u, rg)) {
                let j = choose|j: int| 0 <= j < pv.take(i + 1).len() && #[trigger] pv.take(i + 1)[j].0 == (u, rg);
                if j < i {
                    assert(pv.take(i as int)[j].0 == (u, rg));
                }
            }
            if has_site(pv.take(i as int), (u, rg)) {
                let j = choose|j: int| 0 <= j < pv.take(i as int).len() && #[trigger] pv.take(i as int)[j].0 == (u, rg);
                assert(pv.take(i + 1)[j].0 == (u, rg));
            }
            if (u, rg) == key {
                assert(pv.take(i + 1)[i as int].0 == (u, rg));
            }
        }
        if !has_site_entry(&out, &l.uri, l.range) {
            let ids = ids_for(&pairs, &l.uri, l.range);
            proof {
                if ids@.len() == 0 {
                    assert(id_views(ids@).len() == 0);
                    lemma_ids_nonempty(pv, key);
                }
            }
            let entry = ((l.uri.clone(), l.range), ids);
            out.push(entry);
            proof {
                assert(out@ == old_out.push(entry));
                assert forall|u: Seq<char>, rg: Range| #[trigger] calls_get(out@, u, rg) is Some implies has_site(pv.take(i + 1), (u, rg)) && id_views(calls_get(out@, u, rg)->0) == ids_at(pv, (u, rg)) by {
                    lemma_calls_get_push(old_out, entry, u, rg);
                }
                assert forall|u: Seq<char>, rg: Range| #[trigger] calls_get(out@, u, rg) is None implies !has_site(pv.take(i + 1), (u, rg)) by {
                    lemma_calls_get_push(old_out, entry, u, rg);
                    if has_site(pv.take(i as int), (u, rg)) {
                        let k = choose|k: int| 0 <= k < old_out.len() && #[trigger] old_out[k].0.0@ == u && old_out[k].0.1 == rg;
                    }
                }
                assert forall|u: Seq<char>, rg: Range| (exists|k: int| 0 <= k < out@.len() && #[trigger] out@[k].0.0@ == u && out@[k].0.1 == rg) <==> #[trigger] has_site(pv.take(i + 1), (u, rg)) by {
                    if exists|k: int| 0 <= k < out@.len() && #[trigger] out@[k].0.0@ == u && out@[k].0.1 == rg {
                        let k = choose|k: int| 0 <= k < out@.len() && #[trigger] out@[k].0.0@ == u && out@[k].0.1 == rg;
                        if k < old_out.len() {
                            assert(old_out[k].0.0@ == u && old_out[k].0.1 == rg);
                        }
                    }
                    if exists|k: int| 0 <= k < old_out.len() && #[trigger] old_out[k].0.0@ == u && old_out[k].0.1 == rg {
                        let k = choose|k: int| 0 <= k < old_out.len() && #[trigger] old_out[k].0.0@ == u && old_out[k].0.1 == rg;
                        assert(out@[k].0.0@ == u && out@[k].0.1 == rg);
                    }
                    if (u, rg) == key {
                        assert(out@[old_out.len() as int].0.0@ == u && out@[old_out.len() as int].0.1 == rg);
                    }
                }
                assert forall|a: int, b: int| 0 <= a < b < out@.len() implies (#[trigger] out@[a]).0.0@ != (#[trigger] out@[b]).0.0@ || out@[a].0.1 != out@[b].0.1 by {
                    if b == old_out.len() {
                        assert(!(old_out[a].0.0@ == l.uri@ && old_out[a].0.1 == l.range));
                    }
                }
            }
        }
        i += 1;
    }
    assert(pv.take(pairs@.len() as int) =~= pv);
    out
}

proof fn lemma_ids_nonempty(pairs: Seq<((Seq<char>, Range), Seq<char>)>, key: (Seq<char>, Range))
    requires
        has_site(pairs, key),
    ensures
        ids_at(pairs, key).len() > 0,
    decreases pairs.len(),
{
    if pairs.last().0 != key {
        assert(has_site(pairs.drop_last(), key)) by {
            let j = choose|j: int| 0 <= j < pairs.len() && #[trigger] pairs[j].0 == key;
            assert(pairs.drop_last()[j].0 == key);
        }
        lemma_ids_nonempty(pairs.drop_last(), key);
    }
}

} // verus!
