//! Where routes are mounted: the full paths of a route through the chain of
//! `include_router` calls above its router, and the middleware it runs under.
use vstd::prelude::*;
use crate::text::{string_views, contains_str};
use crate::joining::{joined_path, join_path_segments};
use crate::routing::ResolvedPath;
use crate::analysis::{after_last_dot, bare_name};
use crate::params::lemma_distinct_subseq_len;
use crate::checks::{first_match, lemma_first_match_step, lemma_first_match_none, lemma_first_match_bound};

verus! {

broadcast use vstd::string::group_string_axioms;

/// A path or prefix as written: a string literal, or something not known statically.
#[derive(Clone, Debug)]
pub enum PrefixValue {
    Literal(String),
    Unresolved,
}

/// A router declaration (`name = APIRouter(prefix=...)`).
#[derive(Clone, Debug)]
pub struct RouterMount {
    pub name: String,
    pub prefix: PrefixValue,
}

/// An `app_name.include_router(target, prefix=...)` call.
#[derive(Clone, Debug)]
pub struct IncludeCall {
    pub target: String,
    pub prefix: PrefixValue,
    pub app_name: String,
}

/// The cross-file indexes that mount resolution reads. Each list has one entry per key,
/// holding the items in the order they were found, each with the URI of its file.
#[derive(Clone, Debug)]
pub struct LinkContext {
    /// Router declarations by name.
    pub routers: Vec<(String, Vec<(RouterMount, String)>)>,
    /// The names of the applications (`FastAPI()` / `Starlette()` instances).
    pub apps: Vec<String>,
    /// Include calls by target name.
    pub includes_by_target: Vec<(String, Vec<(IncludeCall, String)>)>,
    /// Middleware names by the object they are added to, in source order.
    pub middlewares_by_obj: Vec<(String, Vec<String>)>,
}

/// The items listed under key `k`: the first entry for it.
pub open spec fn entries_of<V>(m: Seq<(String, Vec<V>)>, k: Seq<char>) -> Option<Seq<V>>
    decreases m.len(),
{
    if m.len() == 0 {
        None
    } else if m[0].0@ == k {
        Some(m[0].1@)
    } else {
        entries_of(m.drop_first(), k)
    }
}

/// The sequences one after the other.
pub open spec fn concat_all<A>(s: Seq<Seq<A>>) -> Seq<A>
    decreases s.len(),
{
    if s.len() == 0 {
        Seq::empty()
    } else {
        concat_all(s.drop_last()) + s.last()
    }
}

/// A declaration found in file `uri`.
pub open spec fn in_file_of(e: (RouterMount, String), uri: Seq<char>) -> bool {
    e.1@ == uri
}

/// The declaration of router `name`: the first one in file `prefer` when there is one
/// there, else the only one when the name is declared once.
pub open spec fn find_router_spec(ctx: LinkContext, name: Seq<char>, prefer: Seq<char>) -> Option<RouterMount> {
    match entries_of(ctx.routers@, name) {
        Some(es) => match first_match(es, |e: (RouterMount, String)| in_file_of(e, prefer)) {
            Some(k) => Some(es[k].0),
            None => if es.len() == 1 {
                Some(es[0].0)
            } else {
                None
            },
        },
        None => None,
    }
}

/// `segs` with `p` added when `p` is not empty.
pub open spec fn with_prefix(segs: Seq<Seq<char>>, p: Seq<char>) -> Seq<Seq<char>> {
    if p.len() > 0 {
        segs.push(p)
    } else {
        segs
    }
}

/// The full paths of a route on `object` whose own path and inner prefixes are `segs`
/// (innermost first), found by climbing through the routers' prefixes and include calls
/// (`None` for a mount that cannot be resolved): an application ends the climb with the
/// segments joined outermost first; a router adds its prefix, then every include call of
/// it gives the paths through that call, in order (`branches`); more than 32 levels, an
/// unknown prefix or a router that nothing includes give one unresolved path.
pub open spec fn paths_from(ctx: LinkContext, object: Seq<char>, prefer: Seq<char>, segs: Seq<Seq<char>>, depth: int) -> Seq<Option<Seq<char>>>
    decreases 33 - depth, 1int, 0int,
{
    if depth > 32 || depth < 0 {
        seq![None]
    } else if string_views(ctx.apps@).contains(object) {
        seq![Some(joined_path(segs.reverse()))]
    } else {
        let own = match find_router_spec(ctx, object, prefer) {
            Some(r) => match r.prefix {
                PrefixValue::Literal(p) => Some(with_prefix(segs, p@)),
                PrefixValue::Unresolved => None,
            },
            None => Some(segs),
        };
        match own {
            None => seq![None],
            Some(s2) => match entries_of(ctx.includes_by_target@, object) {
                None => seq![None],
                Some(incs) => {
                    let results = branches(ctx, incs, s2, depth);
                    if results.len() == 0 {
                        seq![None]
                    } else {
                        results
                    }
                },
            },
        }
    }
}

/// The paths through each include call, one after the other.
pub open spec fn branches(ctx: LinkContext, incs: Seq<(IncludeCall, String)>, segs: Seq<Seq<char>>, depth: int) -> Seq<Option<Seq<char>>>
    decreases 33 - depth, 0int, incs.len(),
{
    if incs.len() == 0 {
        Seq::empty()
    } else {
        branches(ctx, incs.drop_last(), segs, depth) + branch_paths(ctx, incs.last(), segs, depth)
    }
}

/// The paths through one include call: its prefix added, then the climb from the object
/// it is called on (in the call's file); unresolved for an unknown prefix or an unknown
/// object (and past the depth limit).
pub open spec fn branch_paths(ctx: LinkContext, inc: (IncludeCall, String), segs: Seq<Seq<char>>, depth: int) -> Seq<Option<Seq<char>>>
    decreases 33 - depth, 0int, 0int,
{
    match inc.0.prefix {
        PrefixValue::Unresolved => seq![None],
        PrefixValue::Literal(p) => if inc.0.app_name@.len() == 0 || depth > 32 || depth < 0 {
            seq![None]
        } else {
            paths_from(ctx, inc.0.app_name@, inc.1@, with_prefix(segs, p@), depth + 1)
        },
    }
}

/// The items listed under key `k` (see `entries_of`).
pub fn entries_lookup<'a, V>(m: &'a [(String, Vec<V>)], k: &str) -> (r: Option<&'a Vec<V>>)
    ensures
        match r {
            Some(v) => entries_of(m@, k@) == Some(v@),
            None => entries_of(m@, k@) is None,
        },
{
    let key: String = k.to_owned();
    let mut i: usize = 0;
    assert(m@.skip(0) =~= m@);
    while i < m.len()
        invariant
            i <= m@.len(),
            key@ == k@,
            entries_of(m@, k@) == entries_of(m@.skip(i as int), k@),
        decreases m@.len() - i,
    {
        assert(m@.skip(i as int).drop_first() =~= m@.skip(i + 1));
        if m[i].0 == key {
            return Some(&m[i].1);
        }
        i += 1;
    }
    None
}

/// The views of resolved paths: the path, or `None` for an unresolved one.
pub open spec fn rp_views(v: Seq<ResolvedPath>) -> Seq<Option<Seq<char>>> {
    v.map_values(|p: ResolvedPath| match p {
        ResolvedPath::Resolved(s) => Some(s@),
        ResolvedPath::Unresolved => None,
    })
}

fn unresolved_only() -> (r: Vec<ResolvedPath>)
    ensures
        rp_views(r@) == seq![None::<Seq<char>>],
{
    let mut r: Vec<ResolvedPath> = Vec::new();
    r.push(ResolvedPath::Unresolved);
    assert(rp_views(r@) =~= seq![None::<Seq<char>>]);
    r
}

fn reversed(v: &Vec<String>) -> (r: Vec<String>)
    ensures
        string_views(r@) == string_views(v@).reverse(),
{
    let ghost sv = string_views(v@);
    let mut out: Vec<String> = Vec::new();
    let mut k: usize = v.len();
    while k > 0
        invariant
            k <= v@.len(),
            sv == string_views(v@),
            out@.len() == v@.len() - k,
            forall|j: int| 0 <= j < out@.len() ==> #[trigger] out@[j]@ == sv[v@.len() - 1 - j],
        decreases k,
    {
        k -= 1;
        out.push(v[k].clone());
    }
    assert(string_views(out@) =~= sv.reverse());
    out
}

fn copy_strings(v: &Vec<String>) -> (r: Vec<String>)
    ensures
        string_views(r@) == string_views(v@),
{
    let mut out: Vec<String> = Vec::new();
    let mut i: usize = 0;
    while i < v.len()
        invariant
            i <= v@.len(),
            out@.len() == i,
            forall|j: int| 0 <= j < i ==> #[trigger] out@[j]@ == v@[j]@,
        decreases v@.len() - i,
    {
        out.push(v[i].clone());
        i += 1;
    }
    assert(string_views(out@) =~= string_views(v@));
    out
}

impl LinkContext {
    /// The declaration of router `name` as `find_router_spec` picks it.
    pub fn find_router(&self, name: &str, prefer_uri: &str) -> (r: Option<&RouterMount>)
        ensures
            match r {
                Some(x) => find_router_spec(*self, name@, prefer_uri@) == Some(*x),
                None => find_router_spec(*self, name@, prefer_uri@) is None,
            },
    {
        let entries = match entries_lookup(self.routers.as_slice(), name) {
            Some(e) => e,
            None => return None,
        };
        let prefer: String = prefer_uri.to_owned();
        let ghost p = |e: (RouterMount, String)| in_file_of(e, prefer_uri@);
        let mut i: usize = 0;
        while i < entries.len()
            invariant
                i <= entries@.len(),
                prefer@ == prefer_uri@,
                entries_of(self.routers@, name@) == Some(entries@),
                p == (|e: (RouterMount, String)| in_file_of(e, prefer_uri@)),
                forall|j: int| 0 <= j < i ==> !p(#[trigger] entries@[j]),
            decreases entries@.len() - i,
        {
            proof {
                lemma_first_match_step(entries@, p, i as int);
            }
            if entries[i].1 == prefer {
                return Some(&entries[i].0);
            }
            i += 1;
        }
        proof {
            lemma_first_match_none(entries@, p);
        }
        if entries.len() == 1 {
            Some(&entries[0].0)
        } else {
            None
        }
    }

    /// All full paths of a route on `object_name` whose own path and inner prefixes are
    /// `segments`, innermost first (see `paths_from`).
    pub fn resolve_paths_from(&self, object_name: &str, prefer_uri: &str, segments: Vec<String>, depth: usize) -> (r: Vec<ResolvedPath>)
        ensures
            rp_views(r@) == paths_from(*self, object_name@, prefer_uri@, string_views(segments@), depth as int),
        decreases 33 - depth,
    {
        if depth > 32 {
            return unresolved_only();
        }
        if contains_str(self.apps.as_slice(), object_name) {
            let rev = reversed(&segments);
            let joined = join_path_segments(rev.as_slice());
            let mut r: Vec<ResolvedPath> = Vec::new();
            r.push(ResolvedPath::Resolved(joined));
            assert(rp_views(r@) =~= seq![Some(joined_path(string_views(segments@).reverse()))]);
            return r;
        }
        let mut segments = segments;
        let ghost s0 = string_views(segments@);
        match self.find_router(object_name, prefer_uri) {
            Some(router) => match &router.prefix {
                PrefixValue::Literal(p) => {
                    if !p.as_str().is_empty() {
                        segments.push(p.clone());
                        assert(string_views(segments@) =~= s0.push(p@));
                    }
                },
                PrefixValue::Unresolved => {
                    return unresolved_only();
                },
            },
            None => {},
        }
        let ghost s2 = string_views(segments@);
        let includes = match entries_lookup(self.includes_by_target.as_slice(), object_name) {
            Some(i) => i,
            None => return unresolved_only(),
        };
        let mut results: Vec<ResolvedPath> = Vec::new();
        let mut i: usize = 0;
        while i < includes.len()
            invariant
                i <= includes@.len(),
                depth <= 32,
                s2 == string_views(segments@),
                rp_views(results@) == branches(*self, includes@.take(i as int), s2, depth as int),
            decreases includes@.len() - i,
        {
            let inc = &includes[i].0;
            let inc_uri = &includes[i].1;
            assert(includes@.take(i + 1).drop_last() =~= includes@.take(i as int));
            assert(includes@.take(i + 1).last() == includes@[i as int]);
            let ghost before = rp_views(results@);
            match &inc.prefix {
                PrefixValue::Literal(p) => {
                    let mut branch = copy_strings(&segments);
                    if !p.as_str().is_empty() {
                        branch.push(p.clone());
                        assert(string_views(branch@) =~= s2.push(p@));
                    }
                    if inc.app_name.as_str().is_empty() {
                        results.push(ResolvedPath::Unresolved);
                        assert(rp_views(results@) =~= before + seq![None::<Seq<char>>]);
                    } else {
                        let ghost bv = string_views(branch@);
                        assert(bv == with_prefix(s2, p@));
                        let mut sub = self.resolve_paths_from(inc.app_name.as_str(), inc_uri.as_str(), branch, depth + 1);
                        let ghost sv = rp_views(sub@);
                        assert(sv == branch_paths(*self, includes@[i as int], s2, depth as int));
                        results.append(&mut sub);
                        assert(rp_views(results@) =~= before + sv);
                    }
                },
                PrefixValue::Unresolved => {
                    results.push(ResolvedPath::Unresolved);
                    assert(rp_views(results@) =~= before + seq![None::<Seq<char>>]);
                },
            }
            assert(rp_views(results@) == before + branch_paths(*self, includes@[i as int], s2, depth as int));
            assert(branches(*self, includes@.take(i + 1), s2, depth as int) == branches(*self, includes@.take(i as int), s2, depth as int)
                + branch_paths(*self, includes@[i as int], s2, depth as int));
            i += 1;
        }
        assert(includes@.take(includes@.len() as int) =~= includes@);
        if results.len() == 0 {
            return unresolved_only();
        }
        results
    }

    /// All full paths of a route registered on `object_name` (in file `route_uri`) with
    /// decorator path `path`: one per mount site; unresolved when the path is not a
    /// literal.
    pub fn resolve_route_paths(&self, route_uri: &str, object_name: &str, path: &PrefixValue) -> (r: Vec<ResolvedPath>)
        ensures
            rp_views(r@) == match path {
                PrefixValue::Literal(p) => paths_from(*self, object_name@, route_uri@, seq![p@], 0),
                PrefixValue::Unresolved => seq![None],
            },
    {
        match path {
            PrefixValue::Literal(p) => {
                let mut segs: Vec<String> = Vec::new();
                segs.push(p.clone());
                assert(string_views(segs@) =~= seq![p@]);
                self.resolve_paths_from(object_name, route_uri, segs, 0)
            },
            PrefixValue::Unresolved => unresolved_only(),
        }
    }
}

/// The state of the middleware walk: objects still to visit, objects seen, and the
/// middleware of each visited level (already in execution order within the level).
pub type MwState = (Seq<Seq<char>>, Seq<Seq<char>>, Seq<Seq<Seq<char>>>);

/// The application names of the include calls, each once, leaving out empty names, names
/// in `seen` and names already taken from earlier calls.
pub open spec fn new_apps(incs: Seq<(IncludeCall, String)>, seen: Seq<Seq<char>>) -> Seq<Seq<char>>
    decreases incs.len(),
{
    if incs.len() == 0 {
        Seq::empty()
    } else {
        let prev = new_apps(incs.drop_last(), seen);
        let a = incs.last().0.app_name@;
        if a.len() > 0 && !seen.contains(a) && !prev.contains(a) {
            prev.push(a)
        } else {
            prev
        }
    }
}

/// One step of the walk from the route's object out to the applications: take the next
/// object; its middleware, last added first, forms a level (when it has any); unless it
/// is an application, the applications that include it and were not seen yet are queued.
pub open spec fn mw_step(ctx: LinkContext, st: MwState) -> MwState {
    let (q, seen, levels) = st;
    if q.len() == 0 {
        st
    } else {
        let cur = q[0];
        let names = match entries_of(ctx.middlewares_by_obj@, cur) {
            Some(m) => string_views(m).reverse(),
            None => Seq::empty(),
        };
        let levels2 = if names.len() > 0 {
            levels.push(names)
        } else {
            levels
        };
        if string_views(ctx.apps@).contains(cur) {
            (q.drop_first(), seen, levels2)
        } else {
            let new = match entries_of(ctx.includes_by_target@, cur) {
                Some(incs) => new_apps(incs, seen),
                None => Seq::empty(),
            };
            (q.drop_first() + new, seen + new, levels2)
        }
    }
}

/// `n` steps of the walk.
pub open spec fn mw_iter(ctx: LinkContext, st: MwState, n: nat) -> MwState
    decreases n,
{
    if n == 0 {
        st
    } else {
        mw_iter(ctx, mw_step(ctx, st), (n - 1) as nat)
    }
}

proof fn lemma_mw_iter_succ(ctx: LinkContext, st: MwState, n: nat)
    ensures
        mw_iter(ctx, st, n + 1) == mw_step(ctx, mw_iter(ctx, st, n)),
    decreases n,
{
    if n > 0 {
        lemma_mw_iter_succ(ctx, mw_step(ctx, st), (n - 1) as nat);
        assert(mw_iter(ctx, st, n) == mw_iter(ctx, mw_step(ctx, st), (n - 1) as nat));
        assert(mw_iter(ctx, st, n + 1) == mw_iter(ctx, mw_step(ctx, st), n));
    } else {
        assert(mw_iter(ctx, st, 0) == st);
        assert(mw_iter(ctx, mw_step(ctx, st), 0) == mw_step(ctx, st));
        assert(mw_iter(ctx, st, 1) == mw_iter(ctx, mw_step(ctx, st), 0));
    }
}

/// The application names of a list of include calls.
pub open spec fn names_of(incs: Seq<(IncludeCall, String)>) -> Seq<Seq<char>> {
    incs.map_values(|e: (IncludeCall, String)| e.0.app_name@)
}

/// The application names of all include calls of the index.
pub open spec fn app_names_all(m: Seq<(String, Vec<(IncludeCall, String)>)>) -> Seq<Seq<char>>
    decreases m.len(),
{
    if m.len() == 0 {
        Seq::empty()
    } else {
        names_of(m[0].1@) + app_names_all(m.drop_first())
    }
}

proof fn lemma_entries_in_all(m: Seq<(String, Vec<(IncludeCall, String)>)>, k: Seq<char>)
    ensures
        entries_of(m, k) matches Some(incs) ==> forall|j: int| 0 <= j < incs.len() ==> app_names_all(m).contains(#[trigger] incs[j].0.app_name@),
    decreases m.len(),
{
    if m.len() > 0 {
        lemma_entries_in_all(m.drop_first(), k);
        let here = names_of(m[0].1@);
        let rest = app_names_all(m.drop_first());
        if m[0].0@ == k {
            assert forall|j: int| 0 <= j < m[0].1@.len() implies app_names_all(m).contains(#[trigger] m[0].1@[j].0.app_name@) by {
                assert((here + rest)[j] == here[j]);
            }
        } else {
            match entries_of(m.drop_first(), k) {
                Some(incs) => {
                    assert forall|j: int| 0 <= j < incs.len() implies app_names_all(m).contains(#[trigger] incs[j].0.app_name@) by {
                        let t = choose|t: int| 0 <= t < rest.len() && rest[t] == incs[j].0.app_name@;
                        assert((here + rest)[here.len() + t] == rest[t]);
                    }
                },
                None => {},
            }
        }
    }
}

proof fn lemma_new_apps(incs: Seq<(IncludeCall, String)>, seen: Seq<Seq<char>>)
    ensures
        (seen + new_apps(incs, seen)).no_duplicates() <== seen.no_duplicates(),
        forall|j: int| 0 <= j < new_apps(incs, seen).len() ==> names_of(incs).contains(#[trigger] new_apps(incs, seen)[j]),
    decreases incs.len(),
{
    if incs.len() > 0 {
        lemma_new_apps(incs.drop_last(), seen);
        let prev = new_apps(incs.drop_last(), seen);
        let a = incs.last().0.app_name@;
        assert forall|j: int| 0 <= j < new_apps(incs, seen).len() implies names_of(incs).contains(#[trigger] new_apps(incs, seen)[j]) by {
            if j < prev.len() {
                let t = choose|t: int| 0 <= t < names_of(incs.drop_last()).len() && names_of(incs.drop_last())[t] == prev[j];
                assert(names_of(incs)[t] == names_of(incs.drop_last())[t]);
            } else {
                assert(names_of(incs)[incs.len() - 1] == a);
            }
        }
        if seen.no_duplicates() && a.len() > 0 && !seen.contains(a) && !prev.contains(a) {
            assert((seen + prev.push(a)) =~= (seen + prev).push(a));
            assert(!(seen + prev).contains(a)) by {
                if (seen + prev).contains(a) {
                    let t = choose|t: int| 0 <= t < (seen + prev).len() && (seen + prev)[t] == a;
                    if t < seen.len() {
                        assert(seen[t] == a);
                    } else {
                        assert(prev[t - seen.len()] == a);
                    }
                }
            }
        }
    }
}

impl LinkContext {
    /// The middleware a route on `object_name` runs under, outermost first: the walk of
    /// `mw_step` from the object out to the applications, run until nothing is left to
    /// visit, its levels taken from the last visited to the first.
    pub fn middleware_chain(&self, object_name: &str) -> (r: Vec<String>)
        ensures
            exists|n: nat| {
                let fin = #[trigger] mw_iter(*self, (seq![object_name@], seq![object_name@], Seq::empty()), n);
                &&& fin.0.len() == 0
                &&& string_views(r@) == concat_all(fin.2.reverse())
            },
    {
        let ghost init: MwState = (seq![object_name@], seq![object_name@], Seq::empty());
        let ghost u = seq![object_name@] + app_names_all(self.includes_by_target@);
        let mut queue: Vec<String> = Vec::new();
        queue.push(object_name.to_owned());
        let mut seen: Vec<String> = Vec::new();
        seen.push(object_name.to_owned());
        let mut levels: Vec<Vec<String>> = Vec::new();
        let mut head: usize = 0;
        let ghost mut steps: nat = 0;
        proof {
            assert(string_views(queue@).skip(0) =~= seq![object_name@]);
            assert(string_views(seen@) =~= seq![object_name@]);
            assert(levels@.map_values(|l: Vec<String>| string_views(l@)) =~= Seq::<Seq<Seq<char>>>::empty());
            assert(u[0] == object_name@);
        }
        while head < queue.len()
            invariant
                head <= queue@.len(),
                init == (seq![object_name@], seq![object_name@], Seq::<Seq<Seq<char>>>::empty()),
                u == seq![object_name@] + app_names_all(self.includes_by_target@),
                mw_iter(*self, init, steps) == (
                    string_views(queue@).skip(head as int),
                    string_views(seen@),
                    levels@.map_values(|l: Vec<String>| string_views(l@)),
                ),
                string_views(seen@).no_duplicates(),
                forall|j: int| 0 <= j < seen@.len() ==> u.contains(#[trigger] string_views(seen@)[j]),
            decreases u.len() - seen@.len(), queue@.len() - head,
        {
            proof {
                lemma_distinct_subseq_len(string_views(seen@), u);
            }
            let ghost st = mw_iter(*self, init, steps);
            let ghost seen0 = string_views(seen@);
            let cur = queue[head].clone();
            head += 1;
            // This object's middleware, last added first.
            let ghost lv0 = levels@.map_values(|l: Vec<String>| string_views(l@));
            match entries_lookup(self.middlewares_by_obj.as_slice(), cur.as_str()) {
                Some(mws) => {
                    if mws.len() > 0 {
                        let names = reversed(mws);
                        levels.push(names);
                        assert(levels@.map_values(|l: Vec<String>| string_views(l@)) =~= lv0.push(string_views(mws@).reverse()));
                    }
                },
                None => {},
            }
            if !contains_str(self.apps.as_slice(), cur.as_str()) {
                match entries_lookup(self.includes_by_target.as_slice(), cur.as_str()) {
                    Some(incs) => {
                        let ghost q0 = string_views(queue@);
                        proof {
                            lemma_entries_in_all(self.includes_by_target@, cur@);
                            lemma_new_apps(incs@, seen0);
                        }
                        let mut j: usize = 0;
                        while j < incs.len()
                            invariant
                                j <= incs@.len(),
                                string_views(seen@) == seen0 + new_apps(incs@.take(j as int), seen0),
                                string_views(queue@) == q0 + new_apps(incs@.take(j as int), seen0),
                            decreases incs@.len() - j,
                        {
                            assert(incs@.take(j + 1).drop_last() =~= incs@.take(j as int));
                            assert(incs@.take(j + 1).last() == incs@[j as int]);
                            let a = &incs[j].0.app_name;
                            if !a.as_str().is_empty() && !contains_str(seen.as_slice(), a.as_str()) {
                                let ghost sb = string_views(seen@);
                                let ghost qb = string_views(queue@);
                                seen.push(a.clone());
                                queue.push(a.clone());
                                assert(string_views(seen@) =~= sb.push(a@));
                                assert(string_views(queue@) =~= qb.push(a@));
                                proof {
                                    let prev = new_apps(incs@.take(j as int), seen0);
                                    assert((seen0 + prev).contains(a@) ==> (seen0.contains(a@) || prev.contains(a@))) by {
                                        if (seen0 + prev).contains(a@) {
                                            let t = choose|t: int| 0 <= t < (seen0 + prev).len() && (seen0 + prev)[t] == a@;
                                            if t < seen0.len() {
                                                assert(seen0[t] == a@);
                                            } else {
                                                assert(prev[t - seen0.len()] == a@);
                                            }
                                        }
                                    }
                                    assert(!seen0.contains(a@) && !prev.contains(a@)) by {
                                        if seen0.contains(a@) {
                                            let t = choose|t: int| 0 <= t < seen0.len() && seen0[t] == a@;
                                            assert((seen0 + prev)[t] == a@);
                                        }
                                        if prev.contains(a@) {
                                            let t = choose|t: int| 0 <= t < prev.len() && prev[t] == a@;
                                            assert((seen0 + prev)[seen0.len() + t] == a@);
                                        }
                                    }
                                    assert((seen0 + prev).push(a@) =~= seen0 + prev.push(a@));
                                    assert((q0 + prev).push(a@) =~= q0 + prev.push(a@));
                                }
                            } else {
                                proof {
                                    let prev = new_apps(incs@.take(j as int), seen0);
                                    if a@.len() > 0 {
                                        assert((seen0 + prev).contains(a@));
                                        let t = choose|t: int| 0 <= t < (seen0 + prev).len() && (seen0 + prev)[t] == a@;
                                        if t < seen0.len() {
                                            assert(seen0[t] == a@);
                                        } else {
                                            assert(prev[t - seen0.len()] == a@);
                                        }
                                    }
                                }
                            }
                            j += 1;
                        }
                        assert(incs@.take(incs@.len() as int) =~= incs@);
                        proof {
                            let new = new_apps(incs@, seen0);
                            assert(string_views(seen@) == seen0 + new);
                            assert forall|k: int| 0 <= k < seen@.len() implies u.contains(#[trigger] string_views(seen@)[k]) by {
                                if k >= seen0.len() {
                                    let x = new[k - seen0.len()];
                                    assert(string_views(seen@)[k] == x);
                                    let t = choose|t: int| 0 <= t < names_of(incs@).len() && names_of(incs@)[t] == x;
                                    assert(incs@[t].0.app_name@ == x);
                                    let w = choose|w: int| 0 <= w < app_names_all(self.includes_by_target@).len() && app_names_all(self.includes_by_target@)[w] == x;
                                    assert(u[w + 1] == x);
                                } else {
                                    assert(string_views(seen@)[k] == seen0[k]);
                                }
                            }
                            assert(string_views(queue@).skip(head as int) =~= st.0.drop_first() + new);
                        }
                    },
                    None => {
                        assert(string_views(queue@).skip(head as int) =~= st.0.drop_first());
                        assert(string_views(queue@).skip(head as int) =~= st.0.drop_first() + Seq::<Seq<char>>::empty());
                    },
                }
            } else {
                assert(string_views(queue@).skip(head as int) =~= st.0.drop_first());
            }
            proof {
                lemma_mw_iter_succ(*self, init, steps);
                steps = steps + 1;
                lemma_distinct_subseq_len(string_views(seen@), u);
            }
        }
        // The levels, outermost first.
        let mut out: Vec<String> = Vec::new();
        let ghost lv = levels@.map_values(|l: Vec<String>| string_views(l@));
        let mut k: usize = levels.len();
        assert(lv.reverse().take(0) =~= Seq::<Seq<Seq<char>>>::empty());
        while k > 0
            invariant
                k <= levels@.len(),
                lv == levels@.map_values(|l: Vec<String>| string_views(l@)),
                string_views(out@) == concat_all(lv.reverse().take(levels@.len() - k)),
            decreases k,
        {
            k -= 1;
            let ghost before = string_views(out@);
            let level = &levels[k];
            let mut m: usize = 0;
            while m < level.len()
                invariant
                    m <= level@.len(),
                    string_views(out@) == before + string_views(level@).take(m as int),
                decreases level@.len() - m,
            {
                let ghost b2 = string_views(out@);
                out.push(level[m].clone());
                assert(string_views(out@) =~= b2.push(level@[m as int]@));
                assert(string_views(level@).take(m + 1) =~= string_views(level@).take(m as int).push(level@[m as int]@));
                m += 1;
            }
            assert(string_views(level@).take(level@.len() as int) =~= string_views(level@));
            proof {
                let t = lv.reverse().take(levels@.len() - k);
                assert(t.drop_last() =~= lv.reverse().take(levels@.len() - k - 1));
                assert(t.last() == lv[k as int]);
            }
        }
        assert(lv.reverse().take(levels@.len() as int) =~= lv.reverse());
        out
    }
}

impl PrefixValue {
    /// A copy of this prefix.
    pub fn duplicate(&self) -> (r: PrefixValue)
        ensures
            r == *self,
    {
        match self {
            PrefixValue::Literal(p) => PrefixValue::Literal(p.clone()),
            PrefixValue::Unresolved => PrefixValue::Unresolved,
        }
    }
}

impl RouterMount {
    /// A copy of this declaration.
    pub fn duplicate(&self) -> (r: RouterMount)
        ensures
            r == *self,
    {
        RouterMount { name: self.name.clone(), prefix: self.prefix.duplicate() }
    }
}

impl IncludeCall {
    /// A copy of this call.
    pub fn duplicate(&self) -> (r: IncludeCall)
        ensures
            r == *self,
    {
        IncludeCall { target: self.target.clone(), prefix: self.prefix.duplicate(), app_name: self.app_name.clone() }
    }
}

/// What mount resolution reads from one file.
#[derive(Clone, Debug)]
pub struct MountFacts {
    pub uri: String,
    pub apps: Vec<String>,
    pub routers: Vec<RouterMount>,
    pub includes: Vec<IncludeCall>,
    /// Import aliases (`import x as alias`): alias and original name.
    pub import_alias_originals: Vec<(String, String)>,
    /// Middleware added to an object (`obj.add_middleware(M)`, `@obj.middleware`): the
    /// object and the middleware's name.
    pub middlewares: Vec<(String, String)>,
}

/// `s` as an optional list: `None` when empty.
pub open spec fn nonempty<A>(s: Seq<A>) -> Option<Seq<A>> {
    if s.len() == 0 {
        None
    } else {
        Some(s)
    }
}

/// The list `m` after pushing `v` under key `k`.
pub open spec fn pushed<V>(m: Seq<(String, Vec<V>)>, k: Seq<char>, v: V, key: Seq<char>) -> Option<Seq<V>> {
    if key == k {
        match entries_of(m, k) {
            Some(vs) => Some(vs.push(v)),
            None => Some(seq![v]),
        }
    } else {
        entries_of(m, key)
    }
}

/// Pushes `v` onto the list under key `k`, adding the key at the end when it is new.
pub fn push_keyed<V>(m: &mut Vec<(String, Vec<V>)>, k: &str, v: V)
    ensures
        forall|key: Seq<char>| #[trigger] entries_of(final(m)@, key) == pushed(old(m)@, k@, v, key),
{
    let key_s: String = k.to_owned();
    let ghost m0 = m@;
    let mut i: usize = 0;
    while i < m.len()
        invariant
            i <= m@.len(),
            m@ == m0,
            key_s@ == k@,
            forall|j: int| 0 <= j < i ==> (#[trigger] m0[j]).0@ != k@,
        ensures
            i <= m@.len(),
            m@ == m0,
            forall|j: int| 0 <= j < i ==> (#[trigger] m0[j]).0@ != k@,
            i < m@.len() ==> m0[i as int].0@ == k@,
        decreases m@.len() - i,
    {
        if m[i].0 == key_s {
            break;
        }
        i += 1;
    }
    if i < m.len() {
        let ghost old_vs = m0[i as int].1@;
        m[i].1.push(v);
        proof {
            assert(m@[i as int].1@ == old_vs.push(v));
            assert(m@[i as int].0 == m0[i as int].0);
            lemma_entries_update(m0, i as int, m@, k@);
        }
        assert forall|key: Seq<char>| #[trigger] entries_of(m@, key) == pushed(m0, k@, v, key) by {}
    } else {
        let mut vs: Vec<V> = Vec::new();
        vs.push(v);
        m.push((key_s, vs));
        proof {
            lemma_entries_append(m0, m@, k@);
            assert(m@[m0.len() as int].1@ == seq![v]);
        }
        assert forall|key: Seq<char>| #[trigger] entries_of(m@, key) == pushed(m0, k@, v, key) by {}
    }
}

proof fn lemma_entries_update<V>(m0: Seq<(String, Vec<V>)>, i: int, m1: Seq<(String, Vec<V>)>, k: Seq<char>)
    requires
        0 <= i < m0.len(),
        m1.len() == m0.len(),
        m0[i].0@ == k,
        forall|j: int| 0 <= j < i ==> (#[trigger] m0[j]).0@ != k,
        m1[i].0 == m0[i].0,
        forall|j: int| 0 <= j < m0.len() && j != i ==> #[trigger] m1[j] == m0[j],
    ensures
        forall|key: Seq<char>| key != k ==> #[trigger] entries_of(m1, key) == entries_of(m0, key),
        entries_of(m1, k) == Some(m1[i].1@),
        entries_of(m0, k) == Some(m0[i].1@),
    decreases m0.len(),
{
    assert forall|key: Seq<char>| key != k implies #[trigger] entries_of(m1, key) == entries_of(m0, key) by {
        lemma_entries_same_except(m0, m1, i, key);
    }
    lemma_entries_at(m0, i, k);
    lemma_entries_at(m1, i, k);
}

proof fn lemma_entries_at<V>(m: Seq<(String, Vec<V>)>, i: int, k: Seq<char>)
    requires
        0 <= i < m.len(),
        m[i].0@ == k,
        forall|j: int| 0 <= j < i ==> (#[trigger] m[j]).0@ != k,
    ensures
        entries_of(m, k) == Some(m[i].1@),
    decreases i,
{
    if i > 0 {
        lemma_entries_at(m.drop_first(), i - 1, k);
        assert(m[0].0@ != k);
    }
}

proof fn lemma_entries_same_except<V>(m0: Seq<(String, Vec<V>)>, m1: Seq<(String, Vec<V>)>, i: int, key: Seq<char>)
    requires
        0 <= i < m0.len(),
        m1.len() == m0.len(),
        m1[i].0 == m0[i].0,
        m0[i].0@ != key,
        forall|j: int| 0 <= j < m0.len() && j != i ==> #[trigger] m1[j] == m0[j],
    ensures
        entries_of(m1, key) == entries_of(m0, key),
    decreases m0.len(),
{
    if m0.len() > 0 {
        if i == 0 {
            assert(m1.drop_first() =~= m0.drop_first());
        } else {
            assert(m1[0] == m0[0]);
            lemma_entries_same_except(m0.drop_first(), m1.drop_first(), i - 1, key);
        }
    }
}

proof fn lemma_entries_append<V>(m0: Seq<(String, Vec<V>)>, m1: Seq<(String, Vec<V>)>, k: Seq<char>)
    requires
        m1.len() == m0.len() + 1,
        forall|j: int| 0 <= j < m0.len() ==> #[trigger] m1[j] == m0[j],
        forall|j: int| 0 <= j < m0.len() ==> (#[trigger] m0[j]).0@ != k,
        m1[m0.len() as int].0@ == k,
    ensures
        forall|key: Seq<char>| key != k ==> #[trigger] entries_of(m1, key) == entries_of(m0, key),
        entries_of(m1, k) == Some(m1[m0.len() as int].1@),
        entries_of(m0, k) is None,
    decreases m0.len(),
{
    if m0.len() == 0 {
        assert forall|key: Seq<char>| key != k implies #[trigger] entries_of(m1, key) == entries_of(m0, key) by {
            assert(entries_of(m1.drop_first(), key) is None);
        }
    } else {
        lemma_entries_append(m0.drop_first(), m1.drop_first(), k);
        assert(m1[0] == m0[0]);
        assert(m1.drop_first()[m0.len() - 1] == m1[m0.len() as int]);
        assert forall|key: Seq<char>| key != k implies #[trigger] entries_of(m1, key) == entries_of(m0, key) by {
            if m0[0].0@ != key {
                assert(entries_of(m1.drop_first(), key) == entries_of(m0.drop_first(), key));
            }
        }
    }
}

/// The routers named `k` among one file's declarations, with the file's URI.
pub open spec fn file_routers_named(rs: Seq<RouterMount>, uri: String, k: Seq<char>) -> Seq<(RouterMount, String)>
    decreases rs.len(),
{
    if rs.len() == 0 {
        Seq::empty()
    } else {
        file_routers_named(rs.drop_last(), uri, k) + if rs.last().name@ == k {
            seq![(rs.last(), uri)]
        } else {
            Seq::empty()
        }
    }
}

/// The routers named `k` in all files, file by file.
pub open spec fn routers_named(files: Seq<MountFacts>, k: Seq<char>) -> Seq<(RouterMount, String)>
    decreases files.len(),
{
    if files.len() == 0 {
        Seq::empty()
    } else {
        routers_named(files.drop_last(), k) + file_routers_named(files.last().routers@, files.last().uri, k)
    }
}

/// The original name behind an import alias: the first entry for it.
pub open spec fn alias_original(aliases: Seq<(String, String)>, a: Seq<char>) -> Option<Seq<char>> {
    match first_match(aliases, |e: (String, String)| alias_is(e, a)) {
        Some(k) => Some(aliases[k].1@),
        None => None,
    }
}

/// An alias entry for `a`.
pub open spec fn alias_is(e: (String, String), a: Seq<char>) -> bool {
    e.0@ == a
}

/// The entries an include call adds under key `k`: one under its target, one under the
/// last dotted part of the target when that differs, and one under the original name
/// when the target is an import alias.
pub open spec fn inc_items(inc: IncludeCall, uri: String, aliases: Seq<(String, String)>, k: Seq<char>) -> Seq<(IncludeCall, String)> {
    let t = inc.target@;
    let item = (inc, uri);
    (if t == k { seq![item] } else { Seq::empty() })
        + (if after_last_dot(t) != t && after_last_dot(t) == k { seq![item] } else { Seq::empty() })
        + (match alias_original(aliases, t) {
            Some(o) => if o == k { seq![item] } else { Seq::empty() },
            None => Seq::empty(),
        })
}

/// The entries one file's include calls add under key `k`.
pub open spec fn file_includes_keyed(incs: Seq<IncludeCall>, uri: String, aliases: Seq<(String, String)>, k: Seq<char>) -> Seq<(IncludeCall, String)>
    decreases incs.len(),
{
    if incs.len() == 0 {
        Seq::empty()
    } else {
        file_includes_keyed(incs.drop_last(), uri, aliases, k) + inc_items(incs.last(), uri, aliases, k)
    }
}

/// The include calls listed under key `k`, file by file.
pub open spec fn includes_keyed(files: Seq<MountFacts>, k: Seq<char>) -> Seq<(IncludeCall, String)>
    decreases files.len(),
{
    if files.len() == 0 {
        Seq::empty()
    } else {
        includes_keyed(files.drop_last(), k) + file_includes_keyed(files.last().includes@, files.last().uri, files.last().import_alias_originals@, k)
    }
}

/// The middleware added to object `k` in one file, in order (none for an empty object).
pub open spec fn file_mws_of(mws: Seq<(String, String)>, k: Seq<char>) -> Seq<String>
    decreases mws.len(),
{
    if mws.len() == 0 {
        Seq::empty()
    } else {
        file_mws_of(mws.drop_last(), k) + if mws.last().0@.len() > 0 && mws.last().0@ == k {
            seq![mws.last().1]
        } else {
            Seq::empty()
        }
    }
}

/// The middleware added to object `k`, file by file.
pub open spec fn mws_of(files: Seq<MountFacts>, k: Seq<char>) -> Seq<String>
    decreases files.len(),
{
    if files.len() == 0 {
        Seq::empty()
    } else {
        mws_of(files.drop_last(), k) + file_mws_of(files.last().middlewares@, k)
    }
}

/// The application names of all files, file by file.
pub open spec fn apps_all(files: Seq<MountFacts>) -> Seq<Seq<char>>
    decreases files.len(),
{
    if files.len() == 0 {
        Seq::empty()
    } else {
        apps_all(files.drop_last()) + string_views(files.last().apps@)
    }
}

pub(crate) fn find_alias<'a>(aliases: &'a [(String, String)], a: &String) -> (r: Option<&'a String>)
    ensures
        match r {
            Some(o) => alias_original(aliases@, a@) == Some(o@),
            None => alias_original(aliases@, a@) is None,
        },
{
    let ghost p = |e: (String, String)| alias_is(e, a@);
    let mut i: usize = 0;
    while i < aliases.len()
        invariant
            i <= aliases@.len(),
            p == (|e: (String, String)| alias_is(e, a@)),
            forall|j: int| 0 <= j < i ==> !p(#[trigger] aliases@[j]),
        decreases aliases@.len() - i,
    {
        proof {
            lemma_first_match_step(aliases@, p, i as int);
        }
        if aliases[i].0 == *a {
            return Some(&aliases[i].1);
        }
        i += 1;
    }
    proof {
        lemma_first_match_none(aliases@, p);
    }
    None
}

/// Pushes `v` under `k` (see `push_keyed`), stated as the growth of a keyed collection:
/// where every key listed `before(key)`, it lists `before(key)` plus `v` under `k`.
proof fn lemma_push_step<V>(m0: Seq<(String, Vec<V>)>, m1: Seq<(String, Vec<V>)>, k: Seq<char>, v: V, before: spec_fn(Seq<char>) -> Seq<V>)
    requires
        forall|key: Seq<char>| #[trigger] entries_of(m0, key) == nonempty(before(key)),
        forall|key: Seq<char>| #[trigger] entries_of(m1, key) == pushed(m0, k, v, key),
    ensures
        forall|key: Seq<char>| #[trigger] entries_of(m1, key) == nonempty(before(key) + if key == k { seq![v] } else { Seq::empty() }),
{
    assert forall|key: Seq<char>| #[trigger] entries_of(m1, key) == nonempty(before(key) + if key == k { seq![v] } else { Seq::empty() }) by {
        assert(entries_of(m0, key) == nonempty(before(key)));
        if key == k {
            assert(nonempty(before(key) + seq![v]) == Some(before(key).push(v)));
            if before(key).len() == 0 {
                assert(before(key).push(v) =~= seq![v]);
            }
        } else {
            assert(before(key) + Seq::<V>::empty() =~= before(key));
        }
    }
}

impl LinkContext {
    /// Builds the indexes from every file's facts: routers by name; application names;
    /// include calls by target (see `inc_items`); middleware by object.
    pub fn from_files(files: &[MountFacts]) -> (ctx: LinkContext)
        ensures
            forall|k: Seq<char>| #[trigger] entries_of(ctx.routers@, k) == nonempty(routers_named(files@, k)),
            forall|k: Seq<char>| #[trigger] entries_of(ctx.includes_by_target@, k) == nonempty(includes_keyed(files@, k)),
            forall|k: Seq<char>| #[trigger] entries_of(ctx.middlewares_by_obj@, k) == nonempty(mws_of(files@, k)),
            string_views(ctx.apps@) == apps_all(files@),
    {
        let mut routers: Vec<(String, Vec<(RouterMount, String)>)> = Vec::new();
        let mut apps: Vec<String> = Vec::new();
        let mut includes_by_target: Vec<(String, Vec<(IncludeCall, String)>)> = Vec::new();
        let mut middlewares_by_obj: Vec<(String, Vec<String>)> = Vec::new();
        let mut i: usize = 0;
        while i < files.len()
            invariant
                i <= files@.len(),
                forall|k: Seq<char>| #[trigger] entries_of(routers@, k) == nonempty(routers_named(files@.take(i as int), k)),
                forall|k: Seq<char>| #[trigger] entries_of(includes_by_target@, k) == nonempty(includes_keyed(files@.take(i as int), k)),
                forall|k: Seq<char>| #[trigger] entries_of(middlewares_by_obj@, k) == nonempty(mws_of(files@.take(i as int), k)),
                string_views(apps@) == apps_all(files@.take(i as int)),
            decreases files@.len() - i,
        {
            let f = &files[i];
            let ghost fs0 = files@.take(i as int);
            assert(files@.take(i + 1).drop_last() =~= fs0);
            assert(files@.take(i + 1).last() == files@[i as int]);
            // Applications.
            let ghost a0 = string_views(apps@);
            let mut j: usize = 0;
            while j < f.apps.len()
                invariant
                    j <= f.apps@.len(),
                    string_views(apps@) == a0 + string_views(f.apps@).take(j as int),
                decreases f.apps@.len() - j,
            {
                let ghost b = string_views(apps@);
                apps.push(f.apps[j].clone());
                assert(string_views(apps@) =~= b.push(f.apps@[j as int]@));
                assert(string_views(f.apps@).take(j + 1) =~= string_views(f.apps@).take(j as int).push(f.apps@[j as int]@));
                j += 1;
            }
            assert(string_views(f.apps@).take(f.apps@.len() as int) =~= string_views(f.apps@));
            // Routers.
            let mut j: usize = 0;
            while j < f.routers.len()
                invariant
                    j <= f.routers@.len(),
                    f == &files@[i as int],
                    forall|k: Seq<char>| #[trigger] entries_of(routers@, k)
                        == nonempty(routers_named(fs0, k) + file_routers_named(f.routers@.take(j as int), f.uri, k)),
                decreases f.routers@.len() - j,
            {
                let r = &f.routers[j];
                let item = (r.duplicate(), f.uri.clone());
                let ghost m0 = routers@;
                let ghost before = |k: Seq<char>| routers_named(fs0, k) + file_routers_named(f.routers@.take(j as int), f.uri, k);
                push_keyed(&mut routers, r.name.as_str(), item);
                proof {
                    lemma_push_step(m0, routers@, r.name@, item, before);
                    assert(f.routers@.take(j + 1).drop_last() =~= f.routers@.take(j as int));
                    assert forall|k: Seq<char>| #[trigger] entries_of(routers@, k)
                        == nonempty(routers_named(fs0, k) + file_routers_named(f.routers@.take(j + 1), f.uri, k)) by {
                        assert(before(k) + (if k == r.name@ { seq![item] } else { Seq::empty() })
                            =~= routers_named(fs0, k) + file_routers_named(f.routers@.take(j + 1), f.uri, k));
                    }
                }
                j += 1;
            }
            assert(f.routers@.take(f.routers@.len() as int) =~= f.routers@);
            // Include calls.
            let mut j: usize = 0;
            while j < f.includes.len()
                invariant
                    j <= f.includes@.len(),
                    f == &files@[i as int],
                    forall|k: Seq<char>| #[trigger] entries_of(includes_by_target@, k)
                        == nonempty(includes_keyed(fs0, k) + file_includes_keyed(f.includes@.take(j as int), f.uri, f.import_alias_originals@, k)),
                decreases f.includes@.len() - j,
            {
                let inc = &f.includes[j];
                let ghost base = |k: Seq<char>| includes_keyed(fs0, k) + file_includes_keyed(f.includes@.take(j as int), f.uri, f.import_alias_originals@, k);
                let ghost item = (*inc, f.uri);
                let ghost t = inc.target@;
                // Under the target.
                let ghost m0 = includes_by_target@;
                push_keyed(&mut includes_by_target, inc.target.as_str(), (inc.duplicate(), f.uri.clone()));
                let ghost s1 = |k: Seq<char>| base(k) + (if k == t { seq![item] } else { Seq::empty() });
                proof {
                    lemma_push_step(m0, includes_by_target@, t, item, base);
                }
                // Under the last dotted part.
                let suffix = bare_name(inc.target.as_str());
                let ghost m1 = includes_by_target@;
                let ghost s2 = if after_last_dot(t) != t {
                    |k: Seq<char>| s1(k) + (if k == after_last_dot(t) { seq![item] } else { Seq::empty() })
                } else {
                    s1
                };
                if suffix != inc.target {
                    push_keyed(&mut includes_by_target, suffix.as_str(), (inc.duplicate(), f.uri.clone()));
                    proof {
                        lemma_push_step(m1, includes_by_target@, after_last_dot(t), item, s1);
                    }
                }
                // Under the original name of an import alias.
                let ghost m2 = includes_by_target@;
                match find_alias(f.import_alias_originals.as_slice(), &inc.target) {
                    Some(orig) => {
                        push_keyed(&mut includes_by_target, orig.as_str(), (inc.duplicate(), f.uri.clone()));
                        proof {
                            lemma_push_step(m2, includes_by_target@, orig@, item, s2);
                        }
                    },
                    None => {},
                }
                proof {
                    assert(f.includes@.take(j + 1).drop_last() =~= f.includes@.take(j as int));
                    assert(f.includes@.take(j + 1).last() == *inc);
                    assert forall|k: Seq<char>| #[trigger] entries_of(includes_by_target@, k)
                        == nonempty(includes_keyed(fs0, k) + file_includes_keyed(f.includes@.take(j + 1), f.uri, f.import_alias_originals@, k)) by {
                        let full = includes_keyed(fs0, k) + file_includes_keyed(f.includes@.take(j + 1), f.uri, f.import_alias_originals@, k);
                        assert(full =~= base(k) + inc_items(*inc, f.uri, f.import_alias_originals@, k));
                        match alias_original(f.import_alias_originals@, t) {
                            Some(o) => {
                                assert(entries_of(includes_by_target@, k) == nonempty(s2(k) + (if k == o { seq![item] } else { Seq::empty() })));
                            },
                            None => {
                                assert(entries_of(includes_by_target@, k) == nonempty(s2(k)));
                            },
                        }
                        assert(entries_of(includes_by_target@, k) == nonempty(full));
                    }
                }
                j += 1;
            }
            assert(f.includes@.take(f.includes@.len() as int) =~= f.includes@);
            // Middleware.
            let mut j: usize = 0;
            while j < f.middlewares.len()
                invariant
                    j <= f.middlewares@.len(),
                    f == &files@[i as int],
                    forall|k: Seq<char>| #[trigger] entries_of(middlewares_by_obj@, k)
                        == nonempty(mws_of(fs0, k) + file_mws_of(f.middlewares@.take(j as int), k)),
                decreases f.middlewares@.len() - j,
            {
                let mw = &f.middlewares[j];
                let ghost before = |k: Seq<char>| mws_of(fs0, k) + file_mws_of(f.middlewares@.take(j as int), k);
                proof {
                    assert(f.middlewares@.take(j + 1).drop_last() =~= f.middlewares@.take(j as int));
                    assert(f.middlewares@.take(j + 1).last() == *mw);
                }
                if !mw.0.as_str().is_empty() {
                    let ghost m0 = middlewares_by_obj@;
                    let name = mw.1.clone();
                    push_keyed(&mut middlewares_by_obj, mw.0.as_str(), name);
                    proof {
                        lemma_push_step(m0, middlewares_by_obj@, mw.0@, name, before);
                        assert forall|k: Seq<char>| #[trigger] entries_of(middlewares_by_obj@, k)
                            == nonempty(mws_of(fs0, k) + file_mws_of(f.middlewares@.take(j + 1), k)) by {
                            assert(before(k) + (if k == mw.0@ { seq![name] } else { Seq::empty() })
                                =~= mws_of(fs0, k) + file_mws_of(f.middlewares@.take(j + 1), k));
                        }
                    }
                } else {
                    proof {
                        assert forall|k: Seq<char>| #[trigger] entries_of(middlewares_by_obj@, k)
                            == nonempty(mws_of(fs0, k) + file_mws_of(f.middlewares@.take(j + 1), k)) by {
                            assert(before(k) =~= mws_of(fs0, k) + file_mws_of(f.middlewares@.take(j + 1), k));
                        }
                    }
                }
                j += 1;
            }
            assert(f.middlewares@.take(f.middlewares@.len() as int) =~= f.middlewares@);
            proof {
                assert forall|k: Seq<char>| #[trigger] entries_of(routers@, k) == nonempty(routers_named(files@.take(i + 1), k)) by {}
                assert forall|k: Seq<char>| #[trigger] entries_of(includes_by_target@, k) == nonempty(includes_keyed(files@.take(i + 1), k)) by {}
                assert forall|k: Seq<char>| #[trigger] entries_of(middlewares_by_obj@, k) == nonempty(mws_of(files@.take(i + 1), k)) by {}
            }
            i += 1;
        }
        assert(files@.take(files@.len() as int) =~= files@);
        LinkContext { routers, apps, includes_by_target, middlewares_by_obj }
    }
}

} // verus!
