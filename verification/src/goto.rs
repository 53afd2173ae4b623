//! Go-to-definition and find-references.
use vstd::prelude::*;
use crate::position::{Range, Position, Location, in_range, position_in_range};
use crate::routing::{Method, RouteId, RouteRecord, RouteIndex, index_get, index_lookup};
use crate::analysis::{UrlForSite, EnvLookup, TemplateRef, names_get, names_lookup, index_records, all_refs};
use crate::checks::{RouterDecl, first_match, lemma_first_match_step, lemma_first_match_none, derefs};
use crate::deps::{DepDef, DepRef, DepGraph, loc_views};
use crate::hovers::{HoverInclude, EnvEntry, handler_at, sites_of};
use crate::navigation::{template_target};
use crate::text::{str_chars, ends_with, is_suffix};

verus! {

broadcast use vstd::string::group_string_axioms;

/// A test-client call: the whole call, and its static path text.
#[derive(Clone, Debug)]
pub struct ClientCall {
    pub method: Method,
    pub range: Range,
    pub path_range: Range,
}

/// What navigation reads from one file.
#[derive(Clone, Debug)]
pub struct NavFile {
    pub uri: String,
    pub url_for_sites: Vec<UrlForSite>,
    pub includes: Vec<HoverInclude>,
    pub dep_refs: Vec<DepRef>,
    pub env_lookups: Vec<EnvLookup>,
    pub client_calls: Vec<ClientCall>,
    pub templates: Vec<TemplateRef>,
    pub routers: Vec<RouterDecl>,
    /// The application objects, with where they are declared.
    pub apps: Vec<RouterDecl>,
    pub dep_defs: Vec<DepDef>,
}

/// What navigation reads from the whole workspace.
#[derive(Debug)]
pub struct NavWorkspace {
    pub files: Vec<NavFile>,
    pub route_index: RouteIndex,
    /// The routes under each route name.
    pub route_names: Vec<(String, Vec<RouteId>)>,
    /// The env variables defined in env files.
    pub env_index: Vec<(String, EnvEntry)>,
    /// The routes matched at each test-client call (file and call range).
    pub call_site_index: Vec<((String, Range), Vec<RouteId>)>,
    /// Template names and the files that hold them.
    pub template_index: Vec<(String, String)>,
    /// The test-client calls that reach each route.
    pub test_refs: Vec<(RouteId, Vec<Location>)>,
    pub dep_graph: DepGraph,
}

/// What the cursor stands on.
#[derive(Clone, Debug)]
pub enum Edge {
    UrlForName(String),
    IncludeTarget(String),
    DependsName(String),
    EnvKey(String),
    /// A test-client call's path (the file and range of the whole call).
    ClientPath(String, Range),
    TemplateName(String),
}

/// The file with URI `uri`.
pub open spec fn file_is(f: NavFile, uri: Seq<char>) -> bool {
    f.uri@ == uri
}

/// Site predicates: the cursor is in the range.
pub open spec fn url_at(s: UrlForSite, pos: Position) -> bool {
    in_range(pos, s.range.start, s.range.end)
}

pub open spec fn include_at(s: HoverInclude, pos: Position) -> bool {
    in_range(pos, s.range.start, s.range.end)
}

pub open spec fn ref_at(s: DepRef, pos: Position) -> bool {
    in_range(pos, s.range.start, s.range.end)
}

pub open spec fn env_at(s: EnvLookup, pos: Position) -> bool {
    in_range(pos, s.key_range.start, s.key_range.end)
}

pub open spec fn call_at(s: ClientCall, pos: Position) -> bool {
    in_range(pos, s.path_range.start, s.path_range.end)
}

pub open spec fn template_at(s: TemplateRef, pos: Position) -> bool {
    in_range(pos, s.range.start, s.range.end)
}

/// What the cursor stands on in file `f`, tried in this order: a `url_for` name, an
/// `include_router` target, a `Depends` reference, an env lookup, a test-client path (its
/// static text only), a template name.
pub open spec fn edge_spec(f: NavFile, pos: Position) -> Option<Edge> {
    match first_match(f.url_for_sites@, |s: UrlForSite| url_at(s, pos)) {
        Some(k) => Some(Edge::UrlForName(f.url_for_sites@[k].name)),
        None => match first_match(f.includes@, |s: HoverInclude| include_at(s, pos)) {
            Some(k) => Some(Edge::IncludeTarget(f.includes@[k].target)),
            None => match first_match(f.dep_refs@, |s: DepRef| ref_at(s, pos)) {
                Some(k) => Some(Edge::DependsName(f.dep_refs@[k].name)),
                None => match first_match(f.env_lookups@, |s: EnvLookup| env_at(s, pos)) {
                    Some(k) => Some(Edge::EnvKey(f.env_lookups@[k].key)),
                    None => match first_match(f.client_calls@, |s: ClientCall| call_at(s, pos)) {
                        Some(k) => Some(Edge::ClientPath(f.uri, f.client_calls@[k].range)),
                        None => match first_match(f.templates@, |s: TemplateRef| template_at(s, pos)) {
                            Some(k) => Some(Edge::TemplateName(f.templates@[k].path)),
                            None => None,
                        },
                    },
                },
            },
        },
    }
}

/// What the cursor stands on (see `edge_spec`).
pub fn edge_at(f: &NavFile, pos: Position) -> (r: Option<Edge>)
    ensures
        r == edge_spec(*f, pos),
{
    let ghost p1 = |s: UrlForSite| url_at(s, pos);
    let mut i: usize = 0;
    while i < f.url_for_sites.len()
        invariant
            i <= f.url_for_sites@.len(),
            p1 == (|s: UrlForSite| url_at(s, pos)),
            forall|j: int| 0 <= j < i ==> !p1(#[trigger] f.url_for_sites@[j]),
        decreases f.url_for_sites@.len() - i,
    {
        proof {
            lemma_first_match_step(f.url_for_sites@, p1, i as int);
        }
        let s = &f.url_for_sites[i];
        if position_in_range(pos, s.range.start, s.range.end) {
            return Some(Edge::UrlForName(s.name.clone()));
        }
        i += 1;
    }
    proof {
        lemma_first_match_none(f.url_for_sites@, p1);
    }
    let ghost p2 = |s: HoverInclude| include_at(s, pos);
    let mut i: usize = 0;
    while i < f.includes.len()
        invariant
            i <= f.includes@.len(),
            p2 == (|s: HoverInclude| include_at(s, pos)),
            first_match(f.url_for_sites@, |s: UrlForSite| url_at(s, pos)) is None,
            forall|j: int| 0 <= j < i ==> !p2(#[trigger] f.includes@[j]),
        decreases f.includes@.len() - i,
    {
        proof {
            lemma_first_match_step(f.includes@, p2, i as int);
        }
        let s = &f.includes[i];
        if position_in_range(pos, s.range.start, s.range.end) {
            return Some(Edge::IncludeTarget(s.target.clone()));
        }
        i += 1;
    }
    proof {
        lemma_first_match_none(f.includes@, p2);
    }
    let ghost p3 = |s: DepRef| ref_at(s, pos);
    let mut i: usize = 0;
    while i < f.dep_refs.len()
        invariant
            i <= f.dep_refs@.len(),
            p3 == (|s: DepRef| ref_at(s, pos)),
            first_match(f.url_for_sites@, |s: UrlForSite| url_at(s, pos)) is None,
            first_match(f.includes@, |s: HoverInclude| include_at(s, pos)) is None,
            forall|j: int| 0 <= j < i ==> !p3(#[trigger] f.dep_refs@[j]),
        decreases f.dep_refs@.len() - i,
    {
        proof {
            lemma_first_match_step(f.dep_refs@, p3, i as int);
        }
        let s = &f.dep_refs[i];
        if position_in_range(pos, s.range.start, s.range.end) {
            return Some(Edge::DependsName(s.name.clone()));
        }
        i += 1;
    }
    proof {
        lemma_first_match_none(f.dep_refs@, p3);
    }
    let ghost p4 = |s: EnvLookup| env_at(s, pos);
    let mut i: usize = 0;
    while i < f.env_lookups.len()
        invariant
            i <= f.env_lookups@.len(),
            p4 == (|s: EnvLookup| env_at(s, pos)),
            first_match(f.url_for_sites@, |s: UrlForSite| url_at(s, pos)) is None,
            first_match(f.includes@, |s: HoverInclude| include_at(s, pos)) is None,
            first_match(f.dep_refs@, |s: DepRef| ref_at(s, pos)) is None,
            forall|j: int| 0 <= j < i ==> !p4(#[trigger] f.env_lookups@[j]),
        decreases f.env_lookups@.len() - i,
    {
        proof {
            lemma_first_match_step(f.env_lookups@, p4, i as int);
        }
        let s = &f.env_lookups[i];
        if position_in_range(pos, s.key_range.start, s.key_range.end) {
            return Some(Edge::EnvKey(s.key.clone()));
        }
        i += 1;
    }
    proof {
        lemma_first_match_none(f.env_lookups@, p4);
    }
    let ghost p5 = |s: ClientCall| call_at(s, pos);
    let mut i: usize = 0;
    while i < f.client_calls.len()
        invariant
            i <= f.client_calls@.len(),
            p5 == (|s: ClientCall| call_at(s, pos)),
            first_match(f.url_for_sites@, |s: UrlForSite| url_at(s, pos)) is None,
            first_match(f.includes@, |s: HoverInclude| include_at(s, pos)) is None,
            first_match(f.dep_refs@, |s: DepRef| ref_at(s, pos)) is None,
            first_match(f.env_lookups@, |s: EnvLookup| env_at(s, pos)) is None,
            forall|j: int| 0 <= j < i ==> !p5(#[trigger] f.client_calls@[j]),
        decreases f.client_calls@.len() - i,
    {
        proof {
            lemma_first_match_step(f.client_calls@, p5, i as int);
        }
        let s = &f.client_calls[i];
        if position_in_range(pos, s.path_range.start, s.path_range.end) {
            return Some(Edge::ClientPath(f.uri.clone(), s.range));
        }
        i += 1;
    }
    proof {
        lemma_first_match_none(f.client_calls@, p5);
    }
    let ghost p6 = |s: TemplateRef| template_at(s, pos);
    let mut i: usize = 0;
    while i < f.templates.len()
        invariant
            i <= f.templates@.len(),
            p6 == (|s: TemplateRef| template_at(s, pos)),
            first_match(f.url_for_sites@, |s: UrlForSite| url_at(s, pos)) is None,
            first_match(f.includes@, |s: HoverInclude| include_at(s, pos)) is None,
            first_match(f.dep_refs@, |s: DepRef| ref_at(s, pos)) is None,
            first_match(f.env_lookups@, |s: EnvLookup| env_at(s, pos)) is None,
            first_match(f.client_calls@, |s: ClientCall| call_at(s, pos)) is None,
            forall|j: int| 0 <= j < i ==> !p6(#[trigger] f.templates@[j]),
        decreases f.templates@.len() - i,
    {
        proof {
            lemma_first_match_step(f.templates@, p6, i as int);
        }
        let s = &f.templates[i];
        if position_in_range(pos, s.range.start, s.range.end) {
            return Some(Edge::TemplateName(s.path.clone()));
        }
        i += 1;
    }
    proof {
        lemma_first_match_none(f.templates@, p6);
    }
    None
}


/// A location as a client sees it.
pub open spec fn lv(l: Location) -> (Seq<char>, Range) {
    (l.uri@, l.range)
}

/// The handlers of the given routes: the first record of each known one.
pub open spec fn first_handlers(ids: Seq<RouteId>, ix: Seq<(RouteId, Vec<RouteRecord>)>) -> Seq<(Seq<char>, Range)>
    decreases ids.len(),
{
    if ids.len() == 0 {
        Seq::empty()
    } else {
        first_handlers(ids.drop_last(), ix) + match index_get(ix, ids.last()@) {
            Some(recs) => if recs.len() > 0 {
                seq![(recs[0].handler.uri@, recs[0].handler.range)]
            } else {
                Seq::empty()
            },
            None => Seq::empty(),
        }
    }
}

/// Router `r` is the include target `t`: by name, or as the last part of a dotted `t`.
pub open spec fn router_named(r: RouterDecl, t: Seq<char>) -> bool {
    r.name@ == t || is_suffix("."@ + r.name@, t)
}

/// App `a` is named `t`.
pub open spec fn app_named(a: RouterDecl, t: Seq<char>) -> bool {
    a.name@ == t
}

/// Where include target `t` is declared: in the first file that declares it, its first
/// matching router, else its first app of that name.
pub open spec fn include_decl(files: Seq<NavFile>, t: Seq<char>) -> Seq<(Seq<char>, Range)>
    decreases files.len(),
{
    if files.len() == 0 {
        Seq::empty()
    } else {
        let f = files[0];
        match first_match(f.routers@, |r: RouterDecl| router_named(r, t)) {
            Some(k) => seq![(f.uri@, f.routers@[k].range)],
            None => match first_match(f.apps@, |a: RouterDecl| app_named(a, t)) {
                Some(k) => seq![(f.uri@, f.apps@[k].range)],
                None => include_decl(files.drop_first(), t),
            },
        }
    }
}

/// A definition of dependency `n`.
pub open spec fn def_named(d: DepDef, n: Seq<char>) -> bool {
    d.name@ == n
}

/// Where dependency `n` is defined: the first definition of the first file that has one.
pub open spec fn dep_decl(files: Seq<NavFile>, n: Seq<char>) -> Seq<(Seq<char>, Range)>
    decreases files.len(),
{
    if files.len() == 0 {
        Seq::empty()
    } else {
        match first_match(files[0].dep_defs@, |d: DepDef| def_named(d, n)) {
            Some(k) => seq![(files[0].uri@, files[0].dep_defs@[k].node_id.range)],
            None => dep_decl(files.drop_first(), n),
        }
    }
}

/// The entry of env variable `k`: its first one.
pub open spec fn env_get(ix: Seq<(String, EnvEntry)>, k: Seq<char>) -> Option<EnvEntry>
    decreases ix.len(),
{
    if ix.len() == 0 {
        None
    } else if ix[0].0@ == k {
        Some(ix[0].1)
    } else {
        env_get(ix.drop_first(), k)
    }
}

/// The routes matched at a test-client call: its first entry.
pub open spec fn calls_get(ix: Seq<((String, Range), Vec<RouteId>)>, uri: Seq<char>, r: Range) -> Option<Seq<RouteId>>
    decreases ix.len(),
{
    if ix.len() == 0 {
        None
    } else if ix[0].0.0@ == uri && ix[0].0.1 == r {
        Some(ix[0].1@)
    } else {
        calls_get(ix.drop_first(), uri, r)
    }
}

/// The handlers of every record of the given routes, in order.
pub open spec fn all_handlers(ids: Seq<RouteId>, ix: Seq<(RouteId, Vec<RouteRecord>)>) -> Seq<(Seq<char>, Range)>
    decreases ids.len(),
{
    if ids.len() == 0 {
        Seq::empty()
    } else {
        all_handlers(ids.drop_last(), ix) + match index_get(ix, ids.last()@) {
            Some(recs) => recs.map_values(|r: RouteRecord| (r.handler.uri@, r.handler.range)),
            None => Seq::empty(),
        }
    }
}

/// `s` without repeats, first occurrences kept.
pub open spec fn distinct<A>(s: Seq<A>) -> Seq<A>
    decreases s.len(),
{
    if s.len() == 0 {
        s
    } else {
        let p = distinct(s.drop_last());
        if p.contains(s.last()) {
            p
        } else {
            p.push(s.last())
        }
    }
}

/// The top of a file.
pub open spec fn top() -> Range {
    Range { start: Position { line: 0, character: 0 }, end: Position { line: 0, character: 0 } }
}

/// Where an edge leads: the handlers of the routes with a `url_for` name; the declaration
/// of an included router or app; the definition of a dependency; the env files that define
/// a variable; the handlers matched at a test-client call, each once; the top of a template.
pub open spec fn resolve_spec(ws: NavWorkspace, e: Edge) -> Seq<(Seq<char>, Range)> {
    match e {
        Edge::UrlForName(n) => match names_get(ws.route_names@, n@) {
            Some(ids) => first_handlers(ids, ws.route_index@),
            None => Seq::empty(),
        },
        Edge::IncludeTarget(t) => include_decl(ws.files@, t@),
        Edge::DependsName(n) => dep_decl(ws.files@, n@),
        Edge::EnvKey(k) => match env_get(ws.env_index@, k@) {
            Some(e) => e.locations@.map_values(|l: Location| lv(l)),
            None => Seq::empty(),
        },
        Edge::ClientPath(u, r) => match calls_get(ws.call_site_index@, u@, r) {
            Some(ids) => distinct(all_handlers(ids, ws.route_index@)),
            None => Seq::empty(),
        },
        Edge::TemplateName(p) => match template_target(ws.template_index@, p@) {
            Some(t) => seq![(t, top())],
            None => Seq::empty(),
        },
    }
}

fn push_loc(out: &mut Vec<Location>, uri: &String, range: Range)
    ensures
        final(out)@.map_values(|l: Location| lv(l)) == old(out)@.map_values(|l: Location| lv(l)).push((uri@, range)),
{
    out.push(Location { uri: uri.clone(), range });
    assert(out@.map_values(|l: Location| lv(l)) =~= old(out)@.map_values(|l: Location| lv(l)).push((uri@, range)));
}

fn resolve_url_for(ws: &NavWorkspace, name: &String) -> (r: Vec<Location>)
    ensures
        r@.map_values(|l: Location| lv(l)) == match names_get(ws.route_names@, name@) {
            Some(ids) => first_handlers(ids, ws.route_index@),
            None => Seq::empty(),
        },
{
    let mut out: Vec<Location> = Vec::new();
    match names_lookup(ws.route_names.as_slice(), name) {
        Some(ids) => {
            let mut i: usize = 0;
            while i < ids.len()
                invariant
                    i <= ids@.len(),
                    out@.map_values(|l: Location| lv(l)) == first_handlers(ids@.take(i as int), ws.route_index@),
                decreases ids@.len() - i,
            {
                assert(ids@.take(i + 1).drop_last() =~= ids@.take(i as int));
                assert(ids@.take(i + 1).last() == ids@[i as int]);
                match index_lookup(&ws.route_index, &ids[i]) {
                    Some(recs) => {
                        if recs.len() > 0 {
                            push_loc(&mut out, &recs[0].handler.uri, recs[0].handler.range);
                        }
                    },
                    None => {},
                }
                i += 1;
            }
            assert(ids@.take(ids@.len() as int) =~= ids@);
        },
        None => {},
    }
    out
}

fn is_router_named(r: &RouterDecl, t: &String) -> (b: bool)
    ensures
        b == router_named(*r, t@),
{
    if r.name == *t {
        return true;
    }
    let mut suffix = str_chars(".");
    let n = str_chars(r.name.as_str());
    crate::text::push_all(&mut suffix, n.as_slice());
    proof {
        reveal_strlit(".");
    }
    assert(suffix@ =~= "."@ + r.name@);
    let tc = str_chars(t.as_str());
    ends_with(tc.as_slice(), suffix.as_slice())
}

fn resolve_include(files: &[NavFile], t: &String) -> (r: Vec<Location>)
    ensures
        r@.map_values(|l: Location| lv(l)) == include_decl(files@, t@),
{
    let mut out: Vec<Location> = Vec::new();
    let mut i: usize = 0;
    assert(files@.skip(0) =~= files@);
    while i < files.len()
        invariant
            i <= files@.len(),
            out@.len() == 0,
            include_decl(files@, t@) == include_decl(files@.skip(i as int), t@),
        decreases files@.len() - i,
    {
        let f = &files[i];
        assert(files@.skip(i as int)[0] == *f);
        assert(files@.skip(i as int).drop_first() =~= files@.skip(i + 1));
        let ghost pr = |r: RouterDecl| router_named(r, t@);
        let mut k: usize = 0;
        while k < f.routers.len()
            invariant
                k <= f.routers@.len(),
                pr == (|r: RouterDecl| router_named(r, t@)),
                forall|j: int| 0 <= j < k ==> !pr(#[trigger] f.routers@[j]),
                out@.len() == 0,
                i < files@.len(),
                *f == files@.skip(i as int)[0],
                include_decl(files@, t@) == include_decl(files@.skip(i as int), t@),
            decreases f.routers@.len() - k,
        {
            proof {
                lemma_first_match_step(f.routers@, pr, k as int);
            }
            if is_router_named(&f.routers[k], t) {
                push_loc(&mut out, &f.uri, f.routers[k].range);
                return out;
            }
            k += 1;
        }
        proof {
            lemma_first_match_none(f.routers@, pr);
        }
        let ghost pa = |a: RouterDecl| app_named(a, t@);
        let mut k: usize = 0;
        while k < f.apps.len()
            invariant
                k <= f.apps@.len(),
                pa == (|a: RouterDecl| app_named(a, t@)),
                forall|j: int| 0 <= j < k ==> !pa(#[trigger] f.apps@[j]),
                out@.len() == 0,
                i < files@.len(),
                *f == files@.skip(i as int)[0],
                first_match(f.routers@, |r: RouterDecl| router_named(r, t@)) is None,
                include_decl(files@, t@) == include_decl(files@.skip(i as int), t@),
            decreases f.apps@.len() - k,
        {
            proof {
                lemma_first_match_step(f.apps@, pa, k as int);
            }
            if f.apps[k].name == *t {
                push_loc(&mut out, &f.uri, f.apps[k].range);
                return out;
            }
            k += 1;
        }
        proof {
            lemma_first_match_none(f.apps@, pa);
        }
        i += 1;
    }
    assert(files@.skip(files@.len() as int).len() == 0);
    assert(out@.map_values(|l: Location| lv(l)) =~= Seq::empty());
    out
}

fn resolve_dep(files: &[NavFile], n: &String) -> (r: Vec<Location>)
    ensures
        r@.map_values(|l: Location| lv(l)) == dep_decl(files@, n@),
{
    let mut out: Vec<Location> = Vec::new();
    let mut i: usize = 0;
    assert(files@.skip(0) =~= files@);
    while i < files.len()
        invariant
            i <= files@.len(),
            out@.len() == 0,
            dep_decl(files@, n@) == dep_decl(files@.skip(i as int), n@),
        decreases files@.len() - i,
    {
        let f = &files[i];
        assert(files@.skip(i as int)[0] == *f);
        assert(files@.skip(i as int).drop_first() =~= files@.skip(i + 1));
        let ghost pd = |d: DepDef| def_named(d, n@);
        let mut k: usize = 0;
        while k < f.dep_defs.len()
            invariant
                k <= f.dep_defs@.len(),
                pd == (|d: DepDef| def_named(d, n@)),
                forall|j: int| 0 <= j < k ==> !pd(#[trigger] f.dep_defs@[j]),
                out@.len() == 0,
                i < files@.len(),
                *f == files@.skip(i as int)[0],
                dep_decl(files@, n@) == dep_decl(files@.skip(i as int), n@),
            decreases f.dep_defs@.len() - k,
        {
            proof {
                lemma_first_match_step(f.dep_defs@, pd, k as int);
            }
            if f.dep_defs[k].name == *n {
                push_loc(&mut out, &f.uri, f.dep_defs[k].node_id.range);
                return out;
            }
            k += 1;
        }
        proof {
            lemma_first_match_none(f.dep_defs@, pd);
        }
        i += 1;
    }
    assert(files@.skip(files@.len() as int).len() == 0);
    assert(out@.map_values(|l: Location| lv(l)) =~= Seq::empty());
    out
}

fn copy_locs(v: &Vec<Location>) -> (r: Vec<Location>)
    ensures
        r@.map_values(|l: Location| lv(l)) == v@.map_values(|l: Location| lv(l)),
{
    let mut out: Vec<Location> = Vec::new();
    let mut i: usize = 0;
    while i < v.len()
        invariant
            i <= v@.len(),
            out@.map_values(|l: Location| lv(l)) == v@.take(i as int).map_values(|l: Location| lv(l)),
        decreases v@.len() - i,
    {
        push_loc(&mut out, &v[i].uri, v[i].range);
        assert(v@.take(i + 1) =~= v@.take(i as int).push(v@[i as int]));
        assert(v@.take(i + 1).map_values(|l: Location| lv(l)) =~= v@.take(i as int).map_values(|l: Location| lv(l)).push(lv(v@[i as int])));
        i += 1;
    }
    assert(v@.take(v@.len() as int) =~= v@);
    out
}

fn resolve_env(ix: &[(String, EnvEntry)], k: &String) -> (r: Vec<Location>)
    ensures
        r@.map_values(|l: Location| lv(l)) == match env_get(ix@, k@) {
            Some(e) => e.locations@.map_values(|l: Location| lv(l)),
            None => Seq::empty(),
        },
{
    let mut i: usize = 0;
    assert(ix@.skip(0) =~= ix@);
    while i < ix.len()
        invariant
            i <= ix@.len(),
            env_get(ix@, k@) == env_get(ix@.skip(i as int), k@),
        decreases ix@.len() - i,
    {
        assert(ix@.skip(i as int).drop_first() =~= ix@.skip(i + 1));
        if ix[i].0 == *k {
            return copy_locs(&ix[i].1.locations);
        }
        i += 1;
    }
    Vec::new()
}

fn calls_lookup<'a>(ix: &'a [((String, Range), Vec<RouteId>)], uri: &String, r: Range) -> (res: Option<&'a Vec<RouteId>>)
    ensures
        match res {
            Some(v) => calls_get(ix@, uri@, r) == Some(v@),
            None => calls_get(ix@, uri@, r) is None,
        },
{
    let mut i: usize = 0;
    assert(ix@.skip(0) =~= ix@);
    while i < ix.len()
        invariant
            i <= ix@.len(),
            calls_get(ix@, uri@, r) == calls_get(ix@.skip(i as int), uri@, r),
        decreases ix@.len() - i,
    {
        assert(ix@.skip(i as int).drop_first() =~= ix@.skip(i + 1));
        if ix[i].0.0 == *uri && ix[i].0.1 == r {
            return Some(&ix[i].1);
        }
        i += 1;
    }
    None
}

fn resolve_call(ws: &NavWorkspace, uri: &String, r: Range) -> (res: Vec<Location>)
    ensures
        res@.map_values(|l: Location| lv(l)) == match calls_get(ws.call_site_index@, uri@, r) {
            Some(ids) => distinct(all_handlers(ids, ws.route_index@)),
            None => Seq::empty(),
        },
{
    let mut out: Vec<Location> = Vec::new();
    match calls_lookup(ws.call_site_index.as_slice(), uri, r) {
        Some(ids) => {
            let mut i: usize = 0;
            while i < ids.len()
                invariant
                    i <= ids@.len(),
                    out@.map_values(|l: Location| lv(l)) == distinct(all_handlers(ids@.take(i as int), ws.route_index@)),
                decreases ids@.len() - i,
            {
                assert(ids@.take(i + 1).drop_last() =~= ids@.take(i as int));
                assert(ids@.take(i + 1).last() == ids@[i as int]);
                let ghost base = all_handlers(ids@.take(i as int), ws.route_index@);
                match index_lookup(&ws.route_index, &ids[i]) {
                    Some(recs) => {
                        let ghost hs = recs@.map_values(|x: RouteRecord| (x.handler.uri@, x.handler.range));
                        let mut k: usize = 0;
                        while k < recs.len()
                            invariant
                                k <= recs@.len(),
                                hs == recs@.map_values(|x: RouteRecord| (x.handler.uri@, x.handler.range)),
                                out@.map_values(|l: Location| lv(l)) == distinct(base + hs.take(k as int)),
                            decreases recs@.len() - k,
                        {
                            let rec = &recs[k];
                            let ghost prev = base + hs.take(k as int);
                            assert((base + hs.take(k + 1)).drop_last() =~= prev);
                            assert((base + hs.take(k + 1)).last() == (rec.handler.uri@, rec.handler.range));
                            let ghost ov = out@.map_values(|l: Location| lv(l));
                            let mut seen = false;
                            let mut j: usize = 0;
                            while j < out.len()
                                invariant
                                    j <= out@.len(),
                                    ov == out@.map_values(|l: Location| lv(l)),
                                    seen == exists|m: int| 0 <= m < j && ov[m] == (rec.handler.uri@, rec.handler.range),
                                decreases out@.len() - j,
                            {
                                assert(ov[j as int] == lv(out@[j as int]));
                                if out[j].uri == rec.handler.uri && out[j].range == rec.handler.range {
                                    seen = true;
                                }
                                j += 1;
                            }
                            if !seen {
                                push_loc(&mut out, &rec.handler.uri, rec.handler.range);
                            }
                            k += 1;
                        }
                        assert(hs.take(recs@.len() as int) =~= hs);
                    },
                    None => {
                        assert(base + Seq::<(Seq<char>, Range)>::empty() =~= base);
                    },
                }
                i += 1;
            }
            assert(ids@.take(ids@.len() as int) =~= ids@);
        },
        None => {},
    }
    out
}

/// Where an edge leads (see `resolve_spec`).
pub fn resolve_edge(ws: &NavWorkspace, e: &Edge) -> (r: Vec<Location>)
    ensures
        r@.map_values(|l: Location| lv(l)) == resolve_spec(*ws, *e),
{
    match e {
        Edge::UrlForName(n) => resolve_url_for(ws, n),
        Edge::IncludeTarget(t) => resolve_include(ws.files.as_slice(), t),
        Edge::DependsName(n) => resolve_dep(ws.files.as_slice(), n),
        Edge::EnvKey(k) => resolve_env(ws.env_index.as_slice(), k),
        Edge::ClientPath(u, r) => resolve_call(ws, u, *r),
        Edge::TemplateName(p) => {
            let mut out: Vec<Location> = Vec::new();
            match crate::navigation::find_template_in(ws.template_index.as_slice(), p) {
                Some(t) => {
                    let z = Position { line: 0, character: 0 };
                    push_loc(&mut out, t, Range { start: z, end: z });
                },
                None => {},
            }
            out
        },
    }
}


fn find_file<'a>(files: &'a [NavFile], uri: &str) -> (r: Option<&'a NavFile>)
    ensures
        match r {
            Some(f) => first_match(files@, |x: NavFile| file_is(x, uri@)) matches Some(k) && files@[k] == *f,
            None => first_match(files@, |x: NavFile| file_is(x, uri@)) is None,
        },
{
    let u: String = uri.to_owned();
    let ghost p = |x: NavFile| file_is(x, uri@);
    let mut i: usize = 0;
    while i < files.len()
        invariant
            i <= files@.len(),
            u@ == uri@,
            p == (|x: NavFile| file_is(x, uri@)),
            forall|j: int| 0 <= j < i ==> !p(#[trigger] files@[j]),
        decreases files@.len() - i,
    {
        proof {
            lemma_first_match_step(files@, p, i as int);
        }
        if files[i].uri == u {
            return Some(&files[i]);
        }
        i += 1;
    }
    proof {
        lemma_first_match_none(files@, p);
    }
    None
}

/// Go-to-definition at `pos` in file `uri`: where the edge under the cursor leads (see
/// `edge_spec`, `resolve_spec`); none when the file is unknown, nothing is under the
/// cursor, or the edge leads nowhere.
pub open spec fn goto_spec(ws: NavWorkspace, uri: Seq<char>, pos: Position) -> Option<Seq<(Seq<char>, Range)>> {
    match first_match(ws.files@, |x: NavFile| file_is(x, uri)) {
        Some(k) => match edge_spec(ws.files@[k], pos) {
            Some(e) => if resolve_spec(ws, e).len() > 0 {
                Some(resolve_spec(ws, e))
            } else {
                None
            },
            None => None,
        },
        None => None,
    }
}

/// Go-to-definition (see `goto_spec`).
pub fn goto(ws: &NavWorkspace, uri: &str, pos: Position) -> (r: Option<Vec<Location>>)
    ensures
        match r {
            Some(v) => goto_spec(*ws, uri@, pos) == Some(v@.map_values(|l: Location| lv(l))),
            None => goto_spec(*ws, uri@, pos) is None,
        },
{
    let f = match find_file(ws.files.as_slice(), uri) {
        Some(f) => f,
        None => return None,
    };
    let e = match edge_at(f, pos) {
        Some(e) => e,
        None => return None,
    };
    let locs = resolve_edge(ws, &e);
    if locs.len() == 0 {
        None
    } else {
        Some(locs)
    }
}

/// The `url_for` calls naming route `name`, file by file.
pub open spec fn url_refs(files: Seq<NavFile>, name: Seq<char>) -> Seq<(Seq<char>, Range)>
    decreases files.len(),
{
    if files.len() == 0 {
        Seq::empty()
    } else {
        url_refs(files.drop_last(), name) + site_refs(files.last().url_for_sites@, files.last().uri@, name)
    }
}

/// The sites of one file naming `name`.
pub open spec fn site_refs(sites: Seq<UrlForSite>, uri: Seq<char>, name: Seq<char>) -> Seq<(Seq<char>, Range)>
    decreases sites.len(),
{
    if sites.len() == 0 {
        Seq::empty()
    } else {
        site_refs(sites.drop_last(), uri, name) + if sites.last().name@ == name {
            seq![(uri, sites.last().range)]
        } else {
            Seq::empty()
        }
    }
}

/// The `Depends(name)` references, file by file.
pub open spec fn dep_refs_of(files: Seq<NavFile>, name: Seq<char>) -> Seq<(Seq<char>, Range)>
    decreases files.len(),
{
    if files.len() == 0 {
        Seq::empty()
    } else {
        dep_refs_of(files.drop_last(), name) + refs_in(files.last().dep_refs@, files.last().uri@, name)
    }
}

/// The references of one file to `name`.
pub open spec fn refs_in(refs: Seq<DepRef>, uri: Seq<char>, name: Seq<char>) -> Seq<(Seq<char>, Range)>
    decreases refs.len(),
{
    if refs.len() == 0 {
        Seq::empty()
    } else {
        refs_in(refs.drop_last(), uri, name) + if refs.last().name@ == name {
            seq![(uri, refs.last().range)]
        } else {
            Seq::empty()
        }
    }
}

/// The test-client calls recorded for a route: its first entry.
pub open spec fn test_refs_get(tr: Seq<(RouteId, Vec<Location>)>, id: Seq<char>) -> Seq<(Seq<char>, Range)>
    decreases tr.len(),
{
    if tr.len() == 0 {
        Seq::empty()
    } else if tr[0].0@ == id {
        tr[0].1@.map_values(|l: Location| lv(l))
    } else {
        test_refs_get(tr.drop_first(), id)
    }
}

/// The dependency definition under `pos`.
pub open spec fn dep_def_at(d: DepDef, pos: Position) -> bool {
    in_range(pos, d.node_id.range.start, d.node_id.range.end)
}

/// References at `pos` in file `uri`. On a route handler (the first record whose handler
/// is there): its declaration when asked for, the `url_for` calls naming the route and the
/// test-client calls reaching it. Then, on a dependency definition of the file: its
/// declaration when asked for, its `Depends` references and its override sites. Nothing
/// for an unknown file.
pub open spec fn references_spec(ws: NavWorkspace, uri: Seq<char>, pos: Position, decl: bool) -> Seq<(Seq<char>, Range)> {
    match first_match(ws.files@, |x: NavFile| file_is(x, uri)) {
        None => Seq::empty(),
        Some(fk) => {
            let f = ws.files@[fk];
            let recs = index_records(ws.route_index@);
            (match first_match(recs, |x: RouteRecord| handler_at(x, uri, pos)) {
                Some(k) => (if decl { seq![(uri, recs[k].handler.range)] } else { Seq::empty() }) + url_refs(ws.files@, recs[k].name@)
                    + test_refs_get(ws.test_refs@, recs[k].id@),
                None => Seq::empty(),
            }) + match first_match(f.dep_defs@, |d: DepDef| dep_def_at(d, pos)) {
                Some(k) => (if decl { seq![(uri, f.dep_defs@[k].node_id.range)] } else { Seq::empty() }) + dep_refs_of(ws.files@, f.dep_defs@[k].name@)
                    + sites_of(ws.dep_graph, f.dep_defs@[k].node_id).map_values(|l: Location| lv(l)),
                None => Seq::empty(),
            }
        },
    }
}

fn push_url_refs(out: &mut Vec<Location>, files: &[NavFile], name: &String)
    ensures
        final(out)@.map_values(|l: Location| lv(l)) == old(out)@.map_values(|l: Location| lv(l)) + url_refs(files@, name@),
{
    let mut i: usize = 0;
    while i < files.len()
        invariant
            i <= files@.len(),
            out@.map_values(|l: Location| lv(l)) == old(out)@.map_values(|l: Location| lv(l)) + url_refs(files@.take(i as int), name@),
        decreases files@.len() - i,
    {
        let f = &files[i];
        assert(files@.take(i + 1).drop_last() =~= files@.take(i as int));
        assert(files@.take(i + 1).last() == *f);
        let ghost base = out@.map_values(|l: Location| lv(l));
        let mut k: usize = 0;
        while k < f.url_for_sites.len()
            invariant
                k <= f.url_for_sites@.len(),
                out@.map_values(|l: Location| lv(l)) == base + site_refs(f.url_for_sites@.take(k as int), f.uri@, name@),
            decreases f.url_for_sites@.len() - k,
        {
            assert(f.url_for_sites@.take(k + 1).drop_last() =~= f.url_for_sites@.take(k as int));
            assert(f.url_for_sites@.take(k + 1).last() == f.url_for_sites@[k as int]);
            if f.url_for_sites[k].name == *name {
                push_loc(out, &f.uri, f.url_for_sites[k].range);
            }
            k += 1;
        }
        assert(f.url_for_sites@.take(f.url_for_sites@.len() as int) =~= f.url_for_sites@);
        i += 1;
    }
    assert(files@.take(files@.len() as int) =~= files@);
}

fn push_dep_refs(out: &mut Vec<Location>, files: &[NavFile], name: &String)
    ensures
        final(out)@.map_values(|l: Location| lv(l)) == old(out)@.map_values(|l: Location| lv(l)) + dep_refs_of(files@, name@),
{
    let mut i: usize = 0;
    while i < files.len()
        invariant
            i <= files@.len(),
            out@.map_values(|l: Location| lv(l)) == old(out)@.map_values(|l: Location| lv(l)) + dep_refs_of(files@.take(i as int), name@),
        decreases files@.len() - i,
    {
        let f = &files[i];
        assert(files@.take(i + 1).drop_last() =~= files@.take(i as int));
        assert(files@.take(i + 1).last() == *f);
        let ghost base = out@.map_values(|l: Location| lv(l));
        let mut k: usize = 0;
        while k < f.dep_refs.len()
            invariant
                k <= f.dep_refs@.len(),
                out@.map_values(|l: Location| lv(l)) == base + refs_in(f.dep_refs@.take(k as int), f.uri@, name@),
            decreases f.dep_refs@.len() - k,
        {
            assert(f.dep_refs@.take(k + 1).drop_last() =~= f.dep_refs@.take(k as int));
            assert(f.dep_refs@.take(k + 1).last() == f.dep_refs@[k as int]);
            if f.dep_refs[k].name == *name {
                push_loc(out, &f.uri, f.dep_refs[k].range);
            }
            k += 1;
        }
        assert(f.dep_refs@.take(f.dep_refs@.len() as int) =~= f.dep_refs@);
        i += 1;
    }
    assert(files@.take(files@.len() as int) =~= files@);
}

fn push_all_locs(out: &mut Vec<Location>, v: &Vec<Location>)
    ensures
        final(out)@.map_values(|l: Location| lv(l)) == old(out)@.map_values(|l: Location| lv(l)) + v@.map_values(|l: Location| lv(l)),
{
    let mut i: usize = 0;
    while i < v.len()
        invariant
            i <= v@.len(),
            out@.map_values(|l: Location| lv(l)) == old(out)@.map_values(|l: Location| lv(l)) + v@.take(i as int).map_values(|l: Location| lv(l)),
        decreases v@.len() - i,
    {
        push_loc(out, &v[i].uri, v[i].range);
        assert(v@.take(i + 1) =~= v@.take(i as int).push(v@[i as int]));
        assert(v@.take(i + 1).map_values(|l: Location| lv(l)) =~= v@.take(i as int).map_values(|l: Location| lv(l)).push(lv(v@[i as int])));
        i += 1;
    }
    assert(v@.take(v@.len() as int) =~= v@);
}

fn push_test_refs(out: &mut Vec<Location>, tr: &[(RouteId, Vec<Location>)], id: &RouteId)
    ensures
        final(out)@.map_values(|l: Location| lv(l)) == old(out)@.map_values(|l: Location| lv(l)) + test_refs_get(tr@, id@),
{
    let mut i: usize = 0;
    assert(tr@.skip(0) =~= tr@);
    while i < tr.len()
        invariant
            i <= tr@.len(),
            out@ == old(out)@,
            test_refs_get(tr@, id@) == test_refs_get(tr@.skip(i as int), id@),
        decreases tr@.len() - i,
    {
        assert(tr@.skip(i as int).drop_first() =~= tr@.skip(i + 1));
        if tr[i].0.0 == id.0 {
            push_all_locs(out, &tr[i].1);
            return;
        }
        i += 1;
    }
    assert(old(out)@.map_values(|l: Location| lv(l)) + Seq::empty() =~= old(out)@.map_values(|l: Location| lv(l)));
}

/// Find-references (see `references_spec`).
pub fn references(ws: &NavWorkspace, uri: &str, pos: Position, include_declaration: bool) -> (r: Vec<Location>)
    ensures
        r@.map_values(|l: Location| lv(l)) == references_spec(*ws, uri@, pos, include_declaration),
{
    let mut out: Vec<Location> = Vec::new();
    let f = match find_file(ws.files.as_slice(), uri) {
        Some(f) => f,
        None => {
            assert(out@.map_values(|l: Location| lv(l)) =~= Seq::empty());
            return out;
        },
    };
    let u: String = uri.to_owned();
    let route = crate::hovers::record_at(&ws.route_index, uri, pos);
    match route {
        Some(rec) => {
            if include_declaration {
                push_loc(&mut out, &u, rec.handler.range);
            }
            push_url_refs(&mut out, ws.files.as_slice(), &rec.name);
            push_test_refs(&mut out, ws.test_refs.as_slice(), &rec.id);
        },
        None => {},
    }
    let ghost mid = out@.map_values(|l: Location| lv(l));
    let ghost pd = |d: DepDef| dep_def_at(d, pos);
    let mut k: usize = 0;
    while k < f.dep_defs.len()
        invariant
            k <= f.dep_defs@.len(),
            pd == (|d: DepDef| dep_def_at(d, pos)),
            forall|j: int| 0 <= j < k ==> !pd(#[trigger] f.dep_defs@[j]),
        ensures
            k <= f.dep_defs@.len(),
            forall|j: int| 0 <= j < k ==> !pd(#[trigger] f.dep_defs@[j]),
            k < f.dep_defs@.len() ==> pd(f.dep_defs@[k as int]),
        decreases f.dep_defs@.len() - k,
    {
        let d = &f.dep_defs[k];
        if position_in_range(pos, d.node_id.range.start, d.node_id.range.end) {
            break;
        }
        k += 1;
    }
    if k < f.dep_defs.len() {
        proof {
            lemma_first_match_step(f.dep_defs@, pd, k as int);
        }
        let d = &f.dep_defs[k];
        if include_declaration {
            push_loc(&mut out, &u, d.node_id.range);
        }
        push_dep_refs(&mut out, ws.files.as_slice(), &d.name);
        let sites = crate::hovers::override_sites_of(&ws.dep_graph, &d.node_id);
        push_all_locs(&mut out, &sites);
    } else {
        proof {
            lemma_first_match_none(f.dep_defs@, pd);
        }
    }
    assert(out@.map_values(|l: Location| lv(l)) =~= references_spec(*ws, uri@, pos, include_declaration));
    out
}

} // verus!
