//! The route index: one record per route decorator, method and full path.
use vstd::prelude::*;
use crate::position::{Location, Position, Range};
use crate::routing::{Method, PathParam, ResolvedPath, RouteId, RouteIndex, RouteRecord};
use crate::mounts::{entries_of, paths_from, push_keyed, pushed, rp_views, LinkContext, PrefixValue, MwState, mw_iter};
use crate::names::route_id;
use crate::text::string_views;

verus! {

broadcast use vstd::string::group_string_axioms;

/// A route decorator as the index reads it.
pub struct RouteFact {
    pub handler_name: String,
    pub handler_range: Range,
    /// The object the decorator registers on (`app`, a router).
    pub object_name: String,
    pub methods: Vec<Method>,
    pub path: PrefixValue,
    pub path_range: Option<Range>,
    pub path_quote_width: Option<u32>,
    /// The parameters of the path pattern.
    pub path_params: Vec<PathParam>,
    pub response_model: Option<String>,
    pub response_model_range: Option<Range>,
    pub return_annotation: Option<String>,
    pub dependencies: Vec<String>,
    /// The decorator's `name=`.
    pub route_name: Option<String>,
    pub handler_params: Vec<String>,
    pub handler_param_ranges: Vec<Range>,
    pub params_insert_pos: Option<Position>,
    pub handler_has_splat_args: bool,
    pub handler_params_known: bool,
}

/// The route decorators of one file.
pub struct RouteFile {
    pub uri: String,
    pub routes: Vec<RouteFact>,
}

pub open spec fn opt_str(o: Option<String>) -> Option<Seq<char>> {
    match o {
        Some(s) => Some(s@),
        None => None,
    }
}

pub open spec fn param_views(ps: Seq<PathParam>) -> Seq<(Seq<char>, Seq<char>)> {
    ps.map_values(|p: PathParam| (p.name@, p.converter@))
}

/// `s` without the entries seen earlier in it.
pub open spec fn dedup_first<A>(s: Seq<A>) -> Seq<A>
    decreases s.len(),
{
    if s.len() == 0 {
        s
    } else if dedup_first(s.drop_last()).contains(s.last()) {
        dedup_first(s.drop_last())
    } else {
        dedup_first(s.drop_last()).push(s.last())
    }
}

/// The full paths of a route decorator, each once, in mount order.
pub open spec fn full_paths(ctx: LinkContext, uri: Seq<char>, f: RouteFact) -> Seq<Option<Seq<char>>> {
    dedup_first(match f.path {
        PrefixValue::Literal(p) => paths_from(ctx, f.object_name@, uri, seq![p@], 0),
        PrefixValue::Unresolved => seq![None],
    })
}

/// `v` is the middleware chain of `object` (see `LinkContext::middleware_chain`).
pub open spec fn middleware_of(ctx: LinkContext, object: Seq<char>, v: Seq<Seq<char>>) -> bool {
    exists|n: nat| {
        let fin = #[trigger] mw_iter(ctx, (seq![object], seq![object], Seq::empty()), n);
        &&& fin.0.len() == 0
        &&& v == crate::mounts::concat_all(fin.2.reverse())
    }
}

/// One record to build: the file, the decorator, the method and the full path.
pub type Item = (Seq<char>, RouteFact, Method, Option<Seq<char>>);

/// The records of one decorator for methods `ms`: each method with each full path.
pub open spec fn method_items(uri: Seq<char>, f: RouteFact, ms: Seq<Method>, paths: Seq<Option<Seq<char>>>) -> Seq<Item>
    decreases ms.len(),
{
    if ms.len() == 0 {
        Seq::empty()
    } else {
        method_items(uri, f, ms.drop_last(), paths) + paths.map_values(|p: Option<Seq<char>>| (uri, f, ms.last(), p))
    }
}

/// The records of a file's decorators, in order.
pub open spec fn file_items(ctx: LinkContext, uri: Seq<char>, rs: Seq<RouteFact>) -> Seq<Item>
    decreases rs.len(),
{
    if rs.len() == 0 {
        Seq::empty()
    } else {
        file_items(ctx, uri, rs.drop_last()) + method_items(uri, rs.last(), rs.last().methods@, full_paths(ctx, uri, rs.last()))
    }
}

/// The records of all files, in order (the record's ordinal is its place here).
pub open spec fn all_items(ctx: LinkContext, fs: Seq<RouteFile>) -> Seq<Item>
    decreases fs.len(),
{
    if fs.len() == 0 {
        Seq::empty()
    } else {
        all_items(ctx, fs.drop_last()) + file_items(ctx, fs.last().uri@, fs.last().routes@)
    }
}

pub open spec fn item_id(it: Item) -> Seq<char> {
    route_id(it.0, it.1.handler_name@, it.2)
}

/// The items of identifier `key` with their ordinals, in order.
pub open spec fn keyed_items(items: Seq<Item>, key: Seq<char>) -> Seq<(int, Item)>
    decreases items.len(),
{
    if items.len() == 0 {
        Seq::empty()
    } else if item_id(items.last()) == key {
        keyed_items(items.drop_last(), key).push((items.len() - 1, items.last()))
    } else {
        keyed_items(items.drop_last(), key)
    }
}

/// Record `r` is the record of item `it` with ordinal `ord`: its identifier, name (the
/// decorator's `name=`, else the handler's), method and full path; the decorator path
/// (empty when not a literal); the handler's location; the middleware of the decorator's
/// object; and the decorator's other facts as they are.
pub open spec fn record_of(ctx: LinkContext, r: RouteRecord, it: Item, ord: int) -> bool {
    let (uri, f, m, p) = it;
    &&& r.id@ == item_id(it)
    &&& r.ordinal == ord
    &&& r.name@ == match f.route_name {
        Some(n) => n@,
        None => f.handler_name@,
    }
    &&& r.method == m
    &&& rp_views(seq![r.resolved_path]) == seq![p]
    &&& r.decorator_path@ == match f.path {
        PrefixValue::Literal(s) => s@,
        PrefixValue::Unresolved => Seq::empty(),
    }
    &&& r.handler.uri@ == uri && r.handler.range == f.handler_range
    &&& param_views(r.path_params@) == param_views(f.path_params@)
    &&& opt_str(r.response_model) == opt_str(f.response_model)
    &&& r.response_model_range == f.response_model_range
    &&& opt_str(r.return_annotation) == opt_str(f.return_annotation)
    &&& string_views(r.dependencies@) == string_views(f.dependencies@)
    &&& middleware_of(ctx, f.object_name@, string_views(r.middleware@))
    &&& r.path_range == f.path_range
    &&& r.path_quote_width == f.path_quote_width
    &&& string_views(r.handler_params@) == string_views(f.handler_params@)
    &&& r.handler_param_ranges@ == f.handler_param_ranges@
    &&& r.params_insert_pos == f.params_insert_pos
    &&& r.handler_has_splat_args == f.handler_has_splat_args
    &&& r.handler_params_known == f.handler_params_known
    &&& r.chain@.len() == 0
}

/// The index holds, under each identifier, the records of its items in order.
pub open spec fn index_ok(ctx: LinkContext, ix: Seq<(String, Vec<RouteRecord>)>, items: Seq<Item>) -> bool {
    forall|key: Seq<char>| #![trigger entries_of(ix, key)] {
        let ki = keyed_items(items, key);
        match entries_of(ix, key) {
            Some(v) => v.len() == ki.len() && ki.len() > 0 && forall|t: int| 0 <= t < v.len() ==> record_of(ctx, #[trigger] v[t], ki[t].1, ki[t].0),
            None => ki.len() == 0,
        }
    }
}

pub open spec fn rpv(p: ResolvedPath) -> Option<Seq<char>> {
    match p {
        ResolvedPath::Resolved(s) => Some(s@),
        ResolvedPath::Unresolved => None,
    }
}

proof fn lemma_rp_views(s: Seq<ResolvedPath>)
    ensures
        rp_views(s).len() == s.len(),
        forall|k: int| 0 <= k < s.len() ==> #[trigger] rp_views(s)[k] == rpv(s[k]),
{
}

fn rp_copy(p: &ResolvedPath) -> (r: ResolvedPath)
    ensures
        rpv(r) == rpv(*p),
{
    match p {
        ResolvedPath::Resolved(s) => ResolvedPath::Resolved(s.clone()),
        ResolvedPath::Unresolved => ResolvedPath::Unresolved,
    }
}

fn rp_same(a: &ResolvedPath, b: &ResolvedPath) -> (r: bool)
    ensures
        r == (rpv(*a) == rpv(*b)),
{
    match (a, b) {
        (ResolvedPath::Resolved(x), ResolvedPath::Resolved(y)) => *x == *y,
        (ResolvedPath::Unresolved, ResolvedPath::Unresolved) => true,
        _ => false,
    }
}

fn dedup_paths(v: &Vec<ResolvedPath>) -> (r: Vec<ResolvedPath>)
    ensures
        rp_views(r@) == dedup_first(rp_views(v@)),
{
    let ghost vs = rp_views(v@);
    proof {
        lemma_rp_views(v@);
    }
    let mut out: Vec<ResolvedPath> = Vec::new();
    let mut i: usize = 0;
    assert(rp_views(out@) =~= dedup_first(vs.take(0)));
    while i < v.len()
        invariant
            i <= v@.len(),
            vs == rp_views(v@),
            vs.len() == v@.len(),
            forall|k: int| 0 <= k < v@.len() ==> #[trigger] vs[k] == rpv(v@[k]),
            rp_views(out@) == dedup_first(vs.take(i as int)),
        decreases v@.len() - i,
    {
        assert(vs.take(i + 1).drop_last() =~= vs.take(i as int));
        assert(vs.take(i + 1).last() == vs[i as int]);
        let ghost ov = rp_views(out@);
        proof {
            lemma_rp_views(out@);
        }
        let mut seen = false;
        let mut j: usize = 0;
        while j < out.len()
            invariant
                i < v@.len(),
                j <= out@.len(),
                ov == rp_views(out@),
                ov.len() == out@.len(),
                forall|k: int| 0 <= k < out@.len() ==> #[trigger] ov[k] == rpv(out@[k]),
                vs.len() == v@.len(),
                vs[i as int] == rpv(v@[i as int]),
                seen == exists|t: int| 0 <= t < j && ov[t] == vs[i as int],
            decreases out@.len() - j,
        {
            assert(ov[j as int] == rpv(out@[j as int]));
            if rp_same(&out[j], &v[i]) {
                seen = true;
            }
            j += 1;
        }
        assert(seen == ov.contains(vs[i as int]));
        if !seen {
            let c = rp_copy(&v[i]);
            out.push(c);
            proof {
                lemma_rp_views(out@);
            }
            assert(rp_views(out@) =~= ov.push(vs[i as int]));
        }
        i += 1;
    }
    assert(vs.take(v@.len() as int) =~= vs);
    out
}

fn copy_strings(v: &Vec<String>) -> (r: Vec<String>)
    ensures
        string_views(r@) == string_views(v@),
{
    let mut out: Vec<String> = Vec::new();
    let mut i: usize = 0;
    while i < v.len()
        invariant
            i <= v@.len(),
            string_views(out@) == string_views(v@.take(i as int)),
        decreases v@.len() - i,
    {
        out.push(v[i].clone());
        assert(string_views(v@.take(i + 1)) =~= string_views(v@.take(i as int)).push(v@[i as int]@));
        assert(string_views(out@) =~= string_views(v@.take(i + 1)));
        i += 1;
    }
    assert(v@.take(v@.len() as int) =~= v@);
    out
}

fn copy_ranges(v: &Vec<Range>) -> (r: Vec<Range>)
    ensures
        r@ == v@,
{
    let mut out: Vec<Range> = Vec::new();
    let mut i: usize = 0;
    while i < v.len()
        invariant
            i <= v@.len(),
            out@ == v@.take(i as int),
        decreases v@.len() - i,
    {
        out.push(v[i]);
        assert(out@ =~= v@.take(i + 1));
        i += 1;
    }
    assert(v@.take(v@.len() as int) =~= v@);
    out
}

fn copy_params(v: &Vec<PathParam>) -> (r: Vec<PathParam>)
    ensures
        param_views(r@) == param_views(v@),
{
    let mut out: Vec<PathParam> = Vec::new();
    let mut i: usize = 0;
    while i < v.len()
        invariant
            i <= v@.len(),
            param_views(out@) == param_views(v@.take(i as int)),
        decreases v@.len() - i,
    {
        out.push(PathParam { name: v[i].name.clone(), converter: v[i].converter.clone() });
        assert(param_views(v@.take(i + 1)) =~= param_views(v@.take(i as int)).push((v@[i as int].name@, v@[i as int].converter@)));
        assert(param_views(out@) =~= param_views(v@.take(i + 1)));
        i += 1;
    }
    assert(v@.take(v@.len() as int) =~= v@);
    out
}

fn copy_opt(o: &Option<String>) -> (r: Option<String>)
    ensures
        opt_str(r) == opt_str(*o),
{
    match o {
        Some(s) => Some(s.clone()),
        None => None,
    }
}

fn make_record(ctx: &LinkContext, uri: &String, f: &RouteFact, m: Method, p: &ResolvedPath, ord: usize, mw: &Vec<String>) -> (r: RouteRecord)
    requires
        middleware_of(*ctx, f.object_name@, string_views(mw@)),
    ensures
        record_of(*ctx, r, (uri@, *f, m, rpv(*p)), ord as int),
{
    let id = crate::names::route_id_of(uri.as_str(), f.handler_name.as_str(), m);
    let name = match &f.route_name {
        Some(n) => n.clone(),
        None => f.handler_name.clone(),
    };
    let decorator_path = match &f.path {
        PrefixValue::Literal(s) => s.clone(),
        PrefixValue::Unresolved => String::new(),
    };
    let r = RouteRecord {
        id,
        ordinal: ord,
        name,
        method: m,
        resolved_path: rp_copy(p),
        decorator_path,
        handler: Location { uri: uri.clone(), range: f.handler_range },
        path_params: copy_params(&f.path_params),
        response_model: copy_opt(&f.response_model),
        response_model_range: f.response_model_range,
        return_annotation: copy_opt(&f.return_annotation),
        dependencies: copy_strings(&f.dependencies),
        path_range: f.path_range,
        path_quote_width: f.path_quote_width,
        handler_params: copy_strings(&f.handler_params),
        handler_param_ranges: copy_ranges(&f.handler_param_ranges),
        handler_has_splat_args: f.handler_has_splat_args,
        handler_params_known: f.handler_params_known,
        params_insert_pos: f.params_insert_pos,
        chain: Vec::new(),
        middleware: copy_strings(mw),
    };
    proof {
        lemma_rp_views(seq![r.resolved_path]);
    }
    assert(rp_views(seq![r.resolved_path]) =~= seq![rpv(*p)]);
    r
}

proof fn lemma_index_push(ctx: LinkContext, ix0: Seq<(String, Vec<RouteRecord>)>, ix1: Seq<(String, Vec<RouteRecord>)>, items: Seq<Item>, k: Seq<char>, rec: RouteRecord, it: Item)
    requires
        index_ok(ctx, ix0, items),
        k == item_id(it),
        forall|key: Seq<char>| #[trigger] entries_of(ix1, key) == pushed(ix0, k, rec, key),
        record_of(ctx, rec, it, items.len() as int),
    ensures
        index_ok(ctx, ix1, items.push(it)),
{
    let items2 = items.push(it);
    assert(items2.drop_last() =~= items);
    assert forall|key: Seq<char>| #![trigger entries_of(ix1, key)] {
        let ki = keyed_items(items2, key);
        match entries_of(ix1, key) {
            Some(v) => v.len() == ki.len() && ki.len() > 0 && forall|t: int| 0 <= t < v.len() ==> record_of(ctx, #[trigger] v[t], ki[t].1, ki[t].0),
            None => ki.len() == 0,
        }
    } by {
        let ki0 = keyed_items(items, key);
        assert(entries_of(ix1, key) == pushed(ix0, k, rec, key));
        match entries_of(ix0, key) {
            Some(v0) => {
                assert(v0.len() == ki0.len());
            },
            None => {},
        }
        if key == k {
            let ki = keyed_items(items2, key);
            assert(ki == ki0.push((items.len() as int, it)));
            let v = entries_of(ix1, key)->0;
            assert forall|t: int| 0 <= t < v.len() implies record_of(ctx, #[trigger] v[t], ki[t].1, ki[t].0) by {
                if t < v.len() - 1 {
                    let v0 = entries_of(ix0, key)->0;
                    assert(v[t] == v0[t]);
                    assert(ki[t] == ki0[t]);
                }
            }
        } else {
            assert(keyed_items(items2, key) == ki0);
        }
    }
}

proof fn lemma_method_items_len(uri: Seq<char>, f: RouteFact, ms: Seq<Method>, paths: Seq<Option<Seq<char>>>)
    ensures
        method_items(uri, f, ms, paths).len() == ms.len() * paths.len(),
    decreases ms.len(),
{
    if ms.len() > 0 {
        lemma_method_items_len(uri, f, ms.drop_last(), paths);
        assert(ms.len() * paths.len() == (ms.len() - 1) * paths.len() + paths.len()) by (nonlinear_arith);
    }
}

proof fn lemma_file_items_mono(ctx: LinkContext, uri: Seq<char>, rs: Seq<RouteFact>, a: int)
    requires
        0 <= a <= rs.len(),
    ensures
        file_items(ctx, uri, rs.take(a)).len() <= file_items(ctx, uri, rs).len(),
    decreases rs.len() - a,
{
    if a < rs.len() {
        lemma_file_items_mono(ctx, uri, rs, a + 1);
        assert(rs.take(a + 1).drop_last() =~= rs.take(a));
    } else {
        assert(rs.take(a) =~= rs);
    }
}

proof fn lemma_all_items_mono(ctx: LinkContext, fs: Seq<RouteFile>, a: int)
    requires
        0 <= a <= fs.len(),
    ensures
        all_items(ctx, fs.take(a)).len() <= all_items(ctx, fs).len(),
    decreases fs.len() - a,
{
    if a < fs.len() {
        lemma_all_items_mono(ctx, fs, a + 1);
        assert(fs.take(a + 1).drop_last() =~= fs.take(a));
    } else {
        assert(fs.take(a) =~= fs);
    }
}

fn add_decorator(
    ix: &mut Vec<(String, Vec<RouteRecord>)>,
    n: &mut usize,
    ctx: &LinkContext,
    uri: &String,
    f: &RouteFact,
    Ghost(items): Ghost<Seq<Item>>,
)
    requires
        index_ok(*ctx, old(ix)@, items),
        *old(n) == items.len(),
        items.len() + method_items(uri@, *f, f.methods@, full_paths(*ctx, uri@, *f)).len() < usize::MAX,
    ensures
        index_ok(*ctx, final(ix)@, items + method_items(uri@, *f, f.methods@, full_paths(*ctx, uri@, *f))),
        *final(n) == items.len() + method_items(uri@, *f, f.methods@, full_paths(*ctx, uri@, *f)).len(),
{
    let raw = ctx.resolve_route_paths(uri.as_str(), f.object_name.as_str(), &f.path);
    let paths = dedup_paths(&raw);
    let ghost pv = rp_views(paths@);
    assert(pv == full_paths(*ctx, uri@, *f));
    proof {
        lemma_rp_views(paths@);
        lemma_method_items_len(uri@, *f, f.methods@, pv);
    }
    let mw = ctx.middleware_chain(f.object_name.as_str());
    assert(middleware_of(*ctx, f.object_name@, string_views(mw@)));
    let ghost total = items.len() + method_items(uri@, *f, f.methods@, pv).len();
    let mut j: usize = 0;
    while j < f.methods.len()
        invariant
            j <= f.methods@.len(),
            pv == rp_views(paths@),
            pv.len() == paths@.len(),
            forall|k: int| 0 <= k < paths@.len() ==> #[trigger] pv[k] == rpv(paths@[k]),
            middleware_of(*ctx, f.object_name@, string_views(mw@)),
            total == items.len() + method_items(uri@, *f, f.methods@, pv).len(),
            total < usize::MAX,
            method_items(uri@, *f, f.methods@, pv).len() == f.methods@.len() * pv.len(),
            index_ok(*ctx, ix@, items + method_items(uri@, *f, f.methods@.take(j as int), pv)),
            *n == items.len() + j * pv.len(),
        decreases f.methods@.len() - j,
    {
        let m = f.methods[j];
        let ghost base = items + method_items(uri@, *f, f.methods@.take(j as int), pv);
        assert(f.methods@.take(j + 1).drop_last() =~= f.methods@.take(j as int));
        assert(f.methods@.take(j + 1).last() == m);
        proof {
            lemma_method_items_len(uri@, *f, f.methods@.take(j as int), pv);
        }
        assert(base.len() == items.len() + j * pv.len());
        assert((j + 1) * pv.len() <= f.methods@.len() * pv.len()) by (nonlinear_arith)
            requires j + 1 <= f.methods@.len();
        assert((j + 1) * pv.len() == j * pv.len() + pv.len()) by (nonlinear_arith);
        let mut q: usize = 0;
        while q < paths.len()
            invariant
                j < f.methods@.len(),
                m == f.methods@[j as int],
                q <= paths@.len(),
                pv == rp_views(paths@),
                pv.len() == paths@.len(),
                forall|k: int| 0 <= k < paths@.len() ==> #[trigger] pv[k] == rpv(paths@[k]),
                middleware_of(*ctx, f.object_name@, string_views(mw@)),
                total < usize::MAX,
                total == items.len() + f.methods@.len() * pv.len(),
                (j + 1) * pv.len() <= f.methods@.len() * pv.len(),
                (j + 1) * pv.len() == j * pv.len() + pv.len(),
                base == items + method_items(uri@, *f, f.methods@.take(j as int), pv),
                base.len() == items.len() + j * pv.len(),
                index_ok(*ctx, ix@, base + pv.take(q as int).map_values(|p: Option<Seq<char>>| (uri@, *f, m, p))),
                *n == items.len() + j * pv.len() + q,
            decreases paths@.len() - q,
        {
            let ghost cur = base + pv.take(q as int).map_values(|p: Option<Seq<char>>| (uri@, *f, m, p));
            let ghost it: Item = (uri@, *f, m, pv[q as int]);
            let rec = make_record(ctx, uri, f, m, &paths[q], *n, &mw);
            let key = rec.id.0.clone();
            let ghost ix0 = ix@;
            proof {
                assert(cur.len() == *n);
            }
            push_keyed(ix, key.as_str(), rec);
            proof {
                lemma_index_push(*ctx, ix0, ix@, cur, key@, rec, it);
                assert(base + pv.take(q + 1).map_values(|p: Option<Seq<char>>| (uri@, *f, m, p)) =~= cur.push(it));
            }
            *n = *n + 1;
            q += 1;
        }
        assert(pv.take(pv.len() as int) =~= pv);
        assert(items + method_items(uri@, *f, f.methods@.take(j + 1), pv) =~= base + pv.map_values(|p: Option<Seq<char>>| (uri@, *f, m, p)));
        j += 1;
    }
    assert(f.methods@.take(f.methods@.len() as int) =~= f.methods@);
}

/// The route records of the files' decorators, keyed by route identifier: for each
/// decorator, method and full path (each full path once) one record, numbered in file,
/// decorator, method and path order (see `record_of`). The files are visited in the order
/// given; the caller passes them in URI order.
pub fn build_route_records(ctx: &LinkContext, files: &Vec<RouteFile>) -> (r: Vec<(String, Vec<RouteRecord>)>)
    requires
        all_items(*ctx, files@).len() < usize::MAX,
    ensures
        index_ok(*ctx, r@, all_items(*ctx, files@)),
{
    let mut ix: Vec<(String, Vec<RouteRecord>)> = Vec::new();
    let mut n: usize = 0;
    let mut i: usize = 0;
    while i < files.len()
        invariant
            i <= files@.len(),
            all_items(*ctx, files@).len() < usize::MAX,
            index_ok(*ctx, ix@, all_items(*ctx, files@.take(i as int))),
            n == all_items(*ctx, files@.take(i as int)).len(),
        decreases files@.len() - i,
    {
        let f = &files[i];
        assert(files@.take(i + 1).drop_last() =~= files@.take(i as int));
        assert(files@.take(i + 1).last() == *f);
        proof {
            lemma_all_items_mono(*ctx, files@, i + 1);
        }
        let ghost base = all_items(*ctx, files@.take(i as int));
        let mut k: usize = 0;
        while k < f.routes.len()
            invariant
                i < files@.len(),
                *f == files@[i as int],
                k <= f.routes@.len(),
                base.len() + file_items(*ctx, f.uri@, f.routes@).len() < usize::MAX,
                index_ok(*ctx, ix@, base + file_items(*ctx, f.uri@, f.routes@.take(k as int))),
                n == base.len() + file_items(*ctx, f.uri@, f.routes@.take(k as int)).len(),
            decreases f.routes@.len() - k,
        {
            assert(f.routes@.take(k + 1).drop_last() =~= f.routes@.take(k as int));
            assert(f.routes@.take(k + 1).last() == f.routes@[k as int]);
            proof {
                lemma_file_items_mono(*ctx, f.uri@, f.routes@, k + 1);
            }
            let ghost cur = base + file_items(*ctx, f.uri@, f.routes@.take(k as int));
            add_decorator(&mut ix, &mut n, ctx, &f.uri, &f.routes[k], Ghost(cur));
            assert(base + file_items(*ctx, f.uri@, f.routes@.take(k + 1)) =~= cur + method_items(f.uri@, f.routes@[k as int], f.routes@[k as int].methods@, full_paths(*ctx, f.uri@, f.routes@[k as int])));
            k += 1;
        }
        assert(f.routes@.take(f.routes@.len() as int) =~= f.routes@);
        i += 1;
    }
    assert(files@.take(files@.len() as int) =~= files@);
    ix
}

} // verus!
