//! Code lenses: test references above route handlers, usage counts above dependencies and
//! dependency aliases, route counts above routers and models, cycle and override notes.
use vstd::prelude::*;
use crate::position::{Range, Position};
use crate::routing::{RouteId, RouteRecord, RouteIndex};
use crate::deps::{DepDef, DepRef, NodeId, DepGraph};
use crate::analysis::model_name_of;
use crate::checks::{RouterDecl, first_match, lemma_first_match_step, lemma_first_match_none, lemma_first_match_bound};
use crate::text::{str_chars, string_from_chars, push_all, string_views};
use crate::joining::{decimal, push_decimal};
use crate::report::plural;

verus! {

broadcast use vstd::string::group_string_axioms;

/// A reference list for `editor.showReferences`: the document, the position, and the
/// locations to list.
#[derive(Clone, Debug)]
pub struct ShowRefs {
    pub uri: String,
    pub position: Position,
    pub locations: Vec<(String, Range)>,
}

/// The command of a lens: its title, the command to run, and the reference list it
/// shows when it is `editor.showReferences`.
#[derive(Clone, Debug)]
pub struct LensCommand {
    pub title: String,
    pub command: String,
    pub references: Option<ShowRefs>,
}

/// A code lens: a range with either a command, or the routes whose test references are
/// counted when the lens is resolved.
#[derive(Clone, Debug)]
pub struct Lens {
    pub range: Range,
    pub command: Option<LensCommand>,
    pub route_ids: Option<Vec<String>>,
}

/// What a client sees of a lens.
pub type LensView = (Range, Option<(Seq<char>, Seq<char>, Option<(Seq<char>, Position, Seq<(Seq<char>, Range)>)>)>, Option<Seq<Seq<char>>>);

/// The view of a list of locations.
pub open spec fn pair_views(ls: Seq<(String, Range)>) -> Seq<(Seq<char>, Range)> {
    ls.map_values(|l: (String, Range)| (l.0@, l.1))
}

/// The view of a lens.
pub open spec fn lens_view(l: Lens) -> LensView {
    (
        l.range,
        match l.command {
            Some(c) => Some(
                (
                    c.title@,
                    c.command@,
                    match c.references {
                        Some(r) => Some((r.uri@, r.position, pair_views(r.locations@))),
                        None => None,
                    },
                ),
            ),
            None => None,
        },
        match l.route_ids {
            Some(ids) => Some(string_views(ids@)),
            None => None,
        },
    )
}

/// The views of a list of lenses.
pub open spec fn lens_views(ls: Seq<Lens>) -> Seq<LensView> {
    ls.map_values(|l: Lens| lens_view(l))
}

/// A lens with a plain command.
pub open spec fn cmd_view(range: Range, title: Seq<char>, command: Seq<char>) -> LensView {
    (range, Some((title, command, None)), None)
}

/// `n` followed by `word` and, unless `n` is 1, `suffix`.
pub open spec fn counted(n: nat, word: Seq<char>, suffix: Seq<char>) -> Seq<char> {
    decimal(n) + word + plural(n, suffix)
}

fn counted_title(n: usize, word: &str, suffix: &str) -> (r: String)
    ensures
        r@ == counted(n as nat, word@, suffix@),
{
    let mut out: Vec<char> = Vec::new();
    push_decimal(&mut out, n);
    let w = str_chars(word);
    push_all(&mut out, w.as_slice());
    if n != 1 {
        let s = str_chars(suffix);
        push_all(&mut out, s.as_slice());
    }
    assert(out@ =~= counted(n as nat, word@, suffix@));
    string_from_chars(out.as_slice())
}

fn plain_lens(range: Range, title: String, command: &str) -> (l: Lens)
    ensures
        lens_view(l) == cmd_view(range, title@, command@),
{
    Lens { range, command: Some(LensCommand { title, command: command.to_owned(), references: None }), route_ids: None }
}

/// A router declaration with the routes registered on it counted in `route_objects`.
pub open spec fn count_of(objs: Seq<Seq<char>>, name: Seq<char>) -> nat
    decreases objs.len(),
{
    if objs.len() == 0 {
        0
    } else {
        count_of(objs.drop_last(), name) + if objs.last() == name { 1nat } else { 0nat }
    }
}

fn count_names(objs: &[String], name: &String) -> (n: usize)
    ensures
        n == count_of(string_views(objs@), name@),
{
    let ghost sv = string_views(objs@);
    let mut n: usize = 0;
    let mut i: usize = 0;
    while i < objs.len()
        invariant
            i <= objs@.len(),
            sv == string_views(objs@),
            n == count_of(sv.take(i as int), name@),
            n <= i,
        decreases objs@.len() - i,
    {
        assert(sv.take(i + 1).drop_last() =~= sv.take(i as int));
        assert(sv.take(i + 1).last() == objs@[i as int]@);
        if objs[i] == *name {
            n += 1;
        }
        i += 1;
    }
    assert(sv.take(objs@.len() as int) =~= sv);
    n
}

/// `N route(s)` above each router of the file that has routes.
pub open spec fn router_lens_views(routers: Seq<RouterDecl>, objs: Seq<Seq<char>>) -> Seq<LensView>
    decreases routers.len(),
{
    if routers.len() == 0 {
        Seq::empty()
    } else {
        let r = routers.last();
        let n = count_of(objs, r.name@);
        router_lens_views(routers.drop_last(), objs) + if n > 0 {
            seq![cmd_view(r.range, counted(n, " route"@, "s"@), "fastapi-lsp.routerRoutes"@)]
        } else {
            Seq::empty()
        }
    }
}

/// Route-count lenses for the routers of a file (see `router_lens_views`); `route_objects`
/// are the objects the file's routes are registered on.
pub fn router_lenses(routers: &[RouterDecl], route_objects: &[String]) -> (r: Vec<Lens>)
    ensures
        lens_views(r@) == router_lens_views(routers@, string_views(route_objects@)),
{
    let mut out: Vec<Lens> = Vec::new();
    let mut i: usize = 0;
    while i < routers.len()
        invariant
            i <= routers@.len(),
            lens_views(out@) == router_lens_views(routers@.take(i as int), string_views(route_objects@)),
        decreases routers@.len() - i,
    {
        let r = &routers[i];
        assert(routers@.take(i + 1).drop_last() =~= routers@.take(i as int));
        assert(routers@.take(i + 1).last() == *r);
        let n = count_names(route_objects, &r.name);
        let ghost before = lens_views(out@);
        if n > 0 {
            let title = counted_title(n, " route", "s");
            let l = plain_lens(r.range, title, "fastapi-lsp.routerRoutes");
            out.push(l);
            assert(lens_views(out@) =~= before.push(lens_view(l)));
        }
        i += 1;
    }
    assert(routers@.take(routers@.len() as int) =~= routers@);
    out
}

/// A parameter typed with a plain name (`project: CurrentProject`).
#[derive(Clone, Debug)]
pub struct PlainTypedParam {
    pub containing_func: String,
    pub type_ident: String,
    pub annotation_range: Range,
}

/// What the lenses read from each file of the workspace.
#[derive(Clone, Debug)]
pub struct LensFileFacts {
    pub uri: String,
    pub dep_refs: Vec<DepRef>,
    pub plain_typed_params: Vec<PlainTypedParam>,
    /// Dependency aliases (`Alias = Annotated[T, Depends(fn)]`): alias and function.
    pub dep_type_aliases: Vec<(String, String)>,
}

/// The function behind alias `a` in one file: its last entry there.
pub open spec fn last_alias_in(al: Seq<(String, String)>, a: Seq<char>) -> Option<Seq<char>>
    decreases al.len(),
{
    if al.len() == 0 {
        None
    } else if al.last().0@ == a {
        Some(al.last().1@)
    } else {
        last_alias_in(al.drop_last(), a)
    }
}

/// The function behind alias `a` in the workspace: its last entry, files in order.
pub open spec fn alias_dep(files: Seq<LensFileFacts>, a: Seq<char>) -> Option<Seq<char>>
    decreases files.len(),
{
    if files.len() == 0 {
        None
    } else {
        match last_alias_in(files.last().dep_type_aliases@, a) {
            Some(d) => Some(d),
            None => alias_dep(files.drop_last(), a),
        }
    }
}

/// Where one file uses dependency `name`: its `Depends(name)` references, then its
/// parameters typed with an alias of `name` (aliases resolved over `all`).
pub open spec fn file_usages(f: LensFileFacts, all: Seq<LensFileFacts>, name: Seq<char>) -> Seq<(Seq<char>, Range)> {
    f.dep_refs@.filter(|r: DepRef| r.name@ == name).map_values(|r: DepRef| (f.uri@, r.range))
        + f.plain_typed_params@.filter(|p: PlainTypedParam| alias_dep(all, p.type_ident@) == Some(name)).map_values(
        |p: PlainTypedParam| (f.uri@, p.annotation_range),
    )
}

/// Where the workspace uses dependency `name`, file by file.
pub open spec fn usages(files: Seq<LensFileFacts>, all: Seq<LensFileFacts>, name: Seq<char>) -> Seq<(Seq<char>, Range)>
    decreases files.len(),
{
    if files.len() == 0 {
        Seq::empty()
    } else {
        usages(files.drop_last(), all, name) + file_usages(files.last(), all, name)
    }
}

/// Where the workspace types a parameter with alias `a`, file by file.
pub open spec fn alias_usages(files: Seq<LensFileFacts>, a: Seq<char>) -> Seq<(Seq<char>, Range)>
    decreases files.len(),
{
    if files.len() == 0 {
        Seq::empty()
    } else {
        alias_usages(files.drop_last(), a) + files.last().plain_typed_params@.filter(|p: PlainTypedParam| p.type_ident@ == a).map_values(
            |p: PlainTypedParam| (files.last().uri@, p.annotation_range),
        )
    }
}

/// `N usages` (showing the references) above a range when there are at least two.
pub open spec fn usage_lens_view(range: Range, uri: Seq<char>, locs: Seq<(Seq<char>, Range)>) -> Seq<LensView> {
    if locs.len() >= 2 {
        seq![(range, Some((decimal(locs.len()) + " usages"@, "editor.showReferences"@, Some((uri, range.start, locs)))), None)]
    } else {
        Seq::empty()
    }
}

fn find_alias_dep<'f>(files: &'f [LensFileFacts], a: &String) -> (r: Option<&'f String>)
    ensures
        match r {
            Some(d) => alias_dep(files@, a@) == Some(d@),
            None => alias_dep(files@, a@) is None,
        },
{
    let mut i: usize = files.len();
    assert(files@.take(i as int) =~= files@);
    while i > 0
        invariant
            i <= files@.len(),
            alias_dep(files@, a@) == alias_dep(files@.take(i as int), a@),
        decreases i,
    {
        let al = &files[i - 1].dep_type_aliases;
        assert(files@.take(i as int).drop_last() =~= files@.take(i - 1));
        assert(files@.take(i as int).last() == files@[i - 1]);
        let mut j: usize = al.len();
        assert(al@.take(j as int) =~= al@);
        while j > 0
            invariant
                j <= al@.len(),
                0 < i <= files@.len(),
                al == &files@[i - 1].dep_type_aliases,
                alias_dep(files@, a@) == alias_dep(files@.take(i as int), a@),
                files@.take(i as int).last() == files@[i - 1],
                last_alias_in(al@, a@) == last_alias_in(al@.take(j as int), a@),
            decreases j,
        {
            assert(al@.take(j as int).drop_last() =~= al@.take(j - 1));
            if al[j - 1].0 == *a {
                return Some(&al[j - 1].1);
            }
            j -= 1;
        }
        i -= 1;
    }
    None
}

proof fn lemma_filter_map_push<A, B>(s: Seq<A>, x: A, p: spec_fn(A) -> bool, f: spec_fn(A) -> B)
    ensures
        s.push(x).filter(p).map_values(f) == s.filter(p).map_values(f) + if p(x) { seq![f(x)] } else { Seq::<B>::empty() },
{
    s.lemma_filter_push(x, p);
    assert(s.push(x).filter(p).map_values(f) =~= s.filter(p).map_values(f) + if p(x) { seq![f(x)] } else { Seq::<B>::empty() });
}

/// Where the workspace uses dependency `name` (see `usages`).
pub fn collect_usages(files: &[LensFileFacts], name: &String) -> (r: Vec<(String, Range)>)
    ensures
        pair_views(r@) == usages(files@, files@, name@),
{
    let mut out: Vec<(String, Range)> = Vec::new();
    let mut i: usize = 0;
    while i < files.len()
        invariant
            i <= files@.len(),
            pair_views(out@) == usages(files@.take(i as int), files@, name@),
        decreases files@.len() - i,
    {
        let f = &files[i];
        assert(files@.take(i + 1).drop_last() =~= files@.take(i as int));
        assert(files@.take(i + 1).last() == *f);
        let ghost base = pair_views(out@);
        let ghost pr = |r: DepRef| r.name@ == name@;
        let ghost fr = |r: DepRef| (f.uri@, r.range);
        let mut j: usize = 0;
        while j < f.dep_refs.len()
            invariant
                j <= f.dep_refs@.len(),
                pr == (|r: DepRef| r.name@ == name@),
                fr == (|r: DepRef| (f.uri@, r.range)),
                pair_views(out@) == base + f.dep_refs@.take(j as int).filter(pr).map_values(fr),
            decreases f.dep_refs@.len() - j,
        {
            let r = &f.dep_refs[j];
            proof {
                assert(f.dep_refs@.take(j + 1) =~= f.dep_refs@.take(j as int).push(*r));
                lemma_filter_map_push(f.dep_refs@.take(j as int), *r, pr, fr);
            }
            let ghost b = pair_views(out@);
            if r.name == *name {
                out.push((f.uri.clone(), r.range));
                assert(pair_views(out@) =~= b.push((f.uri@, r.range)));
            }
            j += 1;
        }
        assert(f.dep_refs@.take(f.dep_refs@.len() as int) =~= f.dep_refs@);
        let ghost mid = pair_views(out@);
        let ghost pp = |p: PlainTypedParam| alias_dep(files@, p.type_ident@) == Some(name@);
        let ghost fp = |p: PlainTypedParam| (f.uri@, p.annotation_range);
        let mut j: usize = 0;
        while j < f.plain_typed_params.len()
            invariant
                j <= f.plain_typed_params@.len(),
                pp == (|p: PlainTypedParam| alias_dep(files@, p.type_ident@) == Some(name@)),
                fp == (|p: PlainTypedParam| (f.uri@, p.annotation_range)),
                pair_views(out@) == mid + f.plain_typed_params@.take(j as int).filter(pp).map_values(fp),
            decreases f.plain_typed_params@.len() - j,
        {
            let p = &f.plain_typed_params[j];
            proof {
                assert(f.plain_typed_params@.take(j + 1) =~= f.plain_typed_params@.take(j as int).push(*p));
                lemma_filter_map_push(f.plain_typed_params@.take(j as int), *p, pp, fp);
            }
            let ghost b = pair_views(out@);
            match find_alias_dep(files, &p.type_ident) {
                Some(d) => {
                    if *d == *name {
                        out.push((f.uri.clone(), p.annotation_range));
                        assert(pair_views(out@) =~= b.push((f.uri@, p.annotation_range)));
                    }
                },
                None => {},
            }
            j += 1;
        }
        assert(f.plain_typed_params@.take(f.plain_typed_params@.len() as int) =~= f.plain_typed_params@);
        assert(pair_views(out@) =~= base + file_usages(*f, files@, name@));
        i += 1;
    }
    assert(files@.take(files@.len() as int) =~= files@);
    out
}

/// Where the workspace types a parameter with alias `a` (see `alias_usages`).
pub fn collect_alias_usages(files: &[LensFileFacts], a: &String) -> (r: Vec<(String, Range)>)
    ensures
        pair_views(r@) == alias_usages(files@, a@),
{
    let mut out: Vec<(String, Range)> = Vec::new();
    let mut i: usize = 0;
    while i < files.len()
        invariant
            i <= files@.len(),
            pair_views(out@) == alias_usages(files@.take(i as int), a@),
        decreases files@.len() - i,
    {
        let f = &files[i];
        assert(files@.take(i + 1).drop_last() =~= files@.take(i as int));
        assert(files@.take(i + 1).last() == *f);
        let ghost base = pair_views(out@);
        let ghost pp = |p: PlainTypedParam| p.type_ident@ == a@;
        let ghost fp = |p: PlainTypedParam| (f.uri@, p.annotation_range);
        let mut j: usize = 0;
        while j < f.plain_typed_params.len()
            invariant
                j <= f.plain_typed_params@.len(),
                pp == (|p: PlainTypedParam| p.type_ident@ == a@),
                fp == (|p: PlainTypedParam| (f.uri@, p.annotation_range)),
                pair_views(out@) == base + f.plain_typed_params@.take(j as int).filter(pp).map_values(fp),
            decreases f.plain_typed_params@.len() - j,
        {
            let p = &f.plain_typed_params[j];
            proof {
                assert(f.plain_typed_params@.take(j + 1) =~= f.plain_typed_params@.take(j as int).push(*p));
                lemma_filter_map_push(f.plain_typed_params@.take(j as int), *p, pp, fp);
            }
            let ghost b = pair_views(out@);
            if p.type_ident == *a {
                out.push((f.uri.clone(), p.annotation_range));
                assert(pair_views(out@) =~= b.push((f.uri@, p.annotation_range)));
            }
            j += 1;
        }
        assert(f.plain_typed_params@.take(f.plain_typed_params@.len() as int) =~= f.plain_typed_params@);
        i += 1;
    }
    assert(files@.take(files@.len() as int) =~= files@);
    out
}

fn usage_lens(range: Range, uri: &String, locs: Vec<(String, Range)>) -> (r: Vec<Lens>)
    ensures
        lens_views(r@) == usage_lens_view(range, uri@, pair_views(locs@)),
{
    let mut out: Vec<Lens> = Vec::new();
    if locs.len() >= 2 {
        let title = counted_title(locs.len(), " usages", "");
        proof {
            reveal_strlit("");
            assert(counted(locs@.len(), " usages"@, ""@) =~= decimal(locs@.len()) + " usages"@);
        }
        let refs = ShowRefs { uri: uri.clone(), position: range.start, locations: locs };
        let l = Lens {
            range,
            command: Some(LensCommand { title, command: "editor.showReferences".to_owned(), references: Some(refs) }),
            route_ids: None,
        };
        out.push(l);
        assert(lens_views(out@) =~= seq![lens_view(l)]);
    } else {
        assert(lens_views(out@) =~= Seq::<LensView>::empty());
    }
    out
}

/// `N usages` above each dependency of the file used at least twice (see `usages`).
pub open spec fn dep_usage_views(defs: Seq<DepDef>, files: Seq<LensFileFacts>) -> Seq<LensView>
    decreases defs.len(),
{
    if defs.len() == 0 {
        Seq::empty()
    } else {
        let d = defs.last();
        dep_usage_views(defs.drop_last(), files) + usage_lens_view(d.node_id.range, d.node_id.uri@, usages(files, files, d.name@))
    }
}

/// Whether a node is on a dependency cycle.
pub open spec fn on_cycle(cycle_nodes: Seq<NodeId>, id: NodeId) -> bool {
    exists|k: int| 0 <= k < cycle_nodes.len() && (#[trigger] cycle_nodes[k])@ == id@
}

/// `⚠ in dependency cycle` above each dependency of the file that lies on a cycle.
pub open spec fn cycle_lens_views(defs: Seq<DepDef>, cycle_nodes: Seq<NodeId>) -> Seq<LensView>
    decreases defs.len(),
{
    if defs.len() == 0 {
        Seq::empty()
    } else {
        let d = defs.last();
        cycle_lens_views(defs.drop_last(), cycle_nodes) + if on_cycle(cycle_nodes, d.node_id) {
            seq![cmd_view(d.node_id.range, "⚠ in dependency cycle"@, "fastapi-lsp.depCycle"@)]
        } else {
            Seq::empty()
        }
    }
}

/// A graph node is the definition `id`.
pub open spec fn node_is(n: NodeId, id: NodeId) -> bool {
    n@ == id@
}

/// The number of places where the dependency at `id` is overridden.
pub open spec fn override_count(g: DepGraph, id: NodeId) -> nat {
    match first_match(g.nodes@, |n: NodeId| node_is(n, id)) {
        Some(k) => if k < g.override_sites@.len() {
            g.override_sites@[k]@.len()
        } else {
            0
        },
        None => 0,
    }
}

/// `N test override(s)` above each dependency of the file that tests override.
pub open spec fn override_lens_views(defs: Seq<DepDef>, g: DepGraph) -> Seq<LensView>
    decreases defs.len(),
{
    if defs.len() == 0 {
        Seq::empty()
    } else {
        let d = defs.last();
        let n = override_count(g, d.node_id);
        override_lens_views(defs.drop_last(), g) + if n > 0 {
            seq![cmd_view(d.node_id.range, counted(n, " test override"@, "s"@), "fastapi-lsp.depOverrides"@)]
        } else {
            Seq::empty()
        }
    }
}

/// A model class declared in a file.
#[derive(Clone, Debug)]
pub struct ModelFact {
    pub name: String,
    pub range: Range,
    /// A `BaseSettings` subclass rather than a response model.
    pub is_settings: bool,
}

/// The number of routes whose first record declares `name` as its model.
pub open spec fn model_count(ix: Seq<(RouteId, Vec<RouteRecord>)>, name: Seq<char>) -> nat
    decreases ix.len(),
{
    if ix.len() == 0 {
        0
    } else {
        let recs = ix.last().1@;
        model_count(ix.drop_last(), name) + if recs.len() > 0 && model_name_of(recs[0]) == Some(name) {
            1nat
        } else {
            0nat
        }
    }
}

/// `used in N route(s)` above each response model of the file that some route uses.
pub open spec fn model_lens_views(models: Seq<ModelFact>, ix: Seq<(RouteId, Vec<RouteRecord>)>) -> Seq<LensView>
    decreases models.len(),
{
    if models.len() == 0 {
        Seq::empty()
    } else {
        let m = models.last();
        let n = model_count(ix, m.name@);
        model_lens_views(models.drop_last(), ix) + if !m.is_settings && n > 0 {
            seq![cmd_view(m.range, "used in "@ + counted(n, " route"@, "s"@), "fastapi-lsp.modelRoutes"@)]
        } else {
            Seq::empty()
        }
    }
}

/// `N usages` above each dependency alias of the file used at least twice.
pub open spec fn alias_lens_views(aliases: Seq<(String, Range)>, files: Seq<LensFileFacts>, uri: Seq<char>) -> Seq<LensView>
    decreases aliases.len(),
{
    if aliases.len() == 0 {
        Seq::empty()
    } else {
        let a = aliases.last();
        alias_lens_views(aliases.drop_last(), files, uri) + usage_lens_view(a.1, uri, alias_usages(files, a.0@))
    }
}

fn push_lenses(out: &mut Vec<Lens>, more: Vec<Lens>)
    ensures
        lens_views(final(out)@) == lens_views(old(out)@) + lens_views(more@),
{
    let mut more = more;
    let ghost m = more@;
    let ghost o = out@;
    out.append(&mut more);
    assert(lens_views(out@) =~= lens_views(o) + lens_views(m));
}

/// Usage-count lenses for the dependencies of a file (see `dep_usage_views`).
pub fn dep_usage_lenses(defs: &[DepDef], files: &[LensFileFacts]) -> (r: Vec<Lens>)
    ensures
        lens_views(r@) == dep_usage_views(defs@, files@),
{
    let mut out: Vec<Lens> = Vec::new();
    let mut i: usize = 0;
    while i < defs.len()
        invariant
            i <= defs@.len(),
            lens_views(out@) == dep_usage_views(defs@.take(i as int), files@),
        decreases defs@.len() - i,
    {
        let d = &defs[i];
        assert(defs@.take(i + 1).drop_last() =~= defs@.take(i as int));
        assert(defs@.take(i + 1).last() == *d);
        let locs = collect_usages(files, &d.name);
        let more = usage_lens(d.node_id.range, &d.node_id.uri, locs);
        push_lenses(&mut out, more);
        i += 1;
    }
    assert(defs@.take(defs@.len() as int) =~= defs@);
    out
}

fn node_on_cycle(cycle_nodes: &[NodeId], id: &NodeId) -> (b: bool)
    ensures
        b == on_cycle(cycle_nodes@, *id),
{
    let mut i: usize = 0;
    while i < cycle_nodes.len()
        invariant
            i <= cycle_nodes@.len(),
            forall|k: int| 0 <= k < i ==> (#[trigger] cycle_nodes@[k])@ != id@,
        decreases cycle_nodes@.len() - i,
    {
        if cycle_nodes[i].same(id) {
            return true;
        }
        i += 1;
    }
    false
}

/// Cycle lenses for the dependencies of a file (see `cycle_lens_views`); `cycle_nodes`
/// are the nodes that lie on a cycle.
pub fn cycle_lenses(defs: &[DepDef], cycle_nodes: &[NodeId]) -> (r: Vec<Lens>)
    ensures
        lens_views(r@) == cycle_lens_views(defs@, cycle_nodes@),
{
    let mut out: Vec<Lens> = Vec::new();
    let mut i: usize = 0;
    while i < defs.len()
        invariant
            i <= defs@.len(),
            lens_views(out@) == cycle_lens_views(defs@.take(i as int), cycle_nodes@),
        decreases defs@.len() - i,
    {
        let d = &defs[i];
        assert(defs@.take(i + 1).drop_last() =~= defs@.take(i as int));
        assert(defs@.take(i + 1).last() == *d);
        let ghost before = lens_views(out@);
        if node_on_cycle(cycle_nodes, &d.node_id) {
            let l = plain_lens(d.node_id.range, "⚠ in dependency cycle".to_owned(), "fastapi-lsp.depCycle");
            out.push(l);
            assert(lens_views(out@) =~= before.push(lens_view(l)));
        }
        i += 1;
    }
    assert(defs@.take(defs@.len() as int) =~= defs@);
    out
}

fn count_overrides(g: &DepGraph, id: &NodeId) -> (n: usize)
    ensures
        n == override_count(*g, *id),
{
    let ghost p = |n: NodeId| node_is(n, *id);
    let mut k: usize = 0;
    while k < g.nodes.len()
        invariant
            k <= g.nodes@.len(),
            p == (|n: NodeId| node_is(n, *id)),
            forall|j: int| 0 <= j < k ==> !p(#[trigger] g.nodes@[j]),
        decreases g.nodes@.len() - k,
    {
        proof {
            lemma_first_match_step(g.nodes@, p, k as int);
        }
        if g.nodes[k].same(id) {
            if k < g.override_sites.len() {
                return g.override_sites[k].len();
            }
            return 0;
        }
        k += 1;
    }
    proof {
        lemma_first_match_none(g.nodes@, p);
    }
    0
}

/// Override lenses for the dependencies of a file (see `override_lens_views`).
pub fn override_lenses(defs: &[DepDef], g: &DepGraph) -> (r: Vec<Lens>)
    ensures
        lens_views(r@) == override_lens_views(defs@, *g),
{
    let mut out: Vec<Lens> = Vec::new();
    let mut i: usize = 0;
    while i < defs.len()
        invariant
            i <= defs@.len(),
            lens_views(out@) == override_lens_views(defs@.take(i as int), *g),
        decreases defs@.len() - i,
    {
        let d = &defs[i];
        assert(defs@.take(i + 1).drop_last() =~= defs@.take(i as int));
        assert(defs@.take(i + 1).last() == *d);
        let ghost before = lens_views(out@);
        let n = count_overrides(g, &d.node_id);
        if n > 0 {
            let title = counted_title(n, " test override", "s");
            let l = plain_lens(d.node_id.range, title, "fastapi-lsp.depOverrides");
            out.push(l);
            assert(lens_views(out@) =~= before.push(lens_view(l)));
        }
        i += 1;
    }
    assert(defs@.take(defs@.len() as int) =~= defs@);
    out
}

fn count_model(route_index: &RouteIndex, name: &String) -> (n: usize)
    ensures
        n == model_count(route_index@, name@),
{
    let mut n: usize = 0;
    let mut i: usize = 0;
    while i < route_index.len()
        invariant
            i <= route_index@.len(),
            n <= i,
            n == model_count(route_index@.take(i as int), name@),
        decreases route_index@.len() - i,
    {
        assert(route_index@.take(i + 1).drop_last() =~= route_index@.take(i as int));
        assert(route_index@.take(i + 1).last() == route_index@[i as int]);
        let recs = &route_index[i].1;
        if recs.len() > 0 {
            let r = &recs[0];
            let hit = match &r.response_model {
                Some(m) => *m == *name,
                None => match &r.return_annotation {
                    Some(a) => *a == *name,
                    None => false,
                },
            };
            if hit {
                n += 1;
            }
        }
        i += 1;
    }
    assert(route_index@.take(route_index@.len() as int) =~= route_index@);
    n
}

/// Model lenses for the models of a file (see `model_lens_views`).
pub fn model_lenses(models: &[ModelFact], route_index: &RouteIndex) -> (r: Vec<Lens>)
    ensures
        lens_views(r@) == model_lens_views(models@, route_index@),
{
    let mut out: Vec<Lens> = Vec::new();
    let mut i: usize = 0;
    while i < models.len()
        invariant
            i <= models@.len(),
            lens_views(out@) == model_lens_views(models@.take(i as int), route_index@),
        decreases models@.len() - i,
    {
        let m = &models[i];
        assert(models@.take(i + 1).drop_last() =~= models@.take(i as int));
        assert(models@.take(i + 1).last() == *m);
        let ghost before = lens_views(out@);
        if !m.is_settings {
            let n = count_model(route_index, &m.name);
            if n > 0 {
                let mut t = str_chars("used in ");
                let c = counted_title(n, " route", "s");
                let cc = str_chars(c.as_str());
                push_all(&mut t, cc.as_slice());
                let l = plain_lens(m.range, string_from_chars(t.as_slice()), "fastapi-lsp.modelRoutes");
                out.push(l);
                assert(lens_views(out@) =~= before.push(lens_view(l)));
            }
        }
        i += 1;
    }
    assert(models@.take(models@.len() as int) =~= models@);
    out
}

/// Usage lenses for the dependency aliases of a file (see `alias_lens_views`).
pub fn alias_lenses(aliases: &[(String, Range)], files: &[LensFileFacts], uri: &String) -> (r: Vec<Lens>)
    ensures
        lens_views(r@) == alias_lens_views(aliases@, files@, uri@),
{
    let mut out: Vec<Lens> = Vec::new();
    let mut i: usize = 0;
    while i < aliases.len()
        invariant
            i <= aliases@.len(),
            lens_views(out@) == alias_lens_views(aliases@.take(i as int), files@, uri@),
        decreases aliases@.len() - i,
    {
        let a = &aliases[i];
        assert(aliases@.take(i + 1).drop_last() =~= aliases@.take(i as int));
        assert(aliases@.take(i + 1).last() == *a);
        let locs = collect_alias_usages(files, &a.0);
        let more = usage_lens(a.1, uri, locs);
        push_lenses(&mut out, more);
        i += 1;
    }
    assert(aliases@.take(aliases@.len() as int) =~= aliases@);
    out
}

/// An entry of the test-reference counts for route `id`.
pub open spec fn ref_for(e: (RouteId, usize), id: Seq<char>) -> bool {
    e.0@ == id
}

/// The number of test references to route `id`: its first entry, or none.
pub open spec fn test_count(refs: Seq<(RouteId, usize)>, id: Seq<char>) -> nat {
    match first_match(refs, |e: (RouteId, usize)| ref_for(e, id)) {
        Some(k) => refs[k].1 as nat,
        None => 0,
    }
}

/// A record handled in file `uri`.
pub open spec fn handled_in(r: RouteRecord, uri: Seq<char>) -> bool {
    r.handler.uri@ == uri
}

/// A group of test-reference routes under the handler range `r`.
pub open spec fn group_at(g: (Range, Seq<Seq<char>>), r: Range) -> bool {
    g.0 == r
}

/// The groups with route `id` added under range `r`.
pub open spec fn add_group(gs: Seq<(Range, Seq<Seq<char>>)>, r: Range, id: Seq<char>) -> Seq<(Range, Seq<Seq<char>>)> {
    match first_match(gs, |g: (Range, Seq<Seq<char>>)| group_at(g, r)) {
        Some(k) => gs.update(k, (gs[k].0, gs[k].1.push(id))),
        None => gs.push((r, seq![id])),
    }
}

/// The routes with test references whose handler is in file `uri`, grouped by the handler
/// range of their first record in the file (several mounts of one handler count once).
pub open spec fn test_groups(ix: Seq<(RouteId, Vec<RouteRecord>)>, refs: Seq<(RouteId, usize)>, uri: Seq<char>) -> Seq<(Range, Seq<Seq<char>>)>
    decreases ix.len(),
{
    if ix.len() == 0 {
        Seq::empty()
    } else {
        let g = test_groups(ix.drop_last(), refs, uri);
        let (id, recs) = ix.last();
        if test_count(refs, id@) > 0 {
            match first_match(recs@, |r: RouteRecord| handled_in(r, uri)) {
                Some(k) => add_group(g, recs@[k].handler.range, id@),
                None => g,
            }
        } else {
            g
        }
    }
}

/// The unresolved lenses of the test-reference groups.
pub open spec fn group_lens_views(gs: Seq<(Range, Seq<Seq<char>>)>) -> Seq<LensView> {
    gs.map_values(|g: (Range, Seq<Seq<char>>)| (g.0, None, Some(g.1)))
}

/// The views of groups.
pub open spec fn group_views(gs: Seq<(Range, Vec<String>)>) -> Seq<(Range, Seq<Seq<char>>)> {
    gs.map_values(|g: (Range, Vec<String>)| (g.0, string_views(g.1@)))
}

fn count_refs(refs: &[(RouteId, usize)], id: &RouteId) -> (n: usize)
    ensures
        n == test_count(refs@, id@),
{
    let ghost p = |e: (RouteId, usize)| ref_for(e, id@);
    let mut k: usize = 0;
    while k < refs.len()
        invariant
            k <= refs@.len(),
            p == (|e: (RouteId, usize)| ref_for(e, id@)),
            forall|j: int| 0 <= j < k ==> !p(#[trigger] refs@[j]),
        decreases refs@.len() - k,
    {
        proof {
            lemma_first_match_step(refs@, p, k as int);
        }
        if refs[k].0 == *id {
            return refs[k].1;
        }
        k += 1;
    }
    proof {
        lemma_first_match_none(refs@, p);
    }
    0
}

fn first_handled(recs: &Vec<RouteRecord>, uri: &String) -> (r: Option<usize>)
    ensures
        match r {
            Some(k) => first_match(recs@, |x: RouteRecord| handled_in(x, uri@)) == Some(k as int),
            None => first_match(recs@, |x: RouteRecord| handled_in(x, uri@)) is None,
        },
{
    let ghost p = |x: RouteRecord| handled_in(x, uri@);
    let mut k: usize = 0;
    while k < recs.len()
        invariant
            k <= recs@.len(),
            p == (|x: RouteRecord| handled_in(x, uri@)),
            forall|j: int| 0 <= j < k ==> !p(#[trigger] recs@[j]),
        decreases recs@.len() - k,
    {
        proof {
            lemma_first_match_step(recs@, p, k as int);
        }
        if recs[k].handler.uri == *uri {
            return Some(k);
        }
        k += 1;
    }
    proof {
        lemma_first_match_none(recs@, p);
    }
    None
}

fn add_to_groups(groups: &mut Vec<(Range, Vec<String>)>, r: Range, id: &RouteId)
    ensures
        group_views(final(groups)@) == add_group(group_views(old(groups)@), r, id@),
{
    let ghost g0 = groups@;
    let ghost gv = group_views(groups@);
    let ghost p = |g: (Range, Seq<Seq<char>>)| group_at(g, r);
    let mut k: usize = 0;
    while k < groups.len()
        invariant
            k <= groups@.len(),
            groups@ == g0,
            gv == group_views(g0),
            p == (|g: (Range, Seq<Seq<char>>)| group_at(g, r)),
            forall|j: int| 0 <= j < k ==> !p(#[trigger] gv[j]),
        ensures
            k <= groups@.len(),
            groups@ == g0,
            forall|j: int| 0 <= j < k ==> !p(#[trigger] gv[j]),
            k < groups@.len() ==> p(gv[k as int]),
        decreases groups@.len() - k,
    {
        if groups[k].0 == r {
            break;
        }
        k += 1;
    }
    if k < groups.len() {
        proof {
            lemma_first_match_step(gv, p, k as int);
        }
        let s = id.0.clone();
        groups[k].1.push(s);
        proof {
            assert(groups@[k as int].1@ == g0[k as int].1@.push(s));
            assert(string_views(groups@[k as int].1@) =~= string_views(g0[k as int].1@).push(id@));
            assert forall|j: int| 0 <= j < groups@.len() && j != k implies #[trigger] groups@[j] == g0[j] by {}
            assert(group_views(groups@) =~= gv.update(k as int, (gv[k as int].0, gv[k as int].1.push(id@))));
        }
    } else {
        proof {
            lemma_first_match_none(gv, p);
        }
        let mut ids: Vec<String> = Vec::new();
        ids.push(id.0.clone());
        assert(string_views(ids@) =~= seq![id@]);
        groups.push((r, ids));
        assert(group_views(groups@) =~= gv.push((r, seq![id@])));
    }
}

/// The test-reference groups of file `uri` (see `test_groups`); `refs` gives the number
/// of test references of each route.
pub fn collect_test_groups(route_index: &RouteIndex, refs: &[(RouteId, usize)], uri: &String) -> (r: Vec<(Range, Vec<String>)>)
    ensures
        group_views(r@) == test_groups(route_index@, refs@, uri@),
{
    let mut groups: Vec<(Range, Vec<String>)> = Vec::new();
    let mut i: usize = 0;
    while i < route_index.len()
        invariant
            i <= route_index@.len(),
            group_views(groups@) == test_groups(route_index@.take(i as int), refs@, uri@),
        decreases route_index@.len() - i,
    {
        assert(route_index@.take(i + 1).drop_last() =~= route_index@.take(i as int));
        assert(route_index@.take(i + 1).last() == route_index@[i as int]);
        let id = &route_index[i].0;
        let recs = &route_index[i].1;
        if count_refs(refs, id) > 0 {
            match first_handled(recs, uri) {
                Some(k) => {
                    proof {
                        lemma_first_match_bound(recs@, |x: RouteRecord| handled_in(x, uri@));
                    }
                    add_to_groups(&mut groups, recs[k].handler.range, id);
                },
                None => {},
            }
        }
        i += 1;
    }
    assert(route_index@.take(route_index@.len() as int) =~= route_index@);
    groups
}

/// `a` does not start after `b`.
pub open spec fn starts_no_later(a: LensView, b: LensView) -> bool {
    a.0.start.line < b.0.start.line || (a.0.start.line == b.0.start.line && a.0.start.character <= b.0.start.character)
}

/// `s` with `x` placed after every lens that starts no later than `x`.
pub open spec fn insert_lens(s: Seq<LensView>, x: LensView) -> Seq<LensView>
    decreases s.len(),
{
    if s.len() == 0 || starts_no_later(s.last(), x) {
        s.push(x)
    } else {
        insert_lens(s.drop_last(), x).push(s.last())
    }
}

/// The lenses stably sorted by start position.
pub open spec fn sort_lenses(s: Seq<LensView>) -> Seq<LensView>
    decreases s.len(),
{
    if s.len() == 0 {
        s
    } else {
        insert_lens(sort_lenses(s.drop_last()), s.last())
    }
}

fn insert_sorted(v: &mut Vec<Lens>, x: Lens)
    ensures
        lens_views(final(v)@) == insert_lens(lens_views(old(v)@), lens_view(x)),
{
    let ghost s = lens_views(v@);
    let ghost xv = lens_view(x);
    let mut k = v.len();
    assert(s.take(k as int) =~= s);
    while k > 0 && !(v[k - 1].range.start.line < x.range.start.line || (v[k - 1].range.start.line == x.range.start.line
        && v[k - 1].range.start.character <= x.range.start.character))
        invariant
            k <= s.len(),
            lens_views(v@) == s,
            xv == lens_view(x),
            insert_lens(s, xv) == insert_lens(s.take(k as int), xv) + s.skip(k as int),
        decreases k,
    {
        proof {
            let t = s.take(k as int);
            assert(t.drop_last() =~= s.take(k - 1));
            assert(t.last() == s[k - 1]);
            assert(s.skip(k - 1) =~= seq![s[k - 1]] + s.skip(k as int));
            assert(insert_lens(s.take(k - 1), xv).push(s[k - 1]) + s.skip(k as int) =~= insert_lens(s.take(k - 1), xv) + s.skip(k - 1));
        }
        k -= 1;
    }
    proof {
        let t = s.take(k as int);
        assert(insert_lens(t, xv) == t.push(xv));
        assert(t.push(xv) + s.skip(k as int) =~= s.insert(k as int, xv));
    }
    v.insert(k, x);
    assert(lens_views(v@) =~= s.insert(k as int, xv));
}

/// Sorts lenses stably by start position (see `sort_lenses`).
pub fn sort_lens_list(lenses: Vec<Lens>) -> (r: Vec<Lens>)
    ensures
        lens_views(r@) == sort_lenses(lens_views(lenses@)),
{
    let mut input = lenses;
    let ghost all = lens_views(input@);
    let n0 = input.len();
    assert(all.len() == n0);
    let mut out: Vec<Lens> = Vec::new();
    let mut taken: usize = 0;
    while input.len() > 0
        invariant
            taken + input@.len() == all.len(),
            all.len() <= usize::MAX,
            lens_views(input@) == all.skip(taken as int),
            lens_views(out@) == sort_lenses(all.take(taken as int)),
        decreases input@.len(),
    {
        let ghost before = input@;
        let x = input.remove(0);
        proof {
            assert(all.take(taken + 1).drop_last() =~= all.take(taken as int));
            assert(lens_views(before)[0] == lens_view(x));
            assert(all.take(taken + 1).last() == lens_view(x));
        }
        insert_sorted(&mut out, x);
        taken += 1;
        assert forall|j: int| 0 <= j < input@.len() implies #[trigger] lens_views(input@)[j] == all.skip(taken as int)[j] by {
            assert(input@[j] == before[j + 1]);
            assert(lens_views(before)[j + 1] == all.skip(taken - 1)[j + 1]);
        }
        assert(lens_views(input@) =~= all.skip(taken as int));
    }
    assert(all.take(all.len() as int) =~= all);
    out
}

/// What the lenses read of the whole workspace.
#[derive(Debug)]
pub struct LensWorkspace {
    pub files: Vec<LensFileFacts>,
    pub route_index: RouteIndex,
    /// The number of test references of each route.
    pub test_ref_counts: Vec<(RouteId, usize)>,
    /// The nodes that lie on a dependency cycle.
    pub cycle_nodes: Vec<NodeId>,
    pub dep_graph: DepGraph,
}

/// What the lenses read of the file they are for.
#[derive(Clone, Debug)]
pub struct LensFile {
    pub uri: String,
    pub dep_defs: Vec<DepDef>,
    pub routers: Vec<RouterDecl>,
    /// The objects the file's routes are registered on, one per route.
    pub route_objects: Vec<String>,
    pub models: Vec<ModelFact>,
    /// The dependency aliases the file defines, with their ranges.
    pub dep_type_alias_ranges: Vec<(String, Range)>,
}

/// All lenses of a file, sorted stably by start position: test-reference groups,
/// dependency usages, router route counts, cycle notes, model route counts, test
/// overrides and alias usages.
pub open spec fn code_lens_views(ws: LensWorkspace, f: LensFile) -> Seq<LensView> {
    sort_lenses(
        group_lens_views(test_groups(ws.route_index@, ws.test_ref_counts@, f.uri@))
            + dep_usage_views(f.dep_defs@, ws.files@)
            + router_lens_views(f.routers@, string_views(f.route_objects@))
            + cycle_lens_views(f.dep_defs@, ws.cycle_nodes@)
            + model_lens_views(f.models@, ws.route_index@)
            + override_lens_views(f.dep_defs@, ws.dep_graph)
            + alias_lens_views(f.dep_type_alias_ranges@, ws.files@, f.uri@),
    )
}

/// The code lenses of a file (see `code_lens_views`).
pub fn code_lenses(ws: &LensWorkspace, f: &LensFile) -> (r: Vec<Lens>)
    ensures
        lens_views(r@) == code_lens_views(*ws, *f),
{
    let groups = collect_test_groups(&ws.route_index, ws.test_ref_counts.as_slice(), &f.uri);
    let mut lenses: Vec<Lens> = Vec::new();
    let mut i: usize = 0;
    while i < groups.len()
        invariant
            i <= groups@.len(),
            lens_views(lenses@) == group_lens_views(group_views(groups@).take(i as int)),
        decreases groups@.len() - i,
    {
        let ghost before = lens_views(lenses@);
        let mut ids: Vec<String> = Vec::new();
        let mut j: usize = 0;
        while j < groups[i].1.len()
            invariant
                j <= groups@[i as int].1@.len(),
                i < groups@.len(),
                ids@.len() == j,
                forall|m: int| 0 <= m < j ==> #[trigger] ids@[m]@ == groups@[i as int].1@[m]@,
            decreases groups@[i as int].1@.len() - j,
        {
            ids.push(groups[i].1[j].clone());
            j += 1;
        }
        assert(string_views(ids@) =~= string_views(groups@[i as int].1@));
        let l = Lens { range: groups[i].0, command: None, route_ids: Some(ids) };
        lenses.push(l);
        proof {
            let gvs = group_views(groups@);
            assert(gvs[i as int] == (groups@[i as int].0, string_views(groups@[i as int].1@)));
            assert(lens_view(l) == (gvs[i as int].0, None::<(Seq<char>, Seq<char>, Option<(Seq<char>, Position, Seq<(Seq<char>, Range)>)>)>, Some(gvs[i as int].1)));
            assert(gvs.take(i + 1) =~= gvs.take(i as int).push(gvs[i as int]));
            assert(group_lens_views(gvs.take(i + 1)) =~= group_lens_views(gvs.take(i as int)).push(lens_view(l)));
        }
        assert(lens_views(lenses@) =~= group_lens_views(group_views(groups@).take(i + 1)));
        i += 1;
    }
    assert(group_views(groups@).take(groups@.len() as int) =~= group_views(groups@));
    push_lenses(&mut lenses, dep_usage_lenses(f.dep_defs.as_slice(), ws.files.as_slice()));
    push_lenses(&mut lenses, router_lenses(f.routers.as_slice(), f.route_objects.as_slice()));
    push_lenses(&mut lenses, cycle_lenses(f.dep_defs.as_slice(), ws.cycle_nodes.as_slice()));
    push_lenses(&mut lenses, model_lenses(f.models.as_slice(), &ws.route_index));
    push_lenses(&mut lenses, override_lenses(f.dep_defs.as_slice(), &ws.dep_graph));
    push_lenses(&mut lenses, alias_lenses(f.dep_type_alias_ranges.as_slice(), ws.files.as_slice(), &f.uri));
    sort_lens_list(lenses)
}

/// The total number of test references of the routes.
pub open spec fn total_refs(refs: Seq<(RouteId, usize)>, ids: Seq<Seq<char>>) -> nat
    decreases ids.len(),
{
    if ids.len() == 0 {
        0
    } else {
        total_refs(refs, ids.drop_last()) + test_count(refs, ids.last())
    }
}

/// A lens with its test references counted: unchanged when it has no routes or they have
/// no references; else `▶ N test reference(s)` running `fastapi-lsp.showTestRefs`.
pub open spec fn resolved_view(l: LensView, refs: Seq<(RouteId, usize)>) -> LensView {
    match l.2 {
        Some(ids) => {
            let n = total_refs(refs, ids);
            if n == 0 {
                l
            } else {
                (l.0, Some(("▶ "@ + counted(n, " test reference"@, "s"@), "fastapi-lsp.showTestRefs"@, None)), l.2)
            }
        },
        None => l,
    }
}

fn route_id_of(s: &String) -> (r: RouteId)
    ensures
        r@ == s@,
{
    RouteId(s.clone())
}

/// Fills in the command of a lens from `code_lenses` (see `resolved_view`); the total
/// must fit in a `usize`.
pub fn resolve(lens: Lens, refs: &[(RouteId, usize)]) -> (r: Lens)
    requires
        lens.route_ids matches Some(ids) ==> total_refs(refs@, string_views(ids@)) <= usize::MAX,
    ensures
        lens_view(r) == resolved_view(lens_view(lens), refs@),
{
    let n: usize = match &lens.route_ids {
        Some(ids) => {
            let ghost iv = string_views(ids@);
            let mut n: usize = 0;
            let mut i: usize = 0;
            while i < ids.len()
                invariant
                    i <= ids@.len(),
                    iv == string_views(ids@),
                    total_refs(refs@, iv) <= usize::MAX,
                    n == total_refs(refs@, iv.take(i as int)),
                decreases ids@.len() - i,
            {
                assert(iv.take(i + 1).drop_last() =~= iv.take(i as int));
                assert(iv.take(i + 1).last() == ids@[i as int]@);
                proof {
                    lemma_total_prefix(refs@, iv, i + 1);
                }
                let id = route_id_of(&ids[i]);
                let c = count_refs(refs, &id);
                n = n + c;
                i += 1;
            }
            assert(iv.take(ids@.len() as int) =~= iv);
            n
        },
        None => 0,
    };
    if n == 0 {
        return lens;
    }
    let mut t = str_chars("▶ ");
    let c = counted_title(n, " test reference", "s");
    let cc = str_chars(c.as_str());
    push_all(&mut t, cc.as_slice());
    Lens {
        range: lens.range,
        command: Some(LensCommand {
            title: string_from_chars(t.as_slice()),
            command: "fastapi-lsp.showTestRefs".to_owned(),
            references: None,
        }),
        route_ids: lens.route_ids,
    }
}

proof fn lemma_total_prefix(refs: Seq<(RouteId, usize)>, ids: Seq<Seq<char>>, k: int)
    requires
        0 <= k <= ids.len(),
    ensures
        total_refs(refs, ids.take(k)) <= total_refs(refs, ids),
    decreases ids.len() - k,
{
    if k < ids.len() {
        lemma_total_prefix(refs, ids, k + 1);
        assert(ids.take(k + 1).drop_last() =~= ids.take(k));
    } else {
        assert(ids.take(k) =~= ids);
    }
}

} // verus!
