//! Hover cards: what uses a dependency and what it uses, how many routes a router include
//! mounts, and the summary of a route.
use vstd::prelude::*;
use crate::position::{Range, Position, Location, in_range, position_in_range};
use crate::routing::{RouteId, RouteRecord, RouteIndex, ResolvedPath, ChainLink, PathParam};
use crate::checks::{method_name, method_str};
use crate::deps::{DepDef, DepRef, NodeId, DepGraph, FileDeps};
use crate::checks::{first_match, lemma_first_match_step, lemma_first_match_none, lemma_first_match_bound, somes, derefs};
use crate::text::{starts_with, slice_chars, contains_str, str_chars, string_from_chars, push_all, string_views, is_prefix, join_with, join_chars, views, split_on, split_chars};
use crate::joining::{decimal, push_decimal};
use crate::report::plural;
use crate::params::{last_index, trim_leading};
use crate::analysis::{node_name, dep_node_name, index_records, all_refs};
use crate::lenses::{LensFileFacts, PlainTypedParam, node_is};
use crate::mounts::{PrefixValue, alias_original, find_alias};
use crate::analysis::{after_last_dot, bare_name};

verus! {

broadcast use vstd::string::group_string_axioms;

/// `a` sorts before or equal to `b` (`String` order: by characters).
pub open spec fn str_le(a: Seq<char>, b: Seq<char>) -> bool
    decreases a.len(),
{
    if a.len() == 0 {
        true
    } else if b.len() == 0 {
        false
    } else if a[0] != b[0] {
        (a[0] as u32) < (b[0] as u32)
    } else {
        str_le(a.drop_first(), b.drop_first())
    }
}

/// Whether `a` sorts before or equal to `b` (see `str_le`).
pub fn chars_le(a: &[char], b: &[char]) -> (r: bool)
    ensures
        r == str_le(a@, b@),
{
    let mut i: usize = 0;
    assert(a@.skip(0) =~= a@);
    assert(b@.skip(0) =~= b@);
    while i < a.len()
        invariant
            i <= a@.len(),
            i <= b@.len(),
            str_le(a@, b@) == str_le(a@.skip(i as int), b@.skip(i as int)),
        decreases a@.len() - i,
    {
        if i == b.len() {
            return false;
        }
        if a[i] != b[i] {
            return (a[i] as u32) < (b[i] as u32);
        }
        proof {
            assert(a@.skip(i as int).drop_first() =~= a@.skip(i + 1));
            assert(b@.skip(i as int).drop_first() =~= b@.skip(i + 1));
        }
        i += 1;
    }
    true
}

/// A sorted list without repeats with `x` added in its place (unchanged when present).
pub open spec fn insert_uniq(s: Seq<Seq<char>>, x: Seq<char>) -> Seq<Seq<char>>
    decreases s.len(),
{
    if s.len() == 0 {
        seq![x]
    } else if s.last() == x {
        s
    } else if str_le(s.last(), x) {
        s.push(x)
    } else {
        insert_uniq(s.drop_last(), x).push(s.last())
    }
}

/// The distinct strings of `s`, sorted.
pub open spec fn sorted_set(s: Seq<Seq<char>>) -> Seq<Seq<char>>
    decreases s.len(),
{
    if s.len() == 0 {
        Seq::empty()
    } else {
        insert_uniq(sorted_set(s.drop_last()), s.last())
    }
}

fn insert_uniq_into(v: &mut Vec<String>, x: String)
    ensures
        string_views(final(v)@) == insert_uniq(string_views(old(v)@), x@),
{
    let ghost s = string_views(v@);
    let xc = str_chars(x.as_str());
    let mut k = v.len();
    assert(s.take(k as int) =~= s);
    while k > 0
        invariant
            k <= s.len(),
            string_views(v@) == s,
            s == string_views(old(v)@),
            xc@ == x@,
            insert_uniq(s, x@) == insert_uniq(s.take(k as int), x@) + s.skip(k as int),
        decreases k,
    {
        let t = str_chars(v[k - 1].as_str());
        proof {
            let tk = s.take(k as int);
            assert(tk.last() == s[k - 1]);
            assert(tk.drop_last() =~= s.take(k - 1));
        }
        if v[k - 1] == x {
            proof {
                let tk = s.take(k as int);
                assert(insert_uniq(tk, x@) == tk);
                assert(tk + s.skip(k as int) =~= s);
            }
            return;
        }
        if chars_le(t.as_slice(), xc.as_slice()) {
            proof {
                let tk = s.take(k as int);
                assert(insert_uniq(tk, x@) == tk.push(x@));
                assert(tk.push(x@) + s.skip(k as int) =~= s.insert(k as int, x@));
            }
            v.insert(k, x);
            assert(string_views(v@) =~= s.insert(k as int, x@));
            return;
        }
        proof {
            assert(s.skip(k - 1) =~= seq![s[k - 1]] + s.skip(k as int));
            assert(insert_uniq(s.take(k - 1), x@).push(s[k - 1]) + s.skip(k as int) =~= insert_uniq(s.take(k - 1), x@) + s.skip(k - 1));
        }
        k -= 1;
    }
    proof {
        assert(s.take(0) =~= Seq::<Seq<char>>::empty());
        assert(seq![x@] + s.skip(0) =~= s.insert(0, x@));
    }
    v.insert(0, x);
    assert(string_views(v@) =~= s.insert(0, x@));
}

/// The distinct strings, sorted (see `sorted_set`).
pub fn sorted_unique(items: Vec<String>) -> (r: Vec<String>)
    ensures
        string_views(r@) == sorted_set(string_views(items@)),
{
    let ghost all = string_views(items@);
    let mut out: Vec<String> = Vec::new();
    let mut i: usize = 0;
    while i < items.len()
        invariant
            i <= items@.len(),
            all == string_views(items@),
            string_views(out@) == sorted_set(all.take(i as int)),
        decreases items@.len() - i,
    {
        assert(all.take(i + 1).drop_last() =~= all.take(i as int));
        assert(all.take(i + 1).last() == items@[i as int]@);
        insert_uniq_into(&mut out, items[i].clone());
        i += 1;
    }
    assert(all.take(items@.len() as int) =~= all);
    out
}

/// The handler function a route's card is keyed by, read from its identifier
/// `<uri>:<function>:<METHOD>`; the route name when the identifier has another shape.
pub open spec fn display_key(r: RouteRecord) -> Seq<char> {
    let id = r.id@;
    let u = r.handler.uri@;
    if is_prefix(u, id) {
        let rest = trim_leading(id.skip(u.len() as int), ':');
        match last_index(rest, ':') {
            Some(p) => rest.take(p),
            None => r.name@,
        }
    } else {
        r.name@
    }
}

/// The route name shown for handler function `f`: that of the last record keyed by it.
pub open spec fn display_of(recs: Seq<RouteRecord>, f: Seq<char>) -> Option<Seq<char>>
    decreases recs.len(),
{
    if recs.len() == 0 {
        None
    } else if display_key(recs.last()) == f {
        Some(recs.last().name@)
    } else {
        display_of(recs.drop_last(), f)
    }
}

fn display_key_of(r: &RouteRecord) -> (h: String)
    ensures
        h@ == display_key(*r),
{
    let id = str_chars(r.id.0.as_str());
    let u = str_chars(r.handler.uri.as_str());
    if !starts_with(&id, &u) {
        return r.name.clone();
    }
    let mut a = u.len();
    assert(trim_leading(id@.skip(u@.len() as int), ':') == trim_leading(id@.skip(a as int), ':')) by {
        assert(id@.skip(u@.len() as int) =~= id@.skip(a as int));
    }
    while a < id.len() && id[a] == ':'
        invariant
            u@.len() <= a <= id@.len(),
            trim_leading(id@.skip(u@.len() as int), ':') == trim_leading(id@.skip(a as int), ':'),
        decreases id@.len() - a,
    {
        assert(id@.skip(a as int).drop_first() =~= id@.skip(a + 1));
        a += 1;
    }
    let rest = slice_chars(&id, a, id.len());
    assert(rest@ =~= id@.skip(a as int));
    assert(rest@ == trim_leading(rest@, ':'));
    let mut b = rest.len();
    assert(rest@.take(b as int) =~= rest@);
    while b > 0 && rest[b - 1] != ':'
        invariant
            b <= rest@.len(),
            last_index(rest@, ':') == last_index(rest@.take(b as int), ':'),
        decreases b,
    {
        assert(rest@.take(b as int).drop_last() =~= rest@.take(b - 1));
        b -= 1;
    }
    if b == 0 {
        r.name.clone()
    } else {
        assert(rest@.take(b as int).last() == ':');
        let t = slice_chars(&rest, 0, b - 1);
        string_from_chars(t.as_slice())
    }
}

/// The displayed route name for handler function `f` (see `display_of`).
fn find_display(all: &Vec<&RouteRecord>, f: &String) -> (r: Option<String>)
    ensures
        match r {
            Some(d) => display_of(derefs(all@), f@) == Some(d@),
            None => display_of(derefs(all@), f@) is None,
        },
{
    let ghost al = derefs(all@);
    let mut k: usize = all.len();
    assert(al.take(k as int) =~= al);
    while k > 0
        invariant
            k <= al.len(),
            al == derefs(all@),
            display_of(al, f@) == display_of(al.take(k as int), f@),
        decreases k,
    {
        let r: &RouteRecord = all[k - 1];
        assert(al.take(k as int).drop_last() =~= al.take(k - 1));
        assert(al.take(k as int).last() == *r);
        let key = display_key_of(r);
        if key == *f {
            return Some(r.name.clone());
        }
        k -= 1;
    }
    None
}

/// The names of the routes declaring `name` in `dependencies=`.
pub open spec fn direct_users(recs: Seq<RouteRecord>, name: Seq<char>) -> Seq<Seq<char>>
    decreases recs.len(),
{
    if recs.len() == 0 {
        Seq::empty()
    } else {
        direct_users(recs.drop_last(), name) + if string_views(recs.last().dependencies@).contains(name) {
            seq![recs.last().name@]
        } else {
            Seq::empty()
        }
    }
}

/// The routes whose handler references `name` in a parameter, as displayed.
pub open spec fn ref_users(refs: Seq<DepRef>, recs: Seq<RouteRecord>, name: Seq<char>) -> Seq<Seq<char>>
    decreases refs.len(),
{
    if refs.len() == 0 {
        Seq::empty()
    } else {
        let r = refs.last();
        ref_users(refs.drop_last(), recs, name) + if r.name@ == name {
            match r.containing_func {
                Some(c) => match display_of(recs, c@) {
                    Some(d) => seq![d],
                    None => Seq::empty(),
                },
                None => Seq::empty(),
            }
        } else {
            Seq::empty()
        }
    }
}

/// `a` is an alias of dependency `name` in some file.
pub open spec fn is_alias_of(files: Seq<LensFileFacts>, a: Seq<char>, name: Seq<char>) -> bool {
    exists|i: int, j: int|
        0 <= i < files.len() && 0 <= j < files[i].dep_type_aliases@.len() && (#[trigger] files[i].dep_type_aliases@[j]).0@ == a
            && files[i].dep_type_aliases@[j].1@ == name
}

/// The routes whose handler types a parameter with an alias of `name`, as displayed.
pub open spec fn alias_users(ps: Seq<PlainTypedParam>, files: Seq<LensFileFacts>, recs: Seq<RouteRecord>, name: Seq<char>) -> Seq<Seq<char>>
    decreases ps.len(),
{
    if ps.len() == 0 {
        Seq::empty()
    } else {
        let p = ps.last();
        alias_users(ps.drop_last(), files, recs, name) + if is_alias_of(files, p.type_ident@, name) {
            match display_of(recs, p.containing_func@) {
                Some(d) => seq![d],
                None => Seq::empty(),
            }
        } else {
            Seq::empty()
        }
    }
}

/// The route users found in each file, file by file.
pub open spec fn file_users(fs: Seq<LensFileFacts>, files: Seq<LensFileFacts>, recs: Seq<RouteRecord>, name: Seq<char>) -> Seq<Seq<char>>
    decreases fs.len(),
{
    if fs.len() == 0 {
        Seq::empty()
    } else {
        file_users(fs.drop_last(), files, recs, name) + ref_users(fs.last().dep_refs@, recs, name)
    }
}

/// The alias users found in each file, file by file.
pub open spec fn file_alias_users(fs: Seq<LensFileFacts>, files: Seq<LensFileFacts>, recs: Seq<RouteRecord>, name: Seq<char>) -> Seq<Seq<char>>
    decreases fs.len(),
{
    if fs.len() == 0 {
        Seq::empty()
    } else {
        file_alias_users(fs.drop_last(), files, recs, name) + alias_users(fs.last().plain_typed_params@, files, recs, name)
    }
}

/// The routes using dependency `name`, by displayed name, sorted and without repeats.
pub open spec fn using_routes(recs: Seq<RouteRecord>, files: Seq<LensFileFacts>, name: Seq<char>) -> Seq<Seq<char>> {
    sorted_set(direct_users(recs, name) + file_users(files, files, recs, name) + file_alias_users(files, files, recs, name))
}

fn has_alias(files: &[LensFileFacts], a: &String, name: &String) -> (b: bool)
    ensures
        b == is_alias_of(files@, a@, name@),
{
    let mut i: usize = 0;
    while i < files.len()
        invariant
            i <= files@.len(),
            forall|i2: int, j: int|
                0 <= i2 < i && 0 <= j < files@[i2].dep_type_aliases@.len() ==> !((#[trigger] files@[i2].dep_type_aliases@[j]).0@ == a@
                    && files@[i2].dep_type_aliases@[j].1@ == name@),
        decreases files@.len() - i,
    {
        let al = &files[i].dep_type_aliases;
        let mut j: usize = 0;
        while j < al.len()
            invariant
                j <= al@.len(),
                i < files@.len(),
                al == &files@[i as int].dep_type_aliases,
                forall|i2: int, j2: int|
                    0 <= i2 < i && 0 <= j2 < files@[i2].dep_type_aliases@.len() ==> !((#[trigger] files@[i2].dep_type_aliases@[j2]).0@ == a@
                        && files@[i2].dep_type_aliases@[j2].1@ == name@),
                forall|j2: int| 0 <= j2 < j ==> !((#[trigger] al@[j2]).0@ == a@ && al@[j2].1@ == name@),
            decreases al@.len() - j,
        {
            if al[j].0 == *a && al[j].1 == *name {
                assert(files@[i as int].dep_type_aliases@[j as int].0@ == a@);
                return true;
            }
            j += 1;
        }
        i += 1;
    }
    false
}

/// The routes using dependency `name` (see `using_routes`); `route_index` holds all
/// routes, `files` what each file references.
pub fn collect_using_routes(route_index: &RouteIndex, files: &[LensFileFacts], name: &String) -> (r: Vec<String>)
    ensures
        string_views(r@) == using_routes(index_records(route_index@), files@, name@),
{
    let all = all_refs(route_index);
    let ghost recs = derefs(all@);
    let mut users: Vec<String> = Vec::new();
    // Routes declaring it.
    let mut i: usize = 0;
    while i < all.len()
        invariant
            i <= recs.len(),
            recs == derefs(all@),
            string_views(users@) == direct_users(recs.take(i as int), name@),
        decreases recs.len() - i,
    {
        let r: &RouteRecord = all[i];
        assert(recs.take(i + 1).drop_last() =~= recs.take(i as int));
        assert(recs.take(i + 1).last() == *r);
        if contains_str(r.dependencies.as_slice(), name.as_str()) {
            let ghost b = string_views(users@);
            users.push(r.name.clone());
            assert(string_views(users@) =~= b.push(r.name@));
        }
        i += 1;
    }
    assert(recs.take(recs.len() as int) =~= recs);
    let ghost d_users = string_views(users@);
    // Handlers referencing it.
    let mut i: usize = 0;
    while i < files.len()
        invariant
            i <= files@.len(),
            recs == derefs(all@),
            string_views(users@) == d_users + file_users(files@.take(i as int), files@, recs, name@),
        decreases files@.len() - i,
    {
        let f = &files[i];
        assert(files@.take(i + 1).drop_last() =~= files@.take(i as int));
        assert(files@.take(i + 1).last() == *f);
        let ghost base = string_views(users@);
        let mut j: usize = 0;
        while j < f.dep_refs.len()
            invariant
                j <= f.dep_refs@.len(),
                recs == derefs(all@),
                string_views(users@) == base + ref_users(f.dep_refs@.take(j as int), recs, name@),
            decreases f.dep_refs@.len() - j,
        {
            let r = &f.dep_refs[j];
            assert(f.dep_refs@.take(j + 1).drop_last() =~= f.dep_refs@.take(j as int));
            assert(f.dep_refs@.take(j + 1).last() == *r);
            let ghost b = string_views(users@);
            if r.name == *name {
                match &r.containing_func {
                    Some(c) => match find_display(&all, c) {
                        Some(d) => {
                            users.push(d);
                            assert(string_views(users@) =~= b.push(users@.last()@));
                        },
                        None => {},
                    },
                    None => {},
                }
            }
            j += 1;
        }
        assert(f.dep_refs@.take(f.dep_refs@.len() as int) =~= f.dep_refs@);
        i += 1;
    }
    assert(files@.take(files@.len() as int) =~= files@);
    let ghost f_users = string_views(users@);
    // Handlers typing a parameter with one of its aliases.
    let mut i: usize = 0;
    while i < files.len()
        invariant
            i <= files@.len(),
            recs == derefs(all@),
            string_views(users@) == f_users + file_alias_users(files@.take(i as int), files@, recs, name@),
        decreases files@.len() - i,
    {
        let f = &files[i];
        assert(files@.take(i + 1).drop_last() =~= files@.take(i as int));
        assert(files@.take(i + 1).last() == *f);
        let ghost base = string_views(users@);
        let mut j: usize = 0;
        while j < f.plain_typed_params.len()
            invariant
                j <= f.plain_typed_params@.len(),
                recs == derefs(all@),
                string_views(users@) == base + alias_users(f.plain_typed_params@.take(j as int), files@, recs, name@),
            decreases f.plain_typed_params@.len() - j,
        {
            let p = &f.plain_typed_params[j];
            assert(f.plain_typed_params@.take(j + 1).drop_last() =~= f.plain_typed_params@.take(j as int));
            assert(f.plain_typed_params@.take(j + 1).last() == *p);
            let ghost b = string_views(users@);
            if has_alias(files, &p.type_ident, name) {
                match find_display(&all, &p.containing_func) {
                    Some(d) => {
                        users.push(d);
                        assert(string_views(users@) =~= b.push(users@.last()@));
                    },
                    None => {},
                }
            }
            j += 1;
        }
        assert(f.plain_typed_params@.take(f.plain_typed_params@.len() as int) =~= f.plain_typed_params@);
        i += 1;
    }
    assert(files@.take(files@.len() as int) =~= files@);
    sorted_unique(users)
}

/// The names of the nodes with the given indices that have a definition (see
/// `node_name`), in order.
pub open spec fn named_nodes(g: DepGraph, idxs: Seq<usize>, dep_files: Seq<FileDeps>) -> Seq<Seq<char>> {
    somes(idxs.map_values(|j: usize| if j < g.nodes@.len() {
        node_name(dep_files, g.nodes@[j as int])
    } else {
        None
    }))
}

/// The position of dependency `id` in the graph.
pub open spec fn node_index(g: DepGraph, id: NodeId) -> Option<int> {
    first_match(g.nodes@, |n: NodeId| node_is(n, id))
}

/// The dependencies that depend on `id` (`used_by`) and those it depends on (`uses`), by name.
pub open spec fn dep_neighbours(g: DepGraph, id: NodeId, dep_files: Seq<FileDeps>) -> (Seq<Seq<char>>, Seq<Seq<char>>) {
    match node_index(g, id) {
        Some(k) => (
            if k < g.used_by@.len() { named_nodes(g, g.used_by@[k]@, dep_files) } else { Seq::empty() },
            if k < g.uses@.len() { named_nodes(g, g.uses@[k]@, dep_files) } else { Seq::empty() },
        ),
        None => (Seq::empty(), Seq::empty()),
    }
}

fn find_node(g: &DepGraph, id: &NodeId) -> (r: Option<usize>)
    ensures
        match r {
            Some(k) => node_index(*g, *id) == Some(k as int),
            None => node_index(*g, *id) is None,
        },
{
    let ghost p = |n: NodeId| node_is(n, *id);
    let mut k: usize = 0;
    while k < g.nodes.len()
        invariant
            k <= g.nodes@.len(),
            p == (|n: NodeId| node_is(n, *id)),
            forall|j: int| 0 <= j < k ==> !p(#[trigger] g.nodes@[j]),
        decreases g.nodes@.len() - k,
    {
        proof {
            lemma_first_match_step(g.nodes@, p, k as int);
        }
        if g.nodes[k].same(id) {
            return Some(k);
        }
        k += 1;
    }
    proof {
        lemma_first_match_none(g.nodes@, p);
    }
    None
}

fn names_of_nodes(g: &DepGraph, idxs: &Vec<usize>, dep_files: &[FileDeps]) -> (r: Vec<String>)
    ensures
        string_views(r@) == named_nodes(*g, idxs@, dep_files@),
{
    let ghost f = |j: usize| if j < g.nodes@.len() {
        node_name(dep_files@, g.nodes@[j as int])
    } else {
        None
    };
    let mut out: Vec<String> = Vec::new();
    let mut i: usize = 0;
    while i < idxs.len()
        invariant
            i <= idxs@.len(),
            f == (|j: usize| if j < g.nodes@.len() {
                node_name(dep_files@, g.nodes@[j as int])
            } else {
                None
            }),
            string_views(out@) == somes(idxs@.take(i as int).map_values(f)),
        decreases idxs@.len() - i,
    {
        proof {
            assert(idxs@.take(i + 1).map_values(f) =~= idxs@.take(i as int).map_values(f).push(f(idxs@[i as int])));
            assert(idxs@.take(i + 1).map_values(f).drop_last() =~= idxs@.take(i as int).map_values(f));
        }
        let j = idxs[i];
        let ghost b = string_views(out@);
        if j < g.nodes.len() {
            match dep_node_name(&g.nodes[j], dep_files) {
                Some(n) => {
                    out.push(n);
                    assert(string_views(out@) =~= b.push(out@.last()@));
                },
                None => {},
            }
        }
        i += 1;
    }
    assert(idxs@.take(idxs@.len() as int) =~= idxs@);
    out
}

/// `N route(s)`.
pub open spec fn routes_word(n: nat) -> Seq<char> {
    decimal(n) + " route"@ + plural(n, "s"@)
}

/// `N dependency` / `N dependencies`.
pub open spec fn deps_word(n: nat) -> Seq<char> {
    decimal(n) + " dependenc"@ + if n == 1 { "y"@ } else { "ies"@ }
}

/// The header summary of a dependency card.
pub open spec fn usage_summary(r: nat, d: nat) -> Seq<char> {
    if r == 0 && d == 0 {
        "unused"@
    } else if d == 0 {
        "used by "@ + routes_word(r)
    } else if r == 0 {
        "used by "@ + deps_word(d)
    } else {
        "used by "@ + routes_word(r) + ", "@ + deps_word(d)
    }
}

/// `name` in backticks.
pub open spec fn ticked(n: Seq<char>) -> Seq<char> {
    "`"@ + n + "`"@
}

/// The `used by` line: the routes, then the dependencies.
pub open spec fn used_by_line(routes: Seq<Seq<char>>, deps: Seq<Seq<char>>) -> Seq<char> {
    let parts = routes.map_values(|n: Seq<char>| ticked(n) + " (route)"@) + deps.map_values(|n: Seq<char>| ticked(n) + " (dependency)"@);
    if parts.len() == 0 {
        "- used by: —"@
    } else {
        "- used by: "@ + join_with(parts, " · "@)
    }
}

/// The `uses` line.
pub open spec fn uses_line(uses: Seq<Seq<char>>) -> Seq<char> {
    if uses.len() == 0 {
        "- uses: —"@
    } else {
        "- uses: "@ + join_with(uses.map_values(|n: Seq<char>| ticked(n)), " · "@)
    }
}

/// The last two `/`-separated parts of a URI (the last one when there is one).
pub open spec fn short_path(uri: Seq<char>) -> Seq<char> {
    let parts = split_on(uri, '/');
    if parts.len() >= 2 {
        parts[parts.len() - 2] + "/"@ + parts[parts.len() - 1]
    } else {
        parts.last()
    }
}

/// An override site as `` `dir/file.py:LINE` `` (one-based line).
pub open spec fn site_text(l: Location) -> Seq<char> {
    "`"@ + short_path(l.uri@) + ":"@ + decimal((l.range.start.line + 1) as nat) + "`"@
}

/// The lines of a dependency card: header, blank line, `used by`, `uses`, the generator
/// note when it yields, and its override sites when it has any.
pub open spec fn dep_card_lines(name: Seq<char>, has_yield: bool, routes: Seq<Seq<char>>, used_by: Seq<Seq<char>>, uses: Seq<Seq<char>>, sites: Seq<Location>) -> Seq<Seq<char>> {
    seq![
        "**dependency** `"@ + name + "` — "@ + usage_summary(routes.len(), used_by.len()),
        Seq::<char>::empty(),
        used_by_line(routes, used_by),
        uses_line(uses),
    ] + (if has_yield { seq!["- generator (yields value, returns on cleanup)"@] } else { Seq::empty() }) + (if sites.len() > 0 {
        seq!["- overridden in: "@ + join_with(sites.map_values(|l: Location| site_text(l)), ", "@)]
    } else {
        Seq::empty()
    })
}

fn push_str(out: &mut Vec<char>, s: &str)
    ensures
        final(out)@ == old(out)@ + s@,
{
    let cs = str_chars(s);
    push_all(out, cs.as_slice());
}

fn join_text(parts: &Vec<Vec<char>>, sep: &str) -> (r: Vec<char>)
    ensures
        r@ == join_with(views(parts@), sep@),
{
    let sc = str_chars(sep);
    join_chars(parts, sc.as_slice())
}

fn ticked_all(names: &Vec<String>, suffix: &str) -> (r: Vec<Vec<char>>)
    ensures
        views(r@) == string_views(names@).map_values(|n: Seq<char>| ticked(n) + suffix@),
{
    let mut out: Vec<Vec<char>> = Vec::new();
    let mut i: usize = 0;
    while i < names.len()
        invariant
            i <= names@.len(),
            views(out@) == string_views(names@).take(i as int).map_values(|n: Seq<char>| ticked(n) + suffix@),
        decreases names@.len() - i,
    {
        let mut t = str_chars("`");
        push_str(&mut t, names[i].as_str());
        push_str(&mut t, "`");
        push_str(&mut t, suffix);
        let ghost b = views(out@);
        out.push(t);
        proof {
            assert(views(out@) =~= b.push(ticked(names@[i as int]@) + suffix@));
            assert(string_views(names@).take(i + 1) =~= string_views(names@).take(i as int).push(names@[i as int]@));
            assert(string_views(names@).take(i + 1).map_values(|n: Seq<char>| ticked(n) + suffix@)
                =~= string_views(names@).take(i as int).map_values(|n: Seq<char>| ticked(n) + suffix@).push(ticked(names@[i as int]@) + suffix@));
        }
        i += 1;
    }
    assert(string_views(names@).take(names@.len() as int) =~= string_views(names@));
    out
}

fn push_words(out: &mut Vec<char>, n: usize, word: &str, one: &str, many: &str)
    ensures
        final(out)@ == old(out)@ + decimal(n as nat) + word@ + if n == 1 { one@ } else { many@ },
{
    push_decimal(out, n);
    push_str(out, word);
    if n == 1 {
        push_str(out, one);
    } else {
        push_str(out, many);
    }
}

fn short_path_of(uri: &str) -> (r: Vec<char>)
    ensures
        r@ == short_path(uri@),
{
    let cs = str_chars(uri);
    let parts = split_chars(cs.as_slice(), '/');
    proof {
        crate::text::lemma_split_on_nonempty(uri@, '/');
    }
    let n = parts.len();
    if n >= 2 {
        let mut out: Vec<char> = Vec::new();
        push_all(&mut out, parts[n - 2].as_slice());
        out.push('/');
        push_all(&mut out, parts[n - 1].as_slice());
        proof {
            reveal_strlit("/");
            assert(views(parts@)[n - 2] == parts@[n - 2]@);
            assert(views(parts@)[n - 1] == parts@[n - 1]@);
        }
        assert(out@ =~= short_path(uri@));
        out
    } else {
        let mut out: Vec<char> = Vec::new();
        push_all(&mut out, parts[n - 1].as_slice());
        out
    }
}

fn site_texts(sites: &Vec<Location>) -> (r: Vec<Vec<char>>)
    requires
        forall|j: int| 0 <= j < sites@.len() ==> (#[trigger] sites@[j]).range.start.line < u32::MAX,
    ensures
        views(r@) == sites@.map_values(|l: Location| site_text(l)),
{
    let mut out: Vec<Vec<char>> = Vec::new();
    let mut i: usize = 0;
    while i < sites.len()
        invariant
            i <= sites@.len(),
            forall|j: int| 0 <= j < sites@.len() ==> (#[trigger] sites@[j]).range.start.line < u32::MAX,
            views(out@) == sites@.take(i as int).map_values(|l: Location| site_text(l)),
        decreases sites@.len() - i,
    {
        let l = &sites[i];
        let mut t = str_chars("`");
        let sp = short_path_of(l.uri.as_str());
        push_all(&mut t, sp.as_slice());
        t.push(':');
        let line: u32 = l.range.start.line + 1;
        push_decimal(&mut t, line as usize);
        t.push('`');
        let ghost b = views(out@);
        proof {
            reveal_strlit(":");
            reveal_strlit("`");
            assert(t@ =~= site_text(*l));
        }
        out.push(t);
        proof {
            assert(views(out@) =~= b.push(site_text(*l)));
            assert(sites@.take(i + 1) =~= sites@.take(i as int).push(*l));
            assert(sites@.take(i + 1).map_values(|l: Location| site_text(l)) =~= sites@.take(i as int).map_values(|l: Location| site_text(l)).push(site_text(*l)));
        }
        i += 1;
    }
    assert(sites@.take(sites@.len() as int) =~= sites@);
    out
}

/// The text of a dependency card: its lines (see `dep_card_lines`) joined by line breaks.
pub fn dep_card(name: &str, has_yield: bool, routes: &Vec<String>, used_by: &Vec<String>, uses: &Vec<String>, sites: &Vec<Location>) -> (r: String)
    requires
        forall|j: int| 0 <= j < sites@.len() ==> (#[trigger] sites@[j]).range.start.line < u32::MAX,
    ensures
        r@ == join_with(dep_card_lines(name@, has_yield, string_views(routes@), string_views(used_by@), string_views(uses@), sites@), "\n"@),
{
    let ghost rv = string_views(routes@);
    let ghost dv = string_views(used_by@);
    let ghost uv = string_views(uses@);
    // Header.
    let mut head = str_chars("**dependency** `");
    push_str(&mut head, name);
    push_str(&mut head, "` — ");
    let r = routes.len();
    let d = used_by.len();
    if r == 0 && d == 0 {
        push_str(&mut head, "unused");
    } else if d == 0 {
        push_str(&mut head, "used by ");
        push_words(&mut head, r, " route", "", "s");
    } else if r == 0 {
        push_str(&mut head, "used by ");
        push_words(&mut head, d, " dependenc", "y", "ies");
    } else {
        push_str(&mut head, "used by ");
        push_words(&mut head, r, " route", "", "s");
        push_str(&mut head, ", ");
        push_words(&mut head, d, " dependenc", "y", "ies");
    }
    proof {
        reveal_strlit("");
        reveal_strlit("s");
        assert(plural(r as nat, "s"@) == if r == 1 { ""@ } else { "s"@ });
        assert(head@ =~= "**dependency** `"@ + name@ + "` — "@ + usage_summary(rv.len(), dv.len()));
    }
    // Used by.
    let mut parts = ticked_all(routes, " (route)");
    let more = ticked_all(used_by, " (dependency)");
    let ghost p0 = views(parts@);
    let mut k: usize = 0;
    while k < more.len()
        invariant
            k <= more@.len(),
            views(parts@) == p0 + views(more@).take(k as int),
        decreases more@.len() - k,
    {
        let ghost b = views(parts@);
        parts.push(more[k].clone());
        assert(views(parts@) =~= b.push(more@[k as int]@));
        assert(views(more@).take(k + 1) =~= views(more@).take(k as int).push(more@[k as int]@));
        k += 1;
    }
    assert(views(more@).take(more@.len() as int) =~= views(more@));
    let used_line = if parts.len() == 0 {
        str_chars("- used by: —")
    } else {
        let mut t = str_chars("- used by: ");
        let j = join_text(&parts, " · ");
        push_all(&mut t, j.as_slice());
        t
    };
    assert(used_line@ =~= used_by_line(rv, dv));
    // Uses.
    let uses_text = if uses.len() == 0 {
        str_chars("- uses: —")
    } else {
        let tk = ticked_all(uses, "");
        proof {
            reveal_strlit("");
            assert(views(tk@) =~= uv.map_values(|n: Seq<char>| ticked(n)));
        }
        let mut t = str_chars("- uses: ");
        let j = join_text(&tk, " · ");
        push_all(&mut t, j.as_slice());
        t
    };
    assert(uses_text@ =~= uses_line(uv));
    let mut lines: Vec<Vec<char>> = Vec::new();
    lines.push(head);
    lines.push(Vec::new());
    lines.push(used_line);
    lines.push(uses_text);
    if has_yield {
        lines.push(str_chars("- generator (yields value, returns on cleanup)"));
    }
    if sites.len() > 0 {
        let st = site_texts(sites);
        let mut t = str_chars("- overridden in: ");
        let j = join_text(&st, ", ");
        push_all(&mut t, j.as_slice());
        lines.push(t);
    }
    assert(views(lines@) =~= dep_card_lines(name@, has_yield, rv, dv, uv, sites@));
    let text = join_text(&lines, "\n");
    string_from_chars(text.as_slice())
}

/// A dependency function defined in the hovered file.
#[derive(Clone, Debug)]
pub struct HoverDep {
    pub name: String,
    pub node_id: NodeId,
    /// The function yields (a generator dependency).
    pub has_yield: bool,
}

/// The definition under `pos`: the first whose range holds it.
pub open spec fn def_under(d: HoverDep, pos: Position) -> bool {
    in_range(pos, d.node_id.range.start, d.node_id.range.end)
}

/// The override sites of the dependency at `id`.
pub open spec fn sites_of(g: DepGraph, id: NodeId) -> Seq<Location> {
    match node_index(g, id) {
        Some(k) => if k < g.override_sites@.len() {
            g.override_sites@[k]@
        } else {
            Seq::empty()
        },
        None => Seq::empty(),
    }
}

/// The card of dependency `d`: the routes using it (see `using_routes`), the
/// dependencies using it and used by it, and its override sites.
pub open spec fn dep_hover_text(recs: Seq<RouteRecord>, files: Seq<LensFileFacts>, dep_files: Seq<FileDeps>, g: DepGraph, d: HoverDep) -> Seq<char> {
    let nb = dep_neighbours(g, d.node_id, dep_files);
    join_with(dep_card_lines(d.name@, d.has_yield, using_routes(recs, files, d.name@), nb.0, nb.1, sites_of(g, d.node_id)), "\n"@)
}

/// The dependency card for the definition under `pos`, if any (see `dep_hover_text`).
pub fn dep_hover(route_index: &RouteIndex, files: &[LensFileFacts], dep_files: &[FileDeps], g: &DepGraph, defs: &[HoverDep], pos: Position) -> (r: Option<String>)
    requires
        forall|k: int, j: int| 0 <= k < g.override_sites@.len() && 0 <= j < g.override_sites@[k]@.len()
            ==> (#[trigger] g.override_sites@[k]@[j]).range.start.line < u32::MAX,
    ensures
        match r {
            Some(t) => first_match(defs@, |d: HoverDep| def_under(d, pos)) matches Some(k) && t@ == dep_hover_text(
                index_records(route_index@),
                files@,
                dep_files@,
                *g,
                defs@[k],
            ),
            None => first_match(defs@, |d: HoverDep| def_under(d, pos)) is None,
        },
{
    let ghost p = |d: HoverDep| def_under(d, pos);
    let mut k: usize = 0;
    while k < defs.len()
        invariant
            k <= defs@.len(),
            p == (|d: HoverDep| def_under(d, pos)),
            forall|j: int| 0 <= j < k ==> !p(#[trigger] defs@[j]),
        ensures
            k <= defs@.len(),
            forall|j: int| 0 <= j < k ==> !p(#[trigger] defs@[j]),
            k < defs@.len() ==> p(defs@[k as int]),
        decreases defs@.len() - k,
    {
        if position_in_range(pos, defs[k].node_id.range.start, defs[k].node_id.range.end) {
            break;
        }
        k += 1;
    }
    if k == defs.len() {
        proof {
            lemma_first_match_none(defs@, p);
        }
        return None;
    }
    proof {
        lemma_first_match_step(defs@, p, k as int);
    }
    let d = &defs[k];
    let routes = collect_using_routes(route_index, files, &d.name);
    let empty: Vec<usize> = Vec::new();
    let (used_by, uses, sites) = match find_node(g, &d.node_id) {
        Some(i) => {
            let ub = if i < g.used_by.len() { names_of_nodes(g, &g.used_by[i], dep_files) } else { names_of_nodes(g, &empty, dep_files) };
            let us = if i < g.uses.len() { names_of_nodes(g, &g.uses[i], dep_files) } else { names_of_nodes(g, &empty, dep_files) };
            let st: Vec<Location> = if i < g.override_sites.len() { copy_locations(&g.override_sites[i]) } else { Vec::new() };
            (ub, us, st)
        },
        None => (names_of_nodes(g, &empty, dep_files), names_of_nodes(g, &empty, dep_files), Vec::new()),
    };
    proof {
        assert(empty@ =~= Seq::<usize>::empty());
        assert(named_nodes(*g, Seq::<usize>::empty(), dep_files@) =~= Seq::<Seq<char>>::empty());
    }
    let text = dep_card(d.name.as_str(), d.has_yield, &routes, &used_by, &uses, &sites);
    Some(text)
}

fn copy_locations(v: &Vec<Location>) -> (r: Vec<Location>)
    ensures
        r@ == v@,
{
    let mut out: Vec<Location> = Vec::new();
    let mut i: usize = 0;
    while i < v.len()
        invariant
            i <= v@.len(),
            out@ == v@.take(i as int),
        decreases v@.len() - i,
    {
        out.push(Location { uri: v[i].uri.clone(), range: v[i].range });
        assert(out@ =~= v@.take(i + 1));
        i += 1;
    }
    assert(v@.take(v@.len() as int) =~= v@);
    out
}


/// The path shown on a route card: the resolved path, or the decorator's path marked
/// as unresolved.
pub open spec fn card_path(r: RouteRecord) -> Seq<char> {
    match r.resolved_path {
        ResolvedPath::Resolved(p) => p@,
        ResolvedPath::Unresolved => "⟨unresolved⟩"@ + r.decorator_path@,
    }
}

/// One chain link as shown: the object, with its prefix in backticks when it has one.
pub open spec fn link_text(l: ChainLink) -> Seq<char> {
    if l.prefix@.len() == 0 {
        l.object_name@
    } else {
        l.object_name@ + " `"@ + l.prefix@ + "`"@
    }
}

/// `pre + n + post` for every name.
pub open spec fn framed(names: Seq<Seq<char>>, pre: Seq<char>, post: Seq<char>) -> Seq<Seq<char>> {
    names.map_values(|n: Seq<char>| pre + n + post)
}

/// The lines of a route card: the method and path, a blank line, then the chain, the
/// response model, the decorator's dependencies, the path parameters and the middleware,
/// each only when there is one.
pub open spec fn route_card_lines(r: RouteRecord) -> Seq<Seq<char>> {
    seq!["**"@ + method_name(r.method) + "** `"@ + card_path(r) + "`"@, Seq::<char>::empty()]
        + (if r.chain@.len() > 0 {
            seq!["- chain: "@ + join_with(r.chain@.map_values(|l: ChainLink| link_text(l)), " → "@)]
        } else {
            Seq::empty()
        })
        + (match r.response_model {
            Some(m) => seq!["- response model: `"@ + m@ + "`"@],
            None => Seq::empty(),
        })
        + (if r.dependencies@.len() > 0 {
            seq!["- dependencies: "@ + join_with(string_views(r.dependencies@), ", "@)]
        } else {
            Seq::empty()
        })
        + (if r.path_params@.len() > 0 {
            seq!["- path params: "@ + join_with(r.path_params@.map_values(|p: PathParam| p.name@), ", "@)]
        } else {
            Seq::empty()
        })
        + (if r.middleware@.len() > 0 {
            seq!["- middleware:"@] + framed(string_views(r.middleware@), "  - `"@, "`"@)
        } else {
            Seq::empty()
        })
}

fn framed_all(names: &Vec<String>, pre: &str, post: &str) -> (r: Vec<Vec<char>>)
    ensures
        views(r@) == framed(string_views(names@), pre@, post@),
{
    let mut out: Vec<Vec<char>> = Vec::new();
    let mut i: usize = 0;
    while i < names.len()
        invariant
            i <= names@.len(),
            views(out@) == framed(string_views(names@).take(i as int), pre@, post@),
        decreases names@.len() - i,
    {
        let mut t = str_chars(pre);
        push_str(&mut t, names[i].as_str());
        push_str(&mut t, post);
        let ghost b = views(out@);
        out.push(t);
        proof {
            assert(views(out@) =~= b.push(pre@ + names@[i as int]@ + post@));
            assert(string_views(names@).take(i + 1) =~= string_views(names@).take(i as int).push(names@[i as int]@));
            assert(framed(string_views(names@).take(i + 1), pre@, post@)
                =~= framed(string_views(names@).take(i as int), pre@, post@).push(pre@ + names@[i as int]@ + post@));
        }
        i += 1;
    }
    assert(string_views(names@).take(names@.len() as int) =~= string_views(names@));
    out
}

fn link_texts(chain: &Vec<ChainLink>) -> (r: Vec<Vec<char>>)
    ensures
        views(r@) == chain@.map_values(|l: ChainLink| link_text(l)),
{
    let mut out: Vec<Vec<char>> = Vec::new();
    let mut i: usize = 0;
    while i < chain.len()
        invariant
            i <= chain@.len(),
            views(out@) == chain@.take(i as int).map_values(|l: ChainLink| link_text(l)),
        decreases chain@.len() - i,
    {
        let l = &chain[i];
        let mut t = str_chars(l.object_name.as_str());
        if l.prefix.as_str().unicode_len() > 0 {
            push_str(&mut t, " `");
            push_str(&mut t, l.prefix.as_str());
            push_str(&mut t, "`");
        }
        let ghost b = views(out@);
        assert(t@ =~= link_text(*l));
        out.push(t);
        proof {
            assert(views(out@) =~= b.push(link_text(*l)));
            assert(chain@.take(i + 1) =~= chain@.take(i as int).push(*l));
            assert(chain@.take(i + 1).map_values(|l: ChainLink| link_text(l))
                =~= chain@.take(i as int).map_values(|l: ChainLink| link_text(l)).push(link_text(*l)));
        }
        i += 1;
    }
    assert(chain@.take(chain@.len() as int) =~= chain@);
    out
}

fn param_names(ps: &Vec<PathParam>) -> (r: Vec<Vec<char>>)
    ensures
        views(r@) == ps@.map_values(|p: PathParam| p.name@),
{
    let mut out: Vec<Vec<char>> = Vec::new();
    let mut i: usize = 0;
    while i < ps.len()
        invariant
            i <= ps@.len(),
            views(out@) == ps@.take(i as int).map_values(|p: PathParam| p.name@),
        decreases ps@.len() - i,
    {
        let t = str_chars(ps[i].name.as_str());
        let ghost b = views(out@);
        out.push(t);
        proof {
            assert(views(out@) =~= b.push(ps@[i as int].name@));
            assert(ps@.take(i + 1) =~= ps@.take(i as int).push(ps@[i as int]));
            assert(ps@.take(i + 1).map_values(|p: PathParam| p.name@)
                =~= ps@.take(i as int).map_values(|p: PathParam| p.name@).push(ps@[i as int].name@));
        }
        i += 1;
    }
    assert(ps@.take(ps@.len() as int) =~= ps@);
    out
}

/// The Markdown card of a route: its lines (see `route_card_lines`) joined by line breaks.
pub fn route_card(record: &RouteRecord) -> (r: String)
    ensures
        r@ == join_with(route_card_lines(*record), "\n"@),
{
    let mut head = str_chars("**");
    push_str(&mut head, method_str(record.method));
    push_str(&mut head, "** `");
    match &record.resolved_path {
        ResolvedPath::Resolved(p) => push_str(&mut head, p.as_str()),
        ResolvedPath::Unresolved => {
            push_str(&mut head, "⟨unresolved⟩");
            push_str(&mut head, record.decorator_path.as_str());
        },
    }
    push_str(&mut head, "`");
    assert(head@ =~= "**"@ + method_name(record.method) + "** `"@ + card_path(*record) + "`"@);
    let mut lines: Vec<Vec<char>> = Vec::new();
    lines.push(head);
    lines.push(Vec::new());
    let ghost l0 = views(lines@);
    assert(l0 =~= seq!["**"@ + method_name(record.method) + "** `"@ + card_path(*record) + "`"@, Seq::<char>::empty()]);
    if record.chain.len() > 0 {
        let parts = link_texts(&record.chain);
        let mut t = str_chars("- chain: ");
        let j = join_text(&parts, " → ");
        push_all(&mut t, j.as_slice());
        lines.push(t);
    }
    let ghost l1 = views(lines@);
    assert(l1 =~= l0 + (if record.chain@.len() > 0 {
        seq!["- chain: "@ + join_with(record.chain@.map_values(|l: ChainLink| link_text(l)), " → "@)]
    } else {
        Seq::empty()
    }));
    match &record.response_model {
        Some(m) => {
            let mut t = str_chars("- response model: `");
            push_str(&mut t, m.as_str());
            push_str(&mut t, "`");
            lines.push(t);
        },
        None => {},
    }
    let ghost l2 = views(lines@);
    assert(l2 =~= l1 + (match record.response_model {
        Some(m) => seq!["- response model: `"@ + m@ + "`"@],
        None => Seq::empty(),
    }));
    if record.dependencies.len() > 0 {
        let parts = framed_all(&record.dependencies, "", "");
        proof {
            reveal_strlit("");
            assert(views(parts@) =~= string_views(record.dependencies@));
        }
        let mut t = str_chars("- dependencies: ");
        let j = join_text(&parts, ", ");
        push_all(&mut t, j.as_slice());
        lines.push(t);
    }
    let ghost l3 = views(lines@);
    assert(l3 =~= l2 + (if record.dependencies@.len() > 0 {
        seq!["- dependencies: "@ + join_with(string_views(record.dependencies@), ", "@)]
    } else {
        Seq::empty()
    }));
    if record.path_params.len() > 0 {
        let parts = param_names(&record.path_params);
        let mut t = str_chars("- path params: ");
        let j = join_text(&parts, ", ");
        push_all(&mut t, j.as_slice());
        lines.push(t);
    }
    let ghost l4 = views(lines@);
    assert(l4 =~= l3 + (if record.path_params@.len() > 0 {
        seq!["- path params: "@ + join_with(record.path_params@.map_values(|p: PathParam| p.name@), ", "@)]
    } else {
        Seq::empty()
    }));
    if record.middleware.len() > 0 {
        lines.push(str_chars("- middleware:"));
        let mws = framed_all(&record.middleware, "  - `", "`");
        let mut k: usize = 0;
        let ghost l5 = views(lines@);
        while k < mws.len()
            invariant
                k <= mws@.len(),
                views(lines@) == l5 + views(mws@).take(k as int),
            decreases mws@.len() - k,
        {
            let ghost b = views(lines@);
            lines.push(mws[k].clone());
            assert(views(lines@) =~= b.push(mws@[k as int]@));
            assert(views(mws@).take(k + 1) =~= views(mws@).take(k as int).push(mws@[k as int]@));
            k += 1;
        }
        assert(views(mws@).take(mws@.len() as int) =~= views(mws@));
        assert(l5 =~= l4 + seq!["- middleware:"@]);
    }
    assert(views(lines@) =~= l4 + (if record.middleware@.len() > 0 {
        seq!["- middleware:"@] + framed(string_views(record.middleware@), "  - `"@, "`"@)
    } else {
        Seq::empty()
    }));
    assert(views(lines@) =~= route_card_lines(*record));
    let text = join_text(&lines, "\n");
    string_from_chars(text.as_slice())
}


/// The handler of `r` is in file `uri` and its range holds `pos`.
pub open spec fn handler_at(r: RouteRecord, uri: Seq<char>, pos: Position) -> bool {
    r.handler.uri@ == uri && in_range(pos, r.handler.range.start, r.handler.range.end)
}

/// The first route whose handler is under `pos` in file `uri`, if any.
pub fn record_at<'a>(route_index: &'a RouteIndex, uri: &str, pos: Position) -> (r: Option<&'a RouteRecord>)
    ensures
        match r {
            Some(x) => first_match(index_records(route_index@), |y: RouteRecord| handler_at(y, uri@, pos)) matches Some(k)
                && *x == index_records(route_index@)[k],
            None => first_match(index_records(route_index@), |y: RouteRecord| handler_at(y, uri@, pos)) is None,
        },
{
    let all = all_refs(route_index);
    let uc = str_chars(uri);
    let ghost recs = index_records(route_index@);
    let ghost p = |y: RouteRecord| handler_at(y, uri@, pos);
    let mut i: usize = 0;
    while i < all.len()
        invariant
            i <= all@.len(),
            derefs(all@) == recs,
            recs == index_records(route_index@),
            p == (|y: RouteRecord| handler_at(y, uri@, pos)),
            forall|j: int| 0 <= j < i ==> !p(#[trigger] recs[j]),
            uc@ == uri@,
        decreases all@.len() - i,
    {
        proof {
            lemma_first_match_step(recs, p, i as int);
        }
        let rec: &RouteRecord = all[i];
        assert(recs[i as int] == *rec);
        let hc = str_chars(rec.handler.uri.as_str());
        if crate::text::chars_eq(hc.as_slice(), uc.as_slice()) && position_in_range(pos, rec.handler.range.start, rec.handler.range.end) {
            return Some(rec);
        }
        i += 1;
    }
    proof {
        lemma_first_match_none(recs, p);
    }
    None
}

/// The card of the first route whose handler is under `pos` in file `uri` (see
/// `route_card`), if any.
pub fn hover(route_index: &RouteIndex, uri: &str, pos: Position) -> (r: Option<String>)
    ensures
        match r {
            Some(t) => first_match(index_records(route_index@), |x: RouteRecord| handler_at(x, uri@, pos)) matches Some(k)
                && t@ == join_with(route_card_lines(index_records(route_index@)[k]), "\n"@),
            None => first_match(index_records(route_index@), |x: RouteRecord| handler_at(x, uri@, pos)) is None,
        },
{
    match record_at(route_index, uri, pos) {
        Some(rec) => Some(route_card(rec)),
        None => None,
    }
}

/// The override sites of the dependency at `id` (see `sites_of`).
pub fn override_sites_of(g: &DepGraph, id: &NodeId) -> (r: Vec<Location>)
    ensures
        r@ == sites_of(*g, *id),
{
    match find_node(g, id) {
        Some(i) => if i < g.override_sites.len() {
            copy_locations(&g.override_sites[i])
        } else {
            Vec::new()
        },
        None => Vec::new(),
    }
}

/// An `include_router` call in the hovered file.
#[derive(Clone, Debug)]
pub struct HoverInclude {
    pub target: String,
    pub prefix: PrefixValue,
    pub range: Range,
}

/// A route decorator found in a file: the file, the handler function and the router
/// object it is registered on.
#[derive(Clone, Debug)]
pub struct RouteObject {
    pub uri: String,
    pub handler_name: String,
    pub object_name: String,
}

/// The handler function named by a route identifier `<uri>:<function>:<METHOD>`: its
/// second part from the right (empty when it has a single part).
pub open spec fn id_handler(id: Seq<char>) -> Seq<char> {
    let parts = split_on(id, ':');
    if parts.len() >= 2 {
        parts[parts.len() - 2]
    } else {
        Seq::empty()
    }
}

/// Decorator `f` registers function `handler` of file `uri` on object `t` or `o`.
pub open spec fn object_matches(f: RouteObject, uri: Seq<char>, handler: Seq<char>, t: Seq<char>, o: Seq<char>) -> bool {
    f.uri@ == uri && f.handler_name@ == handler && (f.object_name@ == t || f.object_name@ == o)
}

/// Route `r` is registered on object `t` or `o` in its own file.
pub open spec fn on_router(objs: Seq<RouteObject>, r: RouteRecord, t: Seq<char>, o: Seq<char>) -> bool {
    exists|i: int| 0 <= i < objs.len() && object_matches(#[trigger] objs[i], r.handler.uri@, id_handler(r.id@), t, o)
}

/// Route `r` lies under prefix `pf` when there is one (an unresolved path passes).
pub open spec fn under_prefix(r: RouteRecord, pf: Option<Seq<char>>) -> bool {
    match pf {
        None => true,
        Some(p) => match r.resolved_path {
            ResolvedPath::Resolved(q) => is_prefix(p, q@),
            ResolvedPath::Unresolved => true,
        },
    }
}

/// The number of routes registered on object `t` or `o` under prefix `pf`.
pub open spec fn count_routes(recs: Seq<RouteRecord>, objs: Seq<RouteObject>, t: Seq<char>, o: Seq<char>, pf: Option<Seq<char>>) -> nat
    decreases recs.len(),
{
    if recs.len() == 0 {
        0
    } else {
        count_routes(recs.drop_last(), objs, t, o, pf) + if on_router(objs, recs.last(), t, o) && under_prefix(recs.last(), pf) {
            1nat
        } else {
            0nat
        }
    }
}

/// A literal, non-empty prefix.
pub open spec fn literal_prefix(p: PrefixValue) -> Option<Seq<char>> {
    match p {
        PrefixValue::Literal(s) => if s@.len() > 0 {
            Some(s@)
        } else {
            None
        },
        PrefixValue::Unresolved => None,
    }
}

/// The card of an include call: the router object is the last dotted part of the
/// target, resolved through the file's import aliases; when it was an alias, only routes
/// under the call's literal prefix count, since many modules name their router alike.
pub open spec fn include_text(inc: HoverInclude, aliases: Seq<(String, String)>, objs: Seq<RouteObject>, recs: Seq<RouteRecord>) -> Seq<char> {
    let t = after_last_dot(inc.target@);
    let o = match alias_original(aliases, t) {
        Some(x) => x,
        None => t,
    };
    let pf = if o != t { literal_prefix(inc.prefix) } else { None };
    "**router** `"@ + inc.target@ + "` — "@ + decimal(count_routes(recs, objs, t, o, pf)) + " routes"@ + match literal_prefix(inc.prefix) {
        Some(p) => " under `"@ + p + "`"@,
        None => Seq::empty(),
    }
}

/// The include call under `pos`.
pub open spec fn include_under(i: HoverInclude, pos: Position) -> bool {
    in_range(pos, i.range.start, i.range.end)
}

pub(crate) fn id_handler_chars(id: &str) -> (r: Vec<char>)
    ensures
        r@ == id_handler(id@),
{
    let cs = str_chars(id);
    let parts = split_chars(cs.as_slice(), ':');
    let n = parts.len();
    if n >= 2 {
        let out = slice_chars(parts[n - 2].as_slice(), 0, parts[n - 2].len());
        assert(views(parts@)[n - 2] == parts@[n - 2]@);
        assert(out@ =~= parts@[n - 2]@);
        out
    } else {
        Vec::new()
    }
}

fn registered_on(objs: &[RouteObject], uri: &String, handler: &Vec<char>, t: &String, o: &String) -> (b: bool)
    ensures
        b == exists|i: int| 0 <= i < objs@.len() && object_matches(#[trigger] objs@[i], uri@, handler@, t@, o@),
{
    let mut i: usize = 0;
    while i < objs.len()
        invariant
            i <= objs@.len(),
            forall|j: int| 0 <= j < i ==> !object_matches(#[trigger] objs@[j], uri@, handler@, t@, o@),
        decreases objs@.len() - i,
    {
        let f = &objs[i];
        let h = str_chars(f.handler_name.as_str());
        if f.uri == *uri && crate::text::chars_eq(h.as_slice(), handler.as_slice()) && (f.object_name == *t || f.object_name == *o) {
            return true;
        }
        i += 1;
    }
    false
}

fn literal_prefix_of(p: &PrefixValue) -> (r: Option<&String>)
    ensures
        match r {
            Some(s) => literal_prefix(*p) == Some(s@),
            None => literal_prefix(*p) is None,
        },
{
    match p {
        PrefixValue::Literal(s) => if s.as_str().unicode_len() > 0 {
            Some(s)
        } else {
            None
        },
        PrefixValue::Unresolved => None,
    }
}

/// The card of the include call under `pos`, if any (see `include_text`).
pub fn include_hover(includes: &[HoverInclude], aliases: &[(String, String)], objs: &[RouteObject], route_index: &RouteIndex, pos: Position) -> (r: Option<String>)
    ensures
        match r {
            Some(t) => first_match(includes@, |i: HoverInclude| include_under(i, pos)) matches Some(k)
                && t@ == include_text(includes@[k], aliases@, objs@, index_records(route_index@)),
            None => first_match(includes@, |i: HoverInclude| include_under(i, pos)) is None,
        },
{
    let ghost p = |i: HoverInclude| include_under(i, pos);
    let mut k: usize = 0;
    while k < includes.len()
        invariant
            k <= includes@.len(),
            p == (|i: HoverInclude| include_under(i, pos)),
            forall|j: int| 0 <= j < k ==> !p(#[trigger] includes@[j]),
        ensures
            k <= includes@.len(),
            forall|j: int| 0 <= j < k ==> !p(#[trigger] includes@[j]),
            k < includes@.len() ==> p(includes@[k as int]),
        decreases includes@.len() - k,
    {
        if position_in_range(pos, includes[k].range.start, includes[k].range.end) {
            break;
        }
        k += 1;
    }
    if k == includes.len() {
        proof {
            lemma_first_match_none(includes@, p);
        }
        return None;
    }
    proof {
        lemma_first_match_step(includes@, p, k as int);
    }
    let inc = &includes[k];
    let t = bare_name(inc.target.as_str());
    let o: String = match find_alias(aliases, &t) {
        Some(x) => x.clone(),
        None => t.clone(),
    };
    let pf: Option<&String> = if o != t { literal_prefix_of(&inc.prefix) } else { None };
    let ghost gpf: Option<Seq<char>> = match pf {
        Some(x) => Some(x@),
        None => None,
    };
    assert(gpf == (if o@ != t@ { literal_prefix(inc.prefix) } else { None }));
    let all = all_refs(route_index);
    let ghost recs = index_records(route_index@);
    let mut count: usize = 0;
    let mut i: usize = 0;
    while i < all.len()
        invariant
            i <= all@.len(),
            derefs(all@) == recs,
            count == count_routes(recs.take(i as int), objs@, t@, o@, gpf),
            count <= i,
            gpf == match pf {
                Some(x) => Some(x@),
                None => None::<Seq<char>>,
            },
        decreases all@.len() - i,
    {
        let rec: &RouteRecord = all[i];
        assert(recs[i as int] == *rec);
        assert(recs.take(i + 1).drop_last() =~= recs.take(i as int));
        assert(recs.take(i + 1).last() == *rec);
        let h = id_handler_chars(rec.id.0.as_str());
        let on = registered_on(objs, &rec.handler.uri, &h, &t, &o);
        let under = match pf {
            None => true,
            Some(x) => match &rec.resolved_path {
                ResolvedPath::Resolved(q) => {
                    let qc = str_chars(q.as_str());
                    let xc = str_chars(x.as_str());
                    starts_with(qc.as_slice(), xc.as_slice())
                },
                ResolvedPath::Unresolved => true,
            },
        };
        assert(on == on_router(objs@, *rec, t@, o@));
        assert(under == under_prefix(*rec, gpf));
        if on && under {
            count += 1;
        }
        i += 1;
    }
    assert(recs.take(all@.len() as int) =~= recs);
    let mut out = str_chars("**router** `");
    push_str(&mut out, inc.target.as_str());
    push_str(&mut out, "` — ");
    push_decimal(&mut out, count);
    push_str(&mut out, " routes");
    match literal_prefix_of(&inc.prefix) {
        Some(x) => {
            push_str(&mut out, " under `");
            push_str(&mut out, x.as_str());
            push_str(&mut out, "`");
        },
        None => {},
    }
    assert(out@ =~= include_text(*inc, aliases@, objs@, recs));
    Some(string_from_chars(out.as_slice()))
}

/// A variable found in the workspace's env files: its value and where it is defined.
#[derive(Clone, Debug)]
pub struct EnvEntry {
    pub value: String,
    pub locations: Vec<Location>,
}

/// The last `/`-separated part of a URI.
pub open spec fn file_part(uri: Seq<char>) -> Seq<char> {
    split_on(uri, '/').last()
}

/// A definition site as `` `.FILE:LINE` `` (one-based line).
pub open spec fn env_site_text(l: Location) -> Seq<char> {
    "`."@ + file_part(l.uri@) + ":"@ + decimal((l.range.start.line + 1) as nat) + "`"@
}

/// The lines of an env card: the key with its value (masked when `masked`, a note when
/// no env file defines it), then, when it has definition sites, a blank line and the sites.
pub open spec fn env_card_lines(key: Seq<char>, entry: Option<EnvEntry>, masked: bool) -> Seq<Seq<char>> {
    let value = match entry {
        None => "[not in workspace env files]"@,
        Some(e) => if masked {
            "••••••"@
        } else {
            "`"@ + e.value@ + "`"@
        },
    };
    seq!["`"@ + key + "` = "@ + value] + match entry {
        Some(e) => if e.locations@.len() > 0 {
            seq![Seq::<char>::empty(), "defined in: "@ + join_with(e.locations@.map_values(|l: Location| env_site_text(l)), " · "@)]
        } else {
            Seq::empty()
        },
        None => Seq::empty(),
    }
}

fn env_site_texts(sites: &Vec<Location>) -> (r: Vec<Vec<char>>)
    requires
        forall|j: int| 0 <= j < sites@.len() ==> (#[trigger] sites@[j]).range.start.line < u32::MAX,
    ensures
        views(r@) == sites@.map_values(|l: Location| env_site_text(l)),
{
    let mut out: Vec<Vec<char>> = Vec::new();
    let mut i: usize = 0;
    while i < sites.len()
        invariant
            i <= sites@.len(),
            forall|j: int| 0 <= j < sites@.len() ==> (#[trigger] sites@[j]).range.start.line < u32::MAX,
            views(out@) == sites@.take(i as int).map_values(|l: Location| env_site_text(l)),
        decreases sites@.len() - i,
    {
        let l = &sites[i];
        let cs = str_chars(l.uri.as_str());
        let parts = split_chars(cs.as_slice(), '/');
        proof {
            crate::text::lemma_split_on_nonempty(l.uri@, '/');
        }
        let mut t = str_chars("`.");
        push_all(&mut t, parts[parts.len() - 1].as_slice());
        t.push(':');
        let line: u32 = l.range.start.line + 1;
        push_decimal(&mut t, line as usize);
        t.push('`');
        let ghost b = views(out@);
        proof {
            reveal_strlit(":");
            reveal_strlit("`");
            assert(views(parts@)[parts@.len() - 1] == parts@[parts@.len() - 1]@);
            assert(t@ =~= env_site_text(*l));
        }
        out.push(t);
        proof {
            assert(views(out@) =~= b.push(env_site_text(*l)));
            assert(sites@.take(i + 1) =~= sites@.take(i as int).push(*l));
            assert(sites@.take(i + 1).map_values(|l: Location| env_site_text(l)) =~= sites@.take(i as int).map_values(|l: Location| env_site_text(l)).push(env_site_text(*l)));
        }
        i += 1;
    }
    assert(sites@.take(sites@.len() as int) =~= sites@);
    out
}

/// The Markdown card of env variable `key` (see `env_card_lines`); `masked` says that
/// the key names a secret, whose value is not shown.
pub fn env_entry_card(key: &str, entry: Option<&EnvEntry>, masked: bool) -> (r: String)
    requires
        entry matches Some(e) ==> forall|j: int| 0 <= j < e.locations@.len() ==> (#[trigger] e.locations@[j]).range.start.line < u32::MAX,
    ensures
        r@ == join_with(env_card_lines(key@, match entry {
            Some(e) => Some(*e),
            None => None,
        }, masked), "\n"@),
{
    let ghost ge: Option<EnvEntry> = match entry {
        Some(e) => Some(*e),
        None => None,
    };
    let mut head = str_chars("`");
    push_str(&mut head, key);
    push_str(&mut head, "` = ");
    match entry {
        None => push_str(&mut head, "[not in workspace env files]"),
        Some(e) => if masked {
            push_str(&mut head, "••••••");
        } else {
            push_str(&mut head, "`");
            push_str(&mut head, e.value.as_str());
            push_str(&mut head, "`");
        },
    }
    assert(head@ =~= "`"@ + key@ + "` = "@ + match ge {
        None => "[not in workspace env files]"@,
        Some(e) => if masked {
            "••••••"@
        } else {
            "`"@ + e.value@ + "`"@
        },
    });
    let mut lines: Vec<Vec<char>> = Vec::new();
    lines.push(head);
    match entry {
        Some(e) => if e.locations.len() > 0 {
            let st = env_site_texts(&e.locations);
            let mut t = str_chars("defined in: ");
            let j = join_text(&st, " · ");
            push_all(&mut t, j.as_slice());
            lines.push(Vec::new());
            lines.push(t);
        },
        None => {},
    }
    proof {
        reveal_strlit("");
    }
    assert(views(lines@) =~= env_card_lines(key@, ge, masked));
    let text = join_text(&lines, "\n");
    string_from_chars(text.as_slice())
}

fn env_entry_in<'a>(ix: &'a [(String, EnvEntry)], k: &str) -> (r: Option<&'a EnvEntry>)
    ensures
        match r {
            Some(e) => crate::goto::env_get(ix@, k@) == Some(*e),
            None => crate::goto::env_get(ix@, k@) is None,
        },
{
    let mut i: usize = 0;
    assert(ix@.skip(0) =~= ix@);
    while i < ix.len()
        invariant
            i <= ix@.len(),
            crate::goto::env_get(ix@, k@) == crate::goto::env_get(ix@.skip(i as int), k@),
        decreases ix@.len() - i,
    {
        assert(ix@.skip(i as int)[0] == ix@[i as int]);
        assert(ix@.skip(i as int).drop_first() =~= ix@.skip(i + 1));
        if crate::text::chars_eq(str_chars(ix[i].0.as_str()).as_slice(), str_chars(k).as_slice()) {
            return Some(&ix[i].1);
        }
        i += 1;
    }
    None
}

/// The env card of key `k` (see `env_card_lines`), masked for a secret key.
pub open spec fn key_card(ix: Seq<(String, EnvEntry)>, secret: Seq<Seq<char>>, k: Seq<char>) -> Seq<char> {
    join_with(env_card_lines(k, crate::goto::env_get(ix, k), secret.contains(k)), "\n"@)
}

/// Every env entry's definition lines leave room for a one-based line number.
pub open spec fn env_lines_fit(ix: Seq<(String, EnvEntry)>) -> bool {
    forall|i: int, j: int| 0 <= i < ix.len() && 0 <= j < ix[i].1.locations@.len() ==> (#[trigger] ix[i].1.locations@[j]).range.start.line < u32::MAX
}

proof fn lemma_env_get_fits(ix: Seq<(String, EnvEntry)>, k: Seq<char>)
    requires
        env_lines_fit(ix),
    ensures
        crate::goto::env_get(ix, k) matches Some(e) ==> forall|j: int| 0 <= j < e.locations@.len() ==> (#[trigger] e.locations@[j]).range.start.line < u32::MAX,
    decreases ix.len(),
{
    if ix.len() > 0 && ix[0].0@ != k {
        let d = ix.drop_first();
        assert forall|i: int, j: int| 0 <= i < d.len() && 0 <= j < d[i].1.locations@.len() implies (#[trigger] d[i].1.locations@[j]).range.start.line < u32::MAX by {
            assert(d[i] == ix[i + 1]);
        }
        lemma_env_get_fits(d, k);
    } else if ix.len() > 0 {
        assert forall|j: int| 0 <= j < ix[0].1.locations@.len() implies (#[trigger] ix[0].1.locations@[j]).range.start.line < u32::MAX by {
            assert(ix[0].1.locations@[j] == ix[0].1.locations@[j]);
        }
    }
}

fn card_for(ix: &[(String, EnvEntry)], secret_keys: &[String], k: &str) -> (r: String)
    requires
        env_lines_fit(ix@),
    ensures
        r@ == key_card(ix@, string_views(secret_keys@), k@),
{
    proof {
        lemma_env_get_fits(ix@, k@);
    }
    let e = env_entry_in(ix, k);
    proof {
        match e {
            Some(x) => {
                let g = crate::goto::env_get(ix@, k@)->0;
                assert(g == *x);
                assert forall|j: int| 0 <= j < x.locations@.len() implies (#[trigger] x.locations@[j]).range.start.line < u32::MAX by {
                    assert(g.locations@[j] == x.locations@[j]);
                }
            },
            None => {},
        }
    }
    let masked = crate::text::contains_str(secret_keys, k);
    env_entry_card(k, e, masked)
}

/// The hover of an env lookup under `pos` (`lookups` holds each lookup's key and range):
/// the card of the first one there (see `key_card`).
pub fn env_hover(lookups: &[(String, Range)], ix: &[(String, EnvEntry)], secret_keys: &[String], pos: Position) -> (r: Option<String>)
    requires
        env_lines_fit(ix@),
    ensures
        match first_match(lookups@, |l: (String, Range)| in_range(pos, l.1.start, l.1.end)) {
            Some(k) => r matches Some(t) && t@ == key_card(ix@, string_views(secret_keys@), lookups@[k].0@),
            None => r is None,
        },
{
    let ghost p = |l: (String, Range)| in_range(pos, l.1.start, l.1.end);
    let mut i: usize = 0;
    while i < lookups.len()
        invariant
            i <= lookups@.len(),
            env_lines_fit(ix@),
            p == (|l: (String, Range)| in_range(pos, l.1.start, l.1.end)),
            forall|j: int| 0 <= j < i ==> !p(#[trigger] lookups@[j]),
        decreases lookups@.len() - i,
    {
        proof {
            crate::checks::lemma_first_match_step(lookups@, p, i as int);
        }
        if crate::position::position_in_range(pos, lookups[i].1.start, lookups[i].1.end) {
            return Some(card_for(ix, secret_keys, lookups[i].0.as_str()));
        }
        i += 1;
    }
    proof {
        crate::checks::lemma_first_match_none(lookups@, p);
    }
    None
}

/// A field of a settings class: its env key when given, its name, its range.
pub struct SettingsFieldAt {
    pub env_key: Option<String>,
    pub field_name: String,
    pub range: Range,
}

/// The env key a settings field reads: its explicit key, else its name.
pub open spec fn field_key(f: SettingsFieldAt) -> Seq<char> {
    match f.env_key {
        Some(k) => k@,
        None => f.field_name@,
    }
}

/// The hover of a settings field under `pos` (fields of all classes, in order): the env
/// card of the key it reads.
pub fn settings_field_hover(fields: &[SettingsFieldAt], ix: &[(String, EnvEntry)], secret_keys: &[String], pos: Position) -> (r: Option<String>)
    requires
        env_lines_fit(ix@),
    ensures
        match first_match(fields@, |f: SettingsFieldAt| in_range(pos, f.range.start, f.range.end)) {
            Some(k) => r matches Some(t) && t@ == key_card(ix@, string_views(secret_keys@), field_key(fields@[k])),
            None => r is None,
        },
{
    let ghost p = |f: SettingsFieldAt| in_range(pos, f.range.start, f.range.end);
    let mut i: usize = 0;
    while i < fields.len()
        invariant
            i <= fields@.len(),
            env_lines_fit(ix@),
            p == (|f: SettingsFieldAt| in_range(pos, f.range.start, f.range.end)),
            forall|j: int| 0 <= j < i ==> !p(#[trigger] fields@[j]),
        decreases fields@.len() - i,
    {
        proof {
            crate::checks::lemma_first_match_step(fields@, p, i as int);
        }
        if crate::position::position_in_range(pos, fields[i].range.start, fields[i].range.end) {
            let key: &str = match &fields[i].env_key {
                Some(k) => k.as_str(),
                None => fields[i].field_name.as_str(),
            };
            return Some(card_for(ix, secret_keys, key));
        }
        i += 1;
    }
    proof {
        crate::checks::lemma_first_match_none(fields@, p);
    }
    None
}

/// Where the `i`-th of `names` starts when they are written one after another with `sep`
/// between each two.
pub open spec fn name_offset(names: Seq<Seq<char>>, sep: Seq<char>, i: int) -> int
    decreases i,
{
    if i <= 0 {
        0
    } else {
        name_offset(names, sep, i - 1) + names[i - 1].len() + sep.len()
    }
}

proof fn lemma_join_take_step(names: Seq<Seq<char>>, sep: Seq<char>, i: int)
    requires
        1 <= i < names.len(),
    ensures
        join_with(names.take(i + 1), sep) == join_with(names.take(i), sep) + sep + names[i],
{
    assert(names.take(i + 1).drop_last() =~= names.take(i));
    assert(names.take(i + 1).last() == names[i]);
}

proof fn lemma_join_take_len(names: Seq<Seq<char>>, sep: Seq<char>, i: int)
    requires
        1 <= i <= names.len(),
    ensures
        join_with(names.take(i), sep).len() + sep.len() == name_offset(names, sep, i),
    decreases i,
{
    assert(name_offset(names, sep, i) == name_offset(names, sep, i - 1) + names[i - 1].len() + sep.len());
    if i == 1 {
        assert(name_offset(names, sep, 0) == 0);
        assert(names.take(1).len() == 1);
        assert(names.take(1)[0] == names[0]);
        assert(join_with(names.take(1), sep) == names[0]);
    } else {
        lemma_join_take_len(names, sep, i - 1);
        lemma_join_take_step(names, sep, i - 1);
    }
}

proof fn lemma_join_take_prefix(names: Seq<Seq<char>>, sep: Seq<char>, i: int)
    requires
        1 <= i <= names.len(),
    ensures
        is_prefix(join_with(names.take(i), sep), join_with(names, sep)),
    decreases names.len() - i,
{
    if i == names.len() {
        assert(names.take(i) =~= names);
        let c = join_with(names, sep);
        assert(c.take(c.len() as int) =~= c);
    } else {
        lemma_join_take_prefix(names, sep, i + 1);
        lemma_join_take_step(names, sep, i);
        let a = join_with(names.take(i), sep);
        let b = join_with(names.take(i + 1), sep);
        let c = join_with(names, sep);
        assert(b.take(a.len() as int) =~= a);
        assert(c.take(b.len() as int) == b);
        assert(c.take(a.len() as int) =~= c.take(b.len() as int).take(a.len() as int));
    }
}

/// Each of `names` occurs in their join at its offset.
proof fn lemma_join_occurs(names: Seq<Seq<char>>, sep: Seq<char>, i: int)
    requires
        0 <= i < names.len(),
    ensures
        crate::text::occurs_at(names[i], join_with(names, sep), name_offset(names, sep, i)),
        join_with(names, sep).len() == name_offset(names, sep, names.len() - 1) + names.last().len(),
{
    let c = join_with(names, sep);
    lemma_join_take_prefix(names, sep, i + 1);
    let b = join_with(names.take(i + 1), sep);
    let o = name_offset(names, sep, i);
    assert(c.take(b.len() as int) == b);
    if i == 0 {
        assert(o == 0);
        assert(names.take(1).len() == 1);
        assert(names.take(1)[0] == names[0]);
        assert(b == names[0]);
    } else {
        lemma_join_take_step(names, sep, i);
        lemma_join_take_len(names, sep, i);
    }
    assert(b.subrange(o, o + names[i].len()) =~= names[i]);
    assert(c.subrange(o, o + names[i].len()) =~= c.take(b.len() as int).subrange(o, o + names[i].len()));
    let n = names.len() as int;
    assert(names.take(n) =~= names);
    assert(join_with(names.take(n), sep) == c);
    if n == 1 {
        assert(name_offset(names, sep, 0) == 0);
        assert(c == names[0]);
    } else {
        lemma_join_take_step(names, sep, n - 1);
        lemma_join_take_len(names, sep, n - 1);
    }
}

/// Law: the route card of a route with path parameters has a line that starts with
/// `- path params: ` and then names every path parameter of the record, in order, each
/// after the previous one and `, `, and nothing after the last.
pub proof fn card_lists_every_path_param(r: RouteRecord)
    requires
        r.path_params@.len() > 0,
    ensures
        exists|j: int| 0 <= j < route_card_lines(r).len() && ({
            let line = #[trigger] route_card_lines(r)[j];
            let names = r.path_params@.map_values(|p: PathParam| p.name@);
            let head = "- path params: "@;
            &&& is_prefix(head, line)
            &&& line.len() == head.len() + name_offset(names, ", "@, names.len() - 1) + names.last().len()
            &&& forall|i: int| 0 <= i < names.len() ==> crate::text::occurs_at(#[trigger] names[i], line, head.len() + name_offset(names, ", "@, i))
        }),
{
    let names = r.path_params@.map_values(|p: PathParam| p.name@);
    let head = "- path params: "@;
    let jn = join_with(names, ", "@);
    let line = head + jn;
    let a = seq!["**"@ + method_name(r.method) + "** `"@ + card_path(r) + "`"@, Seq::<char>::empty()];
    let b = if r.chain@.len() > 0 {
        seq!["- chain: "@ + join_with(r.chain@.map_values(|l: ChainLink| link_text(l)), " → "@)]
    } else {
        Seq::empty()
    };
    let c = match r.response_model {
        Some(m) => seq!["- response model: `"@ + m@ + "`"@],
        None => Seq::empty(),
    };
    let d = if r.dependencies@.len() > 0 {
        seq!["- dependencies: "@ + join_with(string_views(r.dependencies@), ", "@)]
    } else {
        Seq::empty()
    };
    let e = seq![line];
    let f = if r.middleware@.len() > 0 {
        seq!["- middleware:"@] + framed(string_views(r.middleware@), "  - `"@, "`"@)
    } else {
        Seq::empty()
    };
    let lines = route_card_lines(r);
    assert(lines == a + b + c + d + e + f);
    let j: int = (a.len() + b.len() + c.len() + d.len()) as int;
    assert((a + b + c + d + e + f)[j] == line);
    assert(line.take(head.len() as int) =~= head);
    lemma_join_occurs(names, ", "@, 0);
    assert forall|i: int| 0 <= i < names.len() implies crate::text::occurs_at(#[trigger] names[i], line, head.len() + name_offset(names, ", "@, i)) by {
        lemma_join_occurs(names, ", "@, i);
        let o = name_offset(names, ", "@, i);
        assert(line.subrange(head.len() + o, head.len() + o + names[i].len()) =~= jn.subrange(o, o + names[i].len()));
    }
    assert(lines[j] == line);
}

} // verus!
