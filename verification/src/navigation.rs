//! Document links, document and workspace symbols, and inlay hints.
use vstd::prelude::*;
use crate::position::{Range, Position, Location};
use crate::routing::{Method, RouteRecord, RouteIndex, ResolvedPath};
use crate::analysis::{TemplateRef, index_records, all_refs};
use crate::checks::{method_name, method_str, derefs};
use crate::hovers::card_path;
use crate::text::{str_chars, string_from_chars, push_all, contains_seq, contains_chars, views, string_views};
use crate::joining::{decimal, push_decimal};
use crate::pysource::{is_ws, char_is_ws};

verus! {

broadcast use vstd::string::group_string_axioms;

// ── Document links ────────────────────────────────────────────────────────

/// A clickable link over `range` to the file `target`, with `tooltip` as its hint.
#[derive(Clone, Debug)]
pub struct DocLink {
    pub range: Range,
    pub target: String,
    pub tooltip: String,
}

/// The file a template name resolves to: its first entry in the index.
pub open spec fn template_target(index: Seq<(String, String)>, name: Seq<char>) -> Option<Seq<char>>
    decreases index.len(),
{
    if index.len() == 0 {
        None
    } else if index[0].0@ == name {
        Some(index[0].1@)
    } else {
        template_target(index.drop_first(), name)
    }
}

/// The links of a file's template names: one per name that the index resolves, in order.
pub open spec fn link_views(templates: Seq<TemplateRef>, index: Seq<(String, String)>) -> Seq<(Range, Seq<char>, Seq<char>)>
    decreases templates.len(),
{
    if templates.len() == 0 {
        Seq::empty()
    } else {
        link_views(templates.drop_last(), index) + match template_target(index, templates.last().path@) {
            Some(t) => seq![(templates.last().range, t, templates.last().path@)],
            None => Seq::empty(),
        }
    }
}

pub(crate) fn find_template_in<'a>(index: &'a [(String, String)], name: &String) -> (r: Option<&'a String>)
    ensures
        match r {
            Some(t) => template_target(index@, name@) == Some(t@),
            None => template_target(index@, name@) is None,
        },
{
    let mut i: usize = 0;
    assert(index@.skip(0) =~= index@);
    while i < index.len()
        invariant
            i <= index@.len(),
            template_target(index@, name@) == template_target(index@.skip(i as int), name@),
        decreases index@.len() - i,
    {
        assert(index@.skip(i as int).drop_first() =~= index@.skip(i + 1));
        if index[i].0 == *name {
            return Some(&index[i].1);
        }
        i += 1;
    }
    None
}

/// Links for the template names of a file (see `link_views`); `index` maps template
/// names to the files that hold them.
pub fn document_links(templates: &[TemplateRef], index: &[(String, String)]) -> (r: Vec<DocLink>)
    ensures
        r@.map_values(|l: DocLink| (l.range, l.target@, l.tooltip@)) == link_views(templates@, index@),
{
    let mut out: Vec<DocLink> = Vec::new();
    let mut i: usize = 0;
    while i < templates.len()
        invariant
            i <= templates@.len(),
            out@.map_values(|l: DocLink| (l.range, l.target@, l.tooltip@)) == link_views(templates@.take(i as int), index@),
        decreases templates@.len() - i,
    {
        let t = &templates[i];
        assert(templates@.take(i + 1).drop_last() =~= templates@.take(i as int));
        assert(templates@.take(i + 1).last() == *t);
        let ghost before = out@.map_values(|l: DocLink| (l.range, l.target@, l.tooltip@));
        match find_template_in(index, &t.path) {
            Some(target) => {
                out.push(DocLink { range: t.range, target: target.clone(), tooltip: t.path.clone() });
                assert(out@.map_values(|l: DocLink| (l.range, l.target@, l.tooltip@)) =~= before.push((t.range, target@, t.path@)));
            },
            None => {},
        }
        i += 1;
    }
    assert(templates@.take(templates@.len() as int) =~= templates@);
    out
}

// ── Symbols ───────────────────────────────────────────────────────────────

/// The kind of a route symbol: a mount is a namespace, any other route a function.
#[derive(Clone, Copy, Debug, PartialEq, Eq, Structural)]
pub enum RouteSymbolKind {
    Function,
    Namespace,
}

/// A route as a symbol: its name, kind and handler location.
#[derive(Clone, Debug)]
pub struct RouteSymbol {
    pub name: String,
    pub kind: RouteSymbolKind,
    pub location: Location,
}

/// A route's symbol name: `MOUNT <path>` for a mount, `<METHOD> <path> · <name>` else.
pub open spec fn symbol_name_spec(r: RouteRecord) -> Seq<char> {
    if r.method == Method::Mount {
        "MOUNT "@ + card_path(r)
    } else {
        method_name(r.method) + " "@ + card_path(r) + " · "@ + r.name@
    }
}

/// A route's symbol kind.
pub open spec fn symbol_kind_spec(r: RouteRecord) -> RouteSymbolKind {
    if r.method == Method::Mount {
        RouteSymbolKind::Namespace
    } else {
        RouteSymbolKind::Function
    }
}

fn push_str(out: &mut Vec<char>, s: &str)
    ensures
        final(out)@ == old(out)@ + s@,
{
    let cs = str_chars(s);
    push_all(out, cs.as_slice());
}

/// The symbol name of a route (see `symbol_name_spec`).
pub fn symbol_name(r: &RouteRecord) -> (s: String)
    ensures
        s@ == symbol_name_spec(*r),
{
    let mut path: Vec<char> = Vec::new();
    match &r.resolved_path {
        ResolvedPath::Resolved(p) => push_str(&mut path, p.as_str()),
        ResolvedPath::Unresolved => {
            push_str(&mut path, "⟨unresolved⟩");
            push_str(&mut path, r.decorator_path.as_str());
        },
    }
    assert(path@ =~= card_path(*r));
    let mut out: Vec<char> = Vec::new();
    if r.method == Method::Mount {
        push_str(&mut out, "MOUNT ");
        push_all(&mut out, path.as_slice());
    } else {
        push_str(&mut out, method_str(r.method));
        push_str(&mut out, " ");
        push_all(&mut out, path.as_slice());
        push_str(&mut out, " · ");
        push_str(&mut out, r.name.as_str());
    }
    assert(out@ =~= symbol_name_spec(*r));
    string_from_chars(out.as_slice())
}

fn route_symbol(r: &RouteRecord) -> (s: RouteSymbol)
    ensures
        s.name@ == symbol_name_spec(*r),
        s.kind == symbol_kind_spec(*r),
        s.location.uri@ == r.handler.uri@,
        s.location.range == r.handler.range,
{
    let kind = if r.method == Method::Mount { RouteSymbolKind::Namespace } else { RouteSymbolKind::Function };
    RouteSymbol { name: symbol_name(r), kind, location: Location { uri: r.handler.uri.clone(), range: r.handler.range } }
}

/// What a client sees of a route symbol.
pub open spec fn symbol_view(s: RouteSymbol) -> (Seq<char>, RouteSymbolKind, Seq<char>, Range) {
    (s.name@, s.kind, s.location.uri@, s.location.range)
}

/// The symbol of a route as a client sees it.
pub open spec fn route_symbol_view(r: RouteRecord) -> (Seq<char>, RouteSymbolKind, Seq<char>, Range) {
    (symbol_name_spec(r), symbol_kind_spec(r), r.handler.uri@, r.handler.range)
}

/// The symbols of the routes whose handler is in file `uri`, in index order.
pub open spec fn file_symbols(recs: Seq<RouteRecord>, uri: Seq<char>) -> Seq<(Seq<char>, RouteSymbolKind, Seq<char>, Range)>
    decreases recs.len(),
{
    if recs.len() == 0 {
        Seq::empty()
    } else {
        file_symbols(recs.drop_last(), uri) + if recs.last().handler.uri@ == uri {
            seq![route_symbol_view(recs.last())]
        } else {
            Seq::empty()
        }
    }
}

/// The symbols of the routes handled in file `uri` (see `file_symbols`).
pub fn document_symbols(route_index: &RouteIndex, uri: &str) -> (r: Vec<RouteSymbol>)
    ensures
        r@.map_values(|s: RouteSymbol| symbol_view(s)) == file_symbols(index_records(route_index@), uri@),
{
    let all = all_refs(route_index);
    let ghost recs = index_records(route_index@);
    let u: String = uri.to_owned();
    let mut out: Vec<RouteSymbol> = Vec::new();
    let mut i: usize = 0;
    while i < all.len()
        invariant
            i <= all@.len(),
            derefs(all@) == recs,
            u@ == uri@,
            out@.map_values(|s: RouteSymbol| symbol_view(s)) == file_symbols(recs.take(i as int), uri@),
        decreases all@.len() - i,
    {
        let rec: &RouteRecord = all[i];
        assert(recs[i as int] == *rec);
        assert(recs.take(i + 1).drop_last() =~= recs.take(i as int));
        assert(recs.take(i + 1).last() == *rec);
        if rec.handler.uri == u {
            let ghost before = out@.map_values(|s: RouteSymbol| symbol_view(s));
            out.push(route_symbol(rec));
            assert(out@.map_values(|s: RouteSymbol| symbol_view(s)) =~= before.push(route_symbol_view(*rec)));
        }
        i += 1;
    }
    assert(recs.take(all@.len() as int) =~= recs);
    out
}

/// The pieces of `s` between white-space characters (empty pieces included); its
/// non-empty pieces are the words of `split_whitespace`.
pub open spec fn ws_pieces(s: Seq<char>) -> Seq<Seq<char>>
    decreases s.len(),
{
    if s.len() == 0 {
        seq![Seq::<char>::empty()]
    } else {
        let p = ws_pieces(s.drop_last());
        if is_ws(s.last()) {
            p.push(Seq::<char>::empty())
        } else {
            p.update(p.len() - 1, p.last().push(s.last()))
        }
    }
}

proof fn lemma_ws_pieces_nonempty(s: Seq<char>)
    ensures
        ws_pieces(s).len() >= 1,
    decreases s.len(),
{
    if s.len() > 0 {
        lemma_ws_pieces_nonempty(s.drop_last());
    }
}

fn split_ws(s: &[char]) -> (r: Vec<Vec<char>>)
    ensures
        views(r@) == ws_pieces(s@),
{
    let mut out: Vec<Vec<char>> = Vec::new();
    let mut cur: Vec<char> = Vec::new();
    let mut i: usize = 0;
    while i < s.len()
        invariant
            i <= s@.len(),
            views(out@).push(cur@) == ws_pieces(s@.take(i as int)),
        decreases s@.len() - i,
    {
        let ghost prev_out = out@;
        let ghost prev_cur = cur@;
        assert(s@.take(i + 1).drop_last() == s@.take(i as int));
        proof {
            lemma_ws_pieces_nonempty(s@.take(i as int));
        }
        if char_is_ws(s[i]) {
            out.push(cur);
            cur = Vec::new();
            assert(views(out@) == views(prev_out).push(prev_cur));
        } else {
            cur.push(s[i]);
        }
        i += 1;
        assert(views(out@).push(cur@) =~= ws_pieces(s@.take(i as int)));
    }
    assert(s@.take(s@.len() as int) == s@);
    let ghost before = out@;
    out.push(cur);
    assert(views(out@) == views(before).push(cur@));
    out
}

/// The Unicode lowercase of a string, as `str::to_lowercase` computes it.
pub uninterp spec fn str_to_lowercase(s: Seq<char>) -> Seq<char>;

/// Calls `str::to_lowercase`; its result is named `str_to_lowercase` of the argument.
#[verifier::external_body]
fn to_lowercase(s: &str) -> (r: String)
    ensures
        r@ == str_to_lowercase(s@),
{
    s.to_lowercase()
}

/// The path a route is searched by: the resolved path, or the decorator's path.
pub open spec fn search_path(r: RouteRecord) -> Seq<char> {
    match r.resolved_path {
        ResolvedPath::Resolved(p) => p@,
        ResolvedPath::Unresolved => r.decorator_path@,
    }
}

/// One query word matches a route: its lowercase occurs in the lowercase path, method or
/// name.
pub open spec fn word_matches(r: RouteRecord, w: Seq<char>) -> bool {
    let t = str_to_lowercase(w);
    contains_seq(str_to_lowercase(search_path(r)), t) || contains_seq(str_to_lowercase(method_name(r.method)), t)
        || contains_seq(str_to_lowercase(r.name@), t)
}

/// A route matches a workspace-symbol query: the query is empty, or every word of it
/// (white-space separated) matches.
pub open spec fn query_matches(r: RouteRecord, q: Seq<char>) -> bool {
    q.len() == 0 || forall|i: int| 0 <= i < ws_pieces(q).len() && (#[trigger] ws_pieces(q)[i]).len() > 0 ==> word_matches(r, ws_pieces(q)[i])
}

/// Whether a route matches a workspace-symbol query (see `query_matches`).
pub fn matches_query(r: &RouteRecord, query: &str) -> (b: bool)
    ensures
        b == query_matches(*r, query@),
{
    let q = str_chars(query);
    if q.len() == 0 {
        return true;
    }
    let path: &str = match &r.resolved_path {
        ResolvedPath::Resolved(p) => p.as_str(),
        ResolvedPath::Unresolved => r.decorator_path.as_str(),
    };
    let pl = str_chars(to_lowercase(path).as_str());
    let ml = str_chars(to_lowercase(method_str(r.method)).as_str());
    let nl = str_chars(to_lowercase(r.name.as_str()).as_str());
    let pieces = split_ws(q.as_slice());
    let ghost ps = ws_pieces(query@);
    let mut i: usize = 0;
    while i < pieces.len()
        invariant
            i <= pieces@.len(),
            views(pieces@) == ps,
            ps == ws_pieces(query@),
            query@.len() > 0,
            pl@ == str_to_lowercase(search_path(*r)),
            ml@ == str_to_lowercase(method_name(r.method)),
            nl@ == str_to_lowercase(r.name@),
            forall|j: int| 0 <= j < i && (#[trigger] ps[j]).len() > 0 ==> word_matches(*r, ps[j]),
        decreases pieces@.len() - i,
    {
        assert(views(pieces@)[i as int] == pieces@[i as int]@);
        if pieces[i].len() > 0 {
            let w = string_from_chars(pieces[i].as_slice());
            let t = str_chars(to_lowercase(w.as_str()).as_str());
            if !(contains_chars(pl.as_slice(), t.as_slice()) || contains_chars(ml.as_slice(), t.as_slice()) || contains_chars(
                nl.as_slice(),
                t.as_slice(),
            )) {
                assert(!word_matches(*r, ps[i as int]));
                assert(query@.len() != 0);
                assert(ws_pieces(query@)[i as int].len() > 0);
                assert(!query_matches(*r, query@));
                return false;
            }
        }
        i += 1;
    }
    true
}

/// The symbols of the routes that match `query`, in index order.
pub open spec fn query_symbols(recs: Seq<RouteRecord>, q: Seq<char>) -> Seq<(Seq<char>, RouteSymbolKind, Seq<char>, Range)>
    decreases recs.len(),
{
    if recs.len() == 0 {
        Seq::empty()
    } else {
        query_symbols(recs.drop_last(), q) + if query_matches(recs.last(), q) {
            seq![route_symbol_view(recs.last())]
        } else {
            Seq::empty()
        }
    }
}

/// The workspace symbols for a query (see `query_symbols`).
pub fn workspace_symbols(route_index: &RouteIndex, query: &str) -> (r: Vec<RouteSymbol>)
    ensures
        r@.map_values(|s: RouteSymbol| symbol_view(s)) == query_symbols(index_records(route_index@), query@),
{
    let all = all_refs(route_index);
    let ghost recs = index_records(route_index@);
    let mut out: Vec<RouteSymbol> = Vec::new();
    let mut i: usize = 0;
    while i < all.len()
        invariant
            i <= all@.len(),
            derefs(all@) == recs,
            out@.map_values(|s: RouteSymbol| symbol_view(s)) == query_symbols(recs.take(i as int), query@),
        decreases all@.len() - i,
    {
        let rec: &RouteRecord = all[i];
        assert(recs[i as int] == *rec);
        assert(recs.take(i + 1).drop_last() =~= recs.take(i as int));
        assert(recs.take(i + 1).last() == *rec);
        if matches_query(rec, query) {
            let ghost before = out@.map_values(|s: RouteSymbol| symbol_view(s));
            out.push(route_symbol(rec));
            assert(out@.map_values(|s: RouteSymbol| symbol_view(s)) =~= before.push(route_symbol_view(*rec)));
        }
        i += 1;
    }
    assert(recs.take(all@.len() as int) =~= recs);
    out
}


// ── Inlay hints ───────────────────────────────────────────────────────────

/// A hint shown at `position`.
#[derive(Clone, Debug)]
pub struct Hint {
    pub position: Position,
    pub label: String,
}

/// Two ranges share a line.
pub open spec fn lines_overlap(a: Range, b: Range) -> bool {
    a.start.line <= b.end.line && b.start.line <= a.end.line
}

/// Route `r` gets a hint in file `uri` within `range`: its handler is there, and a prefix
/// changed its path.
pub open spec fn hinted(r: RouteRecord, uri: Seq<char>, range: Range) -> bool {
    r.handler.uri@ == uri && lines_overlap(r.handler.range, range) && match r.resolved_path {
        ResolvedPath::Resolved(p) => p@ != r.decorator_path@,
        ResolvedPath::Unresolved => false,
    }
}

/// Routes are hinted together when they share decorator path and handler.
pub open spec fn hint_key(r: RouteRecord) -> (Seq<char>, Range) {
    (r.decorator_path@, r.handler.range)
}

/// The keys of the hinted routes, each once, in order of first appearance.
pub open spec fn hint_keys(recs: Seq<RouteRecord>, uri: Seq<char>, range: Range) -> Seq<(Seq<char>, Range)>
    decreases recs.len(),
{
    if recs.len() == 0 {
        Seq::empty()
    } else {
        let prev = hint_keys(recs.drop_last(), uri, range);
        if hinted(recs.last(), uri, range) && !prev.contains(hint_key(recs.last())) {
            prev.push(hint_key(recs.last()))
        } else {
            prev
        }
    }
}

/// The resolved paths of the hinted routes under key `k`, in order.
pub open spec fn hint_paths(recs: Seq<RouteRecord>, uri: Seq<char>, range: Range, k: (Seq<char>, Range)) -> Seq<Seq<char>>
    decreases recs.len(),
{
    if recs.len() == 0 {
        Seq::empty()
    } else {
        hint_paths(recs.drop_last(), uri, range, k) + if hinted(recs.last(), uri, range) && hint_key(recs.last()) == k {
            seq![search_path(recs.last())]
        } else {
            Seq::empty()
        }
    }
}

/// `→ <path>` for one path, `→ N mounts (hover for paths)` for several.
pub open spec fn hint_label(paths: Seq<Seq<char>>) -> Seq<char> {
    if paths.len() == 1 {
        "→ "@ + paths[0]
    } else {
        "→ "@ + decimal(paths.len()) + " mounts (hover for paths)"@
    }
}

/// The hints of a file within `range`: one per key, at the end of the handler's range.
pub open spec fn hint_views(recs: Seq<RouteRecord>, uri: Seq<char>, range: Range) -> Seq<(Position, Seq<char>)> {
    hint_keys(recs, uri, range).map_values(|k: (Seq<char>, Range)| (k.1.end, hint_label(hint_paths(recs, uri, range, k))))
}

fn is_hinted(r: &RouteRecord, u: &String, range: Range) -> (b: bool)
    ensures
        b == hinted(*r, u@, range),
{
    if r.handler.uri != *u {
        return false;
    }
    if !(r.handler.range.start.line <= range.end.line && range.start.line <= r.handler.range.end.line) {
        return false;
    }
    match &r.resolved_path {
        ResolvedPath::Resolved(p) => *p != r.decorator_path,
        ResolvedPath::Unresolved => false,
    }
}

/// The prefix hints of a file within `range` (see `hint_views`).
pub fn inlay_hints(route_index: &RouteIndex, uri: &str, range: Range) -> (r: Vec<Hint>)
    ensures
        r@.map_values(|h: Hint| (h.position, h.label@)) == hint_views(index_records(route_index@), uri@, range),
{
    let all = all_refs(route_index);
    let ghost recs = index_records(route_index@);
    let u: String = uri.to_owned();
    let mut keys: Vec<(String, Range)> = Vec::new();
    let mut i: usize = 0;
    while i < all.len()
        invariant
            i <= all@.len(),
            derefs(all@) == recs,
            u@ == uri@,
            keys@.map_values(|k: (String, Range)| (k.0@, k.1)) == hint_keys(recs.take(i as int), uri@, range),
        decreases all@.len() - i,
    {
        let rec: &RouteRecord = all[i];
        assert(recs[i as int] == *rec);
        assert(recs.take(i + 1).drop_last() =~= recs.take(i as int));
        assert(recs.take(i + 1).last() == *rec);
        let ghost kv = keys@.map_values(|k: (String, Range)| (k.0@, k.1));
        if is_hinted(rec, &u, range) {
            let mut found = false;
            let mut j: usize = 0;
            while j < keys.len()
                invariant
                    j <= keys@.len(),
                    kv == keys@.map_values(|k: (String, Range)| (k.0@, k.1)),
                    found == exists|m: int| 0 <= m < j && kv[m] == hint_key(*rec),
                decreases keys@.len() - j,
            {
                if keys[j].0 == rec.decorator_path && keys[j].1 == rec.handler.range {
                    found = true;
                }
                assert(kv[j as int] == (keys@[j as int].0@, keys@[j as int].1));
                j += 1;
            }
            if !found {
                keys.push((rec.decorator_path.clone(), rec.handler.range));
                assert(keys@.map_values(|k: (String, Range)| (k.0@, k.1)) =~= kv.push(hint_key(*rec)));
            }
        }
        i += 1;
    }
    assert(recs.take(all@.len() as int) =~= recs);
    let ghost ks = hint_keys(recs, uri@, range);
    let mut out: Vec<Hint> = Vec::new();
    let mut k: usize = 0;
    while k < keys.len()
        invariant
            k <= keys@.len(),
            derefs(all@) == recs,
            u@ == uri@,
            keys@.map_values(|x: (String, Range)| (x.0@, x.1)) == ks,
            out@.map_values(|h: Hint| (h.position, h.label@)) == ks.take(k as int).map_values(
                |x: (Seq<char>, Range)| (x.1.end, hint_label(hint_paths(recs, uri@, range, x))),
            ),
        decreases keys@.len() - k,
    {
        let key = &keys[k];
        let ghost gk = (key.0@, key.1);
        assert(ks[k as int] == gk);
        let mut paths: Vec<Vec<char>> = Vec::new();
        let mut i: usize = 0;
        while i < all.len()
            invariant
                i <= all@.len(),
                derefs(all@) == recs,
                u@ == uri@,
                gk == (key.0@, key.1),
                views(paths@) == hint_paths(recs.take(i as int), uri@, range, gk),
            decreases all@.len() - i,
        {
            let rec: &RouteRecord = all[i];
            assert(recs[i as int] == *rec);
            assert(recs.take(i + 1).drop_last() =~= recs.take(i as int));
            assert(recs.take(i + 1).last() == *rec);
            if is_hinted(rec, &u, range) && rec.decorator_path == key.0 && rec.handler.range == key.1 {
                let p: &str = match &rec.resolved_path {
                    ResolvedPath::Resolved(p) => p.as_str(),
                    ResolvedPath::Unresolved => rec.decorator_path.as_str(),
                };
                let ghost before = views(paths@);
                paths.push(str_chars(p));
                assert(views(paths@) =~= before.push(search_path(*rec)));
            }
            i += 1;
        }
        assert(recs.take(all@.len() as int) =~= recs);
        let mut label = str_chars("→ ");
        if paths.len() == 1 {
            push_all(&mut label, paths[0].as_slice());
            assert(views(paths@)[0] == paths@[0]@);
        } else {
            push_decimal(&mut label, paths.len());
            push_str(&mut label, " mounts (hover for paths)");
        }
        assert(label@ =~= hint_label(hint_paths(recs, uri@, range, gk)));
        let ghost before = out@.map_values(|h: Hint| (h.position, h.label@));
        out.push(Hint { position: key.1.end, label: string_from_chars(label.as_slice()) });
        proof {
            assert(out@.map_values(|h: Hint| (h.position, h.label@)) =~= before.push((gk.1.end, hint_label(hint_paths(recs, uri@, range, gk)))));
            assert(ks.take(k + 1) =~= ks.take(k as int).push(gk));
            assert(ks.take(k + 1).map_values(|x: (Seq<char>, Range)| (x.1.end, hint_label(hint_paths(recs, uri@, range, x))))
                =~= ks.take(k as int).map_values(|x: (Seq<char>, Range)| (x.1.end, hint_label(hint_paths(recs, uri@, range, x)))).push(
                (gk.1.end, hint_label(hint_paths(recs, uri@, range, gk))),
            ));
        }
        k += 1;
    }
    assert(ks.take(keys@.len() as int) =~= ks);
    out
}

/// Law: a query each of whose words occurs, case-insensitively, in a route's handler name
/// matches that route.
pub proof fn handler_name_query_matches(r: RouteRecord, q: Seq<char>)
    requires
        forall|i: int| 0 <= i < ws_pieces(q).len() && (#[trigger] ws_pieces(q)[i]).len() > 0
            ==> contains_seq(str_to_lowercase(r.name@), str_to_lowercase(ws_pieces(q)[i])),
    ensures
        query_matches(r, q),
{
}

/// Law: among the workspace symbols of a query stands every route whose handler name holds
/// each word of the query, case-insensitively.
pub proof fn handler_name_query_lists_route(recs: Seq<RouteRecord>, j: int, q: Seq<char>)
    requires
        0 <= j < recs.len(),
        forall|i: int| 0 <= i < ws_pieces(q).len() && (#[trigger] ws_pieces(q)[i]).len() > 0
            ==> contains_seq(str_to_lowercase(recs[j].name@), str_to_lowercase(ws_pieces(q)[i])),
    ensures
        query_symbols(recs, q).contains(route_symbol_view(recs[j])),
    decreases recs.len(),
{
    handler_name_query_matches(recs[j], q);
    let n = recs.len() - 1;
    if j == n {
        let prev = query_symbols(recs.drop_last(), q);
        assert(query_symbols(recs, q) == prev + seq![route_symbol_view(recs.last())]);
        assert(query_symbols(recs, q)[prev.len() as int] == route_symbol_view(recs[j]));
    } else {
        assert(recs.drop_last()[j] == recs[j]);
        handler_name_query_lists_route(recs.drop_last(), j, q);
        let prev = query_symbols(recs.drop_last(), q);
        let x = route_symbol_view(recs[j]);
        let w = choose|w: int| 0 <= w < prev.len() && prev[w] == x;
        assert(query_symbols(recs, q)[w] == x);
    }
}

/// Law: a query matches a route exactly when each of its words occurs, case-insensitively,
/// in the route's path, its method's name or its handler name; the empty query matches
/// every route.
pub proof fn query_matches_by_words(r: RouteRecord, q: Seq<char>)
    ensures
        q.len() == 0 ==> query_matches(r, q),
        q.len() > 0 ==> (query_matches(r, q) <==> forall|i: int| 0 <= i < ws_pieces(q).len() && (#[trigger] ws_pieces(q)[i]).len() > 0 ==> {
            let t = str_to_lowercase(ws_pieces(q)[i]);
            ||| contains_seq(str_to_lowercase(search_path(r)), t)
            ||| contains_seq(str_to_lowercase(method_name(r.method)), t)
            ||| contains_seq(str_to_lowercase(r.name@), t)
        }),
{
}

} // verus!
