//! Completions: route names in `url_for`, env keys, test-client paths and template names.
use vstd::prelude::*;
use crate::position::{Range, Position, Location, pos_le, in_range, position_in_range};
use crate::routing::{Method, RouteId, RouteRecord, RouteIndex, ResolvedPath, index_get, index_lookup, before_char};
use crate::analysis::{UrlForSite, EnvLookup, TemplateRef, index_records, all_refs};
use crate::checks::{first_match, lemma_first_match_step, lemma_first_match_none, derefs, method_name, method_str};
use crate::goto::{NavFile, NavWorkspace, ClientCall, file_is, call_at, template_at};
use crate::hovers::EnvEntry;
use crate::joining::{snippet, path_to_snippet};
use crate::report::{display_path, display_path_spec, cwd_view};
use crate::text::{str_chars, string_from_chars, push_all, is_prefix, starts_with, split_on, split_chars, views, string_views, contains_str};

verus! {

broadcast use vstd::string::group_string_axioms;

/// The kind of a completion item.
#[derive(Clone, Copy, Debug, PartialEq, Eq, Structural)]
pub enum ItemKind {
    Constant,
    Value,
    Reference,
    Folder,
    File,
}

/// One completion: its label and kind, details, and the text edit that inserts it.
#[derive(Clone, Debug)]
pub struct CompletionItem {
    pub label: String,
    pub kind: ItemKind,
    pub detail: Option<String>,
    /// Markdown documentation.
    pub documentation: Option<String>,
    pub new_text: String,
    /// The range the new text replaces.
    pub range: Range,
    pub filter_text: String,
    /// The new text is a snippet with tab stops.
    pub snippet: bool,
    /// Inserting it reopens the completion list.
    pub retrigger: bool,
}

/// A completion list; `incomplete` asks the client to ask again as the user types.
#[derive(Clone, Debug)]
pub struct Completions {
    pub incomplete: bool,
    pub items: Vec<CompletionItem>,
}

/// What a client sees of a completion item.
pub type ItemView = (Seq<char>, ItemKind, Option<Seq<char>>, Option<Seq<char>>, Seq<char>, Range, Seq<char>, bool, bool);

pub open spec fn opt_view(o: Option<String>) -> Option<Seq<char>> {
    match o {
        Some(s) => Some(s@),
        None => None,
    }
}

pub open spec fn item_view(i: CompletionItem) -> ItemView {
    (i.label@, i.kind, opt_view(i.detail), opt_view(i.documentation), i.new_text@, i.range, i.filter_text@, i.snippet, i.retrigger)
}

pub open spec fn items_view(v: Seq<CompletionItem>) -> Seq<ItemView> {
    v.map_values(|i: CompletionItem| item_view(i))
}

fn push_str(out: &mut Vec<char>, s: &str)
    ensures
        final(out)@ == old(out)@ + s@,
{
    let cs = str_chars(s);
    push_all(out, cs.as_slice());
}

fn push_item(out: &mut Vec<CompletionItem>, it: CompletionItem)
    ensures
        items_view(final(out)@) == items_view(old(out)@).push(item_view(it)),
{
    out.push(it);
    assert(items_view(out@) =~= items_view(old(out)@).push(item_view(it)));
}

// ── Env keys ──────────────────────────────────────────────────────────────

/// The completion of env variable `key`; `masked` hides a secret's value.
pub open spec fn env_item(key: Seq<char>, value: Seq<char>, masked: bool, r: Range) -> ItemView {
    let v = if masked { "••••••"@ } else { value };
    (key, ItemKind::Constant, Some("`"@ + v + "`"@), Some("`"@ + key + "` = `"@ + v + "`"@), key, r, key, false, false)
}

/// The env keys, in index order; none when the index is empty. Keys listed in `secret`
/// show a masked value.
pub open spec fn env_completions(ix: Seq<(String, EnvEntry)>, secret: Seq<Seq<char>>, r: Range) -> Option<(bool, Seq<ItemView>)> {
    if ix.len() == 0 {
        None
    } else {
        Some((false, ix.map_values(|e: (String, EnvEntry)| env_item(e.0@, e.1.value@, secret.contains(e.0@), r))))
    }
}

fn env_key_completions(ix: &[(String, EnvEntry)], secret: &[String], r: Range) -> (res: Option<Completions>)
    ensures
        match res {
            Some(c) => env_completions(ix@, string_views(secret@), r) == Some((c.incomplete, items_view(c.items@))),
            None => env_completions(ix@, string_views(secret@), r) is None,
        },
{
    if ix.len() == 0 {
        return None;
    }
    let ghost sv = string_views(secret@);
    let mut items: Vec<CompletionItem> = Vec::new();
    let mut i: usize = 0;
    while i < ix.len()
        invariant
            i <= ix@.len(),
            sv == string_views(secret@),
            items_view(items@) == ix@.take(i as int).map_values(|e: (String, EnvEntry)| env_item(e.0@, e.1.value@, sv.contains(e.0@), r)),
        decreases ix@.len() - i,
    {
        let key = &ix[i].0;
        let masked = contains_str(secret, key.as_str());
        let mut v: Vec<char> = Vec::new();
        if masked {
            push_str(&mut v, "••••••");
        } else {
            push_str(&mut v, ix[i].1.value.as_str());
        }
        let mut detail = str_chars("`");
        push_all(&mut detail, v.as_slice());
        push_str(&mut detail, "`");
        let mut doc = str_chars("`");
        push_str(&mut doc, key.as_str());
        push_str(&mut doc, "` = `");
        push_all(&mut doc, v.as_slice());
        push_str(&mut doc, "`");
        let it = CompletionItem {
            label: key.clone(),
            kind: ItemKind::Constant,
            detail: Some(string_from_chars(detail.as_slice())),
            documentation: Some(string_from_chars(doc.as_slice())),
            new_text: key.clone(),
            range: r,
            filter_text: key.clone(),
            snippet: false,
            retrigger: false,
        };
        assert(item_view(it) == env_item(key@, ix@[i as int].1.value@, sv.contains(key@), r));
        let ghost before = items_view(items@);
        push_item(&mut items, it);
        proof {
            assert(ix@.take(i + 1) =~= ix@.take(i as int).push(ix@[i as int]));
            assert(ix@.take(i + 1).map_values(|e: (String, EnvEntry)| env_item(e.0@, e.1.value@, sv.contains(e.0@), r))
                =~= before.push(env_item(key@, ix@[i as int].1.value@, sv.contains(key@), r)));
        }
        i += 1;
    }
    assert(ix@.take(ix@.len() as int) =~= ix@);
    Some(Completions { incomplete: false, items })
}

// ── Route names ───────────────────────────────────────────────────────────

/// The completion of a route name: offered when its first route is known and resolved,
/// with the method and path as detail.
pub open spec fn name_item(e: (String, Vec<RouteId>), ix: Seq<(RouteId, Vec<RouteRecord>)>, r: Range) -> Option<ItemView> {
    let ids = e.1@;
    if ids.len() == 0 {
        None
    } else {
        match index_get(ix, ids[0]@) {
            Some(recs) => if recs.len() == 0 {
                None
            } else {
                match recs[0].resolved_path {
                    ResolvedPath::Resolved(p) => Some(
                        (e.0@, ItemKind::Value, Some(method_name(recs[0].method) + " "@ + p@), None, e.0@, r, e.0@, false, false),
                    ),
                    ResolvedPath::Unresolved => None,
                }
            },
            None => None,
        }
    }
}

/// The route names, in order; none when there is no name or none is offered.
pub open spec fn name_completions(rn: Seq<(String, Vec<RouteId>)>, ix: Seq<(RouteId, Vec<RouteRecord>)>, r: Range) -> Option<(bool, Seq<ItemView>)> {
    let items = crate::checks::somes(rn.map_values(|e: (String, Vec<RouteId>)| name_item(e, ix, r)));
    if rn.len() == 0 || items.len() == 0 {
        None
    } else {
        Some((false, items))
    }
}

fn url_for_name_completions(rn: &[(String, Vec<RouteId>)], ix: &RouteIndex, r: Range) -> (res: Option<Completions>)
    ensures
        match res {
            Some(c) => name_completions(rn@, ix@, r) == Some((c.incomplete, items_view(c.items@))),
            None => name_completions(rn@, ix@, r) is None,
        },
{
    let mut items: Vec<CompletionItem> = Vec::new();
    let mut i: usize = 0;
    while i < rn.len()
        invariant
            i <= rn@.len(),
            items_view(items@) == crate::checks::somes(rn@.take(i as int).map_values(|e: (String, Vec<RouteId>)| name_item(e, ix@, r))),
        decreases rn@.len() - i,
    {
        let ghost before = items_view(items@);
        proof {
            let m0 = rn@.take(i as int).map_values(|e: (String, Vec<RouteId>)| name_item(e, ix@, r));
            assert(rn@.take(i + 1).map_values(|e: (String, Vec<RouteId>)| name_item(e, ix@, r)) =~= m0.push(name_item(rn@[i as int], ix@, r)));
            assert(m0.push(name_item(rn@[i as int], ix@, r)).drop_last() =~= m0);
        }
        let name = &rn[i].0;
        let ids = &rn[i].1;
        if ids.len() > 0 {
            match index_lookup(ix, &ids[0]) {
                Some(recs) => {
                    if recs.len() > 0 {
                        match &recs[0].resolved_path {
                            ResolvedPath::Resolved(p) => {
                                let mut detail = str_chars(method_str(recs[0].method));
                                push_str(&mut detail, " ");
                                push_str(&mut detail, p.as_str());
                                let it = CompletionItem {
                                    label: name.clone(),
                                    kind: ItemKind::Value,
                                    detail: Some(string_from_chars(detail.as_slice())),
                                    documentation: None,
                                    new_text: name.clone(),
                                    range: r,
                                    filter_text: name.clone(),
                                    snippet: false,
                                    retrigger: false,
                                };
                                assert(name_item(rn@[i as int], ix@, r) == Some(item_view(it)));
                                push_item(&mut items, it);
                            },
                            ResolvedPath::Unresolved => {},
                        }
                    }
                },
                None => {},
            }
        }
        i += 1;
    }
    assert(rn@.take(rn@.len() as int) =~= rn@);
    if rn.len() == 0 || items.len() == 0 {
        None
    } else {
        Some(Completions { incomplete: false, items })
    }
}

// ── Test-client paths ─────────────────────────────────────────────────────

/// The completion of a route for a test-client call with `method`: its resolved path,
/// inserted as a snippet when it has parameters.
pub open spec fn path_item(rec: RouteRecord, method: Method, r: Range, cwd: Option<Seq<char>>) -> Option<ItemView> {
    if rec.method == method {
        match rec.resolved_path {
            ResolvedPath::Resolved(p) => Some(
                (
                    p@,
                    ItemKind::Reference,
                    Some(method_name(rec.method)),
                    Some("**"@ + rec.name@ + "**\n\n"@ + display_path_spec(rec.handler.uri@, cwd)),
                    snippet(p@),
                    r,
                    p@,
                    snippet(p@) != p@,
                    false,
                ),
            ),
            ResolvedPath::Unresolved => None,
        }
    } else {
        None
    }
}

/// The resolved routes with the call's method, in index order; none when there is none.
pub open spec fn path_completions(recs: Seq<RouteRecord>, method: Method, r: Range, cwd: Option<Seq<char>>) -> Option<(bool, Seq<ItemView>)> {
    let items = crate::checks::somes(recs.map_values(|x: RouteRecord| path_item(x, method, r, cwd)));
    if items.len() == 0 {
        None
    } else {
        Some((false, items))
    }
}

fn client_path_completions(ix: &RouteIndex, method: Method, r: Range, cwd: Option<&str>) -> (res: Option<Completions>)
    ensures
        match res {
            Some(c) => path_completions(index_records(ix@), method, r, cwd_view(cwd)) == Some((c.incomplete, items_view(c.items@))),
            None => path_completions(index_records(ix@), method, r, cwd_view(cwd)) is None,
        },
{
    let all = all_refs(ix);
    let ghost recs = index_records(ix@);
    let ghost cv = cwd_view(cwd);
    let mut items: Vec<CompletionItem> = Vec::new();
    let mut i: usize = 0;
    while i < all.len()
        invariant
            i <= all@.len(),
            derefs(all@) == recs,
            cv == cwd_view(cwd),
            items_view(items@) == crate::checks::somes(recs.take(i as int).map_values(|x: RouteRecord| path_item(x, method, r, cv))),
        decreases all@.len() - i,
    {
        let rec: &RouteRecord = all[i];
        assert(recs[i as int] == *rec);
        proof {
            let m0 = recs.take(i as int).map_values(|x: RouteRecord| path_item(x, method, r, cv));
            assert(recs.take(i + 1).map_values(|x: RouteRecord| path_item(x, method, r, cv)) =~= m0.push(path_item(*rec, method, r, cv)));
            assert(m0.push(path_item(*rec, method, r, cv)).drop_last() =~= m0);
        }
        if rec.method == method {
            match &rec.resolved_path {
                ResolvedPath::Resolved(p) => {
                    let sn = path_to_snippet(p.as_str());
                    let is_snippet = sn != *p;
                    let mut doc = str_chars("**");
                    push_str(&mut doc, rec.name.as_str());
                    push_str(&mut doc, "**\n\n");
                    let dp = display_path(rec.handler.uri.as_str(), cwd);
                    push_str(&mut doc, dp.as_str());
                    let it = CompletionItem {
                        label: p.clone(),
                        kind: ItemKind::Reference,
                        detail: Some(method_str(rec.method).to_owned()),
                        documentation: Some(string_from_chars(doc.as_slice())),
                        new_text: sn,
                        range: r,
                        filter_text: p.clone(),
                        snippet: is_snippet,
                        retrigger: false,
                    };
                    assert(path_item(*rec, method, r, cv) == Some(item_view(it)));
                    push_item(&mut items, it);
                },
                ResolvedPath::Unresolved => {},
            }
        }
        i += 1;
    }
    assert(recs.take(all@.len() as int) =~= recs);
    if items.len() == 0 {
        None
    } else {
        Some(Completions { incomplete: false, items })
    }
}

// ── Template names ────────────────────────────────────────────────────────

/// A directory completion: inserting it reopens the list.
pub open spec fn folder_item(dir: Seq<char>, r: Range) -> ItemView {
    (dir, ItemKind::Folder, None, None, dir, r, dir, false, true)
}

/// A template file completion, documented with where the file is.
pub open spec fn file_item(key: Seq<char>, uri: Seq<char>, r: Range, cwd: Option<Seq<char>>) -> ItemView {
    (key, ItemKind::File, None, Some(display_path_spec(uri, cwd)), key, r, key, false, false)
}

/// The template completions for what was typed (`prefix`), key by key: a key below a
/// further directory gives that directory once (`prefix`, the next part and `/`), any
/// other key that extends the prefix gives the file. Returns the items and the directories.
pub open spec fn template_state(keys: Seq<(String, String)>, prefix: Seq<char>, r: Range, cwd: Option<Seq<char>>) -> (Seq<ItemView>, Seq<Seq<char>>)
    decreases keys.len(),
{
    if keys.len() == 0 {
        (Seq::empty(), Seq::empty())
    } else {
        let prev = template_state(keys.drop_last(), prefix, r, cwd);
        let k = keys.last().0@;
        if !is_prefix(prefix, k) {
            prev
        } else {
            let rest = k.skip(prefix.len() as int);
            if rest.contains('/') {
                let dir = prefix + before_char(rest, '/') + "/"@;
                if prev.1.contains(dir) {
                    prev
                } else {
                    (prev.0.push(folder_item(dir, r)), prev.1.push(dir))
                }
            } else {
                (prev.0.push(file_item(k, keys.last().1@, r, cwd)), prev.1)
            }
        }
    }
}

/// The template completions; none when no template is known or nothing matches. The list
/// is incomplete when it offers a directory.
pub open spec fn template_completions(keys: Seq<(String, String)>, prefix: Seq<char>, r: Range, cwd: Option<Seq<char>>) -> Option<(bool, Seq<ItemView>)> {
    let st = template_state(keys, prefix, r, cwd);
    if keys.len() == 0 || st.0.len() == 0 {
        None
    } else {
        Some((st.1.len() > 0, st.0))
    }
}

fn template_path_completions(keys: &[(String, String)], prefix: &str, r: Range, cwd: Option<&str>) -> (res: Option<Completions>)
    ensures
        match res {
            Some(c) => template_completions(keys@, prefix@, r, cwd_view(cwd)) == Some((c.incomplete, items_view(c.items@))),
            None => template_completions(keys@, prefix@, r, cwd_view(cwd)) is None,
        },
{
    let ghost cv = cwd_view(cwd);
    let pc = str_chars(prefix);
    let mut items: Vec<CompletionItem> = Vec::new();
    let mut seen: Vec<Vec<char>> = Vec::new();
    let mut i: usize = 0;
    while i < keys.len()
        invariant
            i <= keys@.len(),
            pc@ == prefix@,
            cv == cwd_view(cwd),
            (items_view(items@), views(seen@)) == template_state(keys@.take(i as int), prefix@, r, cv),
        decreases keys@.len() - i,
    {
        assert(keys@.take(i + 1).drop_last() =~= keys@.take(i as int));
        assert(keys@.take(i + 1).last() == keys@[i as int]);
        let key = &keys[i].0;
        let kc = str_chars(key.as_str());
        if starts_with(kc.as_slice(), pc.as_slice()) {
            let rest = crate::text::slice_chars(kc.as_slice(), pc.len(), kc.len());
            assert(rest@ =~= key@.skip(prefix@.len() as int));
            if crate::text::has_char(rest.as_slice(), '/') {
                let parts = split_chars(rest.as_slice(), '/');
                proof {
                    crate::text::lemma_split_on_nonempty(rest@, '/');
                }
                let mut dir: Vec<char> = Vec::new();
                push_all(&mut dir, pc.as_slice());
                push_all(&mut dir, parts[0].as_slice());
                dir.push('/');
                proof {
                    reveal_strlit("/");
                    assert(views(parts@)[0] == parts@[0]@);
                }
                assert(dir@ =~= prefix@ + before_char(rest@, '/') + "/"@);
                let ghost sv = views(seen@);
                let mut found = false;
                let mut j: usize = 0;
                while j < seen.len()
                    invariant
                        j <= seen@.len(),
                        sv == views(seen@),
                        found == exists|m: int| 0 <= m < j && sv[m] == dir@,
                    decreases seen@.len() - j,
                {
                    assert(sv[j as int] == seen@[j as int]@);
                    if crate::text::chars_eq(seen[j].as_slice(), dir.as_slice()) {
                        found = true;
                    }
                    j += 1;
                }
                if !found {
                    let d = string_from_chars(dir.as_slice());
                    let it = CompletionItem {
                        label: d.clone(),
                        kind: ItemKind::Folder,
                        detail: None,
                        documentation: None,
                        new_text: d.clone(),
                        range: r,
                        filter_text: d,
                        snippet: false,
                        retrigger: true,
                    };
                    push_item(&mut items, it);
                    seen.push(dir);
                    assert(views(seen@) =~= sv.push(dir@));
                }
            } else {
                let dp = display_path(keys[i].1.as_str(), cwd);
                let it = CompletionItem {
                    label: key.clone(),
                    kind: ItemKind::File,
                    detail: None,
                    documentation: Some(dp),
                    new_text: key.clone(),
                    range: r,
                    filter_text: key.clone(),
                    snippet: false,
                    retrigger: false,
                };
                push_item(&mut items, it);
            }
        }
        i += 1;
    }
    assert(keys@.take(keys@.len() as int) =~= keys@);
    if keys.len() == 0 || items.len() == 0 {
        None
    } else {
        let incomplete = seen.len() > 0;
        Some(Completions { incomplete, items })
    }
}

// ── Dispatch ──────────────────────────────────────────────────────────────

/// The cursor is on the route-name string of a `url_for` call, its end included (so that
/// an empty string `''` counts).
pub open spec fn name_at(s: UrlForSite, pos: Position) -> bool {
    s.name_range matches Some(r) && pos_le(r.start, pos) && pos_le(pos, r.end)
}

/// The cursor is in an env key.
pub open spec fn key_at(s: EnvLookup, pos: Position) -> bool {
    in_range(pos, s.key_range.start, s.key_range.end)
}

/// The contents of a string literal's range, without its quotes.
pub open spec fn inner_range(r: Range) -> Range {
    Range {
        start: Position { line: r.start.line, character: (r.start.character + 1) as u32 },
        end: Position { line: r.end.line, character: if r.end.character > 0 { (r.end.character - 1) as u32 } else { 0 } },
    }
}

/// Completions at `pos` in file `uri`, the first that applies: route names on a `url_for`
/// name, env keys on an env key, routes with the call's method on a test-client path,
/// template names on a template string (typed text as prefix). None for an unknown file.
pub open spec fn completion_spec(ws: NavWorkspace, uri: Seq<char>, pos: Position, secret: Seq<Seq<char>>, cwd: Option<Seq<char>>) -> Option<(bool, Seq<ItemView>)> {
    match first_match(ws.files@, |x: NavFile| file_is(x, uri)) {
        None => None,
        Some(fk) => {
            let f = ws.files@[fk];
            match first_match(f.url_for_sites@, |s: UrlForSite| name_at(s, pos)) {
                Some(k) => name_completions(ws.route_names@, ws.route_index@, f.url_for_sites@[k].name_range->0),
                None => match first_match(f.env_lookups@, |s: EnvLookup| key_at(s, pos)) {
                    Some(k) => env_completions(ws.env_index@, secret, f.env_lookups@[k].replace_range),
                    None => match first_match(f.client_calls@, |c: ClientCall| call_at(c, pos)) {
                        Some(k) => path_completions(index_records(ws.route_index@), f.client_calls@[k].method, f.client_calls@[k].path_range, cwd),
                        None => match first_match(f.templates@, |t: TemplateRef| template_at(t, pos)) {
                            Some(k) => template_completions(ws.template_index@, f.templates@[k].path@, inner_range(f.templates@[k].range), cwd),
                            None => None,
                        },
                    },
                },
            }
        },
    }
}

/// Completions at `pos` (see `completion_spec`); `secret_keys` are the env keys whose
/// values are not shown, `cwd` the working directory.
pub fn completion(ws: &NavWorkspace, uri: &str, pos: Position, secret_keys: &[String], cwd: Option<&str>) -> (r: Option<Completions>)
    requires
        forall|i: int, j: int| 0 <= i < ws.files@.len() && 0 <= j < ws.files@[i].templates@.len()
            ==> (#[trigger] ws.files@[i].templates@[j]).range.start.character < u32::MAX,
    ensures
        match r {
            Some(c) => completion_spec(*ws, uri@, pos, string_views(secret_keys@), cwd_view(cwd)) == Some((c.incomplete, items_view(c.items@))),
            None => completion_spec(*ws, uri@, pos, string_views(secret_keys@), cwd_view(cwd)) is None,
        },
{
    let ghost fp = |x: NavFile| file_is(x, uri@);
    let u: String = uri.to_owned();
    let mut fi: usize = 0;
    while fi < ws.files.len()
        invariant
            fi <= ws.files@.len(),
            u@ == uri@,
            fp == (|x: NavFile| file_is(x, uri@)),
            forall|j: int| 0 <= j < fi ==> !fp(#[trigger] ws.files@[j]),
        ensures
            fi <= ws.files@.len(),
            forall|j: int| 0 <= j < fi ==> !fp(#[trigger] ws.files@[j]),
            fi < ws.files@.len() ==> fp(ws.files@[fi as int]),
        decreases ws.files@.len() - fi,
    {
        if ws.files[fi].uri == u {
            break;
        }
        fi += 1;
    }
    if fi == ws.files.len() {
        proof {
            lemma_first_match_none(ws.files@, fp);
        }
        return None;
    }
    proof {
        lemma_first_match_step(ws.files@, fp, fi as int);
    }
    let f = &ws.files[fi];
    let ghost p1 = |s: UrlForSite| name_at(s, pos);
    let mut i: usize = 0;
    while i < f.url_for_sites.len()
        invariant
            i <= f.url_for_sites@.len(),
            p1 == (|s: UrlForSite| name_at(s, pos)),
            first_match(ws.files@, |x: NavFile| file_is(x, uri@)) == Some(fi as int),
            fi < ws.files@.len(),
            *f == ws.files@[fi as int],
            forall|j: int| 0 <= j < i ==> !p1(#[trigger] f.url_for_sites@[j]),
        decreases f.url_for_sites@.len() - i,
    {
        proof {
            lemma_first_match_step(f.url_for_sites@, p1, i as int);
        }
        match f.url_for_sites[i].name_range {
            Some(r) => {
                let after = pos.line > r.start.line || (pos.line == r.start.line && pos.character >= r.start.character);
                let before = pos.line < r.end.line || (pos.line == r.end.line && pos.character <= r.end.character);
                if after && before {
                    return url_for_name_completions(ws.route_names.as_slice(), &ws.route_index, r);
                }
            },
            None => {},
        }
        i += 1;
    }
    proof {
        lemma_first_match_none(f.url_for_sites@, p1);
    }
    let ghost p2 = |s: EnvLookup| key_at(s, pos);
    let mut i: usize = 0;
    while i < f.env_lookups.len()
        invariant
            i <= f.env_lookups@.len(),
            p2 == (|s: EnvLookup| key_at(s, pos)),
            first_match(ws.files@, |x: NavFile| file_is(x, uri@)) == Some(fi as int),
            fi < ws.files@.len(),
            *f == ws.files@[fi as int],
            first_match(f.url_for_sites@, |s: UrlForSite| name_at(s, pos)) is None,
            forall|j: int| 0 <= j < i ==> !p2(#[trigger] f.env_lookups@[j]),
        decreases f.env_lookups@.len() - i,
    {
        proof {
            lemma_first_match_step(f.env_lookups@, p2, i as int);
        }
        let s = &f.env_lookups[i];
        if position_in_range(pos, s.key_range.start, s.key_range.end) {
            return env_key_completions(ws.env_index.as_slice(), secret_keys, s.replace_range);
        }
        i += 1;
    }
    proof {
        lemma_first_match_none(f.env_lookups@, p2);
    }
    let ghost p3 = |c: ClientCall| call_at(c, pos);
    let mut i: usize = 0;
    while i < f.client_calls.len()
        invariant
            i <= f.client_calls@.len(),
            p3 == (|c: ClientCall| call_at(c, pos)),
            first_match(ws.files@, |x: NavFile| file_is(x, uri@)) == Some(fi as int),
            fi < ws.files@.len(),
            *f == ws.files@[fi as int],
            first_match(f.url_for_sites@, |s: UrlForSite| name_at(s, pos)) is None,
            first_match(f.env_lookups@, |s: EnvLookup| key_at(s, pos)) is None,
            forall|j: int| 0 <= j < i ==> !p3(#[trigger] f.client_calls@[j]),
        decreases f.client_calls@.len() - i,
    {
        proof {
            lemma_first_match_step(f.client_calls@, p3, i as int);
        }
        let c = &f.client_calls[i];
        if position_in_range(pos, c.path_range.start, c.path_range.end) {
            return client_path_completions(&ws.route_index, c.method, c.path_range, cwd);
        }
        i += 1;
    }
    proof {
        lemma_first_match_none(f.client_calls@, p3);
    }
    let ghost p4 = |t: TemplateRef| template_at(t, pos);
    let mut i: usize = 0;
    while i < f.templates.len()
        invariant
            i <= f.templates@.len(),
            p4 == (|t: TemplateRef| template_at(t, pos)),
            first_match(ws.files@, |x: NavFile| file_is(x, uri@)) == Some(fi as int),
            fi < ws.files@.len(),
            *f == ws.files@[fi as int],
            first_match(f.url_for_sites@, |s: UrlForSite| name_at(s, pos)) is None,
            first_match(f.env_lookups@, |s: EnvLookup| key_at(s, pos)) is None,
            first_match(f.client_calls@, |c: ClientCall| call_at(c, pos)) is None,
            forall|j: int| 0 <= j < i ==> !p4(#[trigger] f.templates@[j]),
            forall|j: int| 0 <= j < f.templates@.len() ==> (#[trigger] f.templates@[j]).range.start.character < u32::MAX,
        decreases f.templates@.len() - i,
    {
        proof {
            lemma_first_match_step(f.templates@, p4, i as int);
        }
        let t = &f.templates[i];
        if position_in_range(pos, t.range.start, t.range.end) {
            let inner = Range {
                start: Position { line: t.range.start.line, character: t.range.start.character + 1 },
                end: Position { line: t.range.end.line, character: t.range.end.character.saturating_sub(1) },
            };
            assert(inner == inner_range(t.range));
            return template_path_completions(ws.template_index.as_slice(), t.path.as_str(), inner, cwd);
        }
        i += 1;
    }
    proof {
        lemma_first_match_none(f.templates@, p4);
    }
    None
}

} // verus!
