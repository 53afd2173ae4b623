//! Code actions: quick fixes for diagnostics and refactorings.
use vstd::prelude::*;
use crate::position::{Range, Position, in_range, position_in_range};
use crate::routing::{RouteRecord, RouteIndex, ResolvedPath, PathParam};
use crate::report::Diagnostic;
use crate::checks::{DiagView, diag_view, derefs, somes};
use crate::deps::DepRef;
use crate::analysis::{EnvLookup, plain_view, lemma_plain, index_records, all_refs};
use crate::diagnostics::{depends_called_diag, undefined_key_diag, param_missing_arg_diag, arg_missing_param_diag};
use crate::env::{str_to_uppercase, to_uppercase, env_key_ignored, is_env_key_ignored};
use crate::report::Severity;
use crate::text::{str_chars, string_from_chars, push_all, string_views, contains_str, views};
use crate::params::{svs, path_names, segment_range, param_segment_range, bound_by, columns_fit};
use crate::fixes::{from_deps, rename_candidate};
use crate::distance::edit_distance;
use crate::pysource::{trim_end, char_is_ws};

verus! {

broadcast use vstd::string::group_string_axioms;

/// The line of "append at the end of the file" edits; editors clamp it to the last line.
pub const APPEND_LINE: u32 = 2147483647;

/// The kind of a code action.
#[derive(Clone, Copy, Debug, PartialEq, Eq, Structural)]
pub enum ActionKind {
    QuickFix,
    RefactorRewrite,
    RefactorExtract,
}

/// Replace `range` by `new_text`.
#[derive(Clone, Debug)]
pub struct TextEdit {
    pub range: Range,
    pub new_text: String,
}

/// A change to the workspace.
#[derive(Clone, Debug)]
pub enum DocChange {
    /// Edits to one document, applied in order.
    Edit { uri: String, edits: Vec<TextEdit> },
    /// Create a file; an existing one is neither overwritten nor an error.
    Create { uri: String },
    /// Create the file at a file-system path, likewise.
    CreateFile { path: String },
}

/// A command run after the action: open file `uri` at `line`.
#[derive(Clone, Debug)]
pub struct ActionCommand {
    pub title: String,
    pub command: String,
    pub uri: String,
    pub line: u32,
}

/// A code action: a title and kind, the diagnostic it fixes, and what it changes.
#[derive(Clone, Debug)]
pub struct CodeAction {
    pub title: String,
    pub kind: ActionKind,
    pub diagnostic: Option<Diagnostic>,
    pub changes: Vec<DocChange>,
    pub command: Option<ActionCommand>,
    pub is_preferred: bool,
}

/// What a client sees of an edit, a change, a command and an action.
pub open spec fn edit_view(e: TextEdit) -> (Range, Seq<char>) {
    (e.range, e.new_text@)
}

pub open spec fn edits_view(es: Seq<TextEdit>) -> Seq<(Range, Seq<char>)> {
    es.map_values(|e: TextEdit| edit_view(e))
}

/// A change as a client sees it: 0 edits a document, 1 creates a file by URI, 2 by path.
pub open spec fn change_view(c: DocChange) -> (u8, Seq<char>, Seq<(Range, Seq<char>)>) {
    match c {
        DocChange::Edit { uri, edits } => (0u8, uri@, edits_view(edits@)),
        DocChange::Create { uri } => (1u8, uri@, Seq::empty()),
        DocChange::CreateFile { path } => (2u8, path@, Seq::empty()),
    }
}

pub open spec fn changes_view(cs: Seq<DocChange>) -> Seq<(u8, Seq<char>, Seq<(Range, Seq<char>)>)> {
    cs.map_values(|c: DocChange| change_view(c))
}

pub type ActionView = (
    Seq<char>,
    ActionKind,
    Option<DiagView>,
    Seq<(u8, Seq<char>, Seq<(Range, Seq<char>)>)>,
    Option<(Seq<char>, Seq<char>, Seq<char>, u32)>,
    bool,
);

pub open spec fn action_view(a: CodeAction) -> ActionView {
    (
        a.title@,
        a.kind,
        match a.diagnostic {
            Some(d) => Some(diag_view(d)),
            None => None,
        },
        changes_view(a.changes@),
        match a.command {
            Some(c) => Some((c.title@, c.command@, c.uri@, c.line)),
            None => None,
        },
        a.is_preferred,
    )
}

pub open spec fn actions_view(v: Seq<CodeAction>) -> Seq<ActionView> {
    v.map_values(|a: CodeAction| action_view(a))
}

/// An edit of one document, as a client sees it.
pub open spec fn one_doc(uri: Seq<char>, edits: Seq<(Range, Seq<char>)>) -> Seq<(u8, Seq<char>, Seq<(Range, Seq<char>)>)> {
    seq![(0u8, uri, edits)]
}

/// An empty range at `(line, character)`.
pub open spec fn at(line: u32, character: u32) -> Range {
    Range { start: Position { line, character }, end: Position { line, character } }
}

pub(crate) fn at_pos(line: u32, character: u32) -> (r: Range)
    ensures
        r == at(line, character),
{
    Range { start: Position { line, character }, end: Position { line, character } }
}

/// The requested range touches `[a, b)`: its start or its end lies there.
pub open spec fn touches(range: Range, a: Position, b: Position) -> bool {
    in_range(range.start, a, b) || in_range(range.end, a, b)
}

pub(crate) fn touching(range: Range, a: Position, b: Position) -> (r: bool)
    ensures
        r == touches(range, a, b),
{
    position_in_range(range.start, a, b) || position_in_range(range.end, a, b)
}

fn push_str(out: &mut Vec<char>, s: &str)
    ensures
        final(out)@ == old(out)@ + s@,
{
    let cs = str_chars(s);
    push_all(out, cs.as_slice());
}

pub(crate) fn cat3(a: &str, b: &str, c: &str) -> (r: String)
    ensures
        r@ == a@ + b@ + c@,
{
    let mut out: Vec<char> = Vec::new();
    push_str(&mut out, a);
    push_str(&mut out, b);
    push_str(&mut out, c);
    string_from_chars(out.as_slice())
}

fn cat4(a: &str, b: &str, c: &str, d: &str) -> (r: String)
    ensures
        r@ == a@ + b@ + c@ + d@,
{
    let mut out: Vec<char> = Vec::new();
    push_str(&mut out, a);
    push_str(&mut out, b);
    push_str(&mut out, c);
    push_str(&mut out, d);
    string_from_chars(out.as_slice())
}

fn cat5(a: &str, b: &str, c: &str, d: &str, e: &str) -> (r: String)
    ensures
        r@ == a@ + b@ + c@ + d@ + e@,
{
    let mut out: Vec<char> = Vec::new();
    push_str(&mut out, a);
    push_str(&mut out, b);
    push_str(&mut out, c);
    push_str(&mut out, d);
    push_str(&mut out, e);
    string_from_chars(out.as_slice())
}

fn one_edit(uri: &String, range: Range, text: String) -> (r: Vec<DocChange>)
    ensures
        changes_view(r@) == one_doc(uri@, seq![(range, text@)]),
{
    let mut edits: Vec<TextEdit> = Vec::new();
    edits.push(TextEdit { range, new_text: text });
    let mut out: Vec<DocChange> = Vec::new();
    out.push(DocChange::Edit { uri: uri.clone(), edits });
    assert(edits_view(edits@) =~= seq![(range, text@)]);
    assert(changes_view(out@) =~= one_doc(uri@, seq![(range, text@)]));
    out
}

pub(crate) fn push_action(out: &mut Vec<CodeAction>, a: CodeAction)
    ensures
        actions_view(final(out)@) == actions_view(old(out)@).push(action_view(a)),
{
    out.push(a);
    assert(actions_view(out@) =~= actions_view(old(out)@).push(action_view(a)));
}

// ── di/depends-called ─────────────────────────────────────────────────────

/// "Remove call" for a `Depends(f())` under the cursor, when `f` is a known dependency
/// and the call's range is known: the call becomes `f`.
pub open spec fn remove_call_view(uri: Seq<char>, r: DepRef, proven: Seq<Seq<char>>, range: Range) -> Option<ActionView> {
    if r.is_called && proven.contains(r.name@) && touches(range, r.range.start, r.range.end) {
        match r.callee_range {
            Some(c) => Some(
                (
                    "Remove call — pass `"@ + r.name@ + "` itself"@,
                    ActionKind::QuickFix,
                    Some(plain_view(r.range, Severity::Error, "di/depends-called"@, "Dependency called with (): remove () to pass the callable."@)),
                    one_doc(uri, seq![(c, r.name@)]),
                    None,
                    true,
                ),
            ),
            None => None,
        }
    } else {
        None
    }
}

/// The "Remove call" actions of a file, reference by reference.
pub fn remove_call_actions(uri: &String, refs: &[DepRef], proven: &[String], range: Range) -> (r: Vec<CodeAction>)
    ensures
        actions_view(r@) == somes(refs@.map_values(|x: DepRef| remove_call_view(uri@, x, string_views(proven@), range))),
{
    let ghost pv = string_views(proven@);
    let mut out: Vec<CodeAction> = Vec::new();
    let mut i: usize = 0;
    while i < refs.len()
        invariant
            i <= refs@.len(),
            pv == string_views(proven@),
            actions_view(out@) == somes(refs@.take(i as int).map_values(|x: DepRef| remove_call_view(uri@, x, pv, range))),
        decreases refs@.len() - i,
    {
        let d = &refs[i];
        proof {
            let m0 = refs@.take(i as int).map_values(|x: DepRef| remove_call_view(uri@, x, pv, range));
            assert(refs@.take(i + 1).map_values(|x: DepRef| remove_call_view(uri@, x, pv, range)) =~= m0.push(remove_call_view(uri@, *d, pv, range)));
            assert(m0.push(remove_call_view(uri@, *d, pv, range)).drop_last() =~= m0);
        }
        if d.is_called && contains_str(proven, d.name.as_str()) && touching(range, d.range.start, d.range.end) {
            match d.callee_range {
                Some(c) => {
                    let diag = depends_called_diag(d.range);
                    proof {
                        lemma_plain(diag, d.range, Severity::Error, "di/depends-called"@, "Dependency called with (): remove () to pass the callable."@);
                    }
                    let title = cat3("Remove call — pass `", d.name.as_str(), "` itself");
                    let changes = one_edit(uri, c, d.name.clone());
                    let a = CodeAction { title, kind: ActionKind::QuickFix, diagnostic: Some(diag), changes, command: None, is_preferred: true };
                    push_action(&mut out, a);
                },
                None => {},
            }
        }
        i += 1;
    }
    assert(refs@.take(refs@.len() as int) =~= refs@);
    out
}


// ── env/undefined-key ─────────────────────────────────────────────────────

/// An `.env.example` entry for uppercase key `ku`.
pub open spec fn upper_is(e: (String, String), ku: Seq<char>) -> bool {
    str_to_uppercase(e.0@) == ku
}

/// The `KEY=value` line of the first `.env.example` entry whose key uppercases to `ku`.
pub open spec fn example_line(entries: Seq<(String, String)>, ku: Seq<char>) -> Option<Seq<char>> {
    match crate::checks::first_match(entries, |e: (String, String)| upper_is(e, ku)) {
        Some(k) => Some(entries[k].0@ + "="@ + entries[k].1@),
        None => None,
    }
}

/// The env actions for lookup `l` under the cursor, when it has no default, its key (as
/// written or uppercased) is in no env file and is not ignored, and the workspace has an
/// `.env` path: "Add KEY to .env" (appending `KEY=`, with a command that opens the file
/// when the client can show documents), then "Copy KEY from .env.example" when that file
/// defines it.
pub open spec fn env_site_actions(
    l: EnvLookup,
    env_keys: Seq<Seq<char>>,
    ignore: Seq<String>,
    env_uri: Option<Seq<char>>,
    example: Option<Seq<(String, String)>>,
    show: bool,
    range: Range,
) -> Seq<ActionView> {
    let ku = str_to_uppercase(l.key@);
    if l.has_default || !touches(range, l.key_range.start, l.key_range.end) || env_keys.contains(ku) || env_keys.contains(l.key@)
        || env_key_ignored(l.key@, ignore) {
        Seq::empty()
    } else {
        match env_uri {
            None => Seq::empty(),
            Some(eu) => seq![
                (
                    "Add '"@ + l.key@ + "' to .env"@,
                    ActionKind::QuickFix,
                    Some(plain_view(l.key_range, Severity::Information, "env/undefined-key"@, "Undefined env key: "@ + l.key@ + "."@)),
                    one_doc(eu, seq![(at(APPEND_LINE, 0), ku + "=\n"@)]),
                    if show {
                        Some(("Open .env at appended line"@, "fastapi-lsp.openFileAt"@, eu, APPEND_LINE))
                    } else {
                        None
                    },
                    true,
                ),
            ] + match example {
                Some(entries) => match example_line(entries, ku) {
                    Some(raw) => seq![
                        (
                            "Copy '"@ + l.key@ + "' from .env.example to .env"@,
                            ActionKind::QuickFix,
                            None,
                            one_doc(eu, seq![(at(APPEND_LINE, 0), trim_end(raw) + "\n"@)]),
                            None,
                            false,
                        ),
                    ],
                    None => Seq::empty(),
                },
                None => Seq::empty(),
            },
        }
    }
}

/// The env actions of all lookups, in order.
pub open spec fn env_actions_spec(
    ls: Seq<EnvLookup>,
    env_keys: Seq<Seq<char>>,
    ignore: Seq<String>,
    env_uri: Option<Seq<char>>,
    example: Option<Seq<(String, String)>>,
    show: bool,
    range: Range,
) -> Seq<ActionView>
    decreases ls.len(),
{
    if ls.len() == 0 {
        Seq::empty()
    } else {
        env_actions_spec(ls.drop_last(), env_keys, ignore, env_uri, example, show, range) + env_site_actions(
            ls.last(),
            env_keys,
            ignore,
            env_uri,
            example,
            show,
            range,
        )
    }
}

fn find_example_line(entries: &[(String, String)], ku: &String) -> (r: Option<Vec<char>>)
    ensures
        match r {
            Some(l) => example_line(entries@, ku@) == Some(l@),
            None => example_line(entries@, ku@) is None,
        },
{
    let ghost p = |e: (String, String)| upper_is(e, ku@);
    let mut i: usize = 0;
    while i < entries.len()
        invariant
            i <= entries@.len(),
            p == (|e: (String, String)| upper_is(e, ku@)),
            forall|j: int| 0 <= j < i ==> !p(#[trigger] entries@[j]),
        decreases entries@.len() - i,
    {
        proof {
            crate::checks::lemma_first_match_step(entries@, p, i as int);
        }
        let up = to_uppercase(entries[i].0.as_str());
        if up == *ku {
            let mut line = str_chars(entries[i].0.as_str());
            push_str(&mut line, "=");
            push_str(&mut line, entries[i].1.as_str());
            return Some(line);
        }
        i += 1;
    }
    proof {
        crate::checks::lemma_first_match_none(entries@, p);
    }
    None
}

fn trim_end_chars(s: &[char]) -> (r: Vec<char>)
    ensures
        r@ == trim_end(s@),
{
    let mut n = s.len();
    assert(s@.take(n as int) =~= s@);
    while n > 0 && char_is_ws(s[n - 1])
        invariant
            n <= s@.len(),
            trim_end(s@) == trim_end(s@.take(n as int)),
        decreases n,
    {
        assert(s@.take(n as int).drop_last() =~= s@.take(n - 1));
        n -= 1;
    }
    crate::text::slice_chars(s, 0, n)
}

/// The env actions of a file (see `env_actions_spec`); `env_uri` is the workspace's
/// `.env`, `example` the entries of its `.env.example` when known.
pub fn env_actions(
    lookups: &[EnvLookup],
    env_keys: &[String],
    ignore: &[String],
    env_uri: &Option<String>,
    example: &Option<Vec<(String, String)>>,
    show_document: bool,
    range: Range,
) -> (r: Vec<CodeAction>)
    ensures
        actions_view(r@) == env_actions_spec(
            lookups@,
            string_views(env_keys@),
            ignore@,
            match env_uri {
                Some(u) => Some(u@),
                None => None,
            },
            match example {
                Some(e) => Some(e@),
                None => None,
            },
            show_document,
            range,
        ),
{
    let ghost eu = match env_uri {
        Some(u) => Some(u@),
        None => None::<Seq<char>>,
    };
    let ghost ex = match example {
        Some(e) => Some(e@),
        None => None::<Seq<(String, String)>>,
    };
    let ghost kv = string_views(env_keys@);
    let mut out: Vec<CodeAction> = Vec::new();
    let mut i: usize = 0;
    while i < lookups.len()
        invariant
            i <= lookups@.len(),
            kv == string_views(env_keys@),
            eu == match env_uri {
                Some(u) => Some(u@),
                None => None::<Seq<char>>,
            },
            ex == match example {
                Some(e) => Some(e@),
                None => None::<Seq<(String, String)>>,
            },
            actions_view(out@) == env_actions_spec(lookups@.take(i as int), kv, ignore@, eu, ex, show_document, range),
        decreases lookups@.len() - i,
    {
        let l = &lookups[i];
        assert(lookups@.take(i + 1).drop_last() =~= lookups@.take(i as int));
        assert(lookups@.take(i + 1).last() == *l);
        let ghost before = actions_view(out@);
        let ku = to_uppercase(l.key.as_str());
        let skip = l.has_default || !touching(range, l.key_range.start, l.key_range.end) || contains_str(env_keys, ku.as_str())
            || contains_str(env_keys, l.key.as_str()) || is_env_key_ignored(l.key.as_str(), ignore);
        if !skip {
            match env_uri {
                Some(u) => {
                    let diag = undefined_key_diag(l.key.as_str(), l.key_range);
                    proof {
                        lemma_plain(diag, l.key_range, Severity::Information, "env/undefined-key"@, "Undefined env key: "@ + l.key@ + "."@);
                    }
                    let command = if show_document {
                        Some(ActionCommand {
                            title: "Open .env at appended line".to_owned(),
                            command: "fastapi-lsp.openFileAt".to_owned(),
                            uri: u.clone(),
                            line: APPEND_LINE,
                        })
                    } else {
                        None
                    };
                    let mut t = str_chars(ku.as_str());
                    push_str(&mut t, "=\n");
                    let changes = one_edit(u, at_pos(APPEND_LINE, 0), string_from_chars(t.as_slice()));
                    let a = CodeAction {
                        title: cat3("Add '", l.key.as_str(), "' to .env"),
                        kind: ActionKind::QuickFix,
                        diagnostic: Some(diag),
                        changes,
                        command,
                        is_preferred: true,
                    };
                    push_action(&mut out, a);
                    match example {
                        Some(entries) => {
                            match find_example_line(entries.as_slice(), &ku) {
                                Some(raw) => {
                                    let mut t = trim_end_chars(raw.as_slice());
                                    push_str(&mut t, "\n");
                                    let changes = one_edit(u, at_pos(APPEND_LINE, 0), string_from_chars(t.as_slice()));
                                    let a = CodeAction {
                                        title: cat3("Copy '", l.key.as_str(), "' from .env.example to .env"),
                                        kind: ActionKind::QuickFix,
                                        diagnostic: None,
                                        changes,
                                        command: None,
                                        is_preferred: false,
                                    };
                                    push_action(&mut out, a);
                                },
                                None => {},
                            }
                        },
                        None => {},
                    }
                },
                None => {},
            }
        }
        assert(actions_view(out@) =~= before + env_site_actions(*l, kv, ignore@, eu, ex, show_document, range));
        i += 1;
    }
    assert(lookups@.take(lookups@.len() as int) =~= lookups@);
    out
}


// ── route/param-missing-arg and route/arg-missing-param ───────────────────

/// Path parameter `name` is bound: by a handler argument or a decorator dependency's
/// parameter.
pub open spec fn bound_param(r: RouteRecord, dp: Seq<(String, Vec<String>)>, name: Seq<char>) -> bool {
    svs(r.handler_params@).contains(name) || from_deps(r, dp, name)
}

/// "Add parameter `X: str`" for unbound path parameter `p` when the cursor is on its
/// segment; inserted at `ip`, after a comma when the handler has parameters.
pub open spec fn add_param_view(uri: Seq<char>, r: RouteRecord, dp: Seq<(String, Vec<String>)>, p: PathParam, ip: Position, range: Range) -> Option<ActionView> {
    let seg = segment_range(r, p.name@);
    if bound_param(r, dp, p.name@) || !touches(range, seg.start, seg.end) {
        None
    } else {
        Some(
            (
                "Add parameter `"@ + p.name@ + ": str`"@,
                ActionKind::QuickFix,
                Some(plain_view(seg, Severity::Warning, "route/param-missing-arg"@, "Unbound path parameter: "@ + p.name@ + "."@)),
                one_doc(uri, seq![(Range { start: ip, end: ip }, if r.handler_params@.len() == 0 { p.name@ + ": str"@ } else { ", "@ + p.name@ + ": str"@ })]),
                None,
                true,
            ),
        )
    }
}

/// The handler's parameters with their ranges.
pub open spec fn param_pairs(r: RouteRecord) -> Seq<(Seq<char>, Range)> {
    Seq::new(r.handler_params@.len(), |i: int| (r.handler_params@[i]@, r.handler_param_ranges@[i]))
}

/// A handler parameter under the cursor that may be a misspelling of `t`.
pub open spec fn rename_hit(r: RouteRecord, dp: Seq<(String, Vec<String>)>, t: Seq<char>, range: Range, x: (Seq<char>, Range)) -> bool {
    rename_candidate(r, dp, x.0, t) && touches(range, x.1.start, x.1.end)
}

/// The rename actions of a route: when exactly one path parameter `t` is unbound and the
/// parameters' ranges are known, for the first handler parameter under the cursor that
/// may be a misspelling of it: "Rename parameter to `t`", then, when the path is a
/// literal, "Add `/{h}` segment to path" (inserted before the closing quote).
pub open spec fn rename_views(uri: Seq<char>, r: RouteRecord, dp: Seq<(String, Vec<String>)>, range: Range) -> Seq<ActionView> {
    let ub = crate::fixes::unbound_names(path_names(r), r, dp);
    if ub.len() != 1 || r.handler_param_ranges@.len() != r.handler_params@.len() {
        Seq::empty()
    } else {
        let t = ub[0];
        match crate::checks::first_match(param_pairs(r), |x: (Seq<char>, Range)| rename_hit(r, dp, t, range, x)) {
            Some(k) => {
                let h = param_pairs(r)[k].0;
                let hr = param_pairs(r)[k].1;
                let dv = plain_view(hr, Severity::Hint, "route/arg-missing-param"@, "Handler parameter not in path: "@ + h + ". Did you mean {"@ + t + "}?"@);
                seq![("Rename parameter to `"@ + t + "`"@, ActionKind::QuickFix, Some(dv), one_doc(uri, seq![(hr, t)]), None, true)]
                    + match r.path_range {
                    Some(pr) => seq![
                        (
                            "Add `/{"@ + h + "}` segment to path"@,
                            ActionKind::QuickFix,
                            Some(dv),
                            one_doc(uri, seq![(at(pr.end.line, if pr.end.character > 0 { (pr.end.character - 1) as u32 } else { 0 }), "/{"@ + h + "}"@)]),
                            None,
                            false,
                        ),
                    ],
                    None => Seq::empty(),
                }
            },
            None => Seq::empty(),
        }
    }
}

/// The parameter actions of one route: none when its handler's arguments are unknown or
/// include `*args`/`**kwargs`, or when it has no path parameter; else the "Add parameter"
/// actions (when the insert position is known), then the rename actions.
pub open spec fn record_param_actions(uri: Seq<char>, r: RouteRecord, dp: Seq<(String, Vec<String>)>, range: Range) -> Seq<ActionView> {
    if !r.handler_params_known || r.handler_has_splat_args || r.path_params@.len() == 0 {
        Seq::empty()
    } else {
        (match r.params_insert_pos {
            Some(ip) => somes(r.path_params@.map_values(|p: PathParam| add_param_view(uri, r, dp, p, ip, range))),
            None => Seq::empty(),
        }) + rename_views(uri, r, dp, range)
    }
}

/// The parameter actions of the resolved routes handled in file `uri`, in index order.
pub open spec fn param_actions_spec(recs: Seq<RouteRecord>, uri: Seq<char>, dp: Seq<(String, Vec<String>)>, range: Range) -> Seq<ActionView>
    decreases recs.len(),
{
    if recs.len() == 0 {
        Seq::empty()
    } else {
        param_actions_spec(recs.drop_last(), uri, dp, range) + if recs.last().handler.uri@ == uri && recs.last().resolved_path is Resolved {
            record_param_actions(uri, recs.last(), dp, range)
        } else {
            Seq::empty()
        }
    }
}

fn push_add_param_actions(out: &mut Vec<CodeAction>, uri: &String, r: &RouteRecord, dp: &[(String, Vec<String>)], ip: Position, range: Range)
    requires
        columns_fit(*r),
    ensures
        actions_view(final(out)@) == actions_view(old(out)@) + somes(r.path_params@.map_values(|p: PathParam| add_param_view(uri@, *r, dp@, p, ip, range))),
{
    let mut i: usize = 0;
    while i < r.path_params.len()
        invariant
            i <= r.path_params@.len(),
            columns_fit(*r),
            actions_view(out@) == actions_view(old(out)@) + somes(r.path_params@.take(i as int).map_values(|p: PathParam| add_param_view(uri@, *r, dp@, p, ip, range))),
        decreases r.path_params@.len() - i,
    {
        let p = &r.path_params[i];
        proof {
            let m0 = r.path_params@.take(i as int).map_values(|p: PathParam| add_param_view(uri@, *r, dp@, p, ip, range));
            assert(r.path_params@.take(i + 1).map_values(|p: PathParam| add_param_view(uri@, *r, dp@, p, ip, range)) =~= m0.push(add_param_view(uri@, *r, dp@, *p, ip, range)));
            assert(m0.push(add_param_view(uri@, *r, dp@, *p, ip, range)).drop_last() =~= m0);
        }
        let ghost before = actions_view(out@);
        let bound = bound_by(&p.name, r.handler_params.as_slice(), r.dependencies.as_slice(), dp);
        let seg = param_segment_range(r, p.name.as_str());
        if !bound && touching(range, seg.start, seg.end) {
            let diag = param_missing_arg_diag(p.name.as_str(), seg);
            proof {
                lemma_plain(diag, seg, Severity::Warning, "route/param-missing-arg"@, "Unbound path parameter: "@ + p.name@ + "."@);
            }
            let text = if r.handler_params.len() == 0 {
                cat3("", p.name.as_str(), ": str")
            } else {
                cat3(", ", p.name.as_str(), ": str")
            };
            proof {
                reveal_strlit("");
                assert(""@ + p.name@ + ": str"@ =~= p.name@ + ": str"@);
            }
            let changes = one_edit(uri, Range { start: ip, end: ip }, text);
            let a = CodeAction {
                title: cat3("Add parameter `", p.name.as_str(), ": str`"),
                kind: ActionKind::QuickFix,
                diagnostic: Some(diag),
                changes,
                command: None,
                is_preferred: true,
            };
            push_action(out, a);
        }
        i += 1;
    }
    assert(r.path_params@.take(r.path_params@.len() as int) =~= r.path_params@);
}

fn push_rename_actions(out: &mut Vec<CodeAction>, uri: &String, r: &RouteRecord, dp: &[(String, Vec<String>)], range: Range)
    ensures
        actions_view(final(out)@) == actions_view(old(out)@) + rename_views(uri@, *r, dp@, range),
{
    let ub = crate::fixes::unbound_params_of(r, dp);
    if ub.len() != 1 || r.handler_param_ranges.len() != r.handler_params.len() {
        assert(actions_view(out@) =~= actions_view(old(out)@) + rename_views(uri@, *r, dp@, range));
        return;
    }
    let t = &ub[0];
    let ghost uv = crate::fixes::unbound_names(path_names(*r), *r, dp@);
    assert(svs(ub@)[0] == t@);
    let ghost pairs = param_pairs(*r);
    let ghost p = |x: (Seq<char>, Range)| rename_hit(*r, dp@, uv[0], range, x);
    let mut i: usize = 0;
    while i < r.handler_params.len()
        invariant
            i <= r.handler_params@.len(),
            r.handler_param_ranges@.len() == r.handler_params@.len(),
            pairs == param_pairs(*r),
            uv[0] == t@,
            p == (|x: (Seq<char>, Range)| rename_hit(*r, dp@, uv[0], range, x)),
            forall|j: int| 0 <= j < i ==> !p(#[trigger] pairs[j]),
        ensures
            i <= r.handler_params@.len(),
            forall|j: int| 0 <= j < i ==> !p(#[trigger] pairs[j]),
            i < r.handler_params@.len() ==> p(pairs[i as int]),
        decreases r.handler_params@.len() - i,
    {
        let h = &r.handler_params[i];
        let hr = r.handler_param_ranges[i];
        assert(pairs[i as int] == (h@, hr));
        if crate::fixes::is_rename_candidate_of(r, dp, h, t) && touching(range, hr.start, hr.end) {
            break;
        }
        i += 1;
    }
    if i == r.handler_params.len() {
        proof {
            crate::checks::lemma_first_match_none(pairs, p);
        }
        assert(actions_view(out@) =~= actions_view(old(out)@) + rename_views(uri@, *r, dp@, range));
        return;
    }
    proof {
        crate::checks::lemma_first_match_step(pairs, p, i as int);
    }
    let h = &r.handler_params[i];
    let hr = r.handler_param_ranges[i];
    assert(pairs[i as int] == (h@, hr));
    let ghost before = actions_view(out@);
    assert(crate::checks::first_match(param_pairs(*r), |x: (Seq<char>, Range)| rename_hit(*r, dp@, uv[0], range, x)) == Some(i as int));
    let diag = arg_missing_param_diag(h.as_str(), t.as_str(), hr);
    proof {
        lemma_plain(diag, hr, Severity::Hint, "route/arg-missing-param"@, "Handler parameter not in path: "@ + h@ + ". Did you mean {"@ + t@ + "}?"@);
    }
    let changes = one_edit(uri, hr, t.clone());
    let a = CodeAction {
        title: cat3("Rename parameter to `", t.as_str(), "`"),
        kind: ActionKind::QuickFix,
        diagnostic: Some(diag),
        changes,
        command: None,
        is_preferred: true,
    };
    push_action(out, a);
    match r.path_range {
        Some(pr) => {
            let diag = arg_missing_param_diag(h.as_str(), t.as_str(), hr);
            proof {
                lemma_plain(diag, hr, Severity::Hint, "route/arg-missing-param"@, "Handler parameter not in path: "@ + h@ + ". Did you mean {"@ + t@ + "}?"@);
            }
            let col = if pr.end.character > 0 { pr.end.character - 1 } else { 0 };
            let changes = one_edit(uri, at_pos(pr.end.line, col), cat3("/{", h.as_str(), "}"));
            let a = CodeAction {
                title: cat3("Add `/{", h.as_str(), "}` segment to path"),
                kind: ActionKind::QuickFix,
                diagnostic: Some(diag),
                changes,
                command: None,
                is_preferred: false,
            };
            push_action(out, a);
        },
        None => {},
    }
    assert(actions_view(out@) =~= before + rename_views(uri@, *r, dp@, range));
}

/// The parameter actions of file `uri` (see `param_actions_spec`); `dp` lists each
/// dependency's parameters.
pub fn param_actions(route_index: &RouteIndex, uri: &String, dp: &[(String, Vec<String>)], range: Range) -> (r: Vec<CodeAction>)
    requires
        forall|k: int| 0 <= k < index_records(route_index@).len() ==> columns_fit(#[trigger] index_records(route_index@)[k]),
    ensures
        actions_view(r@) == param_actions_spec(index_records(route_index@), uri@, dp@, range),
{
    let all = all_refs(route_index);
    let ghost recs = index_records(route_index@);
    let mut out: Vec<CodeAction> = Vec::new();
    let mut i: usize = 0;
    while i < all.len()
        invariant
            i <= all@.len(),
            derefs(all@) == recs,
            forall|k: int| 0 <= k < recs.len() ==> columns_fit(#[trigger] recs[k]),
            actions_view(out@) == param_actions_spec(recs.take(i as int), uri@, dp@, range),
        decreases all@.len() - i,
    {
        let rec: &RouteRecord = all[i];
        assert(recs[i as int] == *rec);
        assert(recs.take(i + 1).drop_last() =~= recs.take(i as int));
        assert(recs.take(i + 1).last() == *rec);
        let ghost before = actions_view(out@);
        let resolved = match &rec.resolved_path {
            ResolvedPath::Resolved(_) => true,
            ResolvedPath::Unresolved => false,
        };
        if rec.handler.uri == *uri && resolved && rec.handler_params_known && !rec.handler_has_splat_args && rec.path_params.len() > 0 {
            match rec.params_insert_pos {
                Some(ip) => push_add_param_actions(&mut out, uri, rec, dp, ip, range),
                None => {},
            }
            push_rename_actions(&mut out, uri, rec, dp, range);
        }
        assert(actions_view(out@) =~= before + if rec.handler.uri@ == uri@ && rec.resolved_path is Resolved {
            record_param_actions(uri@, *rec, dp@, range)
        } else {
            Seq::empty()
        });
        i += 1;
    }
    assert(recs.take(all@.len() as int) =~= recs);
    out
}


// ── Converting between inline and `Annotated` dependencies ────────────────

/// A handler parameter that uses `Depends(...)`: `p: Annotated[T, Depends(f)]` or
/// `p: T = Depends(f)`.
#[derive(Clone, Debug)]
pub struct AnnotatedParam {
    pub param_name: String,
    pub containing_func: String,
    /// The text of `T`.
    pub type_text: String,
    /// The text of `Depends(f)`.
    pub depends_text: String,
    /// The `Annotated[...]` form is used.
    pub is_annotated: bool,
    /// `Annotated[...]` has more than the type and the `Depends`.
    pub has_extra_args: bool,
    /// The annotation (`Annotated[...]`, or `T` for the inline form).
    pub annotation_range: Range,
    /// The default (`Depends(f)`) of the inline form.
    pub default_range: Option<Range>,
}

/// The span a conversion is offered on: the annotation, and for the inline form also its
/// default.
pub open spec fn convert_span_end(ap: AnnotatedParam) -> Position {
    if ap.is_annotated {
        ap.annotation_range.end
    } else {
        match ap.default_range {
            Some(d) => d.end,
            None => ap.annotation_range.end,
        }
    }
}

/// The conversion of a parameter under the cursor: `Annotated[T, Depends(f)]` becomes
/// `T = Depends(f)` (not offered with extra arguments); `T = Depends(f)` becomes
/// `Annotated[T, Depends(f)]`, importing `Annotated` at `ins_line` when `needs_import`.
pub open spec fn convert_view(uri: Seq<char>, ap: AnnotatedParam, needs_import: bool, ins_line: u32, range: Range) -> Option<ActionView> {
    if !touches(range, ap.annotation_range.start, convert_span_end(ap)) {
        None
    } else if ap.is_annotated {
        if ap.has_extra_args {
            None
        } else {
            Some(
                (
                    "Convert `"@ + ap.param_name@ + "` to inline style"@,
                    ActionKind::RefactorRewrite,
                    None,
                    one_doc(uri, seq![(ap.annotation_range, ap.type_text@ + " = "@ + ap.depends_text@)]),
                    None,
                    false,
                ),
            )
        }
    } else {
        match ap.default_range {
            Some(d) => Some(
                (
                    "Convert `"@ + ap.param_name@ + "` to Annotated style"@,
                    ActionKind::RefactorRewrite,
                    None,
                    one_doc(
                        uri,
                        (if needs_import { seq![(at(ins_line, 0), "from typing import Annotated\n"@)] } else { Seq::empty() }) + seq![
                            (Range { start: ap.annotation_range.start, end: d.end }, "Annotated["@ + ap.type_text@ + ", "@ + ap.depends_text@ + "]"@),
                        ],
                    ),
                    None,
                    false,
                ),
            ),
            None => None,
        }
    }
}

/// `Annotated` still has to be imported: no import names it or `*`.
pub open spec fn needs_annotated(imported: Seq<Seq<char>>) -> bool {
    !imported.contains("Annotated"@) && !imported.contains("*"@)
}

/// The conversions of a file's parameters, in order.
pub fn convert_actions(uri: &String, params: &[AnnotatedParam], imported: &[String], ins_line: u32, range: Range) -> (r: Vec<CodeAction>)
    ensures
        actions_view(r@) == somes(params@.map_values(|ap: AnnotatedParam| convert_view(uri@, ap, needs_annotated(string_views(imported@)), ins_line, range))),
{
    let needs_import = !contains_str(imported, "Annotated") && !contains_str(imported, "*");
    let ghost ni = needs_annotated(string_views(imported@));
    let mut out: Vec<CodeAction> = Vec::new();
    let mut i: usize = 0;
    while i < params.len()
        invariant
            i <= params@.len(),
            ni == needs_import,
            ni == needs_annotated(string_views(imported@)),
            actions_view(out@) == somes(params@.take(i as int).map_values(|ap: AnnotatedParam| convert_view(uri@, ap, ni, ins_line, range))),
        decreases params@.len() - i,
    {
        let ap = &params[i];
        proof {
            let m0 = params@.take(i as int).map_values(|ap: AnnotatedParam| convert_view(uri@, ap, ni, ins_line, range));
            assert(params@.take(i + 1).map_values(|ap: AnnotatedParam| convert_view(uri@, ap, ni, ins_line, range)) =~= m0.push(convert_view(uri@, *ap, ni, ins_line, range)));
            assert(m0.push(convert_view(uri@, *ap, ni, ins_line, range)).drop_last() =~= m0);
        }
        let end = if ap.is_annotated {
            ap.annotation_range.end
        } else {
            match ap.default_range {
                Some(d) => d.end,
                None => ap.annotation_range.end,
            }
        };
        if touching(range, ap.annotation_range.start, end) {
            if ap.is_annotated {
                if !ap.has_extra_args {
                    let changes = one_edit(uri, ap.annotation_range, cat3(ap.type_text.as_str(), " = ", ap.depends_text.as_str()));
                    let a = CodeAction {
                        title: cat3("Convert `", ap.param_name.as_str(), "` to inline style"),
                        kind: ActionKind::RefactorRewrite,
                        diagnostic: None,
                        changes,
                        command: None,
                        is_preferred: false,
                    };
                    push_action(&mut out, a);
                }
            } else {
                match ap.default_range {
                    Some(d) => {
                        let mut edits: Vec<TextEdit> = Vec::new();
                        if needs_import {
                            edits.push(TextEdit { range: at_pos(ins_line, 0), new_text: "from typing import Annotated\n".to_owned() });
                        }
                        edits.push(TextEdit {
                            range: Range { start: ap.annotation_range.start, end: d.end },
                            new_text: cat5("Annotated[", ap.type_text.as_str(), ", ", ap.depends_text.as_str(), "]"),
                        });
                        proof {
                            assert(edits_view(edits@) =~= (if ni { seq![(at(ins_line, 0), "from typing import Annotated\n"@)] } else { Seq::empty() }) + seq![
                                (Range { start: ap.annotation_range.start, end: d.end }, "Annotated["@ + ap.type_text@ + ", "@ + ap.depends_text@ + "]"@),
                            ]);
                        }
                        let mut changes: Vec<DocChange> = Vec::new();
                        changes.push(DocChange::Edit { uri: uri.clone(), edits });
                        let a = CodeAction {
                            title: cat3("Convert `", ap.param_name.as_str(), "` to Annotated style"),
                            kind: ActionKind::RefactorRewrite,
                            diagnostic: None,
                            changes,
                            command: None,
                            is_preferred: false,
                        };
                        assert(changes_view(a.changes@) =~= one_doc(uri@, edits_view(edits@)));
                        push_action(&mut out, a);
                    },
                    None => {},
                }
            }
        }
        i += 1;
    }
    assert(params@.take(params@.len() as int) =~= params@);
    out
}


// ── tpl/missing-template ──────────────────────────────────────────────────

/// The character at `pos` of `src` (by line, then character), if any.
pub open spec fn char_at(src: Seq<char>, pos: Position) -> Option<char> {
    let ls = crate::pysource::lines_of(src);
    if pos.line < ls.len() && pos.character < ls[pos.line as int].len() {
        Some(ls[pos.line as int][pos.character as int])
    } else {
        None
    }
}

/// The template actions for a template name under the cursor that no template root holds,
/// written as a plain quoted string: "Change to" the closest known template (see
/// `best_key`), then, when the client can create files and a template root is known,
/// "Create" it under that root (not for a path that escapes the root).
pub open spec fn template_view(uri: Seq<char>, t: crate::analysis::TemplateRef, src: Seq<char>, keys: Seq<Seq<char>>, can_create: bool, root: Option<Seq<char>>, range: Range) -> Seq<ActionView> {
    if !touches(range, t.range.start, t.range.end) || keys.contains(t.path@) || !(char_at(src, t.range.start) == Some('"') || char_at(src, t.range.start) == Some('\'')) {
        Seq::empty()
    } else {
        let inner = crate::completion::inner_range(t.range);
        (match crate::analysis::best_key(keys, t.path@) {
            Some(k) => seq![
                (
                    "Change to '"@ + keys[k] + "'"@,
                    ActionKind::QuickFix,
                    Some(plain_view(t.range, Severity::Warning, "tpl/missing-template"@, crate::diagnostics::missing_template_message(t.path@, Some(keys[k])))),
                    one_doc(uri, seq![(inner, keys[k])]),
                    None,
                    true,
                ),
            ],
            None => Seq::empty(),
        }) + if can_create {
            match root {
                Some(rt) => match crate::workspace::safe_join_spec(rt, t.path@) {
                    Some(target) => seq![
                        (
                            "Create '"@ + t.path@ + "'"@,
                            ActionKind::QuickFix,
                            Some(plain_view(t.range, Severity::Warning, "tpl/missing-template"@, crate::diagnostics::missing_template_message(t.path@, None))),
                            seq![(2u8, target, Seq::empty())],
                            None,
                            false,
                        ),
                    ],
                    None => Seq::empty(),
                },
                None => Seq::empty(),
            }
        } else {
            Seq::empty()
        }
    }
}

fn char_at_of(lines: &Vec<Vec<char>>, pos: Position) -> (r: Option<char>)
    ensures
        r == (if pos.line < lines@.len() && pos.character < lines@[pos.line as int]@.len() {
            Some(lines@[pos.line as int]@[pos.character as int])
        } else {
            None
        }),
{
    let l = pos.line as usize;
    if l < lines.len() {
        let c = pos.character as usize;
        if c < lines[l].len() {
            return Some(lines[l][c]);
        }
    }
    None
}

/// The template actions of a file, template by template.
pub open spec fn template_actions_spec(ts: Seq<crate::analysis::TemplateRef>, uri: Seq<char>, src: Seq<char>, keys: Seq<Seq<char>>, can_create: bool, root: Option<Seq<char>>, range: Range) -> Seq<ActionView>
    decreases ts.len(),
{
    if ts.len() == 0 {
        Seq::empty()
    } else {
        template_actions_spec(ts.drop_last(), uri, src, keys, can_create, root, range) + template_view(uri, ts.last(), src, keys, can_create, root, range)
    }
}

/// The template actions of a file (see `template_actions_spec`).
pub fn template_actions(
    uri: &String,
    templates: &[crate::analysis::TemplateRef],
    source: &str,
    keys: &[String],
    can_create: bool,
    root: &Option<String>,
    range: Range,
) -> (r: Vec<CodeAction>)
    requires
        forall|j: int| 0 <= j < templates@.len() ==> (#[trigger] templates@[j]).range.start.character < u32::MAX,
    ensures
        actions_view(r@) == template_actions_spec(templates@, uri@, source@, string_views(keys@), can_create, match root {
            Some(x) => Some(x@),
            None => None,
        }, range),
{
    let ghost rv = match root {
        Some(x) => Some(x@),
        None => None::<Seq<char>>,
    };
    let ghost kv = string_views(keys@);
    let lines = crate::pysource::lines_chars(source);
    let mut out: Vec<CodeAction> = Vec::new();
    let mut i: usize = 0;
    while i < templates.len()
        invariant
            i <= templates@.len(),
            views(lines@) == crate::pysource::lines_of(source@),
            kv == string_views(keys@),
            rv == match root {
                Some(x) => Some(x@),
                None => None::<Seq<char>>,
            },
            forall|j: int| 0 <= j < templates@.len() ==> (#[trigger] templates@[j]).range.start.character < u32::MAX,
            actions_view(out@) == template_actions_spec(templates@.take(i as int), uri@, source@, kv, can_create, rv, range),
        decreases templates@.len() - i,
    {
        let t = &templates[i];
        assert(templates@[i as int].range.start.character < u32::MAX);
        let ghost before = actions_view(out@);
        assert(templates@.take(i + 1).drop_last() =~= templates@.take(i as int));
        assert(templates@.take(i + 1).last() == *t);
        let oc = char_at_of(&lines, t.range.start);
        assert(views(lines@)[t.range.start.line as int] == lines@[t.range.start.line as int]@ || t.range.start.line >= lines@.len());
        assert(oc == char_at(source@, t.range.start));
        let simple = match oc {
            Some(c) => c == '"' || c == '\'',
            None => false,
        };
        if touching(range, t.range.start, t.range.end) && !contains_str(keys, t.path.as_str()) && simple {
            let inner = Range {
                start: Position { line: t.range.start.line, character: t.range.start.character + 1 },
                end: Position { line: t.range.end.line, character: if t.range.end.character > 0 { t.range.end.character - 1 } else { 0 } },
            };
            assert(inner == crate::completion::inner_range(t.range));
            match crate::analysis::suggest_template(keys, t.path.as_str()) {
                Some(k) => {
                    proof {
                        crate::analysis::lemma_best_key_bound(kv, t.path@);
                    }
                    let key = &keys[k];
                    assert(kv[k as int] == key@);
                    let diag = crate::diagnostics::missing_template_diag(t.path.as_str(), Some(key.as_str()), t.range);
                    proof {
                        lemma_plain(diag, t.range, Severity::Warning, "tpl/missing-template"@, crate::diagnostics::missing_template_message(t.path@, Some(key@)));
                    }
                    let changes = one_edit(uri, inner, key.clone());
                    let a = CodeAction {
                        title: cat3("Change to '", key.as_str(), "'"),
                        kind: ActionKind::QuickFix,
                        diagnostic: Some(diag),
                        changes,
                        command: None,
                        is_preferred: true,
                    };
                    push_action(&mut out, a);
                },
                None => {},
            }
            if can_create {
                match root {
                    Some(rt) => match crate::workspace::safe_join(rt.as_str(), t.path.as_str()) {
                        Some(target) => {
                            let diag = crate::diagnostics::missing_template_diag(t.path.as_str(), None, t.range);
                            proof {
                                lemma_plain(diag, t.range, Severity::Warning, "tpl/missing-template"@, crate::diagnostics::missing_template_message(t.path@, None));
                            }
                            let mut changes: Vec<DocChange> = Vec::new();
                            changes.push(DocChange::CreateFile { path: target });
                            let a = CodeAction {
                                title: cat3("Create '", t.path.as_str(), "'"),
                                kind: ActionKind::QuickFix,
                                diagnostic: Some(diag),
                                changes,
                                command: None,
                                is_preferred: false,
                            };
                            assert(changes_view(a.changes@) =~= seq![(2u8, target@, Seq::<(Range, Seq<char>)>::empty())]);
                            push_action(&mut out, a);
                        },
                        None => {},
                    },
                    None => {},
                }
            }
        }
        assert(actions_view(out@) =~= before + template_view(uri@, *t, source@, kv, can_create, rv, range));
        i += 1;
    }
    assert(templates@.take(templates@.len() as int) =~= templates@);
    out
}


// ── Creating a missing dependency ─────────────────────────────────────────

/// A route decorator of the requested file: its handler function and its object.
#[derive(Clone, Debug)]
pub struct FileRoute {
    pub handler_name: String,
    pub handler_range: Range,
    pub object_name: String,
}

/// The `deps.py` next to the file at `uri`, when its source is known.
pub open spec fn deps_file(uri: Seq<char>, src_uris: Seq<Seq<char>>) -> Option<Seq<char>> {
    let c = crate::workspace::sibling_of(uri, "deps.py"@);
    if src_uris.contains(c) {
        Some(c)
    } else {
        None
    }
}

/// Where an import goes in a file whose source may be unknown (the top then).
pub open spec fn import_line(src: Option<Seq<char>>) -> u32 {
    match src {
        Some(s) => crate::pysource::import_line_of(s) as u32,
        None => 0,
    }
}

/// The route decorator of handler `f`.
pub open spec fn route_named(r: FileRoute, f: Seq<char>) -> bool {
    r.handler_name@ == f
}

/// The line above the decorators of handler `f`: its last decorator line before the
/// `def`, or the `def` line.
pub open spec fn above_handler(src: Seq<char>, def_line: u32) -> u32 {
    match crate::pysource::decorator_before(crate::pysource::lines_of(src), def_line as int) {
        Some(i) => i as u32,
        None => def_line,
    }
}

/// "Create dependency" for a `Depends(name)` under the cursor whose name no file defines:
/// with a `deps.py` next to the file, a stub appended there and an import of it (from
/// its module, `deps` when that is unknown); else a stub inserted above the decorators of
/// the enclosing handler (not offered when that handler or the source is unknown).
pub open spec fn create_dep_view(
    uri: Seq<char>,
    d: DepRef,
    defined: Seq<Seq<char>>,
    root: Seq<char>,
    src_uris: Seq<Seq<char>>,
    src: Option<Seq<char>>,
    routes: Seq<FileRoute>,
    range: Range,
) -> Option<ActionView> {
    if !touches(range, d.range.start, d.range.end) || defined.contains(d.name@) {
        None
    } else {
        match deps_file(uri, src_uris) {
            Some(du) => {
                let mp = match crate::workspace::module_of(du, root) {
                    Some(m) => m,
                    None => "deps"@,
                };
                Some(
                    (
                        "Create dependency `"@ + d.name@ + "` in "@ + mp,
                        ActionKind::QuickFix,
                        None,
                        seq![
                            (0u8, du, seq![(at(APPEND_LINE, 0), "\ndef "@ + d.name@ + "():\n    ...\n"@)]),
                            (0u8, uri, seq![(at(import_line(src), 0), "from "@ + mp + " import "@ + d.name@ + "\n"@)]),
                        ],
                        None,
                        true,
                    ),
                )
            },
            None => match d.containing_func {
                None => None,
                Some(f) => match crate::checks::first_match(routes, |r: FileRoute| route_named(r, f@)) {
                    None => None,
                    Some(k) => match src {
                        None => None,
                        Some(s) => Some(
                            (
                                "Create dependency `"@ + d.name@ + "` above handler"@,
                                ActionKind::QuickFix,
                                None,
                                one_doc(uri, seq![(at(above_handler(s, routes[k].handler_range.start.line), 0), "\n\ndef "@ + d.name@ + "():\n    ...\n\n\n"@)]),
                                None,
                                true,
                            ),
                        ),
                    },
                },
            },
        }
    }
}

pub(crate) fn decorator_line_before(lines: &Vec<Vec<char>>, d: usize) -> (r: Option<usize>)
    ensures
        match r {
            Some(i) => crate::pysource::decorator_before(views(lines@), d as int) == Some(i as int) && i < d,
            None => crate::pysource::decorator_before(views(lines@), d as int) is None,
        },
{
    let ghost ls = views(lines@);
    let mut i = d;
    while i > 0
        invariant
            i <= d,
            ls == views(lines@),
            crate::pysource::decorator_before(ls, d as int) == crate::pysource::decorator_before(ls, i as int),
        decreases i,
    {
        if i - 1 < lines.len() {
            let t = crate::pysource::trim_start_chars(lines[i - 1].as_slice());
            assert(ls[i - 1] == lines@[i - 1]@);
            let at_sign: Vec<char> = vec!['@'];
            assert(at_sign@ =~= seq!['@']);
            if crate::text::starts_with(&t, &at_sign) {
                return Some(i - 1);
            }
        }
        i -= 1;
    }
    None
}

fn find_route_line(routes: &[FileRoute], f: &String) -> (r: Option<u32>)
    ensures
        match r {
            Some(l) => crate::checks::first_match(routes@, |x: FileRoute| route_named(x, f@)) matches Some(k) && routes@[k].handler_range.start.line == l,
            None => crate::checks::first_match(routes@, |x: FileRoute| route_named(x, f@)) is None,
        },
{
    let ghost p = |x: FileRoute| route_named(x, f@);
    let mut i: usize = 0;
    while i < routes.len()
        invariant
            i <= routes@.len(),
            p == (|x: FileRoute| route_named(x, f@)),
            forall|j: int| 0 <= j < i ==> !p(#[trigger] routes@[j]),
        decreases routes@.len() - i,
    {
        proof {
            crate::checks::lemma_first_match_step(routes@, p, i as int);
        }
        if routes[i].handler_name == *f {
            return Some(routes[i].handler_range.start.line);
        }
        i += 1;
    }
    proof {
        crate::checks::lemma_first_match_none(routes@, p);
    }
    None
}

/// The "Create dependency" actions of a file's references, in order.
pub open spec fn create_deps_spec(
    uri: Seq<char>,
    refs: Seq<DepRef>,
    defined: Seq<Seq<char>>,
    root: Seq<char>,
    src_uris: Seq<Seq<char>>,
    src: Option<Seq<char>>,
    routes: Seq<FileRoute>,
    range: Range,
) -> Seq<ActionView> {
    somes(refs.map_values(|x: DepRef| create_dep_view(uri, x, defined, root, src_uris, src, routes, range)))
}

/// The "Create dependency" actions of a file's references (see `create_dep_view`); `defined` names the dependency functions defined anywhere,
/// `src_uris` the files whose source is known, `source` this file's.
pub fn create_dependency_actions(
    uri: &String,
    refs: &[DepRef],
    defined: &[String],
    root: &str,
    src_uris: &[String],
    source: &Option<String>,
    routes: &[FileRoute],
    range: Range,
) -> (r: Vec<CodeAction>)
    ensures
        actions_view(r@) == create_deps_spec(uri@, refs@, string_views(defined@), root@, string_views(src_uris@), match source {
            Some(s) => Some(s@),
            None => None,
        }, routes@, range),
{
    let ghost sv = match source {
        Some(s) => Some(s@),
        None => None::<Seq<char>>,
    };
    let ghost dv = string_views(defined@);
    let ghost uv = string_views(src_uris@);
    let ins: u32 = match source {
        Some(s) => crate::pysource::import_insert_line(s.as_str()),
        None => 0,
    };
    let du = crate::workspace::sibling_uri(uri.as_str(), "deps.py");
    let has_deps = contains_str(src_uris, du.as_str());
    let mp: String = match crate::workspace::python_module(du.as_str(), root) {
        Some(m) => m,
        None => "deps".to_owned(),
    };
    let mut out: Vec<CodeAction> = Vec::new();
    let mut i: usize = 0;
    while i < refs.len()
        invariant
            i <= refs@.len(),
            sv == match source {
                Some(s) => Some(s@),
                None => None::<Seq<char>>,
            },
            dv == string_views(defined@),
            uv == string_views(src_uris@),
            ins == import_line(sv),
            du@ == crate::workspace::sibling_of(uri@, "deps.py"@),
            has_deps == uv.contains(du@),
            mp@ == match crate::workspace::module_of(du@, root@) {
                Some(m) => m,
                None => "deps"@,
            },
            actions_view(out@) == somes(refs@.take(i as int).map_values(|x: DepRef| create_dep_view(uri@, x, dv, root@, uv, sv, routes@, range))),
        decreases refs@.len() - i,
    {
        let d = &refs[i];
        proof {
            let m0 = refs@.take(i as int).map_values(|x: DepRef| create_dep_view(uri@, x, dv, root@, uv, sv, routes@, range));
            assert(refs@.take(i + 1).map_values(|x: DepRef| create_dep_view(uri@, x, dv, root@, uv, sv, routes@, range)) =~= m0.push(create_dep_view(uri@, *d, dv, root@, uv, sv, routes@, range)));
            assert(m0.push(create_dep_view(uri@, *d, dv, root@, uv, sv, routes@, range)).drop_last() =~= m0);
        }
        if touching(range, d.range.start, d.range.end) && !contains_str(defined, d.name.as_str()) {
            if has_deps {
                let mut stub = str_chars("\ndef ");
                push_str(&mut stub, d.name.as_str());
                push_str(&mut stub, "():\n    ...\n");
                let mut imp = str_chars("from ");
                push_str(&mut imp, mp.as_str());
                push_str(&mut imp, " import ");
                push_str(&mut imp, d.name.as_str());
                push_str(&mut imp, "\n");
                let mut e1: Vec<TextEdit> = Vec::new();
                e1.push(TextEdit { range: at_pos(APPEND_LINE, 0), new_text: string_from_chars(stub.as_slice()) });
                let mut e2: Vec<TextEdit> = Vec::new();
                e2.push(TextEdit { range: at_pos(ins, 0), new_text: string_from_chars(imp.as_slice()) });
                let mut changes: Vec<DocChange> = Vec::new();
                changes.push(DocChange::Edit { uri: du.clone(), edits: e1 });
                changes.push(DocChange::Edit { uri: uri.clone(), edits: e2 });
                let a = CodeAction {
                    title: cat4("Create dependency `", d.name.as_str(), "` in ", mp.as_str()),
                    kind: ActionKind::QuickFix,
                    diagnostic: None,
                    changes,
                    command: None,
                    is_preferred: true,
                };
                assert(edits_view(e1@) =~= seq![(at(APPEND_LINE, 0), "\ndef "@ + d.name@ + "():\n    ...\n"@)]);
                assert(edits_view(e2@) =~= seq![(at(ins, 0), "from "@ + mp@ + " import "@ + d.name@ + "\n"@)]);
                assert(changes_view(a.changes@) =~= seq![
                    (0u8, du@, seq![(at(APPEND_LINE, 0), "\ndef "@ + d.name@ + "():\n    ...\n"@)]),
                    (0u8, uri@, seq![(at(ins, 0), "from "@ + mp@ + " import "@ + d.name@ + "\n"@)]),
                ]);
                push_action(&mut out, a);
            } else {
                match &d.containing_func {
                    Some(f) => match find_route_line(routes, f) {
                        Some(hl) => match source {
                            Some(s) => {
                                let lines = crate::pysource::lines_chars(s.as_str());
                                let il: u32 = match decorator_line_before(&lines, hl as usize) {
                                    Some(x) => x as u32,
                                    None => hl,
                                };
                                let mut stub = str_chars("\n\ndef ");
                                push_str(&mut stub, d.name.as_str());
                                push_str(&mut stub, "():\n    ...\n\n\n");
                                let changes = one_edit(uri, at_pos(il, 0), string_from_chars(stub.as_slice()));
                                let a = CodeAction {
                                    title: cat3("Create dependency `", d.name.as_str(), "` above handler"),
                                    kind: ActionKind::QuickFix,
                                    diagnostic: None,
                                    changes,
                                    command: None,
                                    is_preferred: true,
                                };
                                push_action(&mut out, a);
                            },
                            None => {},
                        },
                        None => {},
                    },
                    None => {},
                }
            }
        }
        i += 1;
    }
    assert(refs@.take(refs@.len() as int) =~= refs@);
    out
}


// ── Response models: import one, or create it ─────────────────────────────

/// Where the response model of a route is written (its handler when unknown).
pub open spec fn model_range(r: RouteRecord) -> Range {
    match r.response_model_range {
        Some(x) => x,
        None => r.handler.range,
    }
}

/// The files that define model `name`: its first entry in the model index.
pub open spec fn model_files_of(mi: Seq<(String, Vec<String>)>, name: Seq<char>) -> Option<Seq<Seq<char>>>
    decreases mi.len(),
{
    if mi.len() == 0 {
        None
    } else if mi[0].0@ == name {
        Some(string_views(mi[0].1@))
    } else {
        model_files_of(mi.drop_first(), name)
    }
}

/// "Import `Name` from `module`" for the response model under the cursor of a route in
/// the file, when exactly one file of the workspace defines it, the file does not import
/// it (nor `*`), and that file's module is known.
pub open spec fn import_model_view(uri: Seq<char>, r: RouteRecord, mi: Seq<(String, Vec<String>)>, imported: Seq<Seq<char>>, root: Seq<char>, ins: u32, range: Range) -> Option<ActionView> {
    match r.response_model {
        None => None,
        Some(m) => {
            let bare = crate::analysis::after_last_dot(m@);
            match model_files_of(mi, bare) {
                Some(c) => if c.len() != 1 || imported.contains("*"@) || imported.contains(bare) || !touches(range, model_range(r).start, model_range(r).end) {
                    None
                } else {
                    match crate::workspace::module_of(c[0], root) {
                        Some(mp) => Some(
                            (
                                "Import `"@ + bare + "` from `"@ + mp + "`"@,
                                ActionKind::QuickFix,
                                Some(plain_view(model_range(r), Severity::Hint, "model/unknown-response-model"@, "Unknown response model: "@ + bare + "."@)),
                                one_doc(uri, seq![(at(ins, 0), "from "@ + mp + " import "@ + bare + "\n"@)]),
                                None,
                                true,
                            ),
                        ),
                        None => None,
                    }
                },
                None => None,
            }
        },
    }
}

/// The import-model actions of the routes handled in file `uri`, in index order.
pub open spec fn import_model_spec(recs: Seq<RouteRecord>, uri: Seq<char>, mi: Seq<(String, Vec<String>)>, imported: Seq<Seq<char>>, root: Seq<char>, ins: u32, range: Range) -> Seq<ActionView>
    decreases recs.len(),
{
    if recs.len() == 0 {
        Seq::empty()
    } else {
        import_model_spec(recs.drop_last(), uri, mi, imported, root, ins, range) + if recs.last().handler.uri@ == uri {
            match import_model_view(uri, recs.last(), mi, imported, root, ins, range) {
                Some(a) => seq![a],
                None => Seq::empty(),
            }
        } else {
            Seq::empty()
        }
    }
}

fn lookup_models<'a>(mi: &'a [(String, Vec<String>)], name: &String) -> (r: Option<&'a Vec<String>>)
    ensures
        match r {
            Some(v) => model_files_of(mi@, name@) == Some(string_views(v@)),
            None => model_files_of(mi@, name@) is None,
        },
{
    let mut i: usize = 0;
    assert(mi@.skip(0) =~= mi@);
    while i < mi.len()
        invariant
            i <= mi@.len(),
            model_files_of(mi@, name@) == model_files_of(mi@.skip(i as int), name@),
        decreases mi@.len() - i,
    {
        assert(mi@.skip(i as int).drop_first() =~= mi@.skip(i + 1));
        if mi[i].0 == *name {
            return Some(&mi[i].1);
        }
        i += 1;
    }
    None
}

/// The import-model actions of a file (see `import_model_spec`); `mi` maps model names to
/// the files that define them, `ins` is where imports go.
pub fn import_model_actions(route_index: &RouteIndex, uri: &String, mi: &[(String, Vec<String>)], imported: &[String], root: &str, ins: u32, range: Range) -> (r: Vec<CodeAction>)
    ensures
        actions_view(r@) == import_model_spec(index_records(route_index@), uri@, mi@, string_views(imported@), root@, ins, range),
{
    let all = all_refs(route_index);
    let ghost recs = index_records(route_index@);
    let ghost iv = string_views(imported@);
    let mut out: Vec<CodeAction> = Vec::new();
    let mut i: usize = 0;
    while i < all.len()
        invariant
            i <= all@.len(),
            derefs(all@) == recs,
            iv == string_views(imported@),
            actions_view(out@) == import_model_spec(recs.take(i as int), uri@, mi@, iv, root@, ins, range),
        decreases all@.len() - i,
    {
        let rec: &RouteRecord = all[i];
        assert(recs[i as int] == *rec);
        assert(recs.take(i + 1).drop_last() =~= recs.take(i as int));
        assert(recs.take(i + 1).last() == *rec);
        let ghost before = actions_view(out@);
        if rec.handler.uri == *uri {
            match &rec.response_model {
                Some(m) => {
                    let bare = crate::analysis::bare_name(m.as_str());
                    let rm = match rec.response_model_range {
                        Some(x) => x,
                        None => rec.handler.range,
                    };
                    match lookup_models(mi, &bare) {
                        Some(c) => {
                            if c.len() == 1 && !contains_str(imported, "*") && !contains_str(imported, bare.as_str()) && touching(range, rm.start, rm.end) {
                                assert(string_views(c@)[0] == c@[0]@);
                                match crate::workspace::python_module(c[0].as_str(), root) {
                                    Some(mp) => {
                                        let diag = crate::diagnostics::unknown_response_model_diag(bare.as_str(), rm);
                                        proof {
                                            lemma_plain(diag, rm, Severity::Hint, "model/unknown-response-model"@, "Unknown response model: "@ + bare@ + "."@);
                                        }
                                        let mut imp = str_chars("from ");
                                        push_str(&mut imp, mp.as_str());
                                        push_str(&mut imp, " import ");
                                        push_str(&mut imp, bare.as_str());
                                        push_str(&mut imp, "\n");
                                        let changes = one_edit(uri, at_pos(ins, 0), string_from_chars(imp.as_slice()));
                                        let a = CodeAction {
                                            title: cat5("Import `", bare.as_str(), "` from `", mp.as_str(), "`"),
                                            kind: ActionKind::QuickFix,
                                            diagnostic: Some(diag),
                                            changes,
                                            command: None,
                                            is_preferred: true,
                                        };
                                        push_action(&mut out, a);
                                    },
                                    None => {},
                                }
                            }
                        },
                        None => {},
                    }
                },
                None => {},
            }
        }
        assert(actions_view(out@) =~= before + if rec.handler.uri@ == uri@ {
            match import_model_view(uri@, *rec, mi@, iv, root@, ins, range) {
                Some(a) => seq![a],
                None => Seq::empty(),
            }
        } else {
            Seq::empty()
        });
        i += 1;
    }
    assert(recs.take(all@.len() as int) =~= recs);
    out
}

/// Whether a character is uppercase, as `char::is_uppercase` says (the Unicode
/// `Uppercase` property).
pub uninterp spec fn char_upper(c: char) -> bool;

/// Calls `char::is_uppercase`; its result is named `char_upper` of the argument.
#[verifier::external_body]
fn is_upper(c: char) -> (b: bool)
    ensures
        b == char_upper(c),
{
    c.is_uppercase()
}

/// A class-like name: no brackets, commas or spaces (so no generic type), and an
/// uppercase first character.
pub open spec fn camel_case(s: Seq<char>) -> bool {
    !s.contains('[') && !s.contains(']') && !s.contains(',') && !s.contains(' ') && s.len() > 0 && char_upper(s[0])
}

/// Whether a name looks like a class (see `camel_case`).
pub fn is_camel_case(s: &str) -> (b: bool)
    ensures
        b == camel_case(s@),
{
    let cs = str_chars(s);
    if crate::text::has_char(&cs, '[') || crate::text::has_char(&cs, ']') || crate::text::has_char(&cs, ',') || crate::text::has_char(&cs, ' ') {
        return false;
    }
    cs.len() > 0 && is_upper(cs[0])
}

/// The URI of the file of module `m` under `root` (`a.b` is `<root>/a/b.py`).
pub open spec fn module_uri(m: Seq<char>, root: Seq<char>) -> Seq<char> {
    "file://"@ + root + "/"@ + m.map_values(|c: char| if c == '.' { '/' } else { c }) + ".py"@
}

/// An imported module that can take a new model: absolute, and its file has models.
pub open spec fn model_module(m: Seq<char>, root: Seq<char>, model_files: Seq<Seq<char>>) -> bool {
    !crate::text::is_prefix("."@, m) && model_files.contains(module_uri(m, root))
}

/// The least module (by name) that the file imports from and that can take a new model.
pub open spec fn least_model_module(imports: Seq<(String, String)>, root: Seq<char>, model_files: Seq<Seq<char>>) -> Option<Seq<char>>
    decreases imports.len(),
{
    if imports.len() == 0 {
        None
    } else {
        let prev = least_model_module(imports.drop_last(), root, model_files);
        let m = imports.last().1@;
        if !model_module(m, root, model_files) {
            prev
        } else {
            match prev {
                Some(p) => if crate::hovers::str_le(p, m) {
                    prev
                } else {
                    Some(m)
                },
                None => Some(m),
            }
        }
    }
}

/// Where a new model goes: the file of the least imported module that has models, else
/// `schemas.py` next to the file.
pub open spec fn model_target(uri: Seq<char>, imports: Seq<(String, String)>, root: Seq<char>, model_files: Seq<Seq<char>>) -> Seq<char> {
    match least_model_module(imports, root, model_files) {
        Some(m) => module_uri(m, root),
        None => crate::workspace::sibling_of(uri, "schemas.py"@),
    }
}

/// The source already imports `BaseModel` from pydantic (or everything).
pub open spec fn has_basemodel_import(src: Seq<char>) -> bool {
    exists|i: int| 0 <= i < crate::pysource::lines_of(src).len() && ({
        let t = crate::pysource::trim(#[trigger] crate::pysource::lines_of(src)[i]);
        t == "from pydantic import *"@ || (crate::text::is_prefix("from pydantic import"@, t) && crate::text::contains_seq(t, "BaseModel"@))
    })
}

/// "Create model `Name`" for a class-like response model under the cursor that no file
/// defines or imports: in the target file (see `model_target`), appended (importing
/// `BaseModel` when needed) when its source is known, else in a new file (only when the
/// client can create files); not offered when the target's module is unknown.
pub open spec fn create_model_view(
    uri: Seq<char>,
    r: RouteRecord,
    mi: Seq<(String, Vec<String>)>,
    imported: Seq<Seq<char>>,
    imports: Seq<(String, String)>,
    root: Seq<char>,
    model_files: Seq<Seq<char>>,
    sources: Seq<(String, String)>,
    can_create: bool,
    range: Range,
) -> Option<ActionView> {
    match r.response_model {
        None => None,
        Some(m) => {
            let bare = crate::analysis::after_last_dot(m@);
            let target = model_target(uri, imports, root, model_files);
            let tsrc = source_of(sources, target);
            if !camel_case(bare) || model_files_of(mi, bare) is Some || imported.contains(bare) || imported.contains("*"@) || !touches(
                range,
                model_range(r).start,
                model_range(r).end,
            ) || (tsrc is None && !can_create) {
                None
            } else {
                match crate::workspace::module_of(target, root) {
                    None => None,
                    Some(tm) => Some(
                        (
                            "Create model `"@ + bare + "` in "@ + tm,
                            ActionKind::QuickFix,
                            None,
                            match tsrc {
                                Some(src) => one_doc(
                                    target,
                                    (if has_basemodel_import(src) { Seq::empty() } else { seq![(at(0, 0), "from pydantic import BaseModel\n"@)] }) + seq![
                                        (at(APPEND_LINE, 0), "\nclass "@ + bare + "(BaseModel):\n    pass\n"@),
                                    ],
                                ),
                                None => seq![
                                    (1u8, target, Seq::empty()),
                                    (0u8, target, seq![(at(0, 0), "from pydantic import BaseModel\n\nclass "@ + bare + "(BaseModel):\n    pass\n"@)]),
                                ],
                            },
                            None,
                            false,
                        ),
                    ),
                }
            }
        },
    }
}

/// The source of file `uri`: its first entry.
pub open spec fn source_of(sources: Seq<(String, String)>, uri: Seq<char>) -> Option<Seq<char>>
    decreases sources.len(),
{
    if sources.len() == 0 {
        None
    } else if sources[0].0@ == uri {
        Some(sources[0].1@)
    } else {
        source_of(sources.drop_first(), uri)
    }
}


pub(crate) fn find_source<'a>(sources: &'a [(String, String)], uri: &String) -> (r: Option<&'a String>)
    ensures
        match r {
            Some(x) => source_of(sources@, uri@) == Some(x@),
            None => source_of(sources@, uri@) is None,
        },
{
    let mut i: usize = 0;
    assert(sources@.skip(0) =~= sources@);
    while i < sources.len()
        invariant
            i <= sources@.len(),
            source_of(sources@, uri@) == source_of(sources@.skip(i as int), uri@),
        decreases sources@.len() - i,
    {
        assert(sources@.skip(i as int).drop_first() =~= sources@.skip(i + 1));
        if sources[i].0 == *uri {
            return Some(&sources[i].1);
        }
        i += 1;
    }
    None
}

fn module_uri_of(m: &String, root: &str) -> (r: String)
    ensures
        r@ == module_uri(m@, root@),
{
    let mut out = str_chars("file://");
    push_str(&mut out, root);
    push_str(&mut out, "/");
    let mc = str_chars(m.as_str());
    let ghost base = out@;
    let mut i: usize = 0;
    while i < mc.len()
        invariant
            i <= mc@.len(),
            out@ == base + mc@.take(i as int).map_values(|c: char| if c == '.' { '/' } else { c }),
        decreases mc@.len() - i,
    {
        let c = mc[i];
        out.push(if c == '.' { '/' } else { c });
        assert(mc@.take(i + 1).map_values(|c: char| if c == '.' { '/' } else { c }) =~= mc@.take(i as int).map_values(|c: char| if c == '.' { '/' } else { c }).push(if c == '.' { '/' } else { c }));
        i += 1;
    }
    assert(mc@.take(mc@.len() as int) =~= mc@);
    push_str(&mut out, ".py");
    string_from_chars(out.as_slice())
}

fn least_module(imports: &[(String, String)], root: &str, model_files: &[String]) -> (r: Option<String>)
    ensures
        crate::config::opt_view(r) == least_model_module(imports@, root@, string_views(model_files@)),
{
    let ghost mf = string_views(model_files@);
    let mut best: Option<String> = None;
    let mut i: usize = 0;
    while i < imports.len()
        invariant
            i <= imports@.len(),
            mf == string_views(model_files@),
            crate::config::opt_view(best) == least_model_module(imports@.take(i as int), root@, mf),
        decreases imports@.len() - i,
    {
        assert(imports@.take(i + 1).drop_last() =~= imports@.take(i as int));
        assert(imports@.take(i + 1).last() == imports@[i as int]);
        let m = &imports[i].1;
        let mc = str_chars(m.as_str());
        let dot: Vec<char> = vec!['.'];
        proof {
            reveal_strlit(".");
            assert(dot@ =~= "."@);
        }
        let eligible = !crate::text::starts_with(&mc, &dot) && contains_str(model_files, module_uri_of(m, root).as_str());
        if eligible {
            let replace = match &best {
                Some(b) => {
                    let bc = str_chars(b.as_str());
                    !crate::hovers::chars_le(bc.as_slice(), mc.as_slice())
                },
                None => true,
            };
            if replace {
                best = Some(m.clone());
            }
        }
        i += 1;
    }
    assert(imports@.take(imports@.len() as int) =~= imports@);
    best
}

fn basemodel_imported(src: &String) -> (b: bool)
    ensures
        b == has_basemodel_import(src@),
{
    let lines = crate::pysource::lines_chars(src.as_str());
    let ghost ls = views(lines@);
    let star = str_chars("from pydantic import *");
    let head = str_chars("from pydantic import");
    let bm = str_chars("BaseModel");
    let mut i: usize = 0;
    while i < lines.len()
        invariant
            i <= lines@.len(),
            ls == views(lines@),
            ls == crate::pysource::lines_of(src@),
            star@ == "from pydantic import *"@,
            head@ == "from pydantic import"@,
            bm@ == "BaseModel"@,
            forall|j: int| 0 <= j < i ==> !({
                let t = crate::pysource::trim(#[trigger] crate::pysource::lines_of(src@)[j]);
                t == "from pydantic import *"@ || (crate::text::is_prefix("from pydantic import"@, t) && crate::text::contains_seq(t, "BaseModel"@))
            }),
        decreases lines@.len() - i,
    {
        assert(ls[i as int] == lines@[i as int]@);
        let t = crate::pysource::trim_chars(lines[i].as_slice());
        if crate::text::chars_eq(t.as_slice(), star.as_slice()) || (crate::text::starts_with(&t, &head) && crate::text::contains_chars(t.as_slice(), bm.as_slice())) {
            return true;
        }
        i += 1;
    }
    false
}

/// The create-model actions of the routes handled in file `uri`, in index order.
pub open spec fn create_model_spec(
    recs: Seq<RouteRecord>,
    uri: Seq<char>,
    mi: Seq<(String, Vec<String>)>,
    imported: Seq<Seq<char>>,
    imports: Seq<(String, String)>,
    root: Seq<char>,
    model_files: Seq<Seq<char>>,
    sources: Seq<(String, String)>,
    can_create: bool,
    range: Range,
) -> Seq<ActionView>
    decreases recs.len(),
{
    if recs.len() == 0 {
        Seq::empty()
    } else {
        create_model_spec(recs.drop_last(), uri, mi, imported, imports, root, model_files, sources, can_create, range) + if recs.last().handler.uri@ == uri {
            match create_model_view(uri, recs.last(), mi, imported, imports, root, model_files, sources, can_create, range) {
                Some(a) => seq![a],
                None => Seq::empty(),
            }
        } else {
            Seq::empty()
        }
    }
}

/// The create-model actions of a file (see `create_model_spec`): `imports` maps the names
/// the file imports to their modules, `model_files` lists the files that define models,
/// `sources` the files whose source is known.
pub fn create_model_actions(
    route_index: &RouteIndex,
    uri: &String,
    mi: &[(String, Vec<String>)],
    imported: &[String],
    imports: &[(String, String)],
    root: &str,
    model_files: &[String],
    sources: &[(String, String)],
    can_create: bool,
    range: Range,
) -> (r: Vec<CodeAction>)
    ensures
        actions_view(r@) == create_model_spec(index_records(route_index@), uri@, mi@, string_views(imported@), imports@, root@, string_views(model_files@), sources@, can_create, range),
{
    let all = all_refs(route_index);
    let ghost recs = index_records(route_index@);
    let ghost iv = string_views(imported@);
    let ghost mf = string_views(model_files@);
    let target: String = match least_module(imports, root, model_files) {
        Some(m) => module_uri_of(&m, root),
        None => crate::workspace::sibling_uri(uri.as_str(), "schemas.py"),
    };
    assert(target@ == model_target(uri@, imports@, root@, mf));
    let tsrc = find_source(sources, &target);
    let tmod = crate::workspace::python_module(target.as_str(), root);
    let has_import: bool = match tsrc {
        Some(src) => basemodel_imported(src),
        None => false,
    };
    let mut out: Vec<CodeAction> = Vec::new();
    let mut i: usize = 0;
    while i < all.len()
        invariant
            i <= all@.len(),
            derefs(all@) == recs,
            iv == string_views(imported@),
            mf == string_views(model_files@),
            target@ == model_target(uri@, imports@, root@, mf),
            match tsrc {
                Some(x) => source_of(sources@, target@) == Some(x@) && has_import == has_basemodel_import(x@),
                None => source_of(sources@, target@) is None,
            },
            crate::config::opt_view(tmod) == crate::workspace::module_of(target@, root@),
            actions_view(out@) == create_model_spec(recs.take(i as int), uri@, mi@, iv, imports@, root@, mf, sources@, can_create, range),
        decreases all@.len() - i,
    {
        let rec: &RouteRecord = all[i];
        assert(recs[i as int] == *rec);
        assert(recs.take(i + 1).drop_last() =~= recs.take(i as int));
        assert(recs.take(i + 1).last() == *rec);
        let ghost before = actions_view(out@);
        if rec.handler.uri == *uri {
            match &rec.response_model {
                Some(m) => {
                    let bare = crate::analysis::bare_name(m.as_str());
                    let rm = match rec.response_model_range {
                        Some(x) => x,
                        None => rec.handler.range,
                    };
                    let known = match lookup_models(mi, &bare) {
                        Some(_) => true,
                        None => false,
                    };
                    let ok = is_camel_case(bare.as_str()) && !known && !contains_str(imported, bare.as_str()) && !contains_str(imported, "*")
                        && touching(range, rm.start, rm.end) && (tsrc.is_some() || can_create);
                    if ok {
                        match &tmod {
                            Some(tm) => {
                                let mut cls = str_chars("\nclass ");
                                push_str(&mut cls, bare.as_str());
                                push_str(&mut cls, "(BaseModel):\n    pass\n");
                                let mut changes: Vec<DocChange> = Vec::new();
                                match tsrc {
                                    Some(_) => {
                                        let mut edits: Vec<TextEdit> = Vec::new();
                                        if !has_import {
                                            edits.push(TextEdit { range: at_pos(0, 0), new_text: "from pydantic import BaseModel\n".to_owned() });
                                        }
                                        edits.push(TextEdit { range: at_pos(APPEND_LINE, 0), new_text: string_from_chars(cls.as_slice()) });
                                        assert(edits_view(edits@) =~= (if has_import { Seq::empty() } else { seq![(at(0, 0), "from pydantic import BaseModel\n"@)] }) + seq![
                                            (at(APPEND_LINE, 0), "\nclass "@ + bare@ + "(BaseModel):\n    pass\n"@),
                                        ]);
                                        changes.push(DocChange::Edit { uri: target.clone(), edits });
                                        assert(changes_view(changes@) =~= one_doc(target@, edits_view(edits@)));
                                    },
                                    None => {
                                        let mut content = str_chars("from pydantic import BaseModel\n\nclass ");
                                        push_str(&mut content, bare.as_str());
                                        push_str(&mut content, "(BaseModel):\n    pass\n");
                                        let mut edits: Vec<TextEdit> = Vec::new();
                                        edits.push(TextEdit { range: at_pos(0, 0), new_text: string_from_chars(content.as_slice()) });
                                        assert(edits_view(edits@) =~= seq![(at(0, 0), "from pydantic import BaseModel\n\nclass "@ + bare@ + "(BaseModel):\n    pass\n"@)]);
                                        changes.push(DocChange::Create { uri: target.clone() });
                                        changes.push(DocChange::Edit { uri: target.clone(), edits });
                                        assert(changes_view(changes@) =~= seq![
                                            (1u8, target@, Seq::<(Range, Seq<char>)>::empty()),
                                            (0u8, target@, seq![(at(0, 0), "from pydantic import BaseModel\n\nclass "@ + bare@ + "(BaseModel):\n    pass\n"@)]),
                                        ]);
                                    },
                                }
                                let a = CodeAction {
                                    title: cat4("Create model `", bare.as_str(), "` in ", tm.as_str()),
                                    kind: ActionKind::QuickFix,
                                    diagnostic: None,
                                    changes,
                                    command: None,
                                    is_preferred: false,
                                };
                                assert(action_view(a) == create_model_view(uri@, *rec, mi@, iv, imports@, root@, mf, sources@, can_create, range)->0);
                                push_action(&mut out, a);
                            },
                            None => {},
                        }
                    }
                },
                None => {},
            }
        }
        assert(actions_view(out@) =~= before + if rec.handler.uri@ == uri@ {
            match create_model_view(uri@, *rec, mi@, iv, imports@, root@, mf, sources@, can_create, range) {
                Some(a) => seq![a],
                None => Seq::empty(),
            }
        } else {
            Seq::empty()
        });
        i += 1;
    }
    assert(recs.take(all@.len() as int) =~= recs);
    out
}


// ── route/shadowed: moving a route above the one that shadows it ──────────

/// Record `o` shadows literal route `r` (path `rp`) in the same file: registered earlier
/// for the same method, and its resolved path serves `rp`.
pub open spec fn shadows_here(o: RouteRecord, r: RouteRecord, rp: Seq<char>) -> bool {
    o.ordinal < r.ordinal && o.method == r.method && o.handler.uri@ == r.handler.uri@ && (o.resolved_path matches ResolvedPath::Resolved(p)
        && crate::paths::shadowed_by(rp, p@))
}

/// The handler block of `hr` in lines kept with their terminators (see
/// `extract_handler_block`): first line, end position, text.
pub open spec fn block_of(ls: Seq<Seq<char>>, hr: Range) -> Option<(int, Position, Seq<char>)> {
    let e = hr.end.line as int;
    if e >= ls.len() {
        None
    } else {
        let bs = crate::pysource::block_start(ls, hr.start.line as int);
        Some(
            (
                bs,
                if e + 1 < ls.len() {
                    Position { line: (e + 1) as u32, character: 0 }
                } else {
                    Position { line: e as u32, character: (vstd::utf8::encode_utf8(ls[e]).len() as usize) as u32 }
                },
                crate::pysource::joined_lines(ls, bs, e),
            ),
        )
    }
}

/// The swap of two blocks: the later one is replaced first, each by the other's text.
pub open spec fn swap_edits(a: (int, Position, Seq<char>), b: (int, Position, Seq<char>)) -> Seq<(Range, Seq<char>)> {
    if b.0 < a.0 {
        seq![
            (Range { start: Position { line: a.0 as u32, character: 0 }, end: a.1 }, b.2),
            (Range { start: Position { line: b.0 as u32, character: 0 }, end: b.1 }, a.2),
        ]
    } else {
        seq![
            (Range { start: Position { line: b.0 as u32, character: 0 }, end: b.1 }, a.2),
            (Range { start: Position { line: a.0 as u32, character: 0 }, end: a.1 }, b.2),
        ]
    }
}

/// "Move route above `name`" for a literal route under the cursor that an earlier route
/// of the same file shadows (the first such among all records): the two handler blocks
/// swap places.
pub open spec fn move_view(uri: Seq<char>, all: Seq<RouteRecord>, r: RouteRecord, ls: Seq<Seq<char>>, range: Range) -> Option<ActionView> {
    match r.resolved_path {
        ResolvedPath::Unresolved => None,
        ResolvedPath::Resolved(rp) => if crate::checks::has_param(rp@) || !touches(range, r.handler.range.start, r.handler.range.end) {
            None
        } else {
            match crate::checks::first_match(all, |o: RouteRecord| shadows_here(o, r, rp@)) {
                None => None,
                Some(k) => match (block_of(ls, r.handler.range), block_of(ls, all[k].handler.range)) {
                    (Some(a), Some(b)) => Some(
                        (
                            "Move route above `"@ + all[k].name@ + "`"@,
                            ActionKind::QuickFix,
                            Some(
                                (
                                    r.handler.range,
                                    Some(Severity::Warning),
                                    "route/shadowed"@,
                                    Some(crate::diagnostics::source_name()),
                                    "Shadowed route: "@ + rp@ + ". Shadowed by "@ + crate::checks::path_of(all[k]) + "."@,
                                    seq![(all[k].handler.uri@, all[k].handler.range, "shadowing route registered here"@)],
                                    Seq::empty(),
                                ),
                            ),
                            one_doc(uri, swap_edits(a, b)),
                            None,
                            true,
                        ),
                    ),
                    _ => None,
                },
            }
        },
    }
}

/// The move actions of the resolved routes handled in file `uri`, in index order; none
/// without the file's source.
pub open spec fn move_spec(recs: Seq<RouteRecord>, all: Seq<RouteRecord>, uri: Seq<char>, ls: Seq<Seq<char>>, range: Range) -> Seq<ActionView>
    decreases recs.len(),
{
    if recs.len() == 0 {
        Seq::empty()
    } else {
        move_spec(recs.drop_last(), all, uri, ls, range) + if recs.last().handler.uri@ == uri {
            match move_view(uri, all, recs.last(), ls, range) {
                Some(a) => seq![a],
                None => Seq::empty(),
            }
        } else {
            Seq::empty()
        }
    }
}

fn find_shadower<'a>(all: &Vec<&'a RouteRecord>, r: &RouteRecord, rp: &String) -> (res: Option<&'a RouteRecord>)
    ensures
        match res {
            Some(o) => crate::checks::first_match(derefs(all@), |x: RouteRecord| shadows_here(x, *r, rp@)) matches Some(k) && derefs(all@)[k] == *o,
            None => crate::checks::first_match(derefs(all@), |x: RouteRecord| shadows_here(x, *r, rp@)) is None,
        },
{
    let ghost recs = derefs(all@);
    let ghost p = |x: RouteRecord| shadows_here(x, *r, rp@);
    let mut i: usize = 0;
    while i < all.len()
        invariant
            i <= all@.len(),
            recs == derefs(all@),
            p == (|x: RouteRecord| shadows_here(x, *r, rp@)),
            forall|j: int| 0 <= j < i ==> !p(#[trigger] recs[j]),
        decreases all@.len() - i,
    {
        proof {
            crate::checks::lemma_first_match_step(recs, p, i as int);
        }
        let o: &RouteRecord = all[i];
        assert(recs[i as int] == *o);
        if o.ordinal < r.ordinal && o.method == r.method && o.handler.uri == r.handler.uri {
            match &o.resolved_path {
                ResolvedPath::Resolved(op) => {
                    if crate::paths::literal_route_shadowed_by(rp.as_str(), op.as_str()) {
                        return Some(o);
                    }
                },
                ResolvedPath::Unresolved => {},
            }
        }
        i += 1;
    }
    proof {
        crate::checks::lemma_first_match_none(recs, p);
    }
    None
}

/// The move actions of a file (see `move_spec`); `lines` is its source split with line
/// terminators kept.
pub fn move_actions(route_index: &RouteIndex, uri: &String, lines: &Vec<String>, range: Range) -> (r: Vec<CodeAction>)
    requires
        lines@.len() <= u32::MAX,
        forall|k: int| 0 <= k < index_records(route_index@).len() ==> crate::pysource::block_fits(string_views(lines@), (#[trigger] index_records(route_index@)[k]).handler.range),
    ensures
        actions_view(r@) == move_spec(index_records(route_index@), index_records(route_index@), uri@, string_views(lines@), range),
{
    let all = all_refs(route_index);
    let ghost recs = index_records(route_index@);
    let ghost ls = string_views(lines@);
    let refs = crate::pysource::str_refs(lines);
    let mut out: Vec<CodeAction> = Vec::new();
    let mut i: usize = 0;
    while i < all.len()
        invariant
            i <= all@.len(),
            derefs(all@) == recs,
            ls == string_views(lines@),
            crate::pysource::line_views(refs@) == ls,
            refs@.len() == lines@.len(),
            lines@.len() <= u32::MAX,
            forall|k: int| 0 <= k < recs.len() ==> crate::pysource::block_fits(ls, (#[trigger] recs[k]).handler.range),
            actions_view(out@) == move_spec(recs.take(i as int), recs, uri@, ls, range),
        decreases all@.len() - i,
    {
        let rec: &RouteRecord = all[i];
        assert(recs[i as int] == *rec);
        assert(recs.take(i + 1).drop_last() =~= recs.take(i as int));
        assert(recs.take(i + 1).last() == *rec);
        let ghost before = actions_view(out@);
        if rec.handler.uri == *uri && touching(range, rec.handler.range.start, rec.handler.range.end) {
            match &rec.resolved_path {
                ResolvedPath::Resolved(rp) => {
                    if !crate::checks::path_has_param(rp.as_str()) {
                        match find_shadower(&all, rec, rp) {
                            Some(o) => {
                                proof {
                                    crate::checks::lemma_first_match_bound(recs, |x: RouteRecord| shadows_here(x, *rec, rp@));
                                }
                                let b1 = crate::pysource::extract_handler_block(refs.as_slice(), rec.handler.range);
                                let b2 = crate::pysource::extract_handler_block(refs.as_slice(), o.handler.range);
                                assert(match b1 {
                                    Some((x, y, z)) => block_of(ls, rec.handler.range) == Some((x as int, y, z@)),
                                    None => block_of(ls, rec.handler.range) is None,
                                });
                                assert(match b2 {
                                    Some((x, y, z)) => block_of(ls, o.handler.range) == Some((x as int, y, z@)),
                                    None => block_of(ls, o.handler.range) is None,
                                });
                                match (b1, b2) {
                                    (Some((s1, e1, t1)), Some((s2, e2, t2))) => {
                                        let op: &str = match &o.resolved_path {
                                            ResolvedPath::Resolved(x) => x.as_str(),
                                            ResolvedPath::Unresolved => "",
                                        };
                                        assert(op@ == crate::checks::path_of(*o));
                                        let diag = crate::diagnostics::route_shadowed_diag(rec.handler.range, rp.as_str(), op, crate::position::Location { uri: o.handler.uri.clone(), range: o.handler.range });
                                        let mut edits: Vec<TextEdit> = Vec::new();
                                        if s2 < s1 {
                                            edits.push(TextEdit { range: Range { start: Position { line: s1 as u32, character: 0 }, end: e1 }, new_text: t2 });
                                            edits.push(TextEdit { range: Range { start: Position { line: s2 as u32, character: 0 }, end: e2 }, new_text: t1 });
                                        } else {
                                            edits.push(TextEdit { range: Range { start: Position { line: s2 as u32, character: 0 }, end: e2 }, new_text: t1 });
                                            edits.push(TextEdit { range: Range { start: Position { line: s1 as u32, character: 0 }, end: e1 }, new_text: t2 });
                                        }
                                        let mut changes: Vec<DocChange> = Vec::new();
                                        changes.push(DocChange::Edit { uri: uri.clone(), edits });
                                        let a = CodeAction {
                                            title: cat3("Move route above `", o.name.as_str(), "`"),
                                            kind: ActionKind::QuickFix,
                                            diagnostic: Some(diag),
                                            changes,
                                            command: None,
                                            is_preferred: true,
                                        };
                                        proof {
                                            assert(crate::diagnostics::related_views(diag.related@) == seq![(o.handler.uri@, o.handler.range, "shadowing route registered here"@)]);
                                            assert(diag.tags@ =~= Seq::<crate::report::Tag>::empty());
                                            let ba = block_of(ls, rec.handler.range)->0;
                                            let bb = block_of(ls, o.handler.range)->0;
                                            assert(edits_view(edits@) =~= swap_edits(ba, bb));
                                            assert(changes_view(changes@) =~= one_doc(uri@, swap_edits(ba, bb)));
                                            assert(action_view(a).2 == (move_view(uri@, recs, *rec, ls, range)->0).2);
                                            assert(action_view(a) == move_view(uri@, recs, *rec, ls, range)->0);
                                        }
                                        push_action(&mut out, a);
                                    },
                                    _ => {},
                                }
                            },
                            None => {},
                        }
                    }
                },
                ResolvedPath::Unresolved => {},
            }
        }
        assert(actions_view(out@) =~= before + if rec.handler.uri@ == uri@ {
            match move_view(uri@, recs, *rec, ls, range) {
                Some(a) => seq![a],
                None => Seq::empty(),
            }
        } else {
            Seq::empty()
        });
        i += 1;
    }
    assert(recs.take(all@.len() as int) =~= recs);
    out
}

} // verus!
