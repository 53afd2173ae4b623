//! The "Extract to named dependency" refactoring: `Annotated[T, Depends(f)]` becomes an
//! alias `TDep`, in the file or across the workspace.
use vstd::prelude::*;
use crate::position::{Range, Position};
use crate::checks::first_match;
use crate::actions::{ActionKind, ActionView, AnnotatedParam, CodeAction, DocChange, TextEdit, FileRoute, APPEND_LINE, at, touches, edits_view, changes_view, change_view, action_view, actions_view};
use crate::text::{str_chars, string_from_chars, push_all, string_views, is_prefix, contains_seq};

verus! {

broadcast use vstd::string::group_string_axioms;

/// A file of the workspace whose source is known: its parameters with a `Depends` default
/// or annotation.
pub struct DepFile {
    pub uri: String,
    pub source: String,
    pub params: Vec<AnnotatedParam>,
}

/// A document edit as a client sees it.
pub type DocView = (u8, Seq<char>, Seq<(Range, Seq<char>)>);

/// The function named in `Depends(f)`: what follows the first `(`, without a closing `)`;
/// empty when there is none.
pub open spec fn depends_target(d: Seq<char>) -> Seq<char> {
    match first_match(d, |c: char| c == '(') {
        None => Seq::empty(),
        Some(i) => {
            let rest = d.skip(i + 1);
            if rest.len() > 0 && rest.last() == ')' {
                rest.drop_last()
            } else {
                Seq::empty()
            }
        },
    }
}

/// The alias proposed for `Annotated[T, ...]`: `TDep`.
pub open spec fn alias_of(ap: AnnotatedParam) -> Seq<char> {
    ap.type_text@ + "Dep"@
}

/// `Annotated[T, Depends(f)]`.
pub open spec fn canonical_of(ap: AnnotatedParam) -> Seq<char> {
    "Annotated["@ + ap.type_text@ + ", "@ + ap.depends_text@ + "]"@
}

/// A line that binds `alias`: an assignment, an annotation, or an import of it.
pub open spec fn binds_alias(line: Seq<char>, alias: Seq<char>) -> bool {
    is_prefix(alias + " ="@, line) || is_prefix(alias + ": "@, line) || contains_seq(line, "import "@ + alias)
}

/// Some line of the file binds `alias`.
pub open spec fn alias_bound(ls: Seq<Seq<char>>, alias: Seq<char>) -> bool {
    exists|i: int| 0 <= i < ls.len() && binds_alias(#[trigger] ls[i], alias)
}

/// `p` is written `Annotated[T, D]` with the same `T` and `D` as `ap`.
pub open spec fn same_annotation(p: AnnotatedParam, ap: AnnotatedParam) -> bool {
    p.is_annotated && p.type_text@ == ap.type_text@ && p.depends_text@ == ap.depends_text@
}

/// The parameters with the same annotation as `ap`, in order.
pub open spec fn matching(ps: Seq<AnnotatedParam>, ap: AnnotatedParam) -> Seq<AnnotatedParam>
    decreases ps.len(),
{
    if ps.len() == 0 {
        Seq::empty()
    } else {
        matching(ps.drop_last(), ap) + if same_annotation(ps.last(), ap) {
            seq![ps.last()]
        } else {
            Seq::empty()
        }
    }
}

pub open spec fn line_of(p: AnnotatedParam) -> u32 {
    p.annotation_range.start.line
}

/// The lowest annotation line (0 for none).
pub open spec fn min_line(ms: Seq<AnnotatedParam>) -> u32
    decreases ms.len(),
{
    if ms.len() == 0 {
        0
    } else if ms.len() == 1 {
        line_of(ms[0])
    } else {
        let m = min_line(ms.drop_last());
        if line_of(ms.last()) < m {
            line_of(ms.last())
        } else {
            m
        }
    }
}

/// The function of the first parameter annotated on line `l`.
pub open spec fn first_func_at(ms: Seq<AnnotatedParam>, l: u32) -> Option<Seq<char>>
    decreases ms.len(),
{
    if ms.len() == 0 {
        None
    } else {
        match first_func_at(ms.drop_last(), l) {
            Some(f) => Some(f),
            None => if line_of(ms.last()) == l {
                Some(ms.last().containing_func@)
            } else {
                None
            },
        }
    }
}

/// The line of the first route handler named `f`.
pub open spec fn handler_line_of(routes: Seq<FileRoute>, f: Seq<char>) -> Option<u32>
    decreases routes.len(),
{
    if routes.len() == 0 {
        None
    } else {
        match handler_line_of(routes.drop_last(), f) {
            Some(l) => Some(l),
            None => if routes.last().handler_name@ == f {
                Some(routes.last().handler_range.start.line)
            } else {
                None
            },
        }
    }
}

/// Where the alias goes in the file: the last decorator line above the handler of the
/// first (lowest) use, else that handler's line (else the use's own line).
pub open spec fn alias_line(ms: Seq<AnnotatedParam>, routes: Seq<FileRoute>, ls: Seq<Seq<char>>) -> int {
    let fl = min_line(ms);
    let hl = match first_func_at(ms, fl) {
        Some(f) => match handler_line_of(routes, f) {
            Some(l) => l,
            None => fl,
        },
        None => fl,
    };
    match crate::pysource::decorator_before(ls, hl as int) {
        Some(i) => i,
        None => hl as int,
    }
}

/// `s` with `x` placed after every parameter whose line is not lower.
pub open spec fn insert_desc(s: Seq<AnnotatedParam>, x: AnnotatedParam) -> Seq<AnnotatedParam>
    decreases s.len(),
{
    if s.len() == 0 || line_of(s.last()) >= line_of(x) {
        s.push(x)
    } else {
        insert_desc(s.drop_last(), x).push(s.last())
    }
}

/// The parameters stably sorted by line, highest first.
pub open spec fn desc_by_line(s: Seq<AnnotatedParam>) -> Seq<AnnotatedParam>
    decreases s.len(),
{
    if s.len() == 0 {
        s
    } else {
        insert_desc(desc_by_line(s.drop_last()), s.last())
    }
}

/// Each annotation replaced by the alias, highest line first.
pub open spec fn replacements(ms: Seq<AnnotatedParam>, alias: Seq<char>) -> Seq<(Range, Seq<char>)>
    decreases ms.len(),
{
    let d = desc_by_line(ms);
    Seq::new(d.len(), |i: int| (d[i].annotation_range, alias))
}

/// The alias definition placed in the current file.
pub open spec fn local_definition(ap: AnnotatedParam, line: int) -> (Range, Seq<char>) {
    (at(line as u32, 0), alias_of(ap) + " = "@ + canonical_of(ap) + "\n\n"@)
}

/// Where the workspace variant defines the alias: `deps.py`, else `dependencies.py`, next
/// to the file when its source is known, else the file itself.
pub open spec fn alias_target(uri: Seq<char>, src_uris: Seq<Seq<char>>) -> Seq<char> {
    let d1 = crate::workspace::sibling_of(uri, "deps.py"@);
    let d2 = crate::workspace::sibling_of(uri, "dependencies.py"@);
    if src_uris.contains(d1) {
        d1
    } else if src_uris.contains(d2) {
        d2
    } else {
        uri
    }
}

/// The workspace variant's edit of one file: its matching annotations replaced (when its
/// source holds the canonical text), and an import of the alias when it is defined in
/// another file whose module is known.
pub open spec fn file_doc(f: DepFile, ap: AnnotatedParam, target: Seq<char>, external: bool, module: Option<Seq<char>>) -> Option<DocView> {
    let ms = matching(f.params@, ap);
    if ms.len() == 0 || !contains_seq(f.source@, canonical_of(ap)) {
        None
    } else {
        Some((0u8, f.uri@, replacements(ms, alias_of(ap)) + match module {
            Some(m) => if external && f.uri@ != target {
                seq![(at(0, 0), "from "@ + m + " import "@ + alias_of(ap) + "\n"@)]
            } else {
                Seq::empty()
            },
            None => Seq::empty(),
        }))
    }
}

/// The workspace variant's documents, file by file; when the alias stays in the current
/// file, the first document of that file also receives its definition (`def`). The flag
/// says whether it did.
pub open spec fn ws_docs(
    files: Seq<DepFile>,
    ap: AnnotatedParam,
    uri: Seq<char>,
    target: Seq<char>,
    external: bool,
    module: Option<Seq<char>>,
    def: (Range, Seq<char>),
) -> (Seq<DocView>, bool)
    decreases files.len(),
{
    if files.len() == 0 {
        (Seq::empty(), false)
    } else {
        let (ds, added) = ws_docs(files.drop_last(), ap, uri, target, external, module, def);
        match file_doc(files.last(), ap, target, external, module) {
            None => (ds, added),
            Some(d) => if !external && !added && d.1 == uri {
                (ds.push((d.0, d.1, d.2.push(def))), true)
            } else {
                (ds.push(d), added)
            },
        }
    }
}

/// The actions for one parameter under the cursor, written `Annotated[T, Depends(f)]`
/// with `f` a defined dependency and `TDep` not yet bound in the file: the same-file
/// extraction (every matching annotation of the file replaced, the alias defined above
/// the first use), then the workspace one (every file whose source holds the annotation;
/// the alias appended to `deps.py`/`dependencies.py`, imported where used, or defined in
/// the current file), when it has documents.
pub open spec fn named_dep_views(
    uri: Seq<char>,
    ap: AnnotatedParam,
    params: Seq<AnnotatedParam>,
    ls: Seq<Seq<char>>,
    defined: Seq<Seq<char>>,
    routes: Seq<FileRoute>,
    files: Seq<DepFile>,
    src_uris: Seq<Seq<char>>,
    root: Seq<char>,
    range: Range,
) -> Seq<ActionView> {
    let dn = depends_target(ap.depends_text@);
    let alias = alias_of(ap);
    if !ap.is_annotated || !touches(range, ap.annotation_range.start, ap.annotation_range.end) || dn.len() == 0
        || !defined.contains(dn) || alias_bound(ls, alias) {
        Seq::empty()
    } else {
        let ms = matching(params, ap);
        let line = alias_line(ms, routes, ls);
        let same: ActionView = (
            "Extract to named dependency `"@ + alias + "`"@,
            ActionKind::RefactorExtract,
            None,
            seq![(0u8, uri, replacements(ms, alias).push(local_definition(ap, line)))],
            None,
            false,
        );
        let target = alias_target(uri, src_uris);
        let external = target != uri;
        let module = crate::workspace::module_of(target, root);
        let docs = ws_docs(files, ap, uri, target, external, module, local_definition(ap, line)).0;
        let all = if external {
            docs.push((0u8, target, seq![(at(APPEND_LINE, 0), "\n"@ + alias + " = "@ + canonical_of(ap) + "\n"@)]))
        } else {
            docs
        };
        seq![same] + if all.len() > 0 {
            seq![
                (
                    "Extract to named dependency `"@ + alias + "` (workspace)"@,
                    ActionKind::RefactorExtract,
                    None,
                    all,
                    None,
                    false,
                ),
            ]
        } else {
            Seq::empty()
        }
    }
}

/// The named-dependency actions of a file, parameter by parameter.
pub open spec fn named_dep_spec(
    uri: Seq<char>,
    aps: Seq<AnnotatedParam>,
    params: Seq<AnnotatedParam>,
    ls: Seq<Seq<char>>,
    defined: Seq<Seq<char>>,
    routes: Seq<FileRoute>,
    files: Seq<DepFile>,
    src_uris: Seq<Seq<char>>,
    root: Seq<char>,
    range: Range,
) -> Seq<ActionView>
    decreases aps.len(),
{
    if aps.len() == 0 {
        Seq::empty()
    } else {
        named_dep_spec(uri, aps.drop_last(), params, ls, defined, routes, files, src_uris, root, range)
            + named_dep_views(uri, aps.last(), params, ls, defined, routes, files, src_uris, root, range)
    }
}

pub open spec fn ap_derefs(s: Seq<&AnnotatedParam>) -> Seq<AnnotatedParam> {
    s.map_values(|p: &AnnotatedParam| *p)
}

fn push_text(out: &mut Vec<char>, s: &str)
    ensures
        final(out)@ == old(out)@ + s@,
{
    let cs = str_chars(s);
    push_all(out, cs.as_slice());
}

fn depends_target_of(d: &str) -> (r: Vec<char>)
    ensures
        r@ == depends_target(d@),
{
    let cs = str_chars(d);
    let ghost p = |c: char| c == '(';
    let mut i: usize = 0;
    while i < cs.len()
        invariant
            i <= cs@.len(),
            cs@ == d@,
            p == (|c: char| c == '('),
            forall|j: int| 0 <= j < i ==> !p(#[trigger] cs@[j]),
        ensures
            i <= cs@.len(),
            forall|j: int| 0 <= j < i ==> !p(#[trigger] cs@[j]),
            i < cs@.len() ==> p(cs@[i as int]),
        decreases cs@.len() - i,
    {
        if cs[i] == '(' {
            break;
        }
        i += 1;
    }
    if i == cs.len() {
        proof {
            crate::checks::lemma_first_match_none(cs@, p);
        }
        return Vec::new();
    }
    proof {
        crate::checks::lemma_first_match_step(cs@, p, i as int);
    }
    let rest = crate::text::slice_chars(cs.as_slice(), i + 1, cs.len());
    assert(rest@ =~= cs@.skip(i + 1));
    if rest.len() > 0 && rest[rest.len() - 1] == ')' {
        let out = crate::text::slice_chars(rest.as_slice(), 0, rest.len() - 1);
        assert(out@ =~= rest@.drop_last());
        out
    } else {
        Vec::new()
    }
}

fn binds_alias_line(line: &str, alias: &Vec<char>) -> (b: bool)
    ensures
        b == binds_alias(line@, alias@),
{
    let l = str_chars(line);
    let mut a1 = alias.clone();
    push_text(&mut a1, " =");
    let mut a2 = alias.clone();
    push_text(&mut a2, ": ");
    let mut a3 = str_chars("import ");
    push_all(&mut a3, alias.as_slice());
    crate::text::starts_with(l.as_slice(), a1.as_slice()) || crate::text::starts_with(l.as_slice(), a2.as_slice())
        || crate::text::contains_chars(l.as_slice(), a3.as_slice())
}

fn alias_bound_in(lines: &Vec<String>, alias: &Vec<char>) -> (b: bool)
    ensures
        b == alias_bound(string_views(lines@), alias@),
{
    let ghost ls = string_views(lines@);
    let mut i: usize = 0;
    while i < lines.len()
        invariant
            i <= lines@.len(),
            ls == string_views(lines@),
            forall|j: int| 0 <= j < i ==> !binds_alias(#[trigger] ls[j], alias@),
        decreases lines@.len() - i,
    {
        assert(ls[i as int] == lines@[i as int]@);
        if binds_alias_line(lines[i].as_str(), alias) {
            return true;
        }
        i += 1;
    }
    false
}

fn is_same_annotation(p: &AnnotatedParam, ap: &AnnotatedParam) -> (b: bool)
    ensures
        b == same_annotation(*p, *ap),
{
    p.is_annotated && p.type_text == ap.type_text && p.depends_text == ap.depends_text
}

fn matching_list<'a>(ps: &'a [AnnotatedParam], ap: &AnnotatedParam) -> (r: Vec<&'a AnnotatedParam>)
    ensures
        ap_derefs(r@) == matching(ps@, *ap),
{
    let mut out: Vec<&'a AnnotatedParam> = Vec::new();
    let mut i: usize = 0;
    while i < ps.len()
        invariant
            i <= ps@.len(),
            ap_derefs(out@) == matching(ps@.take(i as int), *ap),
        decreases ps@.len() - i,
    {
        assert(ps@.take(i + 1).drop_last() =~= ps@.take(i as int));
        assert(ps@.take(i + 1).last() == ps@[i as int]);
        let ghost before = ap_derefs(out@);
        if is_same_annotation(&ps[i], ap) {
            out.push(&ps[i]);
        }
        assert(ap_derefs(out@) =~= before + if same_annotation(ps@[i as int], *ap) { seq![ps@[i as int]] } else { Seq::empty() });
        i += 1;
    }
    assert(ps@.take(ps@.len() as int) =~= ps@);
    out
}

fn min_line_of(ms: &Vec<&AnnotatedParam>) -> (l: u32)
    ensures
        l == min_line(ap_derefs(ms@)),
{
    let ghost s = ap_derefs(ms@);
    if ms.len() == 0 {
        return 0;
    }
    let mut m = ms[0].annotation_range.start.line;
    let mut i: usize = 1;
    assert(s.take(1).len() == 1);
    while i < ms.len()
        invariant
            1 <= i <= ms@.len(),
            s == ap_derefs(ms@),
            m == min_line(s.take(i as int)),
        decreases ms@.len() - i,
    {
        assert(s.take(i + 1).drop_last() =~= s.take(i as int));
        assert(s.take(i + 1).last() == *ms@[i as int]);
        let li = ms[i].annotation_range.start.line;
        if li < m {
            m = li;
        }
        i += 1;
    }
    assert(s.take(ms@.len() as int) =~= s);
    m
}

fn first_func_of(ms: &Vec<&AnnotatedParam>, l: u32) -> (r: Option<String>)
    ensures
        match r {
            Some(f) => first_func_at(ap_derefs(ms@), l) == Some(f@),
            None => first_func_at(ap_derefs(ms@), l) is None,
        },
{
    let ghost s = ap_derefs(ms@);
    let mut res: Option<String> = None;
    let mut i: usize = 0;
    while i < ms.len()
        invariant
            i <= ms@.len(),
            s == ap_derefs(ms@),
            match res {
                Some(f) => first_func_at(s.take(i as int), l) == Some(f@),
                None => first_func_at(s.take(i as int), l) is None,
            },
        decreases ms@.len() - i,
    {
        assert(s.take(i + 1).drop_last() =~= s.take(i as int));
        assert(s.take(i + 1).last() == *ms@[i as int]);
        if res.is_none() && ms[i].annotation_range.start.line == l {
            res = Some(ms[i].containing_func.clone());
        }
        i += 1;
    }
    assert(s.take(ms@.len() as int) =~= s);
    res
}

fn handler_line(routes: &[FileRoute], f: &String) -> (r: Option<u32>)
    ensures
        r == handler_line_of(routes@, f@),
{
    let mut res: Option<u32> = None;
    let mut i: usize = 0;
    while i < routes.len()
        invariant
            i <= routes@.len(),
            res == handler_line_of(routes@.take(i as int), f@),
        decreases routes@.len() - i,
    {
        assert(routes@.take(i + 1).drop_last() =~= routes@.take(i as int));
        assert(routes@.take(i + 1).last() == routes@[i as int]);
        if res.is_none() && routes[i].handler_name == *f {
            res = Some(routes[i].handler_range.start.line);
        }
        i += 1;
    }
    assert(routes@.take(routes@.len() as int) =~= routes@);
    res
}

fn alias_line_of(ms: &Vec<&AnnotatedParam>, routes: &[FileRoute], lines: &Vec<Vec<char>>) -> (r: usize)
    ensures
        r as int == alias_line(ap_derefs(ms@), routes@, crate::text::views(lines@)),
{
    let fl = min_line_of(ms);
    let hl: u32 = match first_func_of(ms, fl) {
        Some(f) => match handler_line(routes, &f) {
            Some(l) => l,
            None => fl,
        },
        None => fl,
    };
    match crate::actions::decorator_line_before(lines, hl as usize) {
        Some(i) => i,
        None => hl as usize,
    }
}

proof fn lemma_insert_desc(s: Seq<AnnotatedParam>, x: AnnotatedParam, k: int)
    requires
        0 <= k <= s.len(),
        k == 0 || line_of(s[k - 1]) >= line_of(x),
        forall|j: int| k <= j < s.len() ==> line_of(#[trigger] s[j]) < line_of(x),
    ensures
        insert_desc(s, x) == s.take(k).push(x) + s.skip(k),
    decreases s.len() - k,
{
    if s.len() == k {
        assert(s.take(k) =~= s);
        assert(s.take(k).push(x) + s.skip(k) =~= s.push(x));
    } else {
        let d = s.drop_last();
        assert(forall|j: int| k <= j < d.len() ==> d[j] == s[j]);
        lemma_insert_desc(d, x, k);
        assert(d.take(k) =~= s.take(k));
        assert((d.take(k).push(x) + d.skip(k)).push(s.last()) =~= s.take(k).push(x) + s.skip(k));
    }
}

fn sort_desc<'a>(g: &Vec<&'a AnnotatedParam>) -> (r: Vec<&'a AnnotatedParam>)
    ensures
        ap_derefs(r@) == desc_by_line(ap_derefs(g@)),
{
    let ghost recs = ap_derefs(g@);
    let mut out: Vec<&'a AnnotatedParam> = Vec::new();
    let mut i: usize = 0;
    while i < g.len()
        invariant
            i <= g@.len(),
            recs == ap_derefs(g@),
            ap_derefs(out@) == desc_by_line(recs.take(i as int)),
        decreases g@.len() - i,
    {
        let x: &'a AnnotatedParam = g[i];
        assert(recs.take(i + 1).drop_last() =~= recs.take(i as int));
        assert(recs.take(i + 1).last() == *x);
        let ghost cur = ap_derefs(out@);
        let mut k = out.len();
        while k > 0 && out[k - 1].annotation_range.start.line < x.annotation_range.start.line
            invariant
                k <= out@.len(),
                cur == ap_derefs(out@),
                forall|j: int| k <= j < out@.len() ==> line_of(#[trigger] cur[j]) < line_of(*x),
            decreases k,
        {
            k -= 1;
        }
        proof {
            lemma_insert_desc(cur, *x, k as int);
        }
        out.insert(k, x);
        assert(ap_derefs(out@) =~= cur.take(k as int).push(*x) + cur.skip(k as int));
        i += 1;
    }
    assert(recs.take(g@.len() as int) =~= recs);
    out
}

fn replacement_edits(ms: &Vec<&AnnotatedParam>, alias: &Vec<char>) -> (r: Vec<TextEdit>)
    ensures
        edits_view(r@) == replacements(ap_derefs(ms@), alias@),
{
    let d = sort_desc(ms);
    let ghost dv = ap_derefs(d@);
    let mut out: Vec<TextEdit> = Vec::new();
    let mut i: usize = 0;
    while i < d.len()
        invariant
            i <= d@.len(),
            dv == ap_derefs(d@),
            out@.len() == i,
            forall|j: int| 0 <= j < i ==> (#[trigger] out@[j]).range == dv[j].annotation_range && out@[j].new_text@ == alias@,
        decreases d@.len() - i,
    {
        assert(dv[i as int] == *d@[i as int]);
        out.push(TextEdit { range: d[i].annotation_range, new_text: string_from_chars(alias.as_slice()) });
        i += 1;
    }
    assert(edits_view(out@) =~= replacements(ap_derefs(ms@), alias@));
    out
}

fn definition_text(ap: &AnnotatedParam, alias: &Vec<char>, canonical: &Vec<char>, tail: &str) -> (r: String)
    ensures
        r@ == alias@ + " = "@ + canonical@ + tail@,
{
    let mut t = alias.clone();
    push_text(&mut t, " = ");
    push_all(&mut t, canonical.as_slice());
    push_text(&mut t, tail);
    string_from_chars(t.as_slice())
}

fn file_doc_of(f: &DepFile, ap: &AnnotatedParam, alias: &Vec<char>, canonical: &Vec<char>, target: &String, external: bool, module: &Option<String>) -> (r: Option<(String, Vec<TextEdit>)>)
    requires
        alias@ == alias_of(*ap),
        canonical@ == canonical_of(*ap),
    ensures
        match r {
            Some((u, es)) => file_doc(*f, *ap, target@, external, crate::config::opt_view(*module)) == Some((0u8, u@, edits_view(es@))),
            None => file_doc(*f, *ap, target@, external, crate::config::opt_view(*module)) is None,
        },
{
    let ms = matching_list(f.params.as_slice(), ap);
    if ms.len() == 0 {
        return None;
    }
    let src = str_chars(f.source.as_str());
    if !crate::text::contains_chars(src.as_slice(), canonical.as_slice()) {
        return None;
    }
    let mut es = replacement_edits(&ms, alias);
    let ghost rv = edits_view(es@);
    match module {
        Some(m) => {
            if external && f.uri != *target {
                let mut t = str_chars("from ");
                push_text(&mut t, m.as_str());
                push_text(&mut t, " import ");
                push_all(&mut t, alias.as_slice());
                push_text(&mut t, "\n");
                es.push(TextEdit { range: crate::actions::at_pos(0, 0), new_text: string_from_chars(t.as_slice()) });
            }
        },
        None => {},
    }
    assert(edits_view(es@) =~= rv + match crate::config::opt_view(*module) {
        Some(m) => if external && f.uri@ != target@ {
            seq![(at(0, 0), "from "@ + m + " import "@ + alias_of(*ap) + "\n"@)]
        } else {
            Seq::empty()
        },
        None => Seq::empty(),
    });
    Some((f.uri.clone(), es))
}

fn workspace_docs(
    files: &Vec<DepFile>,
    ap: &AnnotatedParam,
    alias: &Vec<char>,
    canonical: &Vec<char>,
    uri: &String,
    target: &String,
    external: bool,
    module: &Option<String>,
    def_line: usize,
) -> (r: Vec<DocChange>)
    requires
        alias@ == alias_of(*ap),
        canonical@ == canonical_of(*ap),
    ensures
        changes_view(r@) == ws_docs(files@, *ap, uri@, target@, external, crate::config::opt_view(*module), local_definition(*ap, def_line as int)).0,
{
    let ghost def = local_definition(*ap, def_line as int);
    let ghost mv = crate::config::opt_view(*module);
    let mut out: Vec<DocChange> = Vec::new();
    let mut added = false;
    let mut i: usize = 0;
    while i < files.len()
        invariant
            i <= files@.len(),
            alias@ == alias_of(*ap),
            canonical@ == canonical_of(*ap),
            def == local_definition(*ap, def_line as int),
            mv == crate::config::opt_view(*module),
            (changes_view(out@), added) == ws_docs(files@.take(i as int), *ap, uri@, target@, external, mv, def),
        decreases files@.len() - i,
    {
        assert(files@.take(i + 1).drop_last() =~= files@.take(i as int));
        assert(files@.take(i + 1).last() == files@[i as int]);
        let ghost before = changes_view(out@);
        match file_doc_of(&files[i], ap, alias, canonical, target, external, module) {
            None => {},
            Some((u, es)) => {
                let mut es = es;
                let ghost ev = edits_view(es@);
                if !external && !added && u == *uri {
                    let t = definition_text(ap, alias, canonical, "\n\n");
                    es.push(TextEdit { range: crate::actions::at_pos(def_line as u32, 0), new_text: t });
                    assert(edits_view(es@) =~= ev.push(def));
                    added = true;
                }
                out.push(DocChange::Edit { uri: u, edits: es });
                assert(changes_view(out@) =~= before.push(change_view(DocChange::Edit { uri: u, edits: es })));
            },
        }
        i += 1;
    }
    assert(files@.take(files@.len() as int) =~= files@);
    out
}

fn target_of(uri: &String, src_uris: &[String]) -> (r: String)
    ensures
        r@ == alias_target(uri@, string_views(src_uris@)),
{
    let d1 = crate::workspace::sibling_uri(uri.as_str(), "deps.py");
    if crate::text::contains_str(src_uris, d1.as_str()) {
        return d1;
    }
    let d2 = crate::workspace::sibling_uri(uri.as_str(), "dependencies.py");
    if crate::text::contains_str(src_uris, d2.as_str()) {
        return d2;
    }
    uri.clone()
}

fn named_dep_for(
    uri: &String,
    ap: &AnnotatedParam,
    params: &[AnnotatedParam],
    lines: &Vec<String>,
    cl: &Vec<Vec<char>>,
    defined: &[String],
    routes: &[FileRoute],
    files: &Vec<DepFile>,
    src_uris: &[String],
    root: &str,
    range: Range,
    out: &mut Vec<CodeAction>,
)
    requires
        crate::text::views(cl@) == string_views(lines@),
    ensures
        actions_view(final(out)@) == actions_view(old(out)@) + named_dep_views(uri@, *ap, params@, string_views(lines@), string_views(defined@), routes@, files@, string_views(src_uris@), root@, range),
{
    if !ap.is_annotated || !crate::actions::touching(range, ap.annotation_range.start, ap.annotation_range.end) {
        assert(actions_view(out@) =~= actions_view(old(out)@) + Seq::<ActionView>::empty());
        return;
    }
    let dn = depends_target_of(ap.depends_text.as_str());
    let dns = string_from_chars(dn.as_slice());
    let mut alias = str_chars(ap.type_text.as_str());
    push_text(&mut alias, "Dep");
    if dn.len() == 0 || !crate::text::contains_str(defined, dns.as_str()) || alias_bound_in(lines, &alias) {
        assert(actions_view(out@) =~= actions_view(old(out)@) + Seq::<ActionView>::empty());
        return;
    }
    let mut canonical = str_chars("Annotated[");
    push_text(&mut canonical, ap.type_text.as_str());
    push_text(&mut canonical, ", ");
    push_text(&mut canonical, ap.depends_text.as_str());
    push_text(&mut canonical, "]");
    assert(alias@ == alias_of(*ap));
    assert(canonical@ == canonical_of(*ap));
    let ms = matching_list(params, ap);
    let line = alias_line_of(&ms, routes, cl);
    let mut edits = replacement_edits(&ms, &alias);
    let ghost rv = edits_view(edits@);
    let t = definition_text(ap, &alias, &canonical, "\n\n");
    edits.push(TextEdit { range: crate::actions::at_pos(line as u32, 0), new_text: t });
    assert(edits_view(edits@) =~= rv.push(local_definition(*ap, line as int)));
    let mut changes: Vec<DocChange> = Vec::new();
    changes.push(DocChange::Edit { uri: uri.clone(), edits });
    let alias_s = string_from_chars(alias.as_slice());
    let same = CodeAction {
        title: crate::actions::cat3("Extract to named dependency `", alias_s.as_str(), "`"),
        kind: ActionKind::RefactorExtract,
        diagnostic: None,
        changes,
        command: None,
        is_preferred: false,
    };
    let ghost sv = action_view(same);
    crate::actions::push_action(out, same);
    let target = target_of(uri, src_uris);
    let external = target != *uri;
    let module = crate::workspace::python_module(target.as_str(), root);
    let mut docs = workspace_docs(files, ap, &alias, &canonical, uri, &target, external, &module, line);
    let ghost dv = changes_view(docs@);
    if external {
        let t2 = definition_text(ap, &alias, &canonical, "\n");
        let mut t3 = str_chars("\n");
        push_text(&mut t3, t2.as_str());
        assert(t3@ =~= "\n"@ + alias_of(*ap) + " = "@ + canonical_of(*ap) + "\n"@);
        let mut es: Vec<TextEdit> = Vec::new();
        es.push(TextEdit { range: crate::actions::at_pos(APPEND_LINE, 0), new_text: string_from_chars(t3.as_slice()) });
        assert(edits_view(es@) =~= seq![(at(APPEND_LINE, 0), "\n"@ + alias_of(*ap) + " = "@ + canonical_of(*ap) + "\n"@)]);
        docs.push(DocChange::Edit { uri: target.clone(), edits: es });
    }
    let ghost all = changes_view(docs@);
    assert(all =~= if external {
        dv.push((0u8, target@, seq![(at(APPEND_LINE, 0), "\n"@ + alias_of(*ap) + " = "@ + canonical_of(*ap) + "\n"@)]))
    } else {
        dv
    });
    let ghost mid = actions_view(out@);
    proof {
        let ls = string_views(lines@);
        let dd = string_views(defined@);
        assert(dns@ == depends_target(ap.depends_text@));
        assert(dd.contains(dns@));
        assert(!alias_bound(ls, alias_of(*ap)));
        assert(sv == (
            "Extract to named dependency `"@ + alias_of(*ap) + "`"@,
            ActionKind::RefactorExtract,
            None::<crate::checks::DiagView>,
            seq![(0u8, uri@, replacements(matching(params@, *ap), alias_of(*ap)).push(local_definition(*ap, line as int)))],
            None::<(Seq<char>, Seq<char>, Seq<char>, u32)>,
            false,
        ));
        assert(mid == actions_view(old(out)@).push(sv));
    }
    if docs.len() > 0 {
        let ws = CodeAction {
            title: crate::actions::cat3("Extract to named dependency `", alias_s.as_str(), "` (workspace)"),
            kind: ActionKind::RefactorExtract,
            diagnostic: None,
            changes: docs,
            command: None,
            is_preferred: false,
        };
        crate::actions::push_action(out, ws);
    }
    assert(actions_view(out@) =~= actions_view(old(out)@) + named_dep_views(uri@, *ap, params@, string_views(lines@), string_views(defined@), routes@, files@, string_views(src_uris@), root@, range));
}

/// The "Extract to named dependency" actions of file `uri` (see `named_dep_spec`):
/// `params` are its parameters with a `Depends`, `lines` its source lines, `defined` the
/// dependency functions defined in the workspace, `routes` its route decorators, `files`
/// the workspace files with a known source (in the order the workspace variant visits
/// them), `src_uris` the URIs whose source is known, `root` the workspace root.
pub fn named_dependency_actions(
    uri: &String,
    params: &Vec<AnnotatedParam>,
    lines: &Vec<String>,
    defined: &Vec<String>,
    routes: &Vec<FileRoute>,
    files: &Vec<DepFile>,
    src_uris: &Vec<String>,
    root: &str,
    range: Range,
) -> (r: Vec<CodeAction>)
    ensures
        actions_view(r@) == named_dep_spec(uri@, params@, params@, string_views(lines@), string_views(defined@), routes@, files@, string_views(src_uris@), root@, range),
{
    let cl = crate::extract::char_lines(lines);
    let mut out: Vec<CodeAction> = Vec::new();
    let mut i: usize = 0;
    while i < params.len()
        invariant
            i <= params@.len(),
            crate::text::views(cl@) == string_views(lines@),
            actions_view(out@) == named_dep_spec(uri@, params@.take(i as int), params@, string_views(lines@), string_views(defined@), routes@, files@, string_views(src_uris@), root@, range),
        decreases params@.len() - i,
    {
        assert(params@.take(i + 1).drop_last() =~= params@.take(i as int));
        assert(params@.take(i + 1).last() == params@[i as int]);
        named_dep_for(uri, &params[i], params.as_slice(), lines, &cl, defined.as_slice(), routes.as_slice(), files, src_uris.as_slice(), root, range, &mut out);
        i += 1;
    }
    assert(params@.take(params@.len() as int) =~= params@);
    out
}

/// Law: the extraction is not offered again once applied. The definition line it inserts
/// binds the alias, so a file holding that line gets no extraction for any parameter
/// with the same type.
pub proof fn extraction_is_not_offered_twice(
    uri: Seq<char>,
    ap: AnnotatedParam,
    params: Seq<AnnotatedParam>,
    ls: Seq<Seq<char>>,
    defined: Seq<Seq<char>>,
    routes: Seq<FileRoute>,
    files: Seq<DepFile>,
    src_uris: Seq<Seq<char>>,
    root: Seq<char>,
    range: Range,
    k: int,
)
    requires
        0 <= k < ls.len(),
        ls[k] == alias_of(ap) + " = "@ + canonical_of(ap),
    ensures
        named_dep_views(uri, ap, params, ls, defined, routes, files, src_uris, root, range) == Seq::<ActionView>::empty(),
{
    let alias = alias_of(ap);
    let line = ls[k];
    reveal_strlit(" =");
    reveal_strlit(" = ");
    assert((alias + " ="@).len() <= line.len());
    assert(line.take((alias + " ="@).len() as int) =~= alias + " ="@);
    assert(binds_alias(line, alias));
    assert(alias_bound(ls, alias));
}

} // verus!
