//! Applying text edits to file contents whose positions count bytes.
use vstd::prelude::*;
use crate::position::{Position, Range};
use crate::deps::DepRef;
use crate::routing::{RouteRecord, RouteIndex, ResolvedPath};
use crate::params::{svs, path_names, dep_params_of, bound_by, contains_string};
use crate::distance::{capped_distance, edit_distance};
use crate::checks::{first_match, lemma_first_match_step, lemma_first_match_none, derefs};
use crate::analysis::{index_records, all_refs};
use crate::text::string_views;
use crate::report::Diagnostic;
use vstd::utf8::encode_utf8;
use crate::offset::{count_nl, last_line_start, is_line_start, lemma_count_nl_bound, lemma_count_nl_mono, lemma_last_line_start, lemma_line_start_unique};

verus! {

/// Where line `k` of `src` starts: just after its `k`-th newline (see `is_line_start`;
/// meaningful when `src` has at least `k` newlines).
pub open spec fn start_of_line(src: Seq<u8>, k: nat) -> int {
    choose|st: int| is_line_start(src, st, k)
}

/// The byte offset of a position whose column counts bytes: the start of its line plus
/// the column, clamped to the end of the content; the end when the line does not exist.
pub open spec fn byte_offset(src: Seq<u8>, pos: Position) -> int {
    if count_nl(src) >= pos.line {
        let st = start_of_line(src, pos.line as nat);
        if st + pos.character < src.len() {
            st + pos.character
        } else {
            src.len() as int
        }
    } else {
        src.len() as int
    }
}

/// Converts a position whose column counts bytes to a byte offset (see `byte_offset`).
pub fn position_to_offset(content: &[u8], pos: Position) -> (r: usize)
    ensures
        r == byte_offset(content@, pos),
        r <= content@.len(),
{
    let line: usize = pos.line as usize;
    let mut current_line: usize = 0;
    let mut line_start: usize = 0;
    let mut i: usize = 0;
    while i < content.len()
        invariant
            i <= content@.len(),
            line == pos.line,
            current_line == count_nl(content@.take(i as int)),
            line_start == last_line_start(content@.take(i as int)),
            current_line == pos.line ==> line_start == i,
            current_line <= pos.line,
        decreases content@.len() - i,
    {
        if current_line == line {
            proof {
                lemma_last_line_start(content@.take(i as int));
                lemma_count_nl_bound(content@.take(i as int));
                let st = line_start as int;
                assert(content@.take(i as int).take(st) =~= content@.take(st));
                assert(st > 0 ==> content@.take(i as int)[st - 1] == content@[st - 1]);
                assert(content@.take(content@.len() as int) =~= content@);
                lemma_count_nl_mono(content@, i as int, content@.len() as int);
                assert(is_line_start(content@, st, pos.line as nat));
                lemma_line_start_unique(content@, st, start_of_line(content@, pos.line as nat), pos.line as nat);
            }
            let c = pos.character as usize;
            if c < content.len() - i {
                return i + c;
            } else {
                return content.len();
            }
        }
        assert(content@.take(i + 1).drop_last() =~= content@.take(i as int));
        proof {
            lemma_count_nl_bound(content@.take(i as int));
        }
        if content[i] == 10u8 {
            current_line += 1;
            line_start = i + 1;
        }
        i += 1;
    }
    assert(content@.take(content@.len() as int) =~= content@);
    proof {
        lemma_last_line_start(content@);
        lemma_count_nl_bound(content@);
        if current_line == pos.line {
            assert(is_line_start(content@, line_start as int, pos.line as nat));
            lemma_line_start_unique(content@, line_start as int, start_of_line(content@, pos.line as nat), pos.line as nat);
        }
    }
    i
}


/// A deterministic fix for a diagnostic: replace `edit_range` of file `uri` by
/// `new_text`; `diag_range` is the range of the diagnostic it resolves.
#[derive(Clone, Debug)]
pub struct FileFix {
    pub uri: String,
    pub diag_range: Range,
    pub edit_range: Range,
    pub new_text: String,
}

/// What a fix is made of: file, diagnostic range, edited range, replacement.
pub open spec fn fix_view(f: FileFix) -> (Seq<char>, Range, Range, Seq<char>) {
    (f.uri@, f.diag_range, f.edit_range, f.new_text@)
}

/// The views of a list of fixes.
pub open spec fn fix_views(fs: Seq<FileFix>) -> Seq<(Seq<char>, Range, Range, Seq<char>)> {
    fs.map_values(|f: FileFix| fix_view(f))
}

/// The dependency references of one file, where fixes are looked for.
#[derive(Clone, Debug)]
pub struct FixFile {
    pub uri: String,
    pub dep_refs: Vec<DepRef>,
}

/// The `di/depends-called` fix of reference `r`: `Depends(f())` becomes `Depends(f)`,
/// when `f` is a known dependency and the call's range is known.
pub open spec fn called_fix(uri: Seq<char>, r: DepRef, proven: Seq<Seq<char>>) -> Seq<(Seq<char>, Range, Range, Seq<char>)> {
    if r.is_called && proven.contains(r.name@) {
        match r.callee_range {
            Some(c) => seq![(uri, r.range, c, r.name@)],
            None => Seq::empty(),
        }
    } else {
        Seq::empty()
    }
}

/// The `di/depends-called` fixes of a file's references, in order.
pub open spec fn called_fixes(uri: Seq<char>, refs: Seq<DepRef>, proven: Seq<Seq<char>>) -> Seq<(Seq<char>, Range, Range, Seq<char>)>
    decreases refs.len(),
{
    if refs.len() == 0 {
        Seq::empty()
    } else {
        called_fixes(uri, refs.drop_last(), proven) + called_fix(uri, refs.last(), proven)
    }
}

/// `name` is a parameter of one of the route decorator's dependencies.
pub open spec fn from_deps(r: RouteRecord, dp: Seq<(String, Vec<String>)>, name: Seq<char>) -> bool {
    exists|k: int| 0 <= k < r.dependencies@.len() && #[trigger] dep_params_of(dp, r.dependencies@[k]@).contains(name)
}

/// The path parameters among `names` that neither a handler argument nor a decorator
/// dependency's parameter binds, in order.
pub open spec fn unbound_names(names: Seq<Seq<char>>, r: RouteRecord, dp: Seq<(String, Vec<String>)>) -> Seq<Seq<char>>
    decreases names.len(),
{
    if names.len() == 0 {
        Seq::empty()
    } else {
        unbound_names(names.drop_last(), r, dp) + if svs(r.handler_params@).contains(names.last()) || from_deps(r, dp, names.last()) {
            Seq::empty()
        } else {
            seq![names.last()]
        }
    }
}

/// Handler argument `h` may be a misspelling of path parameter `t`: it is neither a path
/// parameter nor a dependency's parameter, and within edit distance 2 of `t`.
pub open spec fn rename_candidate(r: RouteRecord, dp: Seq<(String, Vec<String>)>, h: Seq<char>, t: Seq<char>) -> bool {
    !path_names(r).contains(h) && !from_deps(r, dp, h) && capped_distance(h, t) <= 2
}

/// The `route/arg-missing-param` fix of a route: when exactly one path parameter is
/// unbound, rename the first candidate handler argument to it. None when the handler's
/// arguments are unknown, include `*args`/`**kwargs`, or lack ranges, or when the route
/// has no path parameter.
pub open spec fn rename_fix(uri: Seq<char>, r: RouteRecord, dp: Seq<(String, Vec<String>)>) -> Seq<(Seq<char>, Range, Range, Seq<char>)> {
    if !r.handler_params_known || r.handler_has_splat_args || r.path_params@.len() == 0 || r.handler_param_ranges@.len()
        != r.handler_params@.len() {
        Seq::empty()
    } else {
        let ub = unbound_names(path_names(r), r, dp);
        if ub.len() != 1 {
            Seq::empty()
        } else {
            match first_match(svs(r.handler_params@), |h: Seq<char>| rename_candidate(r, dp, h, ub[0])) {
                Some(i) => seq![(uri, r.handler_param_ranges@[i], r.handler_param_ranges@[i], ub[0])],
                None => Seq::empty(),
            }
        }
    }
}

/// The rename fixes of the resolved routes whose handler is in file `uri`, in order.
pub open spec fn record_fixes(recs: Seq<RouteRecord>, uri: Seq<char>, dp: Seq<(String, Vec<String>)>) -> Seq<(Seq<char>, Range, Range, Seq<char>)>
    decreases recs.len(),
{
    if recs.len() == 0 {
        Seq::empty()
    } else {
        record_fixes(recs.drop_last(), uri, dp) + if recs.last().handler.uri@ == uri && recs.last().resolved_path is Resolved {
            rename_fix(uri, recs.last(), dp)
        } else {
            Seq::empty()
        }
    }
}

/// All fixes, file by file: a file's `di/depends-called` fixes, then its rename fixes.
pub open spec fn all_fixes(files: Seq<FixFile>, recs: Seq<RouteRecord>, proven: Seq<Seq<char>>, dp: Seq<(String, Vec<String>)>) -> Seq<(Seq<char>, Range, Range, Seq<char>)>
    decreases files.len(),
{
    if files.len() == 0 {
        Seq::empty()
    } else {
        all_fixes(files.drop_last(), recs, proven, dp) + called_fixes(files.last().uri@, files.last().dep_refs@, proven)
            + record_fixes(recs, files.last().uri@, dp)
    }
}

fn push_called_fixes(out: &mut Vec<FileFix>, uri: &String, refs: &Vec<DepRef>, proven: &[String])
    ensures
        fix_views(final(out)@) == fix_views(old(out)@) + called_fixes(uri@, refs@, string_views(proven@)),
{
    let ghost pv = string_views(proven@);
    let mut i: usize = 0;
    while i < refs.len()
        invariant
            i <= refs@.len(),
            pv == string_views(proven@),
            fix_views(out@) == fix_views(old(out)@) + called_fixes(uri@, refs@.take(i as int), pv),
        decreases refs@.len() - i,
    {
        let r = &refs[i];
        assert(refs@.take(i + 1).drop_last() =~= refs@.take(i as int));
        assert(refs@.take(i + 1).last() == *r);
        let ghost before = fix_views(out@);
        if r.is_called && crate::text::contains_str(proven, r.name.as_str()) {
            match r.callee_range {
                Some(c) => {
                    out.push(FileFix { uri: uri.clone(), diag_range: r.range, edit_range: c, new_text: r.name.clone() });
                    assert(fix_views(out@) =~= before + called_fix(uri@, *r, pv));
                },
                None => {
                    assert(called_fix(uri@, *r, pv) =~= Seq::empty());
                },
            }
        } else {
            assert(called_fix(uri@, *r, pv) =~= Seq::empty());
        }
        i += 1;
    }
    assert(refs@.take(refs@.len() as int) =~= refs@);
}

pub(crate) fn unbound_params_of(record: &RouteRecord, dp: &[(String, Vec<String>)]) -> (r: Vec<String>)
    ensures
        svs(r@) == unbound_names(path_names(*record), *record, dp@),
{
    let ghost names = path_names(*record);
    let mut out: Vec<String> = Vec::new();
    let mut i: usize = 0;
    while i < record.path_params.len()
        invariant
            i <= record.path_params@.len(),
            names == path_names(*record),
            svs(out@) == unbound_names(names.take(i as int), *record, dp@),
        decreases record.path_params@.len() - i,
    {
        let n = &record.path_params[i].name;
        assert(names.take(i + 1).drop_last() =~= names.take(i as int));
        assert(names.take(i + 1).last() == n@);
        let b = bound_by(n, record.handler_params.as_slice(), record.dependencies.as_slice(), dp);
        if !b {
            let ghost before = svs(out@);
            out.push(n.clone());
            assert(svs(out@) =~= before.push(n@));
        }
        i += 1;
    }
    assert(names.take(names.len() as int) =~= names);
    out
}

pub(crate) fn is_rename_candidate_of(record: &RouteRecord, dp: &[(String, Vec<String>)], h: &String, t: &String) -> (b: bool)
    ensures
        b == rename_candidate(*record, dp@, h@, t@),
{
    let mut is_path = false;
    let mut k: usize = 0;
    while k < record.path_params.len()
        invariant
            k <= record.path_params@.len(),
            is_path == exists|j: int| 0 <= j < k && (#[trigger] record.path_params@[j]).name@ == h@,
        decreases record.path_params@.len() - k,
    {
        if record.path_params[k].name == *h {
            is_path = true;
        }
        k += 1;
    }
    proof {
        if is_path {
            let j = choose|j: int| 0 <= j < record.path_params@.len() && (#[trigger] record.path_params@[j]).name@ == h@;
            assert(path_names(*record)[j] == h@);
        }
        if path_names(*record).contains(h@) {
            let j = choose|j: int| 0 <= j < path_names(*record).len() && path_names(*record)[j] == h@;
            assert(record.path_params@[j].name@ == h@);
        }
    }
    let none: Vec<String> = Vec::new();
    let contributed = bound_by(h, none.as_slice(), record.dependencies.as_slice(), dp);
    proof {
        assert(!svs(none@).contains(h@));
    }
    !is_path && !contributed && edit_distance(h.as_str(), t.as_str()) <= 2
}

fn push_rename_fix(out: &mut Vec<FileFix>, uri: &String, record: &RouteRecord, dp: &[(String, Vec<String>)])
    ensures
        fix_views(final(out)@) == fix_views(old(out)@) + rename_fix(uri@, *record, dp@),
{
    if !record.handler_params_known || record.handler_has_splat_args || record.path_params.len() == 0
        || record.handler_param_ranges.len() != record.handler_params.len() {
        return;
    }
    let ub = unbound_params_of(record, dp);
    if ub.len() != 1 {
        return;
    }
    let t = &ub[0];
    assert(svs(ub@)[0] == t@);
    let ghost hv = svs(record.handler_params@);
    let ghost p = |h: Seq<char>| rename_candidate(*record, dp@, h, t@);
    let mut i: usize = 0;
    while i < record.handler_params.len()
        invariant
            i <= record.handler_params@.len(),
            hv == svs(record.handler_params@),
            p == (|h: Seq<char>| rename_candidate(*record, dp@, h, t@)),
            forall|j: int| 0 <= j < i ==> !p(#[trigger] hv[j]),
        ensures
            i <= record.handler_params@.len(),
            forall|j: int| 0 <= j < i ==> !p(#[trigger] hv[j]),
            i < record.handler_params@.len() ==> p(hv[i as int]),
        decreases record.handler_params@.len() - i,
    {
        if is_rename_candidate_of(record, dp, &record.handler_params[i], t) {
            break;
        }
        i += 1;
    }
    let ghost uv = unbound_names(path_names(*record), *record, dp@);
    assert(p =~= (|h: Seq<char>| rename_candidate(*record, dp@, h, uv[0])));
    if i == record.handler_params.len() {
        proof {
            lemma_first_match_none(hv, p);
        }
        return;
    }
    proof {
        lemma_first_match_step(hv, p, i as int);
    }
    let range = record.handler_param_ranges[i];
    let ghost before = fix_views(out@);
    out.push(FileFix { uri: uri.clone(), diag_range: range, edit_range: range, new_text: t.clone() });
    assert(fix_views(out@) =~= before + rename_fix(uri@, *record, dp@));
}

/// Collects every deterministic fix (see `all_fixes`): `proven` names the known
/// dependency functions, `dep_params` lists each dependency's parameters (first entry
/// per name).
pub fn collect_fixes(files: &[FixFile], route_index: &RouteIndex, proven: &[String], dep_params: &[(String, Vec<String>)]) -> (r: Vec<FileFix>)
    ensures
        fix_views(r@) == all_fixes(files@, index_records(route_index@), string_views(proven@), dep_params@),
{
    let all = all_refs(route_index);
    let ghost recs = index_records(route_index@);
    let mut out: Vec<FileFix> = Vec::new();
    let mut f: usize = 0;
    while f < files.len()
        invariant
            f <= files@.len(),
            derefs(all@) == recs,
            recs == index_records(route_index@),
            fix_views(out@) == all_fixes(files@.take(f as int), recs, string_views(proven@), dep_params@),
        decreases files@.len() - f,
    {
        let file = &files[f];
        assert(files@.take(f + 1).drop_last() =~= files@.take(f as int));
        assert(files@.take(f + 1).last() == *file);
        push_called_fixes(&mut out, &file.uri, &file.dep_refs, proven);
        let ghost base = fix_views(out@);
        let mut i: usize = 0;
        while i < all.len()
            invariant
                i <= all@.len(),
                derefs(all@) == recs,
                fix_views(out@) == base + record_fixes(recs.take(i as int), file.uri@, dep_params@),
            decreases all@.len() - i,
        {
            let rec: &RouteRecord = all[i];
            assert(recs[i as int] == *rec);
            assert(recs.take(i + 1).drop_last() =~= recs.take(i as int));
            assert(recs.take(i + 1).last() == *rec);
            let ghost before = fix_views(out@);
            let resolved = match &rec.resolved_path {
                ResolvedPath::Resolved(_) => true,
                ResolvedPath::Unresolved => false,
            };
            if rec.handler.uri == file.uri && resolved {
                push_rename_fix(&mut out, &file.uri, rec, dep_params);
            }
            i += 1;
        }
        assert(recs.take(all@.len() as int) =~= recs);
        f += 1;
    }
    assert(files@.take(files@.len() as int) =~= files@);
    out
}


/// Some diagnostic of `diags` is in file `uri` at `range`.
pub open spec fn has_diag_at(diags: Seq<(String, Diagnostic)>, uri: Seq<char>, range: Range) -> bool {
    exists|i: int| 0 <= i < diags.len() && (#[trigger] diags[i]).0@ == uri && diags[i].1.range == range
}

/// The fixes that resolve one of the reported diagnostics, in order.
pub open spec fn applicable(fixes: Seq<(Seq<char>, Range, Range, Seq<char>)>, diags: Seq<(String, Diagnostic)>) -> Seq<(Seq<char>, Range, Range, Seq<char>)>
    decreases fixes.len(),
{
    if fixes.len() == 0 {
        Seq::empty()
    } else {
        applicable(fixes.drop_last(), diags) + if has_diag_at(diags, fixes.last().0, fixes.last().1) {
            seq![fixes.last()]
        } else {
            Seq::empty()
        }
    }
}

fn diag_at(diags: &[(String, Diagnostic)], uri: &String, range: Range) -> (b: bool)
    ensures
        b == has_diag_at(diags@, uri@, range),
{
    let mut i: usize = 0;
    while i < diags.len()
        invariant
            i <= diags@.len(),
            forall|j: int| 0 <= j < i ==> !((#[trigger] diags@[j]).0@ == uri@ && diags@[j].1.range == range),
        decreases diags@.len() - i,
    {
        if diags[i].0 == *uri && diags[i].1.range == range {
            return true;
        }
        i += 1;
    }
    false
}

fn copy_fix(f: &FileFix) -> (r: FileFix)
    ensures
        fix_view(r) == fix_view(*f),
        r.new_text == f.new_text,
{
    FileFix { uri: f.uri.clone(), diag_range: f.diag_range, edit_range: f.edit_range, new_text: f.new_text.clone() }
}

/// The fixes that resolve one of the reported diagnostics (see `applicable`).
pub fn applicable_fixes(fixes: &[FileFix], diags: &[(String, Diagnostic)]) -> (r: Vec<FileFix>)
    ensures
        fix_views(r@) == applicable(fix_views(fixes@), diags@),
{
    let ghost fv = fix_views(fixes@);
    let mut out: Vec<FileFix> = Vec::new();
    let mut i: usize = 0;
    while i < fixes.len()
        invariant
            i <= fixes@.len(),
            fv == fix_views(fixes@),
            fix_views(out@) == applicable(fv.take(i as int), diags@),
        decreases fixes@.len() - i,
    {
        assert(fv.take(i + 1).drop_last() =~= fv.take(i as int));
        assert(fv.take(i + 1).last() == fix_view(fixes@[i as int]));
        if diag_at(diags, &fixes[i].uri, fixes[i].diag_range) {
            let ghost before = fix_views(out@);
            out.push(copy_fix(&fixes[i]));
            assert(fix_views(out@) =~= before.push(fix_view(fixes@[i as int])));
        }
        i += 1;
    }
    assert(fv.take(fv.len() as int) =~= fv);
    out
}

/// The diagnostics that the applied fixes resolve: file and diagnostic range of each.
pub fn applied_set(fixes: &[FileFix]) -> (r: Vec<(String, Range)>)
    ensures
        r@.len() == fixes@.len(),
        forall|i: int| 0 <= i < fixes@.len() ==> (#[trigger] r@[i]).0@ == fixes@[i].uri@ && r@[i].1 == fixes@[i].diag_range,
{
    let mut out: Vec<(String, Range)> = Vec::new();
    let mut i: usize = 0;
    while i < fixes.len()
        invariant
            i <= fixes@.len(),
            out@.len() == i,
            forall|j: int| 0 <= j < i ==> (#[trigger] out@[j]).0@ == fixes@[j].uri@ && out@[j].1 == fixes@[j].diag_range,
        decreases fixes@.len() - i,
    {
        out.push((fixes[i].uri.clone(), fixes[i].diag_range));
        i += 1;
    }
    out
}

/// The files that fixes edit, each once, in the order they first appear.
pub open spec fn fix_uris_spec(fixes: Seq<(Seq<char>, Range, Range, Seq<char>)>) -> Seq<Seq<char>>
    decreases fixes.len(),
{
    if fixes.len() == 0 {
        Seq::empty()
    } else {
        let prev = fix_uris_spec(fixes.drop_last());
        if prev.contains(fixes.last().0) {
            prev
        } else {
            prev.push(fixes.last().0)
        }
    }
}

/// The files that fixes edit (see `fix_uris_spec`).
pub fn fix_uris(fixes: &[FileFix]) -> (r: Vec<String>)
    ensures
        string_views(r@) == fix_uris_spec(fix_views(fixes@)),
{
    let ghost fv = fix_views(fixes@);
    let mut out: Vec<String> = Vec::new();
    let mut i: usize = 0;
    while i < fixes.len()
        invariant
            i <= fixes@.len(),
            fv == fix_views(fixes@),
            string_views(out@) == fix_uris_spec(fv.take(i as int)),
        decreases fixes@.len() - i,
    {
        assert(fv.take(i + 1).drop_last() =~= fv.take(i as int));
        assert(fv.take(i + 1).last() == fix_view(fixes@[i as int]));
        if !crate::text::contains_str(out.as_slice(), fixes[i].uri.as_str()) {
            let ghost before = string_views(out@);
            out.push(fixes[i].uri.clone());
            assert(string_views(out@) =~= before.push(fixes@[i as int].uri@));
        }
        i += 1;
    }
    assert(fv.take(fv.len() as int) =~= fv);
    out
}

/// The edits of the fixes in file `uri`, in order: range and replacement.
pub open spec fn edits_in(fixes: Seq<FileFix>, uri: Seq<char>) -> Seq<(Range, String)>
    decreases fixes.len(),
{
    if fixes.len() == 0 {
        Seq::empty()
    } else {
        edits_in(fixes.drop_last(), uri) + if fixes.last().uri@ == uri {
            seq![(fixes.last().edit_range, fixes.last().new_text)]
        } else {
            Seq::empty()
        }
    }
}

/// The edits that the fixes make in file `uri` (see `edits_in`).
pub fn edits_for_file(fixes: &[FileFix], uri: &str) -> (r: Vec<(Range, String)>)
    ensures
        r@ == edits_in(fixes@, uri@),
{
    let u: String = uri.to_owned();
    let mut out: Vec<(Range, String)> = Vec::new();
    let mut i: usize = 0;
    while i < fixes.len()
        invariant
            i <= fixes@.len(),
            u@ == uri@,
            out@ == edits_in(fixes@.take(i as int), uri@),
        decreases fixes@.len() - i,
    {
        assert(fixes@.take(i + 1).drop_last() =~= fixes@.take(i as int));
        assert(fixes@.take(i + 1).last() == fixes@[i as int]);
        if fixes[i].uri == u {
            let ghost before = out@;
            out.push((fixes[i].edit_range, fixes[i].new_text.clone()));
            assert(out@ =~= before.push((fixes@[i as int].edit_range, fixes@[i as int].new_text)));
        }
        i += 1;
    }
    assert(fixes@.take(fixes@.len() as int) =~= fixes@);
    out
}

/// Range `a` starts after range `b`: on a later line, or later on the same line.
pub open spec fn starts_after(a: Range, b: Range) -> bool {
    a.start.line > b.start.line || (a.start.line == b.start.line && a.start.character > b.start.character)
}

/// `s` with `e` placed after every edit that does not start before it.
pub open spec fn insert_desc(s: Seq<(Range, String)>, e: (Range, String)) -> Seq<(Range, String)>
    decreases s.len(),
{
    if s.len() == 0 || !starts_after(e.0, s.last().0) {
        s.push(e)
    } else {
        insert_desc(s.drop_last(), e).push(s.last())
    }
}

/// The edits stably sorted from the bottom of the file up, by start position (the given
/// order among equal starts).
pub open spec fn bottom_up(s: Seq<(Range, String)>) -> Seq<(Range, String)>
    decreases s.len(),
{
    if s.len() == 0 {
        s
    } else {
        insert_desc(bottom_up(s.drop_last()), s.last())
    }
}

/// One edit applied: the bytes between the offsets of its start and end are replaced
/// by the UTF-8 bytes of its text; an edit whose start lies after its end is skipped.
pub open spec fn splice(content: Seq<u8>, e: (Range, String)) -> Seq<u8> {
    let a = byte_offset(content, e.0.start);
    let b = byte_offset(content, e.0.end);
    if a > b {
        content
    } else {
        content.take(a) + encode_utf8(e.1@) + content.skip(b)
    }
}

/// The edits applied one after the other, in the given order.
pub open spec fn apply_in_order(content: Seq<u8>, edits: Seq<(Range, String)>) -> Seq<u8>
    decreases edits.len(),
{
    if edits.len() == 0 {
        content
    } else {
        apply_in_order(splice(content, edits[0]), edits.drop_first())
    }
}

fn insert_edit(v: &mut Vec<(Range, String)>, e: (Range, String))
    ensures
        final(v)@ == insert_desc(old(v)@, e),
{
    let ghost s = v@;
    let mut k = v.len();
    assert(s.take(k as int) =~= s);
    while k > 0 && (e.0.start.line > v[k - 1].0.start.line || (e.0.start.line == v[k - 1].0.start.line
        && e.0.start.character > v[k - 1].0.start.character))
        invariant
            k <= s.len(),
            v@ == s,
            insert_desc(s, e) == insert_desc(s.take(k as int), e) + s.skip(k as int),
        decreases k,
    {
        proof {
            let t = s.take(k as int);
            assert(t.drop_last() =~= s.take(k - 1));
            assert(t.last() == s[k - 1]);
            assert(s.skip(k - 1) =~= seq![s[k - 1]] + s.skip(k as int));
            assert(insert_desc(s.take(k - 1), e).push(s[k - 1]) + s.skip(k as int) =~= insert_desc(s.take(k - 1), e) + s.skip(k - 1));
        }
        k -= 1;
    }
    proof {
        let t = s.take(k as int);
        assert(insert_desc(t, e) == t.push(e));
        assert(t.push(e) + s.skip(k as int) =~= s.insert(k as int, e));
    }
    v.insert(k, e);
}

fn push_bytes(out: &mut Vec<u8>, src: &[u8], from: usize, to: usize)
    requires
        from <= to <= src@.len(),
    ensures
        final(out)@ == old(out)@ + src@.subrange(from as int, to as int),
{
    let mut k: usize = from;
    while k < to
        invariant
            from <= k <= to <= src@.len(),
            out@ == old(out)@ + src@.subrange(from as int, k as int),
        decreases to - k,
    {
        out.push(src[k]);
        k += 1;
        assert(out@ =~= old(out)@ + src@.subrange(from as int, k as int));
    }
}

/// Applies edits to file contents from the bottom of the file up, so that an edit does
/// not move the offsets of those above it (see `bottom_up`, `splice`).
pub fn apply_edits(content: &[u8], edits: &[(Range, String)]) -> (r: Vec<u8>)
    ensures
        r@ == apply_in_order(content@, bottom_up(edits@)),
{
    let mut sorted: Vec<(Range, String)> = Vec::new();
    let mut i: usize = 0;
    while i < edits.len()
        invariant
            i <= edits@.len(),
            sorted@ == bottom_up(edits@.take(i as int)),
        decreases edits@.len() - i,
    {
        assert(edits@.take(i + 1).drop_last() =~= edits@.take(i as int));
        assert(edits@.take(i + 1).last() == edits@[i as int]);
        let e = (edits[i].0, edits[i].1.clone());
        assert(e == edits@[i as int]);
        insert_edit(&mut sorted, e);
        i += 1;
    }
    assert(edits@.take(edits@.len() as int) =~= edits@);
    let ghost order = sorted@;
    let mut cur: Vec<u8> = Vec::new();
    push_bytes(&mut cur, content, 0, content.len());
    assert(content@.subrange(0, content@.len() as int) =~= content@);
    assert(cur@ =~= content@);
    assert(order.skip(0) =~= order);
    let mut j: usize = 0;
    while j < sorted.len()
        invariant
            j <= sorted@.len(),
            sorted@ == order,
            apply_in_order(content@, order) == apply_in_order(cur@, order.skip(j as int)),
        decreases sorted@.len() - j,
    {
        let e = &sorted[j];
        assert(order.skip(j as int).drop_first() =~= order.skip(j + 1));
        assert(order.skip(j as int)[0] == *e);
        let a = position_to_offset(cur.as_slice(), e.0.start);
        let b = position_to_offset(cur.as_slice(), e.0.end);
        if a <= b {
            let mut next: Vec<u8> = Vec::new();
            push_bytes(&mut next, cur.as_slice(), 0, a);
            let bytes = e.1.as_str().as_bytes();
            push_bytes(&mut next, bytes, 0, bytes.len());
            push_bytes(&mut next, cur.as_slice(), b, cur.len());
            proof {
                assert(bytes@.subrange(0, bytes@.len() as int) =~= bytes@);
                assert(cur@.subrange(0, a as int) =~= cur@.take(a as int));
                assert(cur@.subrange(b as int, cur@.len() as int) =~= cur@.skip(b as int));
                assert(next@ =~= splice(cur@, *e));
            }
            cur = next;
        } else {
            assert(splice(cur@, *e) == cur@);
        }
        j += 1;
    }
    assert(order.skip(order.len() as int) =~= Seq::<(Range, String)>::empty());
    cur
}

/// Edits are in bottom-up order: none starts after an edit placed before it.
pub open spec fn sorted_bottom_up(s: Seq<(Range, String)>) -> bool {
    forall|i: int, j: int| 0 <= i < j < s.len() ==> !starts_after(#[trigger] s[j].0, #[trigger] s[i].0)
}

proof fn lemma_insert_desc(s: Seq<(Range, String)>, e: (Range, String))
    requires
        sorted_bottom_up(s),
    ensures
        sorted_bottom_up(insert_desc(s, e)),
        insert_desc(s, e).len() == s.len() + 1,
        forall|k: int| 0 <= k < insert_desc(s, e).len() ==> #[trigger] insert_desc(s, e)[k] == e || s.contains(insert_desc(s, e)[k]),
        insert_desc(s, e).contains(e),
        forall|x: (Range, String)| s.contains(x) ==> #[trigger] insert_desc(s, e).contains(x),
    decreases s.len(),
{
    let r = insert_desc(s, e);
    if s.len() == 0 || !starts_after(e.0, s.last().0) {
        assert(r == s.push(e));
        assert(r[r.len() - 1] == e);
        assert forall|x: (Range, String)| s.contains(x) implies r.contains(x) by {
            let j = choose|j: int| 0 <= j < s.len() && s[j] == x;
            assert(r[j] == x);
        }
        assert forall|i: int, j: int| 0 <= i < j < r.len() implies !starts_after(#[trigger] r[j].0, #[trigger] r[i].0) by {
            if j == r.len() - 1 && s.len() > 0 {
                assert(r[i] == s[i]);
                if i < s.len() - 1 {
                    assert(!starts_after(s[s.len() - 1].0, s[i].0));
                }
            }
        }
        assert forall|k: int| 0 <= k < r.len() implies #[trigger] r[k] == e || s.contains(r[k]) by {
            if k < s.len() {
                assert(s[k] == r[k]);
            }
        }
    } else {
        let d = s.drop_last();
        assert(sorted_bottom_up(d)) by {
            assert forall|i: int, j: int| 0 <= i < j < d.len() implies !starts_after(#[trigger] d[j].0, #[trigger] d[i].0) by {
                assert(d[i] == s[i] && d[j] == s[j]);
            }
        }
        lemma_insert_desc(d, e);
        let t = insert_desc(d, e);
        assert(r == t.push(s.last()));
        assert forall|i: int, j: int| 0 <= i < j < r.len() implies !starts_after(#[trigger] r[j].0, #[trigger] r[i].0) by {
            if j == r.len() - 1 {
                assert(r[j] == s.last());
                assert(r[i] == t[i]);
                if t[i] != e {
                    assert(d.contains(t[i]));
                    let m = choose|m: int| 0 <= m < d.len() && d[m] == t[i];
                    assert(s[m] == t[i]);
                    assert(!starts_after(s[s.len() - 1].0, s[m].0));
                }
            } else {
                assert(r[i] == t[i] && r[j] == t[j]);
            }
        }
        assert forall|k: int| 0 <= k < r.len() implies #[trigger] r[k] == e || s.contains(r[k]) by {
            if k < t.len() {
                assert(r[k] == t[k]);
                if t[k] != e {
                    let m = choose|m: int| 0 <= m < d.len() && d[m] == t[k];
                    assert(s[m] == t[k]);
                }
            } else {
                assert(s[s.len() - 1] == r[k]);
            }
        }
        assert(t.contains(e));
        let ke = choose|k: int| 0 <= k < t.len() && t[k] == e;
        assert(r[ke] == e);
        assert forall|x: (Range, String)| s.contains(x) implies r.contains(x) by {
            let j = choose|j: int| 0 <= j < s.len() && s[j] == x;
            if j == s.len() - 1 {
                assert(r[r.len() - 1] == x);
            } else {
                assert(d[j] == x);
                assert(t.contains(x));
                let k = choose|k: int| 0 <= k < t.len() && t[k] == x;
                assert(r[k] == x);
            }
        }
    }
}

/// Law: the bottom-up order that edits are applied in is sorted from the bottom of the
/// file up, and it keeps every edit: it has as many edits as were given, each given edit
/// occurs in it, and it holds no other edit.
pub proof fn bottom_up_is_sorted_rearrangement(s: Seq<(Range, String)>)
    ensures
        sorted_bottom_up(bottom_up(s)),
        bottom_up(s).len() == s.len(),
        forall|x: (Range, String)| s.contains(x) ==> #[trigger] bottom_up(s).contains(x),
        forall|x: (Range, String)| bottom_up(s).contains(x) ==> #[trigger] s.contains(x),
    decreases s.len(),
{
    if s.len() > 0 {
        let d = s.drop_last();
        bottom_up_is_sorted_rearrangement(d);
        lemma_insert_desc(bottom_up(d), s.last());
        let r = bottom_up(s);
        assert forall|x: (Range, String)| s.contains(x) implies #[trigger] r.contains(x) by {
            let j = choose|j: int| 0 <= j < s.len() && s[j] == x;
            if j < s.len() - 1 {
                assert(d[j] == x);
                assert(d.contains(x));
            }
        }
        assert forall|x: (Range, String)| r.contains(x) implies #[trigger] s.contains(x) by {
            let k = choose|k: int| 0 <= k < r.len() && r[k] == x;
            if x == s.last() {
                assert(s[s.len() - 1] == x);
            } else {
                assert(bottom_up(d).contains(x));
                assert(d.contains(x));
                let m = choose|m: int| 0 <= m < d.len() && d[m] == x;
                assert(s[m] == x);
            }
        }
    }
}

/// Law: applying no edits leaves the contents as they were.
pub proof fn no_edits_change_nothing(content: Seq<u8>)
    ensures
        apply_in_order(content, bottom_up(Seq::<(Range, String)>::empty())) == content,
{
}

/// The edits start at pairwise different positions.
pub open spec fn distinct_starts(s: Seq<(Range, String)>) -> bool {
    forall|i: int, j: int| 0 <= i < j < s.len() ==> (#[trigger] s[i]).0.start != (#[trigger] s[j]).0.start
}

/// Each edit starts after every edit placed after it.
pub open spec fn strictly_bottom_up(s: Seq<(Range, String)>) -> bool {
    forall|i: int, j: int| 0 <= i < j < s.len() ==> starts_after((#[trigger] s[i]).0, (#[trigger] s[j]).0)
}

proof fn lemma_insert_strict(d: Seq<(Range, String)>, x: (Range, String))
    requires
        strictly_bottom_up(d),
        forall|k: int| 0 <= k < d.len() ==> (#[trigger] d[k]).0.start != x.0.start,
    ensures
        strictly_bottom_up(insert_desc(d, x)),
    decreases d.len(),
{
    let r = insert_desc(d, x);
    if d.len() == 0 || !starts_after(x.0, d.last().0) {
        assert(r == d.push(x));
        assert forall|i: int, j: int| 0 <= i < j < r.len() implies starts_after((#[trigger] r[i]).0, (#[trigger] r[j]).0) by {
            assert(r[i] == d[i]);
            if j == r.len() - 1 {
                assert(d[i].0.start != x.0.start);
                if i < d.len() - 1 {
                    assert(starts_after(d[i].0, d[d.len() - 1].0));
                }
                assert(d[d.len() - 1].0.start != x.0.start);
            } else {
                assert(r[j] == d[j]);
            }
        }
    } else {
        let dd = d.drop_last();
        assert(strictly_bottom_up(dd)) by {
            assert forall|i: int, j: int| 0 <= i < j < dd.len() implies starts_after((#[trigger] dd[i]).0, (#[trigger] dd[j]).0) by {
                assert(dd[i] == d[i] && dd[j] == d[j]);
            }
        }
        assert forall|k: int| 0 <= k < dd.len() implies (#[trigger] dd[k]).0.start != x.0.start by {
            assert(dd[k] == d[k]);
        }
        lemma_insert_strict(dd, x);
        assert(sorted_bottom_up(dd)) by {
            assert forall|i: int, j: int| 0 <= i < j < dd.len() implies !starts_after(#[trigger] dd[j].0, #[trigger] dd[i].0) by {
                assert(starts_after(dd[i].0, dd[j].0));
            }
        }
        lemma_insert_desc(dd, x);
        let t = insert_desc(dd, x);
        assert(r == t.push(d.last()));
        assert forall|i: int, j: int| 0 <= i < j < r.len() implies starts_after((#[trigger] r[i]).0, (#[trigger] r[j]).0) by {
            if j == r.len() - 1 {
                assert(r[i] == t[i]);
                if t[i] != x {
                    assert(dd.contains(t[i]));
                    let m = choose|m: int| 0 <= m < dd.len() && dd[m] == t[i];
                    assert(d[m] == t[i]);
                    assert(starts_after(d[m].0, d[d.len() - 1].0));
                }
            } else {
                assert(r[i] == t[i] && r[j] == t[j]);
            }
        }
    }
}

proof fn lemma_bottom_up_strict(s: Seq<(Range, String)>)
    requires
        distinct_starts(s),
    ensures
        strictly_bottom_up(bottom_up(s)),
    decreases s.len(),
{
    if s.len() > 0 {
        let d = s.drop_last();
        assert(distinct_starts(d)) by {
            assert forall|i: int, j: int| 0 <= i < j < d.len() implies (#[trigger] d[i]).0.start != (#[trigger] d[j]).0.start by {
                assert(d[i] == s[i] && d[j] == s[j]);
            }
        }
        lemma_bottom_up_strict(d);
        bottom_up_is_sorted_rearrangement(d);
        let b = bottom_up(d);
        assert forall|k: int| 0 <= k < b.len() implies (#[trigger] b[k]).0.start != s.last().0.start by {
            assert(b.contains(b[k]));
            assert(d.contains(b[k]));
            let m = choose|m: int| 0 <= m < d.len() && d[m] == b[k];
            assert(s[m] == b[k]);
            assert(s[m].0.start != s[s.len() - 1].0.start);
        }
        lemma_insert_strict(b, s.last());
    }
}

proof fn lemma_strict_unique(a: Seq<(Range, String)>, b: Seq<(Range, String)>)
    requires
        strictly_bottom_up(a),
        strictly_bottom_up(b),
        forall|x: (Range, String)| #![trigger a.contains(x)] #![trigger b.contains(x)] a.contains(x) <==> b.contains(x),
    ensures
        a == b,
    decreases a.len(),
{
    if a.len() == 0 {
        if b.len() > 0 {
            assert(b.contains(b[0]));
            assert(a.contains(b[0]));
        }
        assert(a =~= b);
    } else {
        assert(a.contains(a[0]));
        assert(b.len() > 0);
        assert(b.contains(b[0]));
        assert(a.contains(b[0]));
        assert(b.contains(a[0]));
        if a[0] != b[0] {
            let k = choose|k: int| 0 <= k < a.len() && a[k] == b[0];
            let m = choose|m: int| 0 <= m < b.len() && b[m] == a[0];
            assert(k > 0 && m > 0);
            assert(starts_after(a[0].0, a[k].0));
            assert(starts_after(b[0].0, b[m].0));
        }
        let (a2, b2) = (a.drop_first(), b.drop_first());
        assert(strictly_bottom_up(a2)) by {
            assert forall|i: int, j: int| 0 <= i < j < a2.len() implies starts_after((#[trigger] a2[i]).0, (#[trigger] a2[j]).0) by {
                assert(a2[i] == a[i + 1] && a2[j] == a[j + 1]);
            }
        }
        assert(strictly_bottom_up(b2)) by {
            assert forall|i: int, j: int| 0 <= i < j < b2.len() implies starts_after((#[trigger] b2[i]).0, (#[trigger] b2[j]).0) by {
                assert(b2[i] == b[i + 1] && b2[j] == b[j + 1]);
            }
        }
        assert forall|x: (Range, String)| #![trigger a2.contains(x)] #![trigger b2.contains(x)] a2.contains(x) <==> b2.contains(x) by {
            if a2.contains(x) {
                let k = choose|k: int| 0 <= k < a2.len() && a2[k] == x;
                assert(a[k + 1] == x);
                assert(starts_after(a[0].0, a[k + 1].0));
                assert(b.contains(x));
                let m = choose|m: int| 0 <= m < b.len() && b[m] == x;
                assert(m != 0);
                assert(b2[m - 1] == x);
            }
            if b2.contains(x) {
                let k = choose|k: int| 0 <= k < b2.len() && b2[k] == x;
                assert(b[k + 1] == x);
                assert(starts_after(b[0].0, b[k + 1].0));
                assert(a.contains(x));
                let m = choose|m: int| 0 <= m < a.len() && a[m] == x;
                assert(m != 0);
                assert(a2[m - 1] == x);
            }
        }
        lemma_strict_unique(a2, b2);
        assert(a =~= seq![a[0]] + a2);
        assert(b =~= seq![b[0]] + b2);
    }
}

/// Law: the order in which edits are given does not matter when they start at different
/// positions: any two lists of the same edits write the same contents.
pub proof fn edit_order_does_not_matter(content: Seq<u8>, s1: Seq<(Range, String)>, s2: Seq<(Range, String)>)
    requires
        distinct_starts(s1),
        distinct_starts(s2),
        forall|x: (Range, String)| #![trigger s1.contains(x)] #![trigger s2.contains(x)] s1.contains(x) <==> s2.contains(x),
    ensures
        apply_in_order(content, bottom_up(s1)) == apply_in_order(content, bottom_up(s2)),
{
    lemma_bottom_up_strict(s1);
    lemma_bottom_up_strict(s2);
    bottom_up_is_sorted_rearrangement(s1);
    bottom_up_is_sorted_rearrangement(s2);
    assert forall|x: (Range, String)| #![trigger bottom_up(s1).contains(x)] #![trigger bottom_up(s2).contains(x)] bottom_up(s1).contains(x) <==> bottom_up(s2).contains(x) by {
        if bottom_up(s1).contains(x) {
            assert(s1.contains(x));
            assert(s2.contains(x));
        }
        if bottom_up(s2).contains(x) {
            assert(s2.contains(x));
            assert(s1.contains(x));
        }
    }
    lemma_strict_unique(bottom_up(s1), bottom_up(s2));
}

} // verus!
