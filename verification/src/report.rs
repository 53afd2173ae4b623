//! Diagnostics as the `check` command reports them: severities, codes, the filter given
//! by `--only` / `--ignore`, the text lines, and the summary line.
use vstd::prelude::*;
use crate::position::{Range, Location};
use crate::text::{str_chars, push_all, string_from_chars, is_prefix};
use crate::joining::{decimal, push_decimal};

verus! {

broadcast use vstd::string::group_string_axioms;

/// How serious a diagnostic is.
#[derive(Debug, Clone, Copy, PartialEq, Eq, Structural)]
pub enum Severity {
    Error,
    Warning,
    Information,
    Hint,
}

/// A diagnostic code: a number or a string.
#[derive(Debug, Clone, PartialEq, Eq)]
pub enum Code {
    Number(i32),
    Text(String),
}

/// A tag that clients render specially.
#[derive(Debug, Clone, Copy, PartialEq, Eq, Structural)]
pub enum Tag {
    Unnecessary,
    Deprecated,
}

/// Additional location attached to a diagnostic.
#[derive(Debug, Clone)]
pub struct RelatedInfo {
    pub location: Location,
    pub message: String,
}

/// A diagnostic reported for a range of a document.
#[derive(Debug, Clone)]
pub struct Diagnostic {
    pub range: Range,
    pub severity: Option<Severity>,
    pub code: Option<Code>,
    pub source: Option<String>,
    pub message: String,
    pub related: Vec<RelatedInfo>,
    pub tags: Vec<Tag>,
}

/// The severity's name in reports.
pub open spec fn severity_name(sev: Option<Severity>) -> Seq<char> {
    match sev {
        Some(Severity::Error) => "error"@,
        Some(Severity::Warning) => "warning"@,
        Some(Severity::Information) => "info"@,
        Some(Severity::Hint) => "hint"@,
        None => "note"@,
    }
}

/// The name of a severity as reports print it.
pub fn severity_str(sev: Option<Severity>) -> (r: &'static str)
    ensures
        r@ == severity_name(sev),
{
    match sev {
        Some(Severity::Error) => "error",
        Some(Severity::Warning) => "warning",
        Some(Severity::Information) => "info",
        Some(Severity::Hint) => "hint",
        None => "note",
    }
}

/// The text of a code: the string of a string code, empty otherwise.
pub open spec fn code_text(code: Option<Code>) -> Seq<char> {
    match code {
        Some(Code::Text(s)) => s@,
        _ => Seq::empty(),
    }
}

/// The text of a diagnostic code (empty for numeric or missing codes).
pub fn code_str(code: &Option<Code>) -> (r: &str)
    ensures
        r@ == code_text(*code),
{
    match code {
        Some(Code::Text(s)) => s.as_str(),
        _ => {
            proof {
                reveal_strlit("");
            }
            ""
        },
    }
}

/// A diagnostic that makes `check` fail: an error or a warning.
pub open spec fn is_finding(d: Diagnostic) -> bool {
    d.severity == Some(Severity::Error) || d.severity == Some(Severity::Warning)
}

/// Whether any reported diagnostic is an error or a warning.
pub fn has_findings(diags: &[(String, Diagnostic)]) -> (r: bool)
    ensures
        r == exists|i: int| 0 <= i < diags@.len() && is_finding(#[trigger] diags@[i].1),
{
    let mut i: usize = 0;
    while i < diags.len()
        invariant
            i <= diags@.len(),
            forall|j: int| 0 <= j < i ==> !is_finding(#[trigger] diags@[j].1),
        decreases diags@.len() - i,
    {
        let s = diags[i].1.severity;
        if s == Some(Severity::Error) || s == Some(Severity::Warning) {
            return true;
        }
        i += 1;
    }
    false
}

/// Whether `--only` / `--ignore` keep a diagnostic with this code text: `--only`, when
/// given, must list it, and `--ignore` must not.
pub open spec fn code_kept(code: Seq<char>, only: Seq<Seq<char>>, ignore: Seq<Seq<char>>) -> bool {
    (only.len() == 0 || only.contains(code)) && !ignore.contains(code)
}

fn list_contains(l: &[String], s: &str) -> (r: bool)
    ensures
        r == l@.map_values(|x: String| x@).contains(s@),
{
    let k: String = s.to_owned();
    let mut i: usize = 0;
    while i < l.len()
        invariant
            i <= l@.len(),
            k@ == s@,
            forall|j: int| 0 <= j < i ==> (#[trigger] l@[j])@ != s@,
        decreases l@.len() - i,
    {
        if l[i] == k {
            assert(l@.map_values(|x: String| x@)[i as int] == s@);
            return true;
        }
        i += 1;
    }
    proof {
        let lv = l@.map_values(|x: String| x@);
        if lv.contains(s@) {
            let j = choose|j: int| 0 <= j < lv.len() && #[trigger] lv[j] == s@;
            assert(l@[j]@ == s@);
        }
    }
    false
}

/// Whether `--only` (`only`) and `--ignore` (`ignore`) keep a diagnostic whose code text
/// is `code` (see `code_kept`).
pub fn keep_code(code: &str, only: &[String], ignore: &[String]) -> (r: bool)
    ensures
        r == code_kept(code@, only@.map_values(|x: String| x@), ignore@.map_values(|x: String| x@)),
{
    (only.len() == 0 || list_contains(only, code)) && !list_contains(ignore, code)
}


/// Number of diagnostics with severity `sev`.
pub open spec fn count_sev(ds: Seq<(String, Diagnostic)>, sev: Severity) -> nat
    decreases ds.len(),
{
    if ds.len() == 0 {
        0
    } else {
        count_sev(ds.drop_last(), sev) + if ds.last().1.severity == Some(sev) {
            1nat
        } else {
            0nat
        }
    }
}

/// `s` when `n` is not 1.
pub open spec fn plural(n: nat, s: Seq<char>) -> Seq<char> {
    if n == 1 {
        Seq::empty()
    } else {
        s
    }
}

/// The summary line of a text report: no findings, the numbers of errors and warnings,
/// or (with neither) the number of other diagnostics.
pub open spec fn summary_spec(ds: Seq<(String, Diagnostic)>) -> Seq<char> {
    let e = count_sev(ds, Severity::Error);
    let w = count_sev(ds, Severity::Warning);
    let n = ds.len();
    if e == 0 && w == 0 && n == 0 {
        "All checks passed."@
    } else if e > 0 && w > 0 {
        "Found "@ + decimal(e) + " error"@ + plural(e, "s"@) + " and "@ + decimal(w) + " warning"@ + plural(
            w,
            "s"@,
        ) + "."@
    } else if e > 0 {
        "Found "@ + decimal(e) + " error"@ + plural(e, "s"@) + "."@
    } else if w > 0 {
        "Found "@ + decimal(w) + " warning"@ + plural(w, "s"@) + "."@
    } else {
        "Found "@ + decimal(n) + " notice"@ + plural(n, "s"@) + "."@
    }
}

fn push_str(out: &mut Vec<char>, s: &str)
    ensures
        final(out)@ == old(out)@ + s@,
{
    let cs = str_chars(s);
    push_all(out, cs.as_slice());
}

fn push_plural(out: &mut Vec<char>, n: usize, s: &str)
    ensures
        final(out)@ == old(out)@ + plural(n as nat, s@),
{
    if n != 1 {
        push_str(out, s);
    } else {
        assert(out@ + Seq::<char>::empty() =~= out@);
    }
}

proof fn lemma_count_sev_bound(ds: Seq<(String, Diagnostic)>, sev: Severity)
    ensures
        count_sev(ds, sev) <= ds.len(),
    decreases ds.len(),
{
    if ds.len() > 0 {
        lemma_count_sev_bound(ds.drop_last(), sev);
    }
}

fn count_severity(diags: &[(String, Diagnostic)], sev: Severity) -> (n: usize)
    ensures
        n == count_sev(diags@, sev),
{
    let mut n: usize = 0;
    let mut i: usize = 0;
    while i < diags.len()
        invariant
            i <= diags@.len(),
            n == count_sev(diags@.take(i as int), sev),
        decreases diags@.len() - i,
    {
        assert(diags@.take(i + 1).drop_last() =~= diags@.take(i as int));
        proof {
            lemma_count_sev_bound(diags@.take(i as int), sev);
        }
        if diags[i].1.severity == Some(sev) {
            n += 1;
        }
        i += 1;
    }
    assert(diags@.take(diags@.len() as int) =~= diags@);
    n
}

/// The summary line of a text report (see `summary_spec`).
pub fn summary_line(diags: &[(String, Diagnostic)]) -> (r: String)
    ensures
        r@ == summary_spec(diags@),
{
    let e = count_severity(diags, Severity::Error);
    let w = count_severity(diags, Severity::Warning);
    let n = diags.len();
    let mut out: Vec<char> = Vec::new();
    if e == 0 && w == 0 && n == 0 {
        push_str(&mut out, "All checks passed.");
    } else if e > 0 && w > 0 {
        push_str(&mut out, "Found ");
        push_decimal(&mut out, e);
        push_str(&mut out, " error");
        push_plural(&mut out, e, "s");
        push_str(&mut out, " and ");
        push_decimal(&mut out, w);
        push_str(&mut out, " warning");
        push_plural(&mut out, w, "s");
        push_str(&mut out, ".");
    } else if e > 0 {
        push_str(&mut out, "Found ");
        push_decimal(&mut out, e);
        push_str(&mut out, " error");
        push_plural(&mut out, e, "s");
        push_str(&mut out, ".");
    } else if w > 0 {
        push_str(&mut out, "Found ");
        push_decimal(&mut out, w);
        push_str(&mut out, " warning");
        push_plural(&mut out, w, "s");
        push_str(&mut out, ".");
    } else {
        push_str(&mut out, "Found ");
        push_decimal(&mut out, n);
        push_str(&mut out, " notice");
        push_plural(&mut out, n, "s");
        push_str(&mut out, ".");
    }
    assert(out@ =~= summary_spec(diags@));
    string_from_chars(out.as_slice())
}

/// `<path>:<line>:<column>: <code> <message>` with one-based line and column.
pub open spec fn diag_line_spec(path: Seq<char>, d: Diagnostic) -> Seq<char> {
    path + ":"@ + decimal((d.range.start.line + 1) as nat) + ":"@ + decimal((d.range.start.character + 1) as nat) + ": "@
        + code_text(d.code) + " "@ + d.message@
}

/// The text report line of a diagnostic in the file displayed as `path`.
pub fn diag_line(path: &str, d: &Diagnostic) -> (r: String)
    requires
        d.range.start.line < u32::MAX,
        d.range.start.character < u32::MAX,
    ensures
        r@ == diag_line_spec(path@, *d),
{
    let mut out: Vec<char> = Vec::new();
    push_str(&mut out, path);
    push_str(&mut out, ":");
    push_decimal(&mut out, (d.range.start.line + 1) as usize);
    push_str(&mut out, ":");
    push_decimal(&mut out, (d.range.start.character + 1) as usize);
    push_str(&mut out, ": ");
    push_str(&mut out, code_str(&d.code));
    push_str(&mut out, " ");
    push_str(&mut out, d.message.as_str());
    assert(out@ =~= diag_line_spec(path@, *d));
    string_from_chars(out.as_slice())
}

/// `  --> <path>:<line>:<column>` for a related location, one-based.
pub open spec fn related_line_spec(path: Seq<char>, loc: Location) -> Seq<char> {
    "  --> "@ + path + ":"@ + decimal((loc.range.start.line + 1) as nat) + ":"@ + decimal((loc.range.start.character + 1) as nat)
}

/// The text report line of a related location in the file displayed as `path`.
pub fn related_line(path: &str, loc: &Location) -> (r: String)
    requires
        loc.range.start.line < u32::MAX,
        loc.range.start.character < u32::MAX,
    ensures
        r@ == related_line_spec(path@, *loc),
{
    let mut out: Vec<char> = Vec::new();
    push_str(&mut out, "  --> ");
    push_str(&mut out, path);
    push_str(&mut out, ":");
    push_decimal(&mut out, (loc.range.start.line + 1) as usize);
    push_str(&mut out, ":");
    push_decimal(&mut out, (loc.range.start.character + 1) as usize);
    assert(out@ =~= related_line_spec(path@, *loc));
    string_from_chars(out.as_slice())
}

/// How a file URI is displayed: without `file://`, and relative to the working directory
/// `cwd` when it lies below it.
pub open spec fn display_path_spec(uri: Seq<char>, cwd: Option<Seq<char>>) -> Seq<char> {
    let abs = if is_prefix("file://"@, uri) {
        uri.skip(7)
    } else {
        uri
    };
    match cwd {
        Some(c) => if is_prefix(c + "/"@, abs) {
            abs.skip(c.len() + 1int)
        } else {
            abs
        },
        None => abs,
    }
}

/// Displays a file URI (see `display_path_spec`); `cwd` is the working directory when it
/// is known.
pub fn display_path(uri: &str, cwd: Option<&str>) -> (r: String)
    ensures
        r@ == display_path_spec(uri@, match cwd {
            Some(c) => Some(c@),
            None => None,
        }),
{
    let u = str_chars(uri);
    let scheme = str_chars("file://");
    proof {
        reveal_strlit("file://");
    }
    let abs: Vec<char> = if crate::text::starts_with(&u, &scheme) {
        crate::text::slice_chars(&u, 7, u.len())
    } else {
        crate::text::slice_chars(&u, 0, u.len())
    };
    assert(abs@ == (if is_prefix("file://"@, uri@) { uri@.skip(7) } else { uri@ }));
    match cwd {
        Some(c) => {
            let mut prefix = str_chars(c);
            prefix.push('/');
            proof {
                reveal_strlit("/");
            }
            assert(prefix@ =~= c@ + "/"@);
            if crate::text::starts_with(&abs, &prefix) {
                let rel = crate::text::slice_chars(&abs, prefix.len(), abs.len());
                string_from_chars(&rel)
            } else {
                string_from_chars(&abs)
            }
        },
        None => string_from_chars(&abs),
    }
}


/// A fix was applied for the diagnostic at `range` in file `uri`.
pub open spec fn is_applied(applied: Seq<(String, Range)>, uri: Seq<char>, range: Range) -> bool {
    exists|k: int| 0 <= k < applied.len() && (#[trigger] applied[k]).0@ == uri && applied[k].1 == range
}

fn applied_contains(applied: &[(String, Range)], uri: &String, range: Range) -> (r: bool)
    ensures
        r == is_applied(applied@, uri@, range),
{
    let mut k: usize = 0;
    while k < applied.len()
        invariant
            k <= applied@.len(),
            forall|j: int| 0 <= j < k ==> !((#[trigger] applied@[j]).0@ == uri@ && applied@[j].1 == range),
        decreases applied@.len() - k,
    {
        if applied[k].0 == *uri && applied[k].1 == range {
            return true;
        }
        k += 1;
    }
    false
}

/// Number of diagnostics for which a fix was applied.
pub open spec fn count_fixed(ds: Seq<(String, Diagnostic)>, applied: Seq<(String, Range)>) -> nat
    decreases ds.len(),
{
    if ds.len() == 0 {
        0
    } else {
        count_fixed(ds.drop_last(), applied) + if is_applied(applied, ds.last().0@, ds.last().1.range) {
            1nat
        } else {
            0nat
        }
    }
}

/// An applied fix is for some diagnostic of severity `sev`.
pub open spec fn fixes_severity(ds: Seq<(String, Diagnostic)>, a: (String, Range), sev: Severity) -> bool {
    exists|i: int|
        0 <= i < ds.len() && (#[trigger] ds[i]).0@ == a.0@ && ds[i].1.range == a.1 && ds[i].1.severity == Some(sev)
}

/// Number of applied fixes that are for diagnostics of severity `sev`.
pub open spec fn count_applied_sev(ds: Seq<(String, Diagnostic)>, applied: Seq<(String, Range)>, sev: Severity) -> nat
    decreases applied.len(),
{
    if applied.len() == 0 {
        0
    } else {
        count_applied_sev(ds, applied.drop_last(), sev) + if fixes_severity(ds, applied.last(), sev) {
            1nat
        } else {
            0nat
        }
    }
}

/// `a - b`, or 0 when `b` is larger.
pub open spec fn sat_sub(a: nat, b: nat) -> nat {
    if a >= b {
        (a - b) as nat
    } else {
        0
    }
}

/// The summary line of a text report after `--fix`: the number of fixes applied and the
/// errors and warnings that remain once the fixed ones are taken out.
pub open spec fn fixed_summary_spec(ds: Seq<(String, Diagnostic)>, applied: Seq<(String, Range)>) -> Seq<char> {
    let f = count_fixed(ds, applied);
    let ue = sat_sub(count_sev(ds, Severity::Error), count_applied_sev(ds, applied, Severity::Error));
    let uw = sat_sub(count_sev(ds, Severity::Warning), count_applied_sev(ds, applied, Severity::Warning));
    let applied_part = "Applied "@ + decimal(f) + " fix"@ + plural(f, "es"@) + "."@;
    if f == 0 && ue == 0 && uw == 0 {
        "All checks passed."@
    } else if f > 0 && ue == 0 && uw == 0 {
        applied_part + " All checks passed."@
    } else {
        crate::text::join_with(
            (if f > 0 { seq![applied_part] } else { Seq::empty() }) + (if ue > 0 {
                seq![decimal(ue) + " error"@ + plural(ue, "s"@) + " remain"@ + (if ue == 1 { "s"@ } else { Seq::empty() }) + "."@]
            } else {
                Seq::empty()
            }) + (if uw > 0 {
                seq![decimal(uw) + " warning"@ + plural(uw, "s"@) + " remain"@ + (if uw == 1 { "s"@ } else { Seq::empty() }) + "."@]
            } else {
                Seq::empty()
            }),
            " "@,
        )
    }
}

proof fn lemma_count_fixed_bound(ds: Seq<(String, Diagnostic)>, applied: Seq<(String, Range)>)
    ensures
        count_fixed(ds, applied) <= ds.len(),
    decreases ds.len(),
{
    if ds.len() > 0 {
        lemma_count_fixed_bound(ds.drop_last(), applied);
    }
}

proof fn lemma_count_applied_bound(ds: Seq<(String, Diagnostic)>, applied: Seq<(String, Range)>, sev: Severity)
    ensures
        count_applied_sev(ds, applied, sev) <= applied.len(),
    decreases applied.len(),
{
    if applied.len() > 0 {
        lemma_count_applied_bound(ds, applied.drop_last(), sev);
    }
}

fn count_fixed_diags(diags: &[(String, Diagnostic)], applied: &[(String, Range)]) -> (n: usize)
    ensures
        n == count_fixed(diags@, applied@),
{
    let mut n: usize = 0;
    let mut i: usize = 0;
    while i < diags.len()
        invariant
            i <= diags@.len(),
            n == count_fixed(diags@.take(i as int), applied@),
        decreases diags@.len() - i,
    {
        assert(diags@.take(i + 1).drop_last() =~= diags@.take(i as int));
        proof {
            lemma_count_fixed_bound(diags@.take(i as int), applied@);
        }
        if applied_contains(applied, &diags[i].0, diags[i].1.range) {
            n += 1;
        }
        i += 1;
    }
    assert(diags@.take(diags@.len() as int) =~= diags@);
    n
}

fn applied_for_severity(diags: &[(String, Diagnostic)], a: &(String, Range), sev: Severity) -> (r: bool)
    ensures
        r == fixes_severity(diags@, *a, sev),
{
    let mut i: usize = 0;
    while i < diags.len()
        invariant
            i <= diags@.len(),
            forall|j: int|
                0 <= j < i ==> !((#[trigger] diags@[j]).0@ == a.0@ && diags@[j].1.range == a.1 && diags@[j].1.severity
                    == Some(sev)),
        decreases diags@.len() - i,
    {
        if diags[i].0 == a.0 && diags[i].1.range == a.1 && diags[i].1.severity == Some(sev) {
            return true;
        }
        i += 1;
    }
    false
}

fn count_applied_severity(diags: &[(String, Diagnostic)], applied: &[(String, Range)], sev: Severity) -> (n: usize)
    ensures
        n == count_applied_sev(diags@, applied@, sev),
{
    let mut n: usize = 0;
    let mut k: usize = 0;
    while k < applied.len()
        invariant
            k <= applied@.len(),
            n == count_applied_sev(diags@, applied@.take(k as int), sev),
        decreases applied@.len() - k,
    {
        assert(applied@.take(k + 1).drop_last() =~= applied@.take(k as int));
        proof {
            lemma_count_applied_bound(diags@, applied@.take(k as int), sev);
        }
        if applied_for_severity(diags, &applied[k], sev) {
            n += 1;
        }
        k += 1;
    }
    assert(applied@.take(applied@.len() as int) =~= applied@);
    n
}

fn remain_part(n: usize, noun: &str) -> (r: Vec<char>)
    ensures
        r@ == decimal(n as nat) + noun@ + plural(n as nat, "s"@) + " remain"@ + (if n == 1 { "s"@ } else { Seq::empty() })
            + "."@,
{
    let mut out: Vec<char> = Vec::new();
    push_decimal(&mut out, n);
    push_str(&mut out, noun);
    push_plural(&mut out, n, "s");
    push_str(&mut out, " remain");
    if n == 1 {
        push_str(&mut out, "s");
    }
    push_str(&mut out, ".");
    assert(out@ =~= decimal(n as nat) + noun@ + plural(n as nat, "s"@) + " remain"@ + (if n == 1 { "s"@ } else { Seq::empty() })
        + "."@);
    out
}

/// The summary line of a text report after `--fix` (see `fixed_summary_spec`).
pub fn fixed_summary_line(diags: &[(String, Diagnostic)], applied: &[(String, Range)]) -> (r: String)
    ensures
        r@ == fixed_summary_spec(diags@, applied@),
{
    let f = count_fixed_diags(diags, applied);
    let e = count_severity(diags, Severity::Error);
    let w = count_severity(diags, Severity::Warning);
    let ae = count_applied_severity(diags, applied, Severity::Error);
    let aw = count_applied_severity(diags, applied, Severity::Warning);
    let ue = if e >= ae { e - ae } else { 0 };
    let uw = if w >= aw { w - aw } else { 0 };
    let mut applied_part: Vec<char> = Vec::new();
    push_str(&mut applied_part, "Applied ");
    push_decimal(&mut applied_part, f);
    push_str(&mut applied_part, " fix");
    push_plural(&mut applied_part, f, "es");
    push_str(&mut applied_part, ".");
    let ghost ap = applied_part@;
    assert(ap =~= "Applied "@ + decimal(f as nat) + " fix"@ + plural(f as nat, "es"@) + "."@);
    let out: Vec<char> = if f == 0 && ue == 0 && uw == 0 {
        str_chars("All checks passed.")
    } else if f > 0 && ue == 0 && uw == 0 {
        let mut o = applied_part;
        push_str(&mut o, " All checks passed.");
        o
    } else {
        let mut parts: Vec<Vec<char>> = Vec::new();
        if f > 0 {
            parts.push(applied_part);
        }
        if ue > 0 {
            parts.push(remain_part(ue, " error"));
        }
        if uw > 0 {
            parts.push(remain_part(uw, " warning"));
        }
        let sep = str_chars(" ");
        let joined = crate::text::join_chars(&parts, sep.as_slice());
        assert(crate::text::views(parts@) =~= (if f > 0 { seq![ap] } else { Seq::empty() }) + (if ue > 0 {
            seq![decimal(ue as nat) + " error"@ + plural(ue as nat, "s"@) + " remain"@ + (if ue == 1 { "s"@ } else { Seq::empty() }) + "."@]
        } else {
            Seq::empty()
        }) + (if uw > 0 {
            seq![decimal(uw as nat) + " warning"@ + plural(uw as nat, "s"@) + " remain"@ + (if uw == 1 { "s"@ } else { Seq::empty() }) + "."@]
        } else {
            Seq::empty()
        }));
        joined
    };
    string_from_chars(out.as_slice())
}

/// Whether an error or warning remains for which no fix was applied (`check --fix` then
/// fails).
pub fn has_unfixed_findings(diags: &[(String, Diagnostic)], applied: &[(String, Range)]) -> (r: bool)
    ensures
        r == exists|i: int|
            0 <= i < diags@.len() && is_finding(#[trigger] diags@[i].1) && !is_applied(applied@, diags@[i].0@, diags@[i].1.range),
{
    let mut i: usize = 0;
    while i < diags.len()
        invariant
            i <= diags@.len(),
            forall|j: int|
                0 <= j < i ==> !(is_finding(#[trigger] diags@[j].1) && !is_applied(applied@, diags@[j].0@, diags@[j].1.range)),
        decreases diags@.len() - i,
    {
        let s = diags[i].1.severity;
        if (s == Some(Severity::Error) || s == Some(Severity::Warning)) && !applied_contains(applied, &diags[i].0, diags[i].1.range) {
            return true;
        }
        i += 1;
    }
    false
}


/// The working directory as a ghost value.
pub open spec fn cwd_view(cwd: Option<&str>) -> Option<Seq<char>> {
    match cwd {
        Some(c) => Some(c@),
        None => None,
    }
}

/// The report lines of one diagnostic: its line, then one line per related location.
pub open spec fn entry_lines(e: (String, Diagnostic), cwd: Option<Seq<char>>) -> Seq<Seq<char>> {
    seq![diag_line_spec(display_path_spec(e.0@, cwd), e.1)] + e.1.related@.map_values(
        |r: RelatedInfo| related_line_spec(display_path_spec(r.location.uri@, cwd), r.location),
    )
}

/// The lines of a text report, diagnostic by diagnostic (the summary line aside).
pub open spec fn report_lines(ds: Seq<(String, Diagnostic)>, cwd: Option<Seq<char>>) -> Seq<Seq<char>>
    decreases ds.len(),
{
    if ds.len() == 0 {
        Seq::empty()
    } else {
        report_lines(ds.drop_last(), cwd) + entry_lines(ds.last(), cwd)
    }
}

/// The positions of a diagnostic and of its related locations leave room for one-based
/// numbers in a `u32`.
pub open spec fn printable(d: Diagnostic) -> bool {
    &&& d.range.start.line < u32::MAX
    &&& d.range.start.character < u32::MAX
    &&& forall|k: int| 0 <= k < d.related@.len() ==> (#[trigger] d.related@[k]).location.range.start.line < u32::MAX
        && d.related@[k].location.range.start.character < u32::MAX
}

/// The lines of a text report (see `report_lines`); `cwd` is the working directory.
pub fn text_report(diags: &[(String, Diagnostic)], cwd: Option<&str>) -> (r: Vec<String>)
    requires
        forall|i: int| 0 <= i < diags@.len() ==> printable(#[trigger] diags@[i].1),
    ensures
        r@.map_values(|s: String| s@) == report_lines(diags@, cwd_view(cwd)),
{
    let ghost cv = cwd_view(cwd);
    let mut out: Vec<String> = Vec::new();
    let mut i: usize = 0;
    while i < diags.len()
        invariant
            i <= diags@.len(),
            cv == cwd_view(cwd),
            forall|j: int| 0 <= j < diags@.len() ==> printable(#[trigger] diags@[j].1),
            out@.map_values(|s: String| s@) == report_lines(diags@.take(i as int), cv),
        decreases diags@.len() - i,
    {
        let (uri, d) = (&diags[i].0, &diags[i].1);
        assert(printable(diags@[i as int].1));
        assert(diags@.take(i + 1).drop_last() =~= diags@.take(i as int));
        assert(diags@.take(i + 1).last() == diags@[i as int]);
        let ghost before = out@.map_values(|s: String| s@);
        let path = display_path(uri.as_str(), cwd);
        out.push(diag_line(path.as_str(), d));
        let mut k: usize = 0;
        while k < d.related.len()
            invariant
                k <= d.related@.len(),
                printable(*d),
                cv == cwd_view(cwd),
                out@.map_values(|s: String| s@) == before + seq![diag_line_spec(display_path_spec(uri@, cv), *d)]
                    + d.related@.take(k as int).map_values(
                    |r: RelatedInfo| related_line_spec(display_path_spec(r.location.uri@, cv), r.location),
                ),
            decreases d.related@.len() - k,
        {
            let loc = &d.related[k].location;
            assert(d.related@[k as int].location.range.start.line < u32::MAX);
            let rp = display_path(loc.uri.as_str(), cwd);
            let ghost b = out@.map_values(|s: String| s@);
            out.push(related_line(rp.as_str(), loc));
            proof {
                assert(out@.map_values(|s: String| s@) =~= b.push(related_line_spec(display_path_spec(loc.uri@, cv), *loc)));
                assert(d.related@.take(k + 1) =~= d.related@.take(k as int).push(d.related@[k as int]));
                assert(d.related@.take(k + 1).map_values(|r: RelatedInfo| related_line_spec(display_path_spec(r.location.uri@, cv), r.location))
                    =~= d.related@.take(k as int).map_values(|r: RelatedInfo| related_line_spec(display_path_spec(r.location.uri@, cv), r.location)).push(
                    related_line_spec(display_path_spec(loc.uri@, cv), *loc),
                ));
            }
            k += 1;
        }
        assert(d.related@.take(d.related@.len() as int) =~= d.related@);
        assert(out@.map_values(|s: String| s@) =~= before + entry_lines(diags@[i as int], cv));
        i += 1;
    }
    assert(diags@.take(diags@.len() as int) =~= diags@);
    out
}

/// The lines of a text report after `--fix`: each diagnostic's line, marked ` [fixed]`
/// when a fix was applied for it (related locations are not listed).
pub open spec fn fixed_report_lines(ds: Seq<(String, Diagnostic)>, applied: Seq<(String, Range)>, cwd: Option<Seq<char>>) -> Seq<Seq<char>>
    decreases ds.len(),
{
    if ds.len() == 0 {
        Seq::empty()
    } else {
        fixed_report_lines(ds.drop_last(), applied, cwd) + seq![
            diag_line_spec(display_path_spec(ds.last().0@, cwd), ds.last().1) + if is_applied(applied, ds.last().0@, ds.last().1.range) {
                " [fixed]"@
            } else {
                Seq::empty()
            },
        ]
    }
}

/// The lines of a text report after `--fix` (see `fixed_report_lines`).
pub fn text_report_with_applied(diags: &[(String, Diagnostic)], applied: &[(String, Range)], cwd: Option<&str>) -> (r: Vec<String>)
    requires
        forall|i: int| 0 <= i < diags@.len() ==> printable(#[trigger] diags@[i].1),
    ensures
        r@.map_values(|s: String| s@) == fixed_report_lines(diags@, applied@, cwd_view(cwd)),
{
    let ghost cv = cwd_view(cwd);
    let mut out: Vec<String> = Vec::new();
    let mut i: usize = 0;
    while i < diags.len()
        invariant
            i <= diags@.len(),
            cv == cwd_view(cwd),
            forall|j: int| 0 <= j < diags@.len() ==> printable(#[trigger] diags@[j].1),
            out@.map_values(|s: String| s@) == fixed_report_lines(diags@.take(i as int), applied@, cv),
        decreases diags@.len() - i,
    {
        let (uri, d) = (&diags[i].0, &diags[i].1);
        assert(printable(diags@[i as int].1));
        assert(diags@.take(i + 1).drop_last() =~= diags@.take(i as int));
        assert(diags@.take(i + 1).last() == diags@[i as int]);
        let path = display_path(uri.as_str(), cwd);
        let line = diag_line(path.as_str(), d);
        let mut cs = str_chars(line.as_str());
        if applied_contains(applied, uri, d.range) {
            push_str(&mut cs, " [fixed]");
        } else {
            proof {
                reveal_strlit("");
            }
        }
        let ghost before = out@.map_values(|s: String| s@);
        let text = string_from_chars(cs.as_slice());
        out.push(text);
        assert(out@.map_values(|s: String| s@) =~= before.push(
            diag_line_spec(display_path_spec(uri@, cv), *d) + if is_applied(applied@, uri@, d.range) {
                " [fixed]"@
            } else {
                Seq::empty()
            },
        ));
        i += 1;
    }
    assert(diags@.take(diags@.len() as int) =~= diags@);
    out
}

} // verus!
