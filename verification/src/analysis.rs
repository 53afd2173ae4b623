//! The diagnostics of one file: each check over the facts of the file and of the
//! workspace, and the whole list in the order the server publishes it.
use vstd::prelude::*;
use crate::position::{Range, Location};
use crate::report::{Diagnostic, Severity, Tag, RelatedInfo};
use crate::checks::{diag_view, diag_views, somes, DiagView, dedup_views, dedup_diags, lemma_dedup_views, derefs};
use crate::routing::{RouteRecord, RouteIndex, RouteId, Method, ResolvedPath, index_get, index_lookup};
use crate::params::path_names;
use crate::params::last_index;
use crate::diagnostics::{unknown_response_model_diag, missing_template_diag, missing_template_message, url_unknown_name_diag,
    url_param_mismatch_diag, param_mismatch_message, name_views};
use crate::distance::{capped_distance, edit_distance};
use crate::text::{string_views, contains_str};
use crate::env::{is_env_key_ignored, env_key_ignored, str_to_uppercase, to_uppercase};
use crate::deps::{DepRef, DepDef, FileDeps, OverrideSite, NodeId};
use crate::checks::{first_match, lemma_first_match_step, lemma_first_match_none, lemma_first_match_bound};
use crate::text::{str_chars, string_from_chars, join_with, join_chars, views, push_all};
use crate::diagnostics::{di_cycle_diag, unknown_token_url_diag, test_unknown_path_diag};
use crate::checks::{RouterDecl, IncludeFact, cross_route_views, cross_route_diags, has_unresolved, any_unresolved, resolved_records};
use crate::params::{ParamFacts, file_param_views, route_param_checks, columns_fit};
use crate::checks::in_file;
use crate::diagnostics::{
    undefined_key_diag, settings_missing_env_diag, depends_called_diag, override_unused_diag, source_name, related_views,
    diag_is,
};

verus! {

broadcast use vstd::string::group_string_axioms;

/// The view of a diagnostic from the server with no related locations and no tags.
pub open spec fn plain_view(range: Range, sev: Severity, code: Seq<char>, msg: Seq<char>) -> DiagView {
    (range, Some(sev), code, Some(source_name()), msg, Seq::empty(), Seq::empty())
}

pub(crate) proof fn lemma_plain(d: Diagnostic, range: Range, sev: Severity, code: Seq<char>, msg: Seq<char>)
    requires
        diag_is(d, range, sev, code, msg),
        d.related@.len() == 0,
        d.tags@.len() == 0,
    ensures
        diag_view(d) == plain_view(range, sev, code, msg),
{
    assert(related_views(d.related@) =~= Seq::<(Seq<char>, Range, Seq<char>)>::empty());
    assert(d.tags@ =~= Seq::<Tag>::empty());
}

/// An environment lookup (`os.environ[...]`, `os.getenv(...)`).
#[derive(Clone, Debug)]
pub struct EnvLookup {
    pub key: String,
    /// The lookup supplies a default value.
    pub has_default: bool,
    pub key_range: Range,
    /// The text that a completion of the key replaces.
    pub replace_range: Range,
}

/// `env/undefined-key` for a lookup without a default whose key is not ignored and that
/// no env file defines, as written or uppercased.
pub open spec fn undefined_key_view(l: EnvLookup, env_keys: Seq<Seq<char>>, ignore: Seq<String>) -> Option<DiagView> {
    if l.has_default || env_key_ignored(l.key@, ignore) || env_keys.contains(str_to_uppercase(l.key@))
        || env_keys.contains(l.key@) {
        None
    } else {
        Some(plain_view(l.key_range, Severity::Information, "env/undefined-key"@, "Undefined env key: "@ + l.key@ + "."@))
    }
}

/// `env/undefined-key` diagnostics for the lookups of a file, in order (see
/// `undefined_key_view`); `env_keys` are the keys the env files define.
pub fn undefined_env_keys(lookups: &[EnvLookup], env_keys: &[String], ignore: &[String]) -> (r: Vec<Diagnostic>)
    ensures
        diag_views(r@) == somes(lookups@.map_values(|l: EnvLookup| undefined_key_view(l, string_views(env_keys@), ignore@))),
{
    let ghost f = |l: EnvLookup| undefined_key_view(l, string_views(env_keys@), ignore@);
    let mut out: Vec<Diagnostic> = Vec::new();
    let mut i: usize = 0;
    while i < lookups.len()
        invariant
            i <= lookups@.len(),
            f == (|l: EnvLookup| undefined_key_view(l, string_views(env_keys@), ignore@)),
            diag_views(out@) == somes(lookups@.take(i as int).map_values(f)),
        decreases lookups@.len() - i,
    {
        let site = &lookups[i];
        proof {
            assert(lookups@.take(i + 1).map_values(f) =~= lookups@.take(i as int).map_values(f).push(f(lookups@[i as int])));
            assert(lookups@.take(i + 1).map_values(f).drop_last() =~= lookups@.take(i as int).map_values(f));
        }
        let ghost prev = diag_views(out@);
        let skip = site.has_default || is_env_key_ignored(site.key.as_str(), ignore) || {
            let key_upper = to_uppercase(site.key.as_str());
            contains_str(env_keys, key_upper.as_str()) || contains_str(env_keys, site.key.as_str())
        };
        if !skip {
            let d = undefined_key_diag(site.key.as_str(), site.key_range);
            proof {
                lemma_plain(d, site.key_range, Severity::Information, "env/undefined-key"@, "Undefined env key: "@ + site.key@ + "."@);
            }
            out.push(d);
            assert(diag_views(out@) =~= prev.push(diag_view(d)));
        }
        i += 1;
    }
    assert(lookups@.take(lookups@.len() as int) =~= lookups@);
    out
}

/// A field of a settings class (`pydantic` `BaseSettings`), with the env key it reads.
#[derive(Clone, Debug)]
pub struct SettingsField {
    pub env_key: Option<String>,
    pub has_default: bool,
    pub range: Range,
}

/// `settings/env-key-missing` for a required field whose key is not ignored and that no
/// env file declares.
pub open spec fn missing_env_view(f: SettingsField, file_keys: Seq<Seq<char>>, ignore: Seq<String>) -> Option<DiagView> {
    match f.env_key {
        Some(k) => if f.has_default || env_key_ignored(k@, ignore) || file_keys.contains(k@) {
            None
        } else {
            Some(plain_view(f.range, Severity::Warning, "settings/env-key-missing"@, "Required env key undeclared: "@ + k@ + "."@))
        },
        None => None,
    }
}

/// `settings/env-key-missing` diagnostics for the settings fields of a file, in order
/// (see `missing_env_view`); `file_keys` are the keys declared in env files.
pub fn missing_settings_env(fields: &[SettingsField], file_keys: &[String], ignore: &[String]) -> (r: Vec<Diagnostic>)
    ensures
        diag_views(r@) == somes(fields@.map_values(|x: SettingsField| missing_env_view(x, string_views(file_keys@), ignore@))),
{
    let ghost f = |x: SettingsField| missing_env_view(x, string_views(file_keys@), ignore@);
    let mut out: Vec<Diagnostic> = Vec::new();
    let mut i: usize = 0;
    while i < fields.len()
        invariant
            i <= fields@.len(),
            f == (|x: SettingsField| missing_env_view(x, string_views(file_keys@), ignore@)),
            diag_views(out@) == somes(fields@.take(i as int).map_values(f)),
        decreases fields@.len() - i,
    {
        let field = &fields[i];
        proof {
            assert(fields@.take(i + 1).map_values(f) =~= fields@.take(i as int).map_values(f).push(f(fields@[i as int])));
            assert(fields@.take(i + 1).map_values(f).drop_last() =~= fields@.take(i as int).map_values(f));
        }
        let ghost prev = diag_views(out@);
        if !field.has_default {
            match &field.env_key {
                Some(key) => {
                    if !is_env_key_ignored(key.as_str(), ignore) && !contains_str(file_keys, key.as_str()) {
                        let d = settings_missing_env_diag(key.as_str(), field.range);
                        proof {
                            lemma_plain(d, field.range, Severity::Warning, "settings/env-key-missing"@,
                                "Required env key undeclared: "@ + key@ + "."@);
                        }
                        out.push(d);
                        assert(diag_views(out@) =~= prev.push(diag_view(d)));
                    }
                },
                None => {},
            }
        }
        i += 1;
    }
    assert(fields@.take(fields@.len() as int) =~= fields@);
    out
}

/// `di/depends-called` for a reference that calls a name known to be a dependency.
pub open spec fn called_view(r: DepRef, proven: Seq<Seq<char>>) -> Option<DiagView> {
    if r.is_called && r.name@.len() > 0 && proven.contains(r.name@) {
        Some(
            plain_view(
                r.range,
                Severity::Error,
                "di/depends-called"@,
                "Dependency called with (): remove () to pass the callable."@,
            ),
        )
    } else {
        None
    }
}

/// `di/depends-called` diagnostics for the dependency references of a file, in order;
/// `proven` are the names known to be dependency functions.
pub fn called_dependencies(refs: &[DepRef], proven: &[String]) -> (r: Vec<Diagnostic>)
    ensures
        diag_views(r@) == somes(refs@.map_values(|x: DepRef| called_view(x, string_views(proven@)))),
{
    let ghost f = |x: DepRef| called_view(x, string_views(proven@));
    let mut out: Vec<Diagnostic> = Vec::new();
    let mut i: usize = 0;
    while i < refs.len()
        invariant
            i <= refs@.len(),
            f == (|x: DepRef| called_view(x, string_views(proven@))),
            diag_views(out@) == somes(refs@.take(i as int).map_values(f)),
        decreases refs@.len() - i,
    {
        let r = &refs[i];
        proof {
            assert(refs@.take(i + 1).map_values(f) =~= refs@.take(i as int).map_values(f).push(f(refs@[i as int])));
            assert(refs@.take(i + 1).map_values(f).drop_last() =~= refs@.take(i as int).map_values(f));
        }
        let ghost prev = diag_views(out@);
        if r.is_called && !r.name.as_str().is_empty() && contains_str(proven, r.name.as_str()) {
            let d = depends_called_diag(r.range);
            proof {
                lemma_plain(d, r.range, Severity::Error, "di/depends-called"@,
                    "Dependency called with (): remove () to pass the callable."@);
            }
            out.push(d);
            assert(diag_views(out@) =~= prev.push(diag_view(d)));
        }
        i += 1;
    }
    assert(refs@.take(refs@.len() as int) =~= refs@);
    out
}

/// The names of all dependency definitions of the workspace, file by file.
pub open spec fn all_def_names(files: Seq<FileDeps>) -> Seq<Seq<char>>
    decreases files.len(),
{
    if files.len() == 0 {
        Seq::empty()
    } else {
        all_def_names(files.drop_last()) + files.last().dep_defs@.map_values(|d: crate::deps::DepDef| d.name@)
    }
}

/// Whether some dependency of the workspace is named `name`.
fn defines_dep(files: &[FileDeps], name: &str) -> (b: bool)
    ensures
        b == all_def_names(files@).contains(name@),
{
    let nm: String = name.to_owned();
    let mut i: usize = 0;
    while i < files.len()
        invariant
            i <= files@.len(),
            nm@ == name@,
            !all_def_names(files@.take(i as int)).contains(name@),
        decreases files@.len() - i,
    {
        assert(files@.take(i + 1).drop_last() =~= files@.take(i as int));
        let defs = &files[i].dep_defs;
        let ghost dn = defs@.map_values(|d: crate::deps::DepDef| d.name@);
        assert(files@.take(i + 1).last() == files@[i as int]);
        let mut j: usize = 0;
        while j < defs.len()
            invariant
                j <= defs@.len(),
                nm@ == name@,
                defs == &files@[i as int].dep_defs,
                i < files@.len(),
                dn == defs@.map_values(|d: crate::deps::DepDef| d.name@),
                forall|k: int| 0 <= k < j ==> #[trigger] dn[k] != name@,
            decreases defs@.len() - j,
        {
            if defs[j].name == nm {
                proof {
                    let base = all_def_names(files@.take(i as int));
                    assert(files@.take(i + 1).drop_last() =~= files@.take(i as int));
                    assert(files@.take(i + 1).last() == files@[i as int]);
                    assert(all_def_names(files@.take(i + 1)) == base + dn);
                    assert((base + dn)[base.len() + j] == name@);
                    lemma_names_prefix(files@, i + 1);
                    assert(all_def_names(files@)[base.len() + j] == name@);
                }
                return true;
            }
            j += 1;
        }
        proof {
            let base = all_def_names(files@.take(i as int));
            assert(all_def_names(files@.take(i + 1)) == base + dn);
            if (base + dn).contains(name@) {
                let k = choose|k: int| 0 <= k < (base + dn).len() && (base + dn)[k] == name@;
                if k >= base.len() {
                    assert(dn[k - base.len()] == name@);
                } else {
                    assert(base[k] == name@);
                }
            }
        }
        i += 1;
    }
    assert(files@.take(files@.len() as int) =~= files@);
    false
}

proof fn lemma_names_prefix(files: Seq<FileDeps>, n: int)
    requires
        0 <= n <= files.len(),
    ensures
        all_def_names(files.take(n)).len() <= all_def_names(files).len(),
        forall|k: int| 0 <= k < all_def_names(files.take(n)).len() ==> all_def_names(files)[k] == #[trigger] all_def_names(files.take(n))[k],
    decreases files.len() - n,
{
    if n < files.len() {
        lemma_names_prefix(files, n + 1);
        assert(files.take(n + 1).drop_last() =~= files.take(n));
        let a = all_def_names(files.take(n));
        let b = all_def_names(files.take(n + 1));
        assert forall|k: int| 0 <= k < a.len() implies all_def_names(files)[k] == #[trigger] a[k] by {
            assert(b[k] == a[k]);
        }
    } else {
        assert(files.take(n) =~= files);
    }
}

/// `di/override-unused` for an override of a name that no dependency of the workspace has.
pub open spec fn override_view(s: OverrideSite, names: Seq<Seq<char>>) -> Option<DiagView> {
    if s.name@.len() > 0 && !names.contains(s.name@) {
        Some(
            (
                s.range,
                Some(Severity::Information),
                "di/override-unused"@,
                Some(source_name()),
                "Unused dependency override: "@ + s.name@ + "."@,
                Seq::empty(),
                seq![Tag::Unnecessary],
            ),
        )
    } else {
        None
    }
}

/// `di/override-unused` diagnostics for the override sites of a file, in order; `files`
/// are the dependency facts of every file of the workspace.
pub fn unused_overrides(sites: &[OverrideSite], files: &[FileDeps]) -> (r: Vec<Diagnostic>)
    ensures
        diag_views(r@) == somes(sites@.map_values(|x: OverrideSite| override_view(x, all_def_names(files@)))),
{
    let ghost f = |x: OverrideSite| override_view(x, all_def_names(files@));
    let mut out: Vec<Diagnostic> = Vec::new();
    let mut i: usize = 0;
    while i < sites.len()
        invariant
            i <= sites@.len(),
            f == (|x: OverrideSite| override_view(x, all_def_names(files@))),
            diag_views(out@) == somes(sites@.take(i as int).map_values(f)),
        decreases sites@.len() - i,
    {
        let site = &sites[i];
        proof {
            assert(sites@.take(i + 1).map_values(f) =~= sites@.take(i as int).map_values(f).push(f(sites@[i as int])));
            assert(sites@.take(i + 1).map_values(f).drop_last() =~= sites@.take(i as int).map_values(f));
        }
        let ghost prev = diag_views(out@);
        if !site.name.as_str().is_empty() && !defines_dep(files, site.name.as_str()) {
            let d = override_unused_diag(site.name.as_str(), site.range);
            proof {
                assert(related_views(d.related@) =~= Seq::<(Seq<char>, Range, Seq<char>)>::empty());
            }
            out.push(d);
            assert(diag_views(out@) =~= prev.push(diag_view(d)));
        }
        i += 1;
    }
    assert(sites@.take(sites@.len() as int) =~= sites@);
    out
}

/// The name of the dependency defined at `id`: the first definition at `id` in the first
/// file whose URI is `id`'s.
pub open spec fn node_name(files: Seq<FileDeps>, id: NodeId) -> Option<Seq<char>> {
    match first_match(files, |f: FileDeps| f.uri@ == id.uri@) {
        Some(k) => match first_match(files[k].dep_defs@, |d: DepDef| d.node_id@ == id@) {
            Some(j) => Some(files[k].dep_defs@[j].name@),
            None => None,
        },
        None => None,
    }
}

fn first_file(files: &[FileDeps], uri: &String) -> (r: Option<usize>)
    ensures
        match r {
            Some(k) => first_match(files@, |f: FileDeps| f.uri@ == uri@) == Some(k as int),
            None => first_match(files@, |f: FileDeps| f.uri@ == uri@) is None,
        },
{
    let ghost pf = |f: FileDeps| f.uri@ == uri@;
    let mut k: usize = 0;
    while k < files.len()
        invariant
            k <= files@.len(),
            pf == (|f: FileDeps| f.uri@ == uri@),
            forall|j: int| 0 <= j < k ==> !pf(#[trigger] files@[j]),
        decreases files@.len() - k,
    {
        proof {
            lemma_first_match_step(files@, pf, k as int);
        }
        if files[k].uri == *uri {
            return Some(k);
        }
        k += 1;
    }
    proof {
        lemma_first_match_none(files@, pf);
    }
    None
}

fn first_def_at(defs: &Vec<DepDef>, id: &NodeId) -> (r: Option<usize>)
    ensures
        match r {
            Some(k) => first_match(defs@, |d: DepDef| d.node_id@ == id@) == Some(k as int),
            None => first_match(defs@, |d: DepDef| d.node_id@ == id@) is None,
        },
{
    let ghost pd = |d: DepDef| d.node_id@ == id@;
    let mut j: usize = 0;
    while j < defs.len()
        invariant
            j <= defs@.len(),
            pd == (|d: DepDef| d.node_id@ == id@),
            forall|m: int| 0 <= m < j ==> !pd(#[trigger] defs@[m]),
        decreases defs@.len() - j,
    {
        proof {
            lemma_first_match_step(defs@, pd, j as int);
        }
        if defs[j].node_id.same(id) {
            return Some(j);
        }
        j += 1;
    }
    proof {
        lemma_first_match_none(defs@, pd);
    }
    None
}

/// Looks up the name of the dependency defined at `id` (see `node_name`).
pub fn dep_node_name(id: &NodeId, files: &[FileDeps]) -> (r: Option<String>)
    ensures
        match r {
            Some(n) => node_name(files@, *id) == Some(n@),
            None => node_name(files@, *id) is None,
        },
{
    match first_file(files, &id.uri) {
        Some(k) => {
            proof {
                lemma_first_match_bound(files@, |f: FileDeps| f.uri@ == id.uri@);
            }
            match first_def_at(&files[k].dep_defs, id) {
                Some(j) => {
                    proof {
                        lemma_first_match_bound(files@[k as int].dep_defs@, |d: DepDef| d.node_id@ == id@);
                    }
                    Some(files[k].dep_defs[j].name.clone())
                },
                None => None,
            }
        },
        None => None,
    }
}

/// With no value present, `somes` is empty.
pub proof fn lemma_somes_none<A>(s: Seq<Option<A>>)
    requires
        forall|k: int| 0 <= k < s.len() ==> #[trigger] s[k] is None,
    ensures
        somes(s).len() == 0,
    decreases s.len(),
{
    if s.len() > 0 {
        assert(s.last() is None);
        lemma_somes_none(s.drop_last());
    }
}

/// A copy of a list of related locations.
fn copy_related(v: &Vec<RelatedInfo>) -> (r: Vec<RelatedInfo>)
    ensures
        related_views(r@) == related_views(v@),
{
    let mut r: Vec<RelatedInfo> = Vec::new();
    let mut i: usize = 0;
    while i < v.len()
        invariant
            i <= v@.len(),
            related_views(r@) == related_views(v@).take(i as int),
        decreases v@.len() - i,
    {
        let x = &v[i];
        let ghost before = related_views(r@);
        r.push(RelatedInfo { location: Location { uri: x.location.uri.clone(), range: x.location.range }, message: x.message.clone() });
        assert(related_views(r@) =~= before.push(related_views(v@)[i as int]));
        assert(related_views(v@).take(i + 1) =~= related_views(v@).take(i as int).push(related_views(v@)[i as int]));
        i += 1;
    }
    assert(related_views(v@).take(v@.len() as int) =~= related_views(v@));
    r
}

/// The names of the members of a cycle that have one, in cycle order.
pub open spec fn cycle_names(files: Seq<FileDeps>, cycle: Seq<NodeId>) -> Seq<Seq<char>> {
    somes(cycle.map_values(|id: NodeId| node_name(files, id)))
}

/// `Dependency cycle: a → b → a.`: the named members, closed by the first again.
pub open spec fn cycle_message(names: Seq<Seq<char>>) -> Seq<char> {
    "Dependency cycle: "@ + join_with(names.push(names[0]), " → "@) + "."@
}

/// The other named members of a cycle, as related locations.
pub open spec fn cycle_related(files: Seq<FileDeps>, cycle: Seq<NodeId>, member: Seq<char>) -> Seq<(Seq<char>, Range, Seq<char>)> {
    somes(cycle.map_values(|id: NodeId| match node_name(files, id) {
        Some(n) => if n != member {
            Some((id.uri@, id.range, "also in cycle: "@ + n))
        } else {
            None
        },
        None => None,
    }))
}

/// `di/cycle` for a reference inside `member` to a named member of its cycle.
pub open spec fn cycle_ref_view(files: Seq<FileDeps>, cycle: Seq<NodeId>, member: Seq<char>, r: DepRef) -> Option<DiagView> {
    let names = cycle_names(files, cycle);
    if names.len() > 0 && (r.containing_func matches Some(c) && c@ == member) && r.name@.len() > 0 && names.contains(r.name@) {
        Some(
            (
                r.range,
                Some(Severity::Error),
                "di/cycle"@,
                Some(source_name()),
                cycle_message(names),
                cycle_related(files, cycle, member),
                Seq::empty(),
            ),
        )
    } else {
        None
    }
}

/// `di/cycle` diagnostics for a cycle member defined in this file: one on each reference
/// inside the member to a named member of the cycle, with the message
/// `cycle_message` and the other named members as related locations.
pub fn di_cycle_diags_for_member(member_func: &str, dep_refs: &[DepRef], cycle: &[NodeId], uri: &str, files: &[FileDeps]) -> (r: Vec<Diagnostic>)
    ensures
        diag_views(r@) == somes(dep_refs@.map_values(|x: DepRef| cycle_ref_view(files@, cycle@, member_func@, x))),
{
    let ghost f = |x: DepRef| cycle_ref_view(files@, cycle@, member_func@, x);
    let ghost fnm = |id: NodeId| node_name(files@, id);
    let member: String = member_func.to_owned();
    // The named members, as strings and as character lists.
    let mut names: Vec<String> = Vec::new();
    let mut related: Vec<RelatedInfo> = Vec::new();
    let ghost frel = |id: NodeId| match node_name(files@, id) {
        Some(n) => if n != member_func@ {
            Some((id.uri@, id.range, "also in cycle: "@ + n))
        } else {
            None
        },
        None => None,
    };
    let mut i: usize = 0;
    while i < cycle.len()
        invariant
            i <= cycle@.len(),
            member@ == member_func@,
            fnm == (|id: NodeId| node_name(files@, id)),
            frel == (|id: NodeId| match node_name(files@, id) {
                Some(n) => if n != member_func@ {
                    Some((id.uri@, id.range, "also in cycle: "@ + n))
                } else {
                    None
                },
                None => None,
            }),
            string_views(names@) == somes(cycle@.take(i as int).map_values(fnm)),
            related_views(related@) == somes(cycle@.take(i as int).map_values(frel)),
        decreases cycle@.len() - i,
    {
        proof {
            assert(cycle@.take(i + 1).map_values(fnm) =~= cycle@.take(i as int).map_values(fnm).push(fnm(cycle@[i as int])));
            assert(cycle@.take(i + 1).map_values(fnm).drop_last() =~= cycle@.take(i as int).map_values(fnm));
            assert(cycle@.take(i + 1).map_values(frel) =~= cycle@.take(i as int).map_values(frel).push(frel(cycle@[i as int])));
            assert(cycle@.take(i + 1).map_values(frel).drop_last() =~= cycle@.take(i as int).map_values(frel));
        }
        let ghost n0 = string_views(names@);
        let ghost r0 = related_views(related@);
        let id = &cycle[i];
        match dep_node_name(id, files) {
            Some(n) => {
                if n != member {
                    let mut msg = str_chars("also in cycle: ");
                    let nc = str_chars(n.as_str());
                    push_all(&mut msg, nc.as_slice());
                    let info = RelatedInfo {
                        location: Location { uri: id.uri.clone(), range: id.range },
                        message: string_from_chars(msg.as_slice()),
                    };
                    related.push(info);
                    assert(related_views(related@) =~= r0.push((id.uri@, id.range, "also in cycle: "@ + n@)));
                }
                names.push(n);
                assert(string_views(names@) =~= n0.push(names@.last()@));
            },
            None => {},
        }
        i += 1;
    }
    assert(cycle@.take(cycle@.len() as int) =~= cycle@);
    let mut out: Vec<Diagnostic> = Vec::new();
    if names.len() == 0 {
        proof {
            assert forall|k: int| 0 <= k < dep_refs@.len() implies #[trigger] f(dep_refs@[k]) is None by {}
            lemma_somes_none(dep_refs@.map_values(f));
        }
        return out;
    }
    // The message, closed by the first name again.
    let mut closed: Vec<Vec<char>> = Vec::new();
    let mut k: usize = 0;
    while k < names.len()
        invariant
            k <= names@.len(),
            views(closed@) == string_views(names@).take(k as int),
        decreases names@.len() - k,
    {
        let c = str_chars(names[k].as_str());
        let ghost before = views(closed@);
        closed.push(c);
        assert(views(closed@) =~= before.push(string_views(names@)[k as int]));
        assert(string_views(names@).take(k + 1) =~= string_views(names@).take(k as int).push(string_views(names@)[k as int]));
        k += 1;
    }
    assert(string_views(names@).take(names@.len() as int) =~= string_views(names@));
    let first = str_chars(names[0].as_str());
    let ghost vclosed = views(closed@);
    closed.push(first);
    assert(views(closed@) =~= string_views(names@).push(string_views(names@)[0]));
    let sep = str_chars(" → ");
    let joined = join_chars(&closed, sep.as_slice());
    let mut msg = str_chars("Dependency cycle: ");
    push_all(&mut msg, joined.as_slice());
    msg.push('.');
    proof {
        reveal_strlit(".");
    }
    assert(msg@ =~= cycle_message(string_views(names@)));
    let message = string_from_chars(msg.as_slice());
    let mut i2: usize = 0;
    while i2 < dep_refs.len()
        invariant
            i2 <= dep_refs@.len(),
            member@ == member_func@,
            string_views(names@) == cycle_names(files@, cycle@),
            names@.len() > 0,
            message@ == cycle_message(string_views(names@)),
            related_views(related@) == cycle_related(files@, cycle@, member_func@),
            f == (|x: DepRef| cycle_ref_view(files@, cycle@, member_func@, x)),
            diag_views(out@) == somes(dep_refs@.take(i2 as int).map_values(f)),
        decreases dep_refs@.len() - i2,
    {
        let r = &dep_refs[i2];
        proof {
            assert(dep_refs@.take(i2 + 1).map_values(f) =~= dep_refs@.take(i2 as int).map_values(f).push(f(dep_refs@[i2 as int])));
            assert(dep_refs@.take(i2 + 1).map_values(f).drop_last() =~= dep_refs@.take(i2 as int).map_values(f));
        }
        let ghost prev = diag_views(out@);
        let inside = match &r.containing_func {
            Some(c) => *c == member,
            None => false,
        };
        if inside && !r.name.as_str().is_empty() && contains_str(names.as_slice(), r.name.as_str()) {
            let rel = copy_related(&related);
            let d = di_cycle_diag(r.range, message.as_str(), rel, uri.to_owned());
            proof {
                assert(d.tags@ =~= Seq::<Tag>::empty());
            }
            out.push(d);
            assert(diag_views(out@) =~= prev.push(diag_view(d)));
        }
        i2 += 1;
    }
    assert(dep_refs@.take(dep_refs@.len() as int) =~= dep_refs@);
    out
}

/// The members of the cycle of node `id`: the first entry for it in the cycle map.
pub open spec fn cycle_of(cmap: Seq<(NodeId, Vec<NodeId>)>, id: NodeId) -> Option<Seq<NodeId>> {
    match first_match(cmap, |e: (NodeId, Vec<NodeId>)| e.0@ == id@) {
        Some(k) => Some(cmap[k].1@),
        None => None,
    }
}

/// `di/cycle` for the dependencies defined in a file that lie on a cycle, definition by
/// definition (see `cycle_ref_view`).
pub open spec fn cycle_views(files: Seq<FileDeps>, defs: Seq<DepDef>, refs: Seq<DepRef>, cmap: Seq<(NodeId, Vec<NodeId>)>) -> Seq<DiagView>
    decreases defs.len(),
{
    if defs.len() == 0 {
        Seq::empty()
    } else {
        cycle_views(files, defs.drop_last(), refs, cmap) + match cycle_of(cmap, defs.last().node_id) {
            Some(c) => somes(refs.map_values(|x: DepRef| cycle_ref_view(files, c, defs.last().name@, x))),
            None => Seq::empty(),
        }
    }
}

fn find_cycle<'a>(cycle_map: &'a [(NodeId, Vec<NodeId>)], id: &NodeId) -> (r: Option<&'a Vec<NodeId>>)
    ensures
        match r {
            Some(c) => cycle_of(cycle_map@, *id) == Some(c@),
            None => cycle_of(cycle_map@, *id) is None,
        },
{
    let ghost p = |e: (NodeId, Vec<NodeId>)| e.0@ == id@;
    let mut k: usize = 0;
    while k < cycle_map.len()
        invariant
            k <= cycle_map@.len(),
            p == (|e: (NodeId, Vec<NodeId>)| e.0@ == id@),
            forall|j: int| 0 <= j < k ==> !p(#[trigger] cycle_map@[j]),
        decreases cycle_map@.len() - k,
    {
        proof {
            lemma_first_match_step(cycle_map@, p, k as int);
        }
        if cycle_map[k].0.same(id) {
            return Some(&cycle_map[k].1);
        }
        k += 1;
    }
    proof {
        lemma_first_match_none(cycle_map@, p);
    }
    None
}

/// `di/cycle` diagnostics of a file (see `cycle_views`): `defs` and `refs` are the
/// file's dependency definitions and references, `cycle_map` gives the members of the
/// cycle of each node on one, `files` the dependency facts of the workspace.
pub fn cycle_diags(defs: &[DepDef], refs: &[DepRef], cycle_map: &[(NodeId, Vec<NodeId>)], uri: &str, files: &[FileDeps]) -> (r: Vec<Diagnostic>)
    ensures
        diag_views(r@) == cycle_views(files@, defs@, refs@, cycle_map@),
{
    let mut out: Vec<Diagnostic> = Vec::new();
    let mut i: usize = 0;
    while i < defs.len()
        invariant
            i <= defs@.len(),
            diag_views(out@) == cycle_views(files@, defs@.take(i as int), refs@, cycle_map@),
        decreases defs@.len() - i,
    {
        let def = &defs[i];
        assert(defs@.take(i + 1).drop_last() =~= defs@.take(i as int));
        let ghost prev = out@;
        match find_cycle(cycle_map, &def.node_id) {
            Some(c) => {
                let mut more = di_cycle_diags_for_member(def.name.as_str(), refs, c.as_slice(), uri, files);
                let ghost mv = more@;
                out.append(&mut more);
                assert(diag_views(out@) =~= diag_views(prev) + diag_views(mv));
            },
            None => {
                assert(cycle_views(files@, defs@.take(i + 1), refs@, cycle_map@) =~= cycle_views(files@, defs@.take(i as int), refs@, cycle_map@));
            },
        }
        i += 1;
    }
    assert(defs@.take(defs@.len() as int) =~= defs@);
    out
}

/// All records of a route index, route by route.
pub open spec fn index_records(ix: Seq<(RouteId, Vec<RouteRecord>)>) -> Seq<RouteRecord>
    decreases ix.len(),
{
    if ix.len() == 0 {
        Seq::empty()
    } else {
        index_records(ix.drop_last()) + ix.last().1@
    }
}

/// All records of a route index, route by route (see `index_records`).
pub fn all_refs(route_index: &RouteIndex) -> (r: Vec<&RouteRecord>)
    ensures
        derefs(r@) == index_records(route_index@),
{
    let mut flat: Vec<&RouteRecord> = Vec::new();
    let mut i: usize = 0;
    while i < route_index.len()
        invariant
            i <= route_index@.len(),
            derefs(flat@) == index_records(route_index@.take(i as int)),
        decreases route_index@.len() - i,
    {
        let recs = &route_index[i].1;
        assert(route_index@.take(i + 1).drop_last() =~= route_index@.take(i as int));
        let ghost base = derefs(flat@);
        let mut j: usize = 0;
        while j < recs.len()
            invariant
                j <= recs@.len(),
                recs == &route_index@[i as int].1,
                derefs(flat@) == base + recs@.take(j as int),
            decreases recs@.len() - j,
        {
            let ghost before = derefs(flat@);
            flat.push(&recs[j]);
            assert(derefs(flat@) =~= before.push(recs@[j as int]));
            assert(recs@.take(j + 1) =~= recs@.take(j as int).push(recs@[j as int]));
            j += 1;
        }
        assert(recs@.take(recs@.len() as int) =~= recs@);
        i += 1;
    }
    assert(route_index@.take(route_index@.len() as int) =~= route_index@);
    flat
}

/// The part of a dotted name after its last `.` (all of it without one).
pub open spec fn after_last_dot(s: Seq<char>) -> Seq<char> {
    match last_index(s, '.') {
        Some(p) => s.skip(p + 1),
        None => s,
    }
}

/// The part of a dotted name after its last `.` (see `after_last_dot`).
pub fn bare_name(s: &str) -> (r: String)
    ensures
        r@ == after_last_dot(s@),
{
    let cs = str_chars(s);
    let mut b = cs.len();
    assert(cs@.take(b as int) =~= cs@);
    while b > 0 && cs[b - 1] != '.'
        invariant
            b <= cs@.len(),
            last_index(cs@, '.') == last_index(cs@.take(b as int), '.'),
        decreases b,
    {
        assert(cs@.take(b as int).drop_last() =~= cs@.take(b - 1));
        b -= 1;
    }
    if b == 0 {
        string_from_chars(cs.as_slice())
    } else {
        assert(cs@.take(b as int).last() == '.');
        let t = crate::text::slice_chars(&cs, b, cs.len());
        assert(t@ =~= cs@.skip(b as int));
        string_from_chars(t.as_slice())
    }
}

/// The model a route declares: its `response_model=`, else its return annotation.
pub open spec fn model_name_of(r: RouteRecord) -> Option<Seq<char>> {
    match r.response_model {
        Some(m) => Some(m@),
        None => match r.return_annotation {
            Some(a) => Some(a@),
            None => None,
        },
    }
}

/// `model/unknown-response-model` for a route of file `uri` whose model (by its last
/// dotted part) is no model of the workspace and not imported, unless the file imports
/// with `*`; at the `response_model=` value when its range is known.
pub open spec fn model_view(r: RouteRecord, uri: Seq<char>, models: Seq<Seq<char>>, imported: Seq<Seq<char>>) -> Option<DiagView> {
    if r.handler.uri@ != uri {
        None
    } else {
        match model_name_of(r) {
            Some(m) => {
                let b = after_last_dot(m);
                if models.contains(b) || imported.contains("*"@) || imported.contains(b) {
                    None
                } else {
                    Some(
                        plain_view(
                            match r.response_model_range {
                                Some(x) => x,
                                None => r.handler.range,
                            },
                            Severity::Hint,
                            "model/unknown-response-model"@,
                            "Unknown response model: "@ + b + "."@,
                        ),
                    )
                }
            },
            None => None,
        }
    }
}

/// `model/unknown-response-model` diagnostics of file `uri` (see `model_view`), for all
/// routes of the index in order, without repeats (see `dedup_views`); `models` are the
/// models of the workspace, `imported` the names the file imports.
pub fn model_unknown_response_model_checks(route_index: &RouteIndex, uri: &str, models: &[String], imported: &[String]) -> (r: Vec<Diagnostic>)
    ensures
        diag_views(r@) == dedup_views(
            somes(index_records(route_index@).map_values(|x: RouteRecord| model_view(x, uri@, string_views(models@), string_views(imported@)))),
        ),
{
    let ghost f = |x: RouteRecord| model_view(x, uri@, string_views(models@), string_views(imported@));
    let all = all_refs(route_index);
    let ghost al = derefs(all@);
    let u: String = uri.to_owned();
    let has_wildcard = contains_str(imported, "*");
    let mut diags: Vec<Diagnostic> = Vec::new();
    let mut i: usize = 0;
    while i < all.len()
        invariant
            i <= al.len(),
            al == derefs(all@),
            u@ == uri@,
            has_wildcard == string_views(imported@).contains("*"@),
            f == (|x: RouteRecord| model_view(x, uri@, string_views(models@), string_views(imported@))),
            diag_views(diags@) == somes(al.take(i as int).map_values(f)),
        decreases al.len() - i,
    {
        let rec: &RouteRecord = all[i];
        assert(al[i as int] == *rec);
        proof {
            assert(al.take(i + 1).map_values(f) =~= al.take(i as int).map_values(f).push(f(al[i as int])));
            assert(al.take(i + 1).map_values(f).drop_last() =~= al.take(i as int).map_values(f));
        }
        let ghost prev = diag_views(diags@);
        if rec.handler.uri == u {
            let model: Option<&String> = match &rec.response_model {
                Some(m) => Some(m),
                None => match &rec.return_annotation {
                    Some(a) => Some(a),
                    None => None,
                },
            };
            match model {
                Some(m) => {
                    let b = bare_name(m.as_str());
                    if !contains_str(models, b.as_str()) && !has_wildcard && !contains_str(imported, b.as_str()) {
                        let range = match rec.response_model_range {
                            Some(x) => x,
                            None => rec.handler.range,
                        };
                        let d = unknown_response_model_diag(b.as_str(), range);
                        proof {
                            lemma_plain(d, range, Severity::Hint, "model/unknown-response-model"@, "Unknown response model: "@ + b@ + "."@);
                        }
                        diags.push(d);
                        assert(diag_views(diags@) =~= prev.push(diag_view(d)));
                    }
                },
                None => {},
            }
        }
        i += 1;
    }
    assert(al.take(al.len() as int) =~= al);
    let ghost ds = diags@;
    let r = dedup_diags(diags);
    proof {
        lemma_dedup_views(ds);
    }
    r
}

/// A template named in a file (`TemplateResponse("name", ...)`).
#[derive(Clone, Debug)]
pub struct TemplateRef {
    pub path: String,
    pub range: Range,
}

/// The template key to suggest for `path`: among the keys within distance 2, the first of
/// least distance.
pub open spec fn best_key(keys: Seq<Seq<char>>, path: Seq<char>) -> Option<int>
    decreases keys.len(),
{
    if keys.len() == 0 {
        None
    } else {
        let prev = best_key(keys.drop_last(), path);
        let d = capped_distance(keys.last(), path);
        if d <= 2 && match prev {
            Some(p) => d < capped_distance(keys[p], path),
            None => true,
        } {
            Some(keys.len() - 1)
        } else {
            prev
        }
    }
}

pub(crate) proof fn lemma_best_key_bound(keys: Seq<Seq<char>>, path: Seq<char>)
    ensures
        best_key(keys, path) matches Some(k) ==> 0 <= k < keys.len() && capped_distance(keys[k], path) <= 2,
    decreases keys.len(),
{
    if keys.len() > 0 {
        lemma_best_key_bound(keys.drop_last(), path);
    }
}

/// `tpl/missing-template` for a template that no template root holds, suggesting the
/// closest key (see `best_key`).
pub open spec fn template_view(t: TemplateRef, keys: Seq<Seq<char>>) -> Option<DiagView> {
    if keys.contains(t.path@) {
        None
    } else {
        Some(
            plain_view(
                t.range,
                Severity::Warning,
                "tpl/missing-template"@,
                missing_template_message(t.path@, match best_key(keys, t.path@) {
                    Some(k) => Some(keys[k]),
                    None => None,
                }),
            ),
        )
    }
}

/// `tpl/missing-template` for the templates of a file; nothing while no template is
/// known (no roots, or the first scan has not finished).
pub open spec fn template_views(templates: Seq<TemplateRef>, keys: Seq<Seq<char>>) -> Seq<DiagView> {
    if keys.len() == 0 {
        Seq::empty()
    } else {
        somes(templates.map_values(|t: TemplateRef| template_view(t, keys)))
    }
}

pub(crate) fn suggest_template(keys: &[String], path: &str) -> (r: Option<usize>)
    ensures
        r matches Some(k) ==> best_key(string_views(keys@), path@) == Some(k as int),
        r is None ==> best_key(string_views(keys@), path@) is None,
{
    let ghost kv = string_views(keys@);
    let mut best: Option<usize> = None;
    let mut best_d: usize = 0;
    let mut i: usize = 0;
    while i < keys.len()
        invariant
            i <= keys@.len(),
            kv == string_views(keys@),
            best matches Some(k) ==> best_key(kv.take(i as int), path@) == Some(k as int) && k < i && best_d == capped_distance(kv[k as int], path@),
            best is None ==> best_key(kv.take(i as int), path@) is None,
        decreases keys@.len() - i,
    {
        let d = edit_distance(keys[i].as_str(), path);
        proof {
            assert(kv.take(i + 1).drop_last() =~= kv.take(i as int));
            assert(kv.take(i + 1).last() == kv[i as int]);
            match best {
                Some(k) => {
                    assert(kv.take(i + 1)[k as int] == kv[k as int]);
                },
                None => {},
            }
        }
        let take = d <= 2 && match best {
            Some(_) => d < best_d,
            None => true,
        };
        if take {
            best = Some(i);
            best_d = d;
        }
        i += 1;
    }
    assert(kv.take(keys@.len() as int) =~= kv);
    best
}

/// `tpl/missing-template` diagnostics of a file (see `template_views`); `keys` are the
/// templates of the workspace's template roots.
pub fn missing_templates(templates: &[TemplateRef], keys: &[String]) -> (r: Vec<Diagnostic>)
    ensures
        diag_views(r@) == template_views(templates@, string_views(keys@)),
{
    let ghost kv = string_views(keys@);
    let ghost f = |t: TemplateRef| template_view(t, kv);
    let mut out: Vec<Diagnostic> = Vec::new();
    if keys.len() == 0 {
        return out;
    }
    let mut i: usize = 0;
    while i < templates.len()
        invariant
            i <= templates@.len(),
            kv == string_views(keys@),
            kv.len() > 0,
            f == (|t: TemplateRef| template_view(t, kv)),
            diag_views(out@) == somes(templates@.take(i as int).map_values(f)),
        decreases templates@.len() - i,
    {
        let t = &templates[i];
        proof {
            assert(templates@.take(i + 1).map_values(f) =~= templates@.take(i as int).map_values(f).push(f(templates@[i as int])));
            assert(templates@.take(i + 1).map_values(f).drop_last() =~= templates@.take(i as int).map_values(f));
        }
        let ghost prev = diag_views(out@);
        if !contains_str(keys, t.path.as_str()) {
            let sugg = suggest_template(keys, t.path.as_str());
            proof {
                lemma_best_key_bound(kv, t.path@);
            }
            let d = match sugg {
                Some(k) => missing_template_diag(t.path.as_str(), Some(keys[k].as_str()), t.range),
                None => missing_template_diag(t.path.as_str(), None, t.range),
            };
            proof {
                lemma_plain(d, t.range, Severity::Warning, "tpl/missing-template"@, missing_template_message(t.path@, match best_key(kv, t.path@) {
                    Some(k) => Some(kv[k]),
                    None => None,
                }));
            }
            out.push(d);
            assert(diag_views(out@) =~= prev.push(diag_view(d)));
        }
        i += 1;
    }
    assert(templates@.take(templates@.len() as int) =~= templates@);
    out
}

/// A `url_for(name, **kwargs)` / `url_path_for(...)` call.
#[derive(Clone, Debug)]
pub struct UrlForSite {
    pub name: String,
    pub kwarg_names: Vec<String>,
    /// The call passes `**kwargs`.
    pub has_splat_kwargs: bool,
    pub range: Range,
    /// The range of the route-name string, when it is a literal.
    pub name_range: Option<Range>,
}

/// The route identifiers registered under `name`: the first entry for it.
pub open spec fn names_get(rn: Seq<(String, Vec<RouteId>)>, name: Seq<char>) -> Option<Seq<RouteId>> {
    match first_match(rn, |e: (String, Vec<RouteId>)| e.0@ == name) {
        Some(k) => Some(rn[k].1@),
        None => None,
    }
}

/// A record whose parameters `url_for` can be checked against: resolved and not a mount.
pub open spec fn checkable(r: RouteRecord) -> bool {
    r.resolved_path is Resolved && r.method != Method::Mount
}

/// The first checkable record of the first route in `ids` that has one.
pub open spec fn first_checkable(ix: Seq<(RouteId, Vec<RouteRecord>)>, ids: Seq<RouteId>) -> Option<RouteRecord>
    decreases ids.len(),
{
    if ids.len() == 0 {
        None
    } else {
        match index_get(ix, ids[0]@) {
            Some(recs) => match first_match(recs, |r: RouteRecord| checkable(r)) {
                Some(j) => Some(recs[j]),
                None => first_checkable(ix, ids.drop_first()),
            },
            None => first_checkable(ix, ids.drop_first()),
        }
    }
}

/// The elements of `s` not in `excluded`, each once, in order of first occurrence.
pub open spec fn new_names(s: Seq<Seq<char>>, excluded: Seq<Seq<char>>) -> Seq<Seq<char>>
    decreases s.len(),
{
    if s.len() == 0 {
        Seq::empty()
    } else {
        let prev = new_names(s.drop_last(), excluded);
        if excluded.contains(s.last()) || prev.contains(s.last()) {
            prev
        } else {
            prev.push(s.last())
        }
    }
}

/// `url/unknown-name` for a call naming no route (unless some route is unresolved), and
/// `url/param-mismatch` for a call without `**kwargs` whose keyword arguments differ from
/// the path parameters of the route's first checkable record.
pub open spec fn url_view(site: UrlForSite, ix: Seq<(RouteId, Vec<RouteRecord>)>, rn: Seq<(String, Vec<RouteId>)>, has_unresolved_routes: bool) -> Option<DiagView> {
    if site.name@.len() == 0 {
        None
    } else {
        match names_get(rn, site.name@) {
            None => if has_unresolved_routes {
                None
            } else {
                Some(plain_view(site.range, Severity::Warning, "url/unknown-name"@, "Unknown route name: "@ + site.name@ + "."@))
            },
            Some(ids) => if site.has_splat_kwargs {
                None
            } else {
                match first_checkable(ix, ids) {
                    Some(rec) => {
                        let expected = path_names(rec);
                        let provided = string_views(site.kwarg_names@);
                        let missing = new_names(expected, provided);
                        let extra = new_names(provided, expected);
                        if missing.len() == 0 && extra.len() == 0 {
                            None
                        } else {
                            Some(plain_view(site.range, Severity::Warning, "url/param-mismatch"@, param_mismatch_message(site.name@, missing, extra)))
                        }
                    },
                    None => None,
                }
            },
        }
    }
}

pub(crate) fn names_lookup<'a>(rn: &'a [(String, Vec<RouteId>)], name: &String) -> (r: Option<&'a Vec<RouteId>>)
    ensures
        match r {
            Some(v) => names_get(rn@, name@) == Some(v@),
            None => names_get(rn@, name@) is None,
        },
{
    let ghost p = |e: (String, Vec<RouteId>)| e.0@ == name@;
    let mut k: usize = 0;
    while k < rn.len()
        invariant
            k <= rn@.len(),
            p == (|e: (String, Vec<RouteId>)| e.0@ == name@),
            forall|j: int| 0 <= j < k ==> !p(#[trigger] rn@[j]),
        decreases rn@.len() - k,
    {
        proof {
            lemma_first_match_step(rn@, p, k as int);
        }
        if rn[k].0 == *name {
            return Some(&rn[k].1);
        }
        k += 1;
    }
    proof {
        lemma_first_match_none(rn@, p);
    }
    None
}

fn is_checkable(r: &RouteRecord) -> (b: bool)
    ensures
        b == checkable(*r),
{
    let resolved = match &r.resolved_path {
        ResolvedPath::Resolved(_) => true,
        ResolvedPath::Unresolved => false,
    };
    resolved && r.method != Method::Mount
}

fn find_checkable<'a>(route_index: &'a RouteIndex, ids: &[RouteId]) -> (r: Option<&'a RouteRecord>)
    ensures
        match r {
            Some(x) => first_checkable(route_index@, ids@) == Some(*x),
            None => first_checkable(route_index@, ids@) is None,
        },
{
    let mut i: usize = 0;
    assert(ids@.skip(0) =~= ids@);
    while i < ids.len()
        invariant
            i <= ids@.len(),
            first_checkable(route_index@, ids@) == first_checkable(route_index@, ids@.skip(i as int)),
        decreases ids@.len() - i,
    {
        assert(ids@.skip(i as int).drop_first() =~= ids@.skip(i + 1));
        assert(ids@.skip(i as int)[0] == ids@[i as int]);
        match index_lookup(route_index, &ids[i]) {
            Some(recs) => {
                let ghost p = |r: RouteRecord| checkable(r);
                let mut j: usize = 0;
                while j < recs.len()
                    invariant
                        j <= recs@.len(),
                        i < ids@.len(),
                        index_get(route_index@, ids@[i as int]@) == Some(recs@),
                        first_checkable(route_index@, ids@) == first_checkable(route_index@, ids@.skip(i as int)),
                        ids@.skip(i as int)[0] == ids@[i as int],
                        p == (|r: RouteRecord| checkable(r)),
                        forall|m: int| 0 <= m < j ==> !p(#[trigger] recs@[m]),
                    decreases recs@.len() - j,
                {
                    proof {
                        lemma_first_match_step(recs@, p, j as int);
                    }
                    if is_checkable(&recs[j]) {
                        return Some(&recs[j]);
                    }
                    j += 1;
                }
                proof {
                    lemma_first_match_none(recs@, p);
                }
            },
            None => {},
        }
        i += 1;
    }
    None
}

/// The elements of `s` not in `excluded`, each once, in order (see `new_names`).
fn collect_new<'a>(s: &'a [String], excluded: &[String]) -> (r: Vec<&'a str>)
    ensures
        name_views(r@) == new_names(string_views(s@), string_views(excluded@)),
{
    let ghost sv = string_views(s@);
    let ghost ev = string_views(excluded@);
    let mut out: Vec<&str> = Vec::new();
    let mut kept: Vec<String> = Vec::new();
    let mut i: usize = 0;
    while i < s.len()
        invariant
            i <= s@.len(),
            sv == string_views(s@),
            ev == string_views(excluded@),
            name_views(out@) == new_names(sv.take(i as int), ev),
            string_views(kept@) == name_views(out@),
        decreases s@.len() - i,
    {
        assert(sv.take(i + 1).drop_last() =~= sv.take(i as int));
        assert(sv.take(i + 1).last() == s@[i as int]@);
        if !contains_str(excluded, s[i].as_str()) && !contains_str(kept.as_slice(), s[i].as_str()) {
            let ghost before = name_views(out@);
            out.push(s[i].as_str());
            kept.push(s[i].clone());
            assert(name_views(out@) =~= before.push(s@[i as int]@));
            assert(string_views(kept@) =~= name_views(out@));
        }
        i += 1;
    }
    assert(sv.take(s@.len() as int) =~= sv);
    out
}

fn param_name_strings(rec: &RouteRecord) -> (r: Vec<String>)
    ensures
        string_views(r@) == path_names(*rec),
{
    let mut out: Vec<String> = Vec::new();
    let mut i: usize = 0;
    while i < rec.path_params.len()
        invariant
            i <= rec.path_params@.len(),
            string_views(out@) == path_names(*rec).take(i as int),
        decreases rec.path_params@.len() - i,
    {
        let ghost before = string_views(out@);
        out.push(rec.path_params[i].name.clone());
        assert(string_views(out@) =~= before.push(rec.path_params@[i as int].name@));
        assert(path_names(*rec).take(i + 1) =~= path_names(*rec).take(i as int).push(rec.path_params@[i as int].name@));
        i += 1;
    }
    assert(path_names(*rec).take(rec.path_params@.len() as int) =~= path_names(*rec));
    out
}

/// `url/unknown-name` and `url/param-mismatch` diagnostics for the `url_for` calls of a
/// file, in order (see `url_view`); `route_names` lists the routes under each name.
pub fn url_for_checks(sites: &[UrlForSite], route_index: &RouteIndex, route_names: &[(String, Vec<RouteId>)], has_unresolved_routes: bool) -> (r: Vec<Diagnostic>)
    ensures
        diag_views(r@) == somes(sites@.map_values(|x: UrlForSite| url_view(x, route_index@, route_names@, has_unresolved_routes))),
{
    let ghost f = |x: UrlForSite| url_view(x, route_index@, route_names@, has_unresolved_routes);
    let mut out: Vec<Diagnostic> = Vec::new();
    let mut i: usize = 0;
    while i < sites.len()
        invariant
            i <= sites@.len(),
            f == (|x: UrlForSite| url_view(x, route_index@, route_names@, has_unresolved_routes)),
            diag_views(out@) == somes(sites@.take(i as int).map_values(f)),
        decreases sites@.len() - i,
    {
        let site = &sites[i];
        proof {
            assert(sites@.take(i + 1).map_values(f) =~= sites@.take(i as int).map_values(f).push(f(sites@[i as int])));
            assert(sites@.take(i + 1).map_values(f).drop_last() =~= sites@.take(i as int).map_values(f));
        }
        let ghost prev = diag_views(out@);
        if !site.name.as_str().is_empty() {
            match names_lookup(route_names, &site.name) {
                None => {
                    if !has_unresolved_routes {
                        let d = url_unknown_name_diag(site.name.as_str(), site.range);
                        proof {
                            lemma_plain(d, site.range, Severity::Warning, "url/unknown-name"@, "Unknown route name: "@ + site.name@ + "."@);
                        }
                        out.push(d);
                        assert(diag_views(out@) =~= prev.push(diag_view(d)));
                    }
                },
                Some(ids) => {
                    if !site.has_splat_kwargs {
                        match find_checkable(route_index, ids.as_slice()) {
                            Some(rec) => {
                                let expected = param_name_strings(rec);
                                let missing = collect_new(expected.as_slice(), site.kwarg_names.as_slice());
                                let extra = collect_new(site.kwarg_names.as_slice(), expected.as_slice());
                                if missing.len() > 0 || extra.len() > 0 {
                                    let d = url_param_mismatch_diag(site.name.as_str(), missing.as_slice(), extra.as_slice(), site.range);
                                    proof {
                                        lemma_plain(d, site.range, Severity::Warning, "url/param-mismatch"@,
                                            param_mismatch_message(site.name@, name_views(missing@), name_views(extra@)));
                                    }
                                    out.push(d);
                                    assert(diag_views(out@) =~= prev.push(diag_view(d)));
                                }
                            },
                            None => {},
                        }
                    }
                },
            }
        }
        i += 1;
    }
    assert(sites@.take(sites@.len() as int) =~= sites@);
    out
}

/// A path written in a file: an OAuth2 `tokenUrl`/`authorizationUrl`, or the path of a
/// test-client call.
#[derive(Clone, Debug)]
pub struct PathSite {
    pub path: String,
    pub range: Range,
}

/// Some record of the list is resolved to exactly `path`.
pub open spec fn serves_path(recs: Seq<RouteRecord>, path: Seq<char>) -> bool {
    exists|k: int| 0 <= k < recs.len() && ((#[trigger] recs[k]).resolved_path matches ResolvedPath::Resolved(p) && p@ == path)
}

/// `oauth2/unknown-token-url` for an OAuth2 URL that no route serves.
pub open spec fn token_view(site: PathSite, recs: Seq<RouteRecord>) -> Option<DiagView> {
    if serves_path(recs, site.path@) {
        None
    } else {
        Some(plain_view(site.range, Severity::Warning, "oauth2/unknown-token-url"@, "no route matches OAuth2 URL `"@ + site.path@ + "`"@))
    }
}

/// `oauth2/unknown-token-url` for the OAuth2 URLs of a file; nothing while some route is
/// unresolved.
pub open spec fn token_views(sites: Seq<PathSite>, ix: Seq<(RouteId, Vec<RouteRecord>)>, has_unresolved_routes: bool) -> Seq<DiagView> {
    if has_unresolved_routes {
        Seq::empty()
    } else {
        somes(sites.map_values(|x: PathSite| token_view(x, index_records(ix))))
    }
}

fn route_serves(all: &Vec<&RouteRecord>, path: &String) -> (b: bool)
    ensures
        b == serves_path(derefs(all@), path@),
{
    let ghost al = derefs(all@);
    let mut i: usize = 0;
    while i < all.len()
        invariant
            i <= al.len(),
            al == derefs(all@),
            forall|k: int| 0 <= k < i ==> !((#[trigger] al[k]).resolved_path matches ResolvedPath::Resolved(p) && p@ == path@),
        decreases al.len() - i,
    {
        let r: &RouteRecord = all[i];
        assert(al[i as int] == *r);
        match &r.resolved_path {
            ResolvedPath::Resolved(p) => {
                if *p == *path {
                    return true;
                }
            },
            ResolvedPath::Unresolved => {},
        }
        i += 1;
    }
    false
}

/// `oauth2/unknown-token-url` diagnostics (see `token_views`).
pub fn unknown_token_urls(sites: &[PathSite], route_index: &RouteIndex, has_unresolved_routes: bool) -> (r: Vec<Diagnostic>)
    ensures
        diag_views(r@) == token_views(sites@, route_index@, has_unresolved_routes),
{
    let mut out: Vec<Diagnostic> = Vec::new();
    if has_unresolved_routes {
        return out;
    }
    let all = all_refs(route_index);
    let ghost recs = index_records(route_index@);
    let ghost f = |x: PathSite| token_view(x, recs);
    let mut i: usize = 0;
    while i < sites.len()
        invariant
            i <= sites@.len(),
            derefs(all@) == recs,
            f == (|x: PathSite| token_view(x, recs)),
            diag_views(out@) == somes(sites@.take(i as int).map_values(f)),
        decreases sites@.len() - i,
    {
        let site = &sites[i];
        proof {
            assert(sites@.take(i + 1).map_values(f) =~= sites@.take(i as int).map_values(f).push(f(sites@[i as int])));
            assert(sites@.take(i + 1).map_values(f).drop_last() =~= sites@.take(i as int).map_values(f));
        }
        let ghost prev = diag_views(out@);
        if !route_serves(&all, &site.path) {
            let d = unknown_token_url_diag(site.path.as_str(), site.range);
            proof {
                lemma_plain(d, site.range, Severity::Warning, "oauth2/unknown-token-url"@, "no route matches OAuth2 URL `"@ + site.path@ + "`"@);
            }
            out.push(d);
            assert(diag_views(out@) =~= prev.push(diag_view(d)));
        }
        i += 1;
    }
    assert(sites@.take(sites@.len() as int) =~= sites@);
    out
}

/// An entry of the call-site index is for the call at `range` in file `uri`.
pub open spec fn at_site(e: ((String, Range), Vec<RouteId>), uri: Seq<char>, range: Range) -> bool {
    e.0.0@ == uri && e.0.1 == range
}

/// The routes matched at a call site: the first entry for (file, range).
pub open spec fn call_matches(index: Seq<((String, Range), Vec<RouteId>)>, uri: Seq<char>, range: Range) -> Option<Seq<RouteId>> {
    match first_match(index, |e: ((String, Range), Vec<RouteId>)| at_site(e, uri, range)) {
        Some(k) => Some(index[k].1@),
        None => None,
    }
}

/// `test/unknown-path` for a test-client call in file `uri` that no route matched.
pub open spec fn test_path_view(call: PathSite, index: Seq<((String, Range), Vec<RouteId>)>, uri: Seq<char>) -> Option<DiagView> {
    let matched = match call_matches(index, uri, call.range) {
        Some(ids) => ids.len() > 0,
        None => false,
    };
    if matched {
        None
    } else {
        Some(plain_view(call.range, Severity::Warning, "test/unknown-path"@, "no route matches `"@ + call.path@ + "`"@))
    }
}

/// `test/unknown-path` for the test-client calls of a file: only when the check is turned
/// on and every route is resolved.
pub open spec fn test_path_views(calls: Seq<PathSite>, index: Seq<((String, Range), Vec<RouteId>)>, uri: Seq<char>, enabled: bool, has_unresolved_routes: bool) -> Seq<DiagView> {
    if !enabled || has_unresolved_routes {
        Seq::empty()
    } else {
        somes(calls.map_values(|x: PathSite| test_path_view(x, index, uri)))
    }
}

fn call_matched(index: &[((String, Range), Vec<RouteId>)], uri: &String, range: Range) -> (b: bool)
    ensures
        b == match call_matches(index@, uri@, range) {
            Some(ids) => ids.len() > 0,
            None => false,
        },
{
    let ghost p = |e: ((String, Range), Vec<RouteId>)| at_site(e, uri@, range);
    let mut k: usize = 0;
    while k < index.len()
        invariant
            k <= index@.len(),
            p == (|e: ((String, Range), Vec<RouteId>)| at_site(e, uri@, range)),
            forall|j: int| 0 <= j < k ==> !p(#[trigger] index@[j]),
        decreases index@.len() - k,
    {
        proof {
            lemma_first_match_step(index@, p, k as int);
        }
        if index[k].0.0 == *uri && index[k].0.1 == range {
            return index[k].1.len() > 0;
        }
        k += 1;
    }
    proof {
        lemma_first_match_none(index@, p);
    }
    false
}

/// `test/unknown-path` diagnostics (see `test_path_views`); `call_site_index` gives the
/// routes matched at each call site.
pub fn unknown_test_paths(calls: &[PathSite], call_site_index: &[((String, Range), Vec<RouteId>)], uri: &str, enabled: bool, has_unresolved_routes: bool) -> (r: Vec<Diagnostic>)
    ensures
        diag_views(r@) == test_path_views(calls@, call_site_index@, uri@, enabled, has_unresolved_routes),
{
    let mut out: Vec<Diagnostic> = Vec::new();
    if !enabled || has_unresolved_routes {
        return out;
    }
    let u: String = uri.to_owned();
    let ghost f = |x: PathSite| test_path_view(x, call_site_index@, uri@);
    let mut i: usize = 0;
    while i < calls.len()
        invariant
            i <= calls@.len(),
            u@ == uri@,
            f == (|x: PathSite| test_path_view(x, call_site_index@, uri@)),
            diag_views(out@) == somes(calls@.take(i as int).map_values(f)),
        decreases calls@.len() - i,
    {
        let call = &calls[i];
        proof {
            assert(calls@.take(i + 1).map_values(f) =~= calls@.take(i as int).map_values(f).push(f(calls@[i as int])));
            assert(calls@.take(i + 1).map_values(f).drop_last() =~= calls@.take(i as int).map_values(f));
        }
        let ghost prev = diag_views(out@);
        if !call_matched(call_site_index, &u, call.range) {
            let d = test_unknown_path_diag(call.path.as_str(), call.range);
            proof {
                lemma_plain(d, call.range, Severity::Warning, "test/unknown-path"@, "no route matches `"@ + call.path@ + "`"@);
            }
            out.push(d);
            assert(diag_views(out@) =~= prev.push(diag_view(d)));
        }
        i += 1;
    }
    assert(calls@.take(calls@.len() as int) =~= calls@);
    out
}

/// What the analysis of one file found in it.
#[derive(Clone, Debug)]
pub struct FileFacts {
    pub uri: String,
    pub env_lookups: Vec<EnvLookup>,
    /// The fields of the file's settings classes, class by class.
    pub settings_fields: Vec<SettingsField>,
    pub dep_defs: Vec<DepDef>,
    pub dep_refs: Vec<DepRef>,
    pub override_sites: Vec<OverrideSite>,
    pub routers: Vec<RouterDecl>,
    pub imported_names: Vec<String>,
    pub templates: Vec<TemplateRef>,
    pub url_for_sites: Vec<UrlForSite>,
    pub security_scheme_sites: Vec<PathSite>,
    pub client_calls: Vec<PathSite>,
}

/// What the diagnostics of a file need to know of the whole workspace.
#[derive(Debug)]
pub struct Workspace {
    /// The dependency facts of every file.
    pub dep_files: Vec<FileDeps>,
    /// Every `include_router` of the workspace.
    pub includes: Vec<IncludeFact>,
    /// The names of all routers and apps.
    pub known_names: Vec<String>,
    /// The route names that some `url_for` call uses.
    pub url_for_names: Vec<String>,
    pub params: ParamFacts,
    pub route_index: RouteIndex,
    /// The keys of the env index.
    pub env_keys: Vec<String>,
    /// The keys declared in env files.
    pub env_file_keys: Vec<String>,
    /// The names known to be dependency functions.
    pub proven_dep_names: Vec<String>,
    /// For each node on a dependency cycle, the members of its cycle.
    pub dep_cycle_map: Vec<(NodeId, Vec<NodeId>)>,
    /// The models of the workspace.
    pub model_names: Vec<String>,
    /// The templates under the template roots.
    pub template_keys: Vec<String>,
    /// The routes under each route name.
    pub route_names: Vec<(String, Vec<RouteId>)>,
    /// The routes matched at each test-client call site.
    pub call_site_index: Vec<((String, Range), Vec<RouteId>)>,
    /// `test/unknown-path` is turned on.
    pub test_unknown_paths: bool,
}

/// Every diagnostic of file `f`, in the order they are published: undefined env keys,
/// missing settings keys, called dependencies, dependency cycles, unused overrides, the
/// cross-route checks, the path-parameter checks, unknown response models, missing
/// templates, `url_for` checks, unknown OAuth2 URLs and unknown test paths.
pub open spec fn compute_views(ws: Workspace, f: FileFacts, ignore: Seq<String>) -> Seq<DiagView> {
    let ix = ws.route_index@;
    let uri = f.uri@;
    let hu = has_unresolved(ix);
    somes(f.env_lookups@.map_values(|l: EnvLookup| undefined_key_view(l, string_views(ws.env_keys@), ignore)))
        + somes(f.settings_fields@.map_values(|x: SettingsField| missing_env_view(x, string_views(ws.env_file_keys@), ignore)))
        + somes(f.dep_refs@.map_values(|x: DepRef| called_view(x, string_views(ws.proven_dep_names@))))
        + cycle_views(ws.dep_files@, f.dep_defs@, f.dep_refs@, ws.dep_cycle_map@)
        + somes(f.override_sites@.map_values(|x: OverrideSite| override_view(x, all_def_names(ws.dep_files@))))
        + cross_route_views(ix, f.routers@, ws.includes@, string_views(ws.known_names@), string_views(ws.url_for_names@), uri, hu)
        + dedup_views(file_param_views(resolved_records(ix), ws.params, uri))
        + dedup_views(somes(index_records(ix).map_values(|x: RouteRecord| model_view(x, uri, string_views(ws.model_names@), string_views(f.imported_names@)))))
        + template_views(f.templates@, string_views(ws.template_keys@))
        + somes(f.url_for_sites@.map_values(|x: UrlForSite| url_view(x, ix, ws.route_names@, hu)))
        + token_views(f.security_scheme_sites@, ix, hu)
        + test_path_views(f.client_calls@, ws.call_site_index@, uri, ws.test_unknown_paths, hu)
}

/// The diagnostics of file `facts` (see `compute_views`); `env_ignore` are the env keys
/// the user ignores.
pub fn compute(ws: &Workspace, facts: &FileFacts, env_ignore: &[String]) -> (r: Vec<Diagnostic>)
    requires
        forall|j: int| 0 <= j < resolved_records(ws.route_index@).len() && in_file(#[trigger] resolved_records(ws.route_index@)[j], facts.uri@)
            ==> columns_fit(resolved_records(ws.route_index@)[j]),
    ensures
        diag_views(r@) == compute_views(*ws, *facts, env_ignore@),
{
    let uri = facts.uri.as_str();
    let hu = any_unresolved(&ws.route_index);
    let mut diags = undefined_env_keys(facts.env_lookups.as_slice(), ws.env_keys.as_slice(), env_ignore);
    let ghost v1 = diag_views(diags@);
    let mut part = missing_settings_env(facts.settings_fields.as_slice(), ws.env_file_keys.as_slice(), env_ignore);
    let ghost p = diag_views(part@);
    diags.append(&mut part);
    assert(diag_views(diags@) =~= v1 + p);
    let ghost v2 = diag_views(diags@);
    let mut part = called_dependencies(facts.dep_refs.as_slice(), ws.proven_dep_names.as_slice());
    let ghost p = diag_views(part@);
    diags.append(&mut part);
    assert(diag_views(diags@) =~= v2 + p);
    let ghost v3 = diag_views(diags@);
    let mut part = cycle_diags(facts.dep_defs.as_slice(), facts.dep_refs.as_slice(), ws.dep_cycle_map.as_slice(), uri, ws.dep_files.as_slice());
    let ghost p = diag_views(part@);
    diags.append(&mut part);
    assert(diag_views(diags@) =~= v3 + p);
    let ghost v4 = diag_views(diags@);
    let mut part = unused_overrides(facts.override_sites.as_slice(), ws.dep_files.as_slice());
    let ghost p = diag_views(part@);
    diags.append(&mut part);
    assert(diag_views(diags@) =~= v4 + p);
    let ghost v5 = diag_views(diags@);
    let mut part = cross_route_diags(&ws.route_index, facts.routers.as_slice(), ws.includes.as_slice(), ws.known_names.as_slice(),
        ws.url_for_names.as_slice(), uri, hu);
    let ghost p = diag_views(part@);
    diags.append(&mut part);
    assert(diag_views(diags@) =~= v5 + p);
    let ghost v6 = diag_views(diags@);
    let mut part = route_param_checks(&ws.route_index, uri, &ws.params);
    let ghost p = diag_views(part@);
    diags.append(&mut part);
    assert(diag_views(diags@) =~= v6 + p);
    let ghost v7 = diag_views(diags@);
    let mut part = model_unknown_response_model_checks(&ws.route_index, uri, ws.model_names.as_slice(), facts.imported_names.as_slice());
    let ghost p = diag_views(part@);
    diags.append(&mut part);
    assert(diag_views(diags@) =~= v7 + p);
    let ghost v8 = diag_views(diags@);
    let mut part = missing_templates(facts.templates.as_slice(), ws.template_keys.as_slice());
    let ghost p = diag_views(part@);
    diags.append(&mut part);
    assert(diag_views(diags@) =~= v8 + p);
    let ghost v9 = diag_views(diags@);
    let mut part = url_for_checks(facts.url_for_sites.as_slice(), &ws.route_index, ws.route_names.as_slice(), hu);
    let ghost p = diag_views(part@);
    diags.append(&mut part);
    assert(diag_views(diags@) =~= v9 + p);
    let ghost v10 = diag_views(diags@);
    let mut part = unknown_token_urls(facts.security_scheme_sites.as_slice(), &ws.route_index, hu);
    let ghost p = diag_views(part@);
    diags.append(&mut part);
    assert(diag_views(diags@) =~= v10 + p);
    let ghost v11 = diag_views(diags@);
    let mut part = unknown_test_paths(facts.client_calls.as_slice(), ws.call_site_index.as_slice(), uri, ws.test_unknown_paths, hu);
    let ghost p = diag_views(part@);
    diags.append(&mut part);
    assert(diag_views(diags@) =~= v11 + p);
    diags
}

proof fn lemma_new_names_hit(s: Seq<Seq<char>>, excluded: Seq<Seq<char>>, k: int)
    requires
        0 <= k < s.len(),
        !excluded.contains(s[k]),
    ensures
        new_names(s, excluded).len() > 0,
    decreases s.len(),
{
    let prev = new_names(s.drop_last(), excluded);
    if k < s.len() - 1 {
        assert(s.drop_last()[k] == s[k]);
        lemma_new_names_hit(s.drop_last(), excluded, k);
    }
}

proof fn lemma_new_names_none(s: Seq<Seq<char>>, excluded: Seq<Seq<char>>)
    requires
        forall|k: int| 0 <= k < s.len() ==> excluded.contains(#[trigger] s[k]),
    ensures
        new_names(s, excluded).len() == 0,
    decreases s.len(),
{
    if s.len() > 0 {
        assert(excluded.contains(s[s.len() - 1]));
        assert forall|k: int| 0 <= k < s.drop_last().len() implies excluded.contains(#[trigger] s.drop_last()[k]) by {
            assert(s.drop_last()[k] == s[k]);
        }
        lemma_new_names_none(s.drop_last(), excluded);
    }
}

/// Law: a `url_for` call without `**kwargs` that names a known route and passes a keyword
/// that is not a path parameter of the route's first checkable record, or leaves out one
/// of its path parameters, gets a `url/param-mismatch` warning on the call, even when
/// nothing else is wrong.
pub proof fn url_for_keyword_mismatch_is_reported(
    site: UrlForSite,
    ix: Seq<(RouteId, Vec<RouteRecord>)>,
    rn: Seq<(String, Vec<RouteId>)>,
    has_unresolved_routes: bool,
    ids: Seq<RouteId>,
    rec: RouteRecord,
    k: int,
)
    requires
        site.name@.len() > 0,
        names_get(rn, site.name@) == Some(ids),
        !site.has_splat_kwargs,
        first_checkable(ix, ids) == Some(rec),
        (0 <= k < site.kwarg_names@.len() && !path_names(rec).contains(site.kwarg_names@[k]@))
            || (0 <= k < path_names(rec).len() && !string_views(site.kwarg_names@).contains(path_names(rec)[k])),
    ensures
        url_view(site, ix, rn, has_unresolved_routes) matches Some(d) && d.0 == site.range && d.1 == Some(Severity::Warning)
            && d.2 == "url/param-mismatch"@,
{
    let expected = path_names(rec);
    let provided = string_views(site.kwarg_names@);
    if 0 <= k < site.kwarg_names@.len() && !expected.contains(site.kwarg_names@[k]@) {
        assert(provided[k] == site.kwarg_names@[k]@);
        lemma_new_names_hit(provided, expected, k);
    } else {
        lemma_new_names_hit(expected, provided, k);
    }
}

/// Law: a `url_for` call whose keywords are exactly the path parameters of the route's
/// first checkable record (each keyword is a parameter and each parameter is passed) gets
/// no diagnostic.
pub proof fn url_for_matching_keywords_pass(
    site: UrlForSite,
    ix: Seq<(RouteId, Vec<RouteRecord>)>,
    rn: Seq<(String, Vec<RouteId>)>,
    has_unresolved_routes: bool,
    ids: Seq<RouteId>,
    rec: RouteRecord,
)
    requires
        names_get(rn, site.name@) == Some(ids),
        first_checkable(ix, ids) == Some(rec),
        forall|k: int| 0 <= k < site.kwarg_names@.len() ==> path_names(rec).contains(#[trigger] site.kwarg_names@[k]@),
        forall|k: int| 0 <= k < path_names(rec).len() ==> string_views(site.kwarg_names@).contains(#[trigger] path_names(rec)[k]),
    ensures
        url_view(site, ix, rn, has_unresolved_routes) is None,
{
    let expected = path_names(rec);
    let provided = string_views(site.kwarg_names@);
    assert forall|k: int| 0 <= k < provided.len() implies expected.contains(#[trigger] provided[k]) by {
        assert(provided[k] == site.kwarg_names@[k]@);
    }
    lemma_new_names_none(provided, expected);
    lemma_new_names_none(expected, provided);
}

} // verus!
