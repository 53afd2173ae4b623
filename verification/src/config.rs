//! Workspace configuration: the raw layers read from `pyproject.toml`,
//! `fastapi-lsp.toml` and initialization options, how they merge, and how the merged
//! result resolves against the workspace root.
use vstd::prelude::*;
use crate::text::{push_all, split_chars, split_on, str_chars, string_from_chars, string_views, views};

verus! {

broadcast use vstd::string::group_string_axioms;

/// `[env]` section: keys never reported as undefined.
pub struct EnvConfig {
    pub ignore: Vec<String>,
}

/// Which editor features are enabled.
#[derive(Clone, Copy, PartialEq, Eq, Debug)]
pub struct FeatureToggles {
    pub diagnostics: bool,
    pub completion: bool,
    pub hover: bool,
    pub code_actions: bool,
    pub inlay_hints: bool,
    pub code_lens: bool,
    pub symbols: bool,
    pub navigation: bool,
    pub document_links: bool,
    pub test_unknown_paths: bool,
}

/// Every toggle on except `test_unknown_paths`.
pub open spec fn default_toggles() -> FeatureToggles {
    FeatureToggles {
        diagnostics: true,
        completion: true,
        hover: true,
        code_actions: true,
        inlay_hints: true,
        code_lens: true,
        symbols: true,
        navigation: true,
        document_links: true,
        test_unknown_paths: false,
    }
}

impl Default for FeatureToggles {
    fn default() -> (r: Self)
        ensures
            r == default_toggles(),
    {
        FeatureToggles {
            diagnostics: true,
            completion: true,
            hover: true,
            code_actions: true,
            inlay_hints: true,
            code_lens: true,
            symbols: true,
            navigation: true,
            document_links: true,
            test_unknown_paths: false,
        }
    }
}

/// `[check]` section: default `--only` / `--ignore` code lists.
pub struct CheckDefaults {
    pub only: Vec<String>,
    pub ignore: Vec<String>,
}

/// The model of a `CheckDefaults`.
#[verifier::ext_equal]
pub struct CheckModel {
    pub only: Seq<Seq<char>>,
    pub ignore: Seq<Seq<char>>,
}

impl View for CheckDefaults {
    type V = CheckModel;

    open spec fn view(&self) -> CheckModel {
        CheckModel { only: string_views(self.only@), ignore: string_views(self.ignore@) }
    }
}

impl Default for CheckDefaults {
    fn default() -> (r: Self)
        ensures
            r@.only.len() == 0,
            r@.ignore.len() == 0,
    {
        CheckDefaults { only: Vec::new(), ignore: Vec::new() }
    }
}

/// One configuration layer as read from a file or from the client.
pub struct RawConfig {
    pub entrypoint: Option<String>,
    pub templates: Vec<String>,
    pub source_roots: Vec<String>,
    pub env_files: Vec<String>,
    /// Env file basenames checked for required BaseSettings fields.
    pub settings_env_files: Vec<String>,
    pub process_env: bool,
    pub process_env_show_values: bool,
    pub client_fixtures: Vec<String>,
    pub env: EnvConfig,
    pub features: Option<FeatureToggles>,
    pub check: Option<CheckDefaults>,
}

/// The model of a `RawConfig`: strings as character sequences.
#[verifier::ext_equal]
pub struct RawModel {
    pub entrypoint: Option<Seq<char>>,
    pub templates: Seq<Seq<char>>,
    pub source_roots: Seq<Seq<char>>,
    pub env_files: Seq<Seq<char>>,
    pub settings_env_files: Seq<Seq<char>>,
    pub process_env: bool,
    pub process_env_show_values: bool,
    pub client_fixtures: Seq<Seq<char>>,
    pub env_ignore: Seq<Seq<char>>,
    pub features: Option<FeatureToggles>,
    pub check: Option<CheckModel>,
}

pub open spec fn opt_view(o: Option<String>) -> Option<Seq<char>> {
    match o {
        Some(s) => Some(s@),
        None => None,
    }
}

impl View for RawConfig {
    type V = RawModel;

    open spec fn view(&self) -> RawModel {
        RawModel {
            entrypoint: opt_view(self.entrypoint),
            templates: string_views(self.templates@),
            source_roots: string_views(self.source_roots@),
            env_files: string_views(self.env_files@),
            settings_env_files: string_views(self.settings_env_files@),
            process_env: self.process_env,
            process_env_show_values: self.process_env_show_values,
            client_fixtures: string_views(self.client_fixtures@),
            env_ignore: string_views(self.env.ignore@),
            features: self.features,
            check: match self.check {
                Some(c) => Some(c@),
                None => None,
            },
        }
    }
}

pub open spec fn dot_env() -> Seq<char> {
    seq!['.', 'e', 'n', 'v']
}

pub open spec fn dot_env_example() -> Seq<char> {
    seq!['.', 'e', 'n', 'v', '.', 'e', 'x', 'a', 'm', 'p', 'l', 'e']
}

pub open spec fn dot_env_unittest() -> Seq<char> {
    seq!['.', 'e', 'n', 'v', '.', 'u', 'n', 'i', 't', 't', 'e', 's', 't']
}

pub open spec fn client_fixture() -> Seq<char> {
    seq!['c', 'l', 'i', 'e', 'n', 't']
}

pub open spec fn async_client_fixture() -> Seq<char> {
    seq!['a', 's', 'y', 'n', 'c', '_', 'c', 'l', 'i', 'e', 'n', 't']
}

/// The built-in defaults: `.env` and `.env.example` as env files, those plus
/// `.env.unittest` as settings env files, `client` / `async_client` as fixtures.
pub open spec fn default_raw() -> RawModel {
    RawModel {
        entrypoint: None,
        templates: Seq::empty(),
        source_roots: Seq::empty(),
        env_files: seq![dot_env(), dot_env_example()],
        settings_env_files: seq![dot_env(), dot_env_example(), dot_env_unittest()],
        process_env: false,
        process_env_show_values: false,
        client_fixtures: seq![client_fixture(), async_client_fixture()],
        env_ignore: Seq::empty(),
        features: None,
        check: None,
    }
}

/// A string holding exactly the given characters.
fn owned(cs: Vec<char>) -> (r: String)
    ensures
        r@ == cs@,
{
    string_from_chars(cs.as_slice())
}

/// The two default env file names.
fn default_env_files() -> (r: Vec<String>)
    ensures
        string_views(r@) == seq![dot_env(), dot_env_example()],
{
    let mut v: Vec<String> = Vec::new();
    v.push(owned(vec!['.', 'e', 'n', 'v']));
    v.push(owned(vec!['.', 'e', 'n', 'v', '.', 'e', 'x', 'a', 'm', 'p', 'l', 'e']));
    assert(string_views(v@) == seq![dot_env(), dot_env_example()]);
    v
}

/// The three default settings env file names.
fn default_settings_env_files() -> (r: Vec<String>)
    ensures
        string_views(r@) == seq![dot_env(), dot_env_example(), dot_env_unittest()],
{
    let mut v = default_env_files();
    let ghost before = v@;
    v.push(owned(vec!['.', 'e', 'n', 'v', '.', 'u', 'n', 'i', 't', 't', 'e', 's', 't']));
    assert(string_views(v@) == string_views(before).push(dot_env_unittest()));
    v
}

/// The two default client fixture names.
fn default_client_fixtures() -> (r: Vec<String>)
    ensures
        string_views(r@) == seq![client_fixture(), async_client_fixture()],
{
    let mut v: Vec<String> = Vec::new();
    v.push(owned(vec!['c', 'l', 'i', 'e', 'n', 't']));
    v.push(owned(vec!['a', 's', 'y', 'n', 'c', '_', 'c', 'l', 'i', 'e', 'n', 't']));
    assert(string_views(v@) == seq![client_fixture(), async_client_fixture()]);
    v
}

impl Default for RawConfig {
    fn default() -> (r: Self)
        ensures
            r@ == default_raw(),
    {
        RawConfig {
            entrypoint: None,
            templates: Vec::new(),
            source_roots: Vec::new(),
            env_files: default_env_files(),
            settings_env_files: default_settings_env_files(),
            process_env: false,
            process_env_show_values: false,
            client_fixtures: default_client_fixtures(),
            env: EnvConfig { ignore: Vec::new() },
            features: None,
            check: None,
        }
    }
}

/// `base` overlaid with `over`: a field of `over` replaces the field of `base` when it is
/// set (`Some`, or a non-empty list); `process_env` / `process_env_show_values` stay on once
/// any layer turns them on; the `check` lists merge one by one.
pub open spec fn merged(base: RawModel, over: RawModel) -> RawModel {
    RawModel {
        entrypoint: if over.entrypoint is Some { over.entrypoint } else { base.entrypoint },
        templates: if over.templates.len() > 0 { over.templates } else { base.templates },
        source_roots: if over.source_roots.len() > 0 { over.source_roots } else { base.source_roots },
        env_files: if over.env_files.len() > 0 { over.env_files } else { base.env_files },
        settings_env_files: if over.settings_env_files.len() > 0 {
            over.settings_env_files
        } else {
            base.settings_env_files
        },
        process_env: base.process_env || over.process_env,
        process_env_show_values: base.process_env_show_values || over.process_env_show_values,
        client_fixtures: if over.client_fixtures.len() > 0 {
            over.client_fixtures
        } else {
            base.client_fixtures
        },
        env_ignore: if over.env_ignore.len() > 0 { over.env_ignore } else { base.env_ignore },
        features: if over.features is Some { over.features } else { base.features },
        check: match over.check {
            None => base.check,
            Some(c) => {
                let b = match base.check {
                    Some(b) => b,
                    None => CheckModel { only: Seq::empty(), ignore: Seq::empty() },
                };
                Some(
                    CheckModel {
                        only: if c.only.len() > 0 { c.only } else { b.only },
                        ignore: if c.ignore.len() > 0 { c.ignore } else { b.ignore },
                    },
                )
            },
        },
    }
}

/// Replaces `slot` with `over` when `over` is non-empty.
fn overlay_list(slot: &mut Vec<String>, over: Vec<String>)
    ensures
        final(slot)@ == if over@.len() > 0 { over@ } else { old(slot)@ },
{
    if over.len() > 0 {
        *slot = over;
    }
}

/// Replaces `slot` with `over` when `over` is set.
fn overlay_opt<T>(slot: &mut Option<T>, over: Option<T>)
    ensures
        *final(slot) == if over is Some { over } else { *old(slot) },
{
    if over.is_some() {
        *slot = over;
    }
}

/// Overlays a `[check]` section.
fn overlay_check(slot: &mut Option<CheckDefaults>, over: Option<CheckDefaults>)
    ensures
        (match *final(slot) {
            Some(c) => Some(c@),
            None => None,
        }) == (match over {
            None => match *old(slot) {
                Some(c) => Some(c@),
                None => None,
            },
            Some(c) => {
                let b = match *old(slot) {
                    Some(b) => b@,
                    None => CheckModel { only: Seq::empty(), ignore: Seq::empty() },
                };
                Some(
                    CheckModel {
                        only: if c@.only.len() > 0 { c@.only } else { b.only },
                        ignore: if c@.ignore.len() > 0 { c@.ignore } else { b.ignore },
                    },
                )
            },
        }),
{
    match over {
        None => {},
        Some(c) => {
            let mut b = match slot.take() {
                Some(b) => b,
                None => CheckDefaults::default(),
            };
            overlay_list(&mut b.only, c.only);
            overlay_list(&mut b.ignore, c.ignore);
            *slot = Some(b);
        },
    }
}

/// Overlays `over` onto `base` (a later, higher-precedence configuration source).
pub fn merge(base: &mut RawConfig, over: RawConfig)
    ensures
        final(base)@ == merged(old(base)@, over@),
{
    overlay_opt(&mut base.entrypoint, over.entrypoint);
    overlay_list(&mut base.templates, over.templates);
    overlay_list(&mut base.source_roots, over.source_roots);
    overlay_list(&mut base.env_files, over.env_files);
    overlay_list(&mut base.settings_env_files, over.settings_env_files);
    // process_env is intentionally sticky: once any source enables it, it stays on
    // (`layer_configs` lets the initialization options force it off).
    base.process_env = base.process_env || over.process_env;
    base.process_env_show_values = base.process_env_show_values || over.process_env_show_values;
    overlay_list(&mut base.client_fixtures, over.client_fixtures);
    overlay_list(&mut base.env.ignore, over.env.ignore);
    overlay_opt(&mut base.features, over.features);
    overlay_check(&mut base.check, over.check);
}

/// An override that sets nothing.
pub open spec fn is_empty_layer(over: RawModel) -> bool {
    &&& over.entrypoint is None
    &&& over.templates.len() == 0
    &&& over.source_roots.len() == 0
    &&& over.env_files.len() == 0
    &&& over.settings_env_files.len() == 0
    &&& !over.process_env
    &&& !over.process_env_show_values
    &&& over.client_fixtures.len() == 0
    &&& over.env_ignore.len() == 0
    &&& over.features is None
    &&& over.check is None
}

/// Merging a layer that sets nothing leaves the configuration unchanged.
pub proof fn merge_empty_layer_is_identity(base: RawModel, over: RawModel)
    requires
        is_empty_layer(over),
    ensures
        merged(base, over) == base,
{
}

/// Merging the same layer twice is the same as merging it once.
pub proof fn merge_is_idempotent(base: RawModel, over: RawModel)
    ensures
        merged(merged(base, over), over) == merged(base, over),
{
}

/// A later layer wins for every list it sets and for the entry point it names.
pub proof fn merge_later_layer_wins(base: RawModel, mid: RawModel, over: RawModel)
    requires
        over.entrypoint is Some,
        over.templates.len() > 0,
    ensures
        merged(merged(base, mid), over).entrypoint == over.entrypoint,
        merged(merged(base, mid), over).templates == over.templates,
{
}

/// The configuration layers in precedence order: defaults, then `[tool.fastapi-lsp]` of
/// `pyproject.toml`, then `[tool.fastapi].entrypoint` when no entry point is set yet, then
/// `fastapi-lsp.toml`, then the client's initialization options. `process_env` stays on
/// once a layer turns it on, except that the initialization options decide it when they
/// set it explicitly (`session_process_env`), which is how a client forces it off.
pub open spec fn layered(
    pyproject: Option<RawModel>,
    fastapi_entrypoint: Option<Seq<char>>,
    own_file: Option<RawModel>,
    session: Option<RawModel>,
    session_process_env: Option<bool>,
) -> RawModel {
    let a = match pyproject {
        Some(p) => merged(default_raw(), p),
        None => default_raw(),
    };
    let b = if a.entrypoint is None && fastapi_entrypoint is Some {
        RawModel { entrypoint: fastapi_entrypoint, ..a }
    } else {
        a
    };
    let c = match own_file {
        Some(o) => merged(b, o),
        None => b,
    };
    let d = match session {
        Some(s) => merged(c, s),
        None => c,
    };
    match session_process_env {
        Some(on) => RawModel { process_env: on, ..d },
        None => d,
    }
}

/// Law: the initialization options can force `process_env` off, whatever the files set.
pub proof fn session_can_force_process_env_off(
    pyproject: Option<RawModel>,
    fastapi_entrypoint: Option<Seq<char>>,
    own_file: Option<RawModel>,
    session: Option<RawModel>,
)
    ensures
        !layered(pyproject, fastapi_entrypoint, own_file, session, Some(false)).process_env,
{
}

/// Combines the configuration layers that were found, highest precedence last;
/// `session_process_env` is the `process_env` the initialization options set explicitly.
pub fn layer_configs(
    pyproject: Option<RawConfig>,
    fastapi_entrypoint: Option<String>,
    own_file: Option<RawConfig>,
    session: Option<RawConfig>,
    session_process_env: Option<bool>,
) -> (r: RawConfig)
    ensures
        r@ == layered(
            match pyproject {
                Some(p) => Some(p@),
                None => None,
            },
            opt_view(fastapi_entrypoint),
            match own_file {
                Some(o) => Some(o@),
                None => None,
            },
            match session {
                Some(s) => Some(s@),
                None => None,
            },
            session_process_env,
        ),
{
    let mut raw = RawConfig::default();
    if let Some(p) = pyproject {
        merge(&mut raw, p);
    }
    if raw.entrypoint.is_none() {
        if let Some(ep) = fastapi_entrypoint {
            raw.entrypoint = Some(ep);
        }
    }
    if let Some(o) = own_file {
        merge(&mut raw, o);
    }
    if let Some(s) = session {
        merge(&mut raw, s);
    }
    if let Some(on) = session_process_env {
        raw.process_env = on;
    }
    raw
}

} // verus!
