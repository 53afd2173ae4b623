//! Resolving configuration against the workspace root: joining configured paths
//! safely, choosing source and template roots, and locating the root itself.
use vstd::prelude::*;
use crate::config::{
    default_toggles, opt_view, CheckDefaults, CheckModel, FeatureToggles, RawConfig, RawModel,
    dot_env, dot_env_example, dot_env_unittest, client_fixture, async_client_fixture,
};
use crate::text::{
    chars_eq, push_all, split_chars, split_on, str_chars, string_from_chars, string_views, views,
};

verus! {

broadcast use vstd::string::group_string_axioms;

/// A Unix path is absolute when it starts with `/`.
pub open spec fn is_absolute(p: Seq<char>) -> bool {
    p.len() > 0 && p[0] == '/'
}

/// `root.join(p)`: an absolute `p` replaces `root`; otherwise `p` is appended with one
/// separator unless `root` is empty or already ends with `/`.
pub open spec fn path_join(root: Seq<char>, p: Seq<char>) -> Seq<char> {
    if is_absolute(p) {
        p
    } else if root.len() == 0 {
        p
    } else if root.last() == '/' {
        root + p
    } else {
        root + seq!['/'] + p
    }
}

/// Joins `p` onto `root` as `Path::join` does.
pub fn join_path(root: &str, p: &str) -> (r: String)
    ensures
        r@ == path_join(root@, p@),
{
    let rc = str_chars(root);
    let pc = str_chars(p);
    if pc.len() > 0 && pc[0] == '/' {
        return string_from_chars(pc.as_slice());
    }
    let mut out = rc;
    if out.len() > 0 && out[out.len() - 1] != '/' {
        out.push('/');
    }
    push_all(&mut out, pc.as_slice());
    string_from_chars(out.as_slice())
}

/// `..`
pub open spec fn parent_dir() -> Seq<char> {
    seq!['.', '.']
}

/// The result of `safe_join`: `None` for an absolute path or one with a `..` component,
/// `root.join(p)` otherwise.
pub open spec fn safe_join_spec(root: Seq<char>, p: Seq<char>) -> Option<Seq<char>> {
    if is_absolute(p) || split_on(p, '/').contains(parent_dir()) {
        None
    } else {
        Some(path_join(root, p))
    }
}

/// Join `p` onto `root` only if `p` is relative and contains no `..` components.
/// Absolute paths and parent-directory escapes are rejected (path traversal mitigation).
pub fn safe_join(root: &str, p: &str) -> (r: Option<String>)
    ensures
        opt_view(r) == safe_join_spec(root@, p@),
{
    let pc = str_chars(p);
    if pc.len() > 0 && pc[0] == '/' {
        return None;
    }
    let parts = split_chars(pc.as_slice(), '/');
    let ghost pv = views(parts@);
    let dd = vec!['.', '.'];
    assert(dd@ == parent_dir());
    let mut i: usize = 0;
    while i < parts.len()
        invariant
            i <= parts@.len(),
            pv == views(parts@),
            pv == split_on(p@, '/'),
            dd@ == parent_dir(),
            forall|k: int| 0 <= k < i ==> pv[k] != parent_dir(),
        decreases parts@.len() - i,
    {
        if chars_eq(parts[i].as_slice(), dd.as_slice()) {
            assert(pv[i as int] == parent_dir());
            return None;
        }
        i += 1;
    }
    assert(!pv.contains(parent_dir()));
    Some(join_path(root, p))
}

/// The configured paths that are safe to join, joined onto `root`, in order.
pub open spec fn safe_joined_all(root: Seq<char>, ps: Seq<Seq<char>>) -> Seq<Seq<char>>
    decreases ps.len(),
{
    if ps.len() == 0 {
        Seq::empty()
    } else {
        let prev = safe_joined_all(root, ps.drop_last());
        match safe_join_spec(root, ps.last()) {
            Some(j) => prev.push(j),
            None => prev,
        }
    }
}

/// `ps.iter().filter_map(|p| safe_join(root, p)).collect()`.
pub fn safe_join_all(root: &str, ps: &[String]) -> (r: Vec<String>)
    ensures
        string_views(r@) == safe_joined_all(root@, string_views(ps@)),
{
    let ghost sv = string_views(ps@);
    let mut out: Vec<String> = Vec::new();
    let mut i: usize = 0;
    while i < ps.len()
        invariant
            i <= ps@.len(),
            sv == string_views(ps@),
            string_views(out@) == safe_joined_all(root@, sv.take(i as int)),
        decreases ps@.len() - i,
    {
        assert(sv.take(i + 1).drop_last() == sv.take(i as int));
        let ghost before = out@;
        match safe_join(root, ps[i].as_str()) {
            Some(j) => {
                out.push(j);
                assert(string_views(out@) == string_views(before).push(j@));
            },
            None => {},
        }
        i += 1;
    }
    assert(sv.take(ps@.len() as int) == sv);
    out
}

/// Configuration after resolution against the workspace root.
pub struct ResolvedConfig {
    pub workspace_root: String,
    pub entrypoint: Option<String>,
    pub template_roots: Vec<String>,
    pub source_roots: Vec<String>,
    pub env_files: Vec<String>,
    /// Basenames of env files that must declare required BaseSettings fields.
    pub settings_env_files: Vec<String>,
    pub process_env: bool,
    pub process_env_show_values: bool,
    pub client_fixtures: Vec<String>,
    pub env_ignore: Vec<String>,
    pub features: FeatureToggles,
    pub check: CheckDefaults,
}

/// The model of a `ResolvedConfig`.
#[verifier::ext_equal]
pub struct ResolvedModel {
    pub workspace_root: Seq<char>,
    pub entrypoint: Option<Seq<char>>,
    pub template_roots: Seq<Seq<char>>,
    pub source_roots: Seq<Seq<char>>,
    pub env_files: Seq<Seq<char>>,
    pub settings_env_files: Seq<Seq<char>>,
    pub process_env: bool,
    pub process_env_show_values: bool,
    pub client_fixtures: Seq<Seq<char>>,
    pub env_ignore: Seq<Seq<char>>,
    pub features: FeatureToggles,
    pub check: CheckModel,
}

impl View for ResolvedConfig {
    type V = ResolvedModel;

    open spec fn view(&self) -> ResolvedModel {
        ResolvedModel {
            workspace_root: self.workspace_root@,
            entrypoint: opt_view(self.entrypoint),
            template_roots: string_views(self.template_roots@),
            source_roots: string_views(self.source_roots@),
            env_files: string_views(self.env_files@),
            settings_env_files: string_views(self.settings_env_files@),
            process_env: self.process_env,
            process_env_show_values: self.process_env_show_values,
            client_fixtures: string_views(self.client_fixtures@),
            env_ignore: string_views(self.env_ignore@),
            features: self.features,
            check: self.check@,
        }
    }
}

impl ResolvedConfig {
    /// The configuration used when nothing is configured: built-in defaults, unresolved
    /// env file names, every feature on except `test_unknown_paths`.
    pub fn default_for_root(root: String) -> (r: Self)
        ensures
            r@ == (ResolvedModel {
                workspace_root: root@,
                entrypoint: None,
                template_roots: Seq::empty(),
                source_roots: Seq::empty(),
                env_files: seq![dot_env(), dot_env_example()],
                settings_env_files: seq![dot_env(), dot_env_example(), dot_env_unittest()],
                process_env: false,
                process_env_show_values: false,
                client_fixtures: seq![client_fixture(), async_client_fixture()],
                env_ignore: Seq::empty(),
                features: default_toggles(),
                check: CheckModel { only: Seq::empty(), ignore: Seq::empty() },
            }),
    {
        let d = RawConfig::default();
        ResolvedConfig {
            workspace_root: root,
            entrypoint: None,
            template_roots: Vec::new(),
            source_roots: Vec::new(),
            env_files: d.env_files,
            settings_env_files: d.settings_env_files,
            process_env: false,
            process_env_show_values: false,
            client_fixtures: d.client_fixtures,
            env_ignore: Vec::new(),
            features: FeatureToggles::default(),
            check: CheckDefaults::default(),
        }
    }
}

/// What resolution needs to know about the file system.
pub struct RootFacts {
    /// Whether `<root>/src` is a directory.
    pub src_is_dir: bool,
    /// Whether `<root>/templates` is a directory.
    pub templates_is_dir: bool,
    /// Source roots declared in `pyproject.toml` packaging metadata, joined onto the root,
    /// in declaration order (setuptools, Hatch, PDM).
    pub declared_roots: Vec<String>,
    /// Whether each of `declared_roots` is a directory.
    pub declared_is_dir: Vec<bool>,
}

/// Appends each of `extra` that `keep` marks and `base` does not hold yet.
pub open spec fn add_new(base: Seq<Seq<char>>, extra: Seq<Seq<char>>, keep: Seq<bool>) -> Seq<Seq<char>>
    decreases extra.len(),
{
    if extra.len() == 0 {
        base
    } else {
        let prev = add_new(base, extra.drop_last(), keep);
        let i = extra.len() - 1;
        if i < keep.len() && keep[i] && !prev.contains(extra.last()) {
            prev.push(extra.last())
        } else {
            prev
        }
    }
}

fn contains_string(v: &Vec<String>, s: &str) -> (r: bool)
    ensures
        r == string_views(v@).contains(s@),
{
    let sc = str_chars(s);
    let mut i: usize = 0;
    while i < v.len()
        invariant
            i <= v@.len(),
            sc@ == s@,
            forall|k: int| 0 <= k < i ==> v@[k]@ != s@,
        decreases v@.len() - i,
    {
        let vc = str_chars(v[i].as_str());
        if chars_eq(vc.as_slice(), sc.as_slice()) {
            assert(string_views(v@)[i as int] == s@);
            return true;
        }
        i += 1;
    }
    assert forall|k: int| 0 <= k < string_views(v@).len() implies string_views(v@)[k] != s@ by {
        assert(string_views(v@)[k] == v@[k]@);
    }
    false
}

/// Appends each marked extra that is not present yet.
pub fn append_new_dirs(base: &mut Vec<String>, extra: &[String], keep: &[bool])
    ensures
        string_views(final(base)@) == add_new(string_views(old(base)@), string_views(extra@), keep@),
{
    let ghost ev = string_views(extra@);
    let ghost b0 = string_views(base@);
    let mut i: usize = 0;
    while i < extra.len()
        invariant
            i <= extra@.len(),
            ev == string_views(extra@),
            string_views(base@) == add_new(b0, ev.take(i as int), keep@),
        decreases extra@.len() - i,
    {
        assert(ev.take(i + 1).drop_last() == ev.take(i as int));
        assert(ev.take(i + 1).last() == extra@[i as int]@);
        if i < keep.len() && keep[i] && !contains_string(base, extra[i].as_str()) {
            let ghost before = base@;
            let s = string_from_chars(str_chars(extra[i].as_str()).as_slice());
            base.push(s);
            assert(string_views(base@) == string_views(before).push(extra@[i as int]@));
        }
        i += 1;
    }
    assert(ev.take(extra@.len() as int) == ev);
}

pub open spec fn src_name() -> Seq<char> {
    seq!['s', 'r', 'c']
}

pub open spec fn templates_name() -> Seq<char> {
    seq!['t', 'e', 'm', 'p', 'l', 'a', 't', 'e', 's']
}

/// Source roots inferred when none are configured: the root, `<root>/src` when it is a
/// directory, then the declared roots that are directories and not listed yet.
pub open spec fn inferred_roots(root: Seq<char>, src_is_dir: bool, declared: Seq<Seq<char>>, is_dir: Seq<bool>) -> Seq<Seq<char>> {
    let base = if src_is_dir {
        seq![root, path_join(root, src_name())]
    } else {
        seq![root]
    };
    add_new(base, declared, is_dir)
}

/// Resolution of a merged configuration against `root`.
pub open spec fn resolved(root: Seq<char>, raw: RawModel, src_is_dir: bool, templates_is_dir: bool, declared: Seq<Seq<char>>, is_dir: Seq<bool>) -> ResolvedModel {
    ResolvedModel {
        workspace_root: root,
        entrypoint: match raw.entrypoint {
            Some(p) => safe_join_spec(root, p),
            None => None,
        },
        template_roots: if raw.templates.len() == 0 {
            if templates_is_dir { seq![path_join(root, templates_name())] } else { Seq::empty() }
        } else {
            safe_joined_all(root, raw.templates)
        },
        source_roots: if raw.source_roots.len() == 0 {
            inferred_roots(root, src_is_dir, declared, is_dir)
        } else {
            safe_joined_all(root, raw.source_roots)
        },
        env_files: safe_joined_all(root, raw.env_files),
        settings_env_files: raw.settings_env_files,
        process_env: raw.process_env,
        process_env_show_values: raw.process_env_show_values,
        client_fixtures: raw.client_fixtures,
        env_ignore: raw.env_ignore,
        features: match raw.features {
            Some(f) => f,
            None => default_toggles(),
        },
        check: match raw.check {
            Some(c) => c,
            None => CheckModel { only: Seq::empty(), ignore: Seq::empty() },
        },
    }
}

fn literal(cs: Vec<char>) -> (r: String)
    ensures
        r@ == cs@,
{
    string_from_chars(cs.as_slice())
}

/// Resolves a merged configuration against the workspace root.
pub fn resolve(root: &str, raw: RawConfig, facts: &RootFacts) -> (r: ResolvedConfig)
    ensures
        r@ == resolved(root@, raw@, facts.src_is_dir, facts.templates_is_dir,
            string_views(facts.declared_roots@), facts.declared_is_dir@),
{
    let mut roots: Vec<String> = Vec::new();
    roots.push(string_from_chars(str_chars(root).as_slice()));
    assert(string_views(roots@) == seq![root@]);
    if facts.src_is_dir {
        let src = literal(vec!['s', 'r', 'c']);
        assert(src@ == src_name());
        let ghost before = roots@;
        roots.push(join_path(root, src.as_str()));
        assert(string_views(roots@) == string_views(before).push(path_join(root@, src_name())));
    }
    assert(string_views(roots@) == (if facts.src_is_dir {
        seq![root@, path_join(root@, src_name())]
    } else {
        seq![root@]
    }));
    append_new_dirs(&mut roots, facts.declared_roots.as_slice(), facts.declared_is_dir.as_slice());
    let entrypoint = match &raw.entrypoint {
        Some(p) => safe_join(root, p.as_str()),
        None => None,
    };
    let template_roots = if raw.templates.len() == 0 {
        let mut t: Vec<String> = Vec::new();
        if facts.templates_is_dir {
            let name = literal(vec!['t', 'e', 'm', 'p', 'l', 'a', 't', 'e', 's']);
            assert(name@ == templates_name());
            t.push(join_path(root, name.as_str()));
            assert(string_views(t@) == seq![path_join(root@, templates_name())]);
        } else {
            assert(string_views(t@) == Seq::<Seq<char>>::empty());
        }
        t
    } else {
        safe_join_all(root, raw.templates.as_slice())
    };
    let source_roots = if raw.source_roots.len() == 0 {
        roots
    } else {
        safe_join_all(root, raw.source_roots.as_slice())
    };
    let env_files = safe_join_all(root, raw.env_files.as_slice());
    let features = match raw.features {
        Some(f) => f,
        None => FeatureToggles::default(),
    };
    let check = match raw.check {
        Some(c) => c,
        None => CheckDefaults::default(),
    };
    ResolvedConfig {
        workspace_root: string_from_chars(str_chars(root).as_slice()),
        entrypoint,
        template_roots,
        source_roots,
        env_files,
        settings_env_files: raw.settings_env_files,
        process_env: raw.process_env,
        process_env_show_values: raw.process_env_show_values,
        client_fixtures: raw.client_fixtures,
        env_ignore: raw.env.ignore,
        features,
        check,
    }
}

/// The workspace root: the first of `ancestors` (the directory itself, then its parents
/// outwards) that holds `pyproject.toml` or `.git`, or `dir` itself when none does.
pub open spec fn chosen_root(dir: Seq<char>, ancestors: Seq<Seq<char>>, has_marker: Seq<bool>) -> Seq<char>
    decreases ancestors.len(),
{
    if ancestors.len() == 0 {
        dir
    } else if has_marker.len() > 0 && has_marker[0] {
        ancestors[0]
    } else {
        chosen_root(dir, ancestors.drop_first(), if has_marker.len() > 0 { has_marker.drop_first() } else { has_marker })
    }
}

/// Locates the workspace root: the nearest ancestor that has `pyproject.toml` or `.git`,
/// or the (canonical) directory itself.
pub fn find_workspace_root(dir: &str, ancestors: &[String], has_marker: &[bool]) -> (r: String)
    ensures
        r@ == chosen_root(dir@, string_views(ancestors@), has_marker@),
{
    let ghost av = string_views(ancestors@);
    let mut i: usize = 0;
    assert(av.skip(0) == av);
    assert(has_marker@.skip(0) == has_marker@);
    while i < ancestors.len()
        invariant
            i <= ancestors@.len(),
            av == string_views(ancestors@),
            chosen_root(dir@, av, has_marker@) == chosen_root(dir@, av.skip(i as int),
                if i <= has_marker@.len() { has_marker@.skip(i as int) } else { Seq::<bool>::empty() }),
        decreases ancestors@.len() - i,
    {
        let ghost rest = av.skip(i as int);
        let ghost hm = if i <= has_marker@.len() { has_marker@.skip(i as int) } else { Seq::<bool>::empty() };
        assert(rest[0] == ancestors@[i as int]@);
        if i < has_marker.len() && has_marker[i] {
            assert(hm[0] == has_marker@[i as int]);
            return string_from_chars(str_chars(ancestors[i].as_str()).as_slice());
        }
        assert(rest.drop_first() == av.skip(i + 1));
        if i < has_marker.len() {
            assert(hm.drop_first() == has_marker@.skip(i + 1));
            assert(chosen_root(dir@, rest, hm) == chosen_root(dir@, rest.drop_first(), hm.drop_first()));
        } else {
            assert(hm == Seq::<bool>::empty());
            assert(chosen_root(dir@, rest, hm) == chosen_root(dir@, rest.drop_first(), hm));
        }
        i += 1;
    }
    assert(av.skip(i as int).len() == 0);
    string_from_chars(str_chars(dir).as_slice())
}


/// The file-system path of a `file://` URI (the text after the scheme; anything else is
/// taken as a path already).
pub open spec fn uri_path(uri: Seq<char>) -> Seq<char> {
    if crate::text::is_prefix("file://"@, uri) {
        uri.skip(7)
    } else {
        uri
    }
}

/// A file name without its extension: up to its last `.` when that is not its first
/// character.
pub open spec fn stem(name: Seq<char>) -> Seq<char> {
    match crate::params::last_index(name, '.') {
        Some(i) => if i > 0 {
            name.take(i)
        } else {
            name
        },
        None => name,
    }
}

/// The components other than `__init__`, in order.
pub open spec fn drop_init(cs: Seq<Seq<char>>) -> Seq<Seq<char>>
    decreases cs.len(),
{
    if cs.len() == 0 {
        Seq::empty()
    } else {
        drop_init(cs.drop_last()) + if cs.last() == "__init__"@ {
            Seq::empty()
        } else {
            seq![cs.last()]
        }
    }
}

/// The dotted Python module of the file at `uri` relative to workspace `root`
/// (`/project/app/models.py` under `/project` is `app.models`; `__init__` components are
/// dropped); none outside the root or when nothing is left.
pub open spec fn module_of(uri: Seq<char>, root: Seq<char>) -> Option<Seq<char>> {
    let p = uri_path(uri);
    if !crate::text::is_prefix(root + "/"@, p) {
        None
    } else {
        let comps = crate::joining::keep_nonempty(split_on(p.skip(root.len() + 1int), '/'));
        if comps.len() == 0 {
            None
        } else {
            let mods = drop_init(comps.update(comps.len() - 1, stem(comps.last())));
            if mods.len() == 0 {
                None
            } else {
                Some(crate::text::join_with(mods, "."@))
            }
        }
    }
}

fn strip_ext(name: &Vec<char>) -> (r: Vec<char>)
    ensures
        r@ == stem(name@),
{
    let mut b = name.len();
    assert(name@.take(b as int) =~= name@);
    while b > 0 && name[b - 1] != '.'
        invariant
            b <= name@.len(),
            crate::params::last_index(name@, '.') == crate::params::last_index(name@.take(b as int), '.'),
        decreases b,
    {
        assert(name@.take(b as int).drop_last() =~= name@.take(b - 1));
        b -= 1;
    }
    if b > 1 {
        assert(name@.take(b as int).last() == '.');
        crate::text::slice_chars(name.as_slice(), 0, b - 1)
    } else {
        crate::text::slice_chars(name.as_slice(), 0, name.len())
    }
}

/// The dotted module of a file (see `module_of`).
pub fn python_module(uri: &str, root: &str) -> (r: Option<String>)
    ensures
        opt_view(r) == module_of(uri@, root@),
{
    let u = str_chars(uri);
    let scheme = str_chars("file://");
    proof {
        reveal_strlit("file://");
    }
    let p: Vec<char> = if crate::text::starts_with(&u, &scheme) {
        crate::text::slice_chars(&u, 7, u.len())
    } else {
        crate::text::slice_chars(&u, 0, u.len())
    };
    assert(p@ == uri_path(uri@));
    let mut pre = str_chars(root);
    pre.push('/');
    proof {
        reveal_strlit("/");
    }
    assert(pre@ =~= root@ + "/"@);
    if !crate::text::starts_with(&p, &pre) {
        return None;
    }
    let rel = crate::text::slice_chars(&p, pre.len(), p.len());
    let pieces = split_chars(rel.as_slice(), '/');
    let ghost pv = views(pieces@);
    let mut comps: Vec<Vec<char>> = Vec::new();
    let mut i: usize = 0;
    while i < pieces.len()
        invariant
            i <= pieces@.len(),
            pv == views(pieces@),
            views(comps@) == crate::joining::keep_nonempty(pv.take(i as int)),
        decreases pieces@.len() - i,
    {
        assert(pv.take(i + 1).drop_last() =~= pv.take(i as int));
        assert(pv.take(i + 1).last() == pieces@[i as int]@);
        if pieces[i].len() > 0 {
            let ghost before = views(comps@);
            let c = crate::text::slice_chars(pieces[i].as_slice(), 0, pieces[i].len());
            assert(c@ =~= pieces@[i as int]@);
            comps.push(c);
            assert(views(comps@) =~= before.push(pieces@[i as int]@));
        }
        i += 1;
    }
    assert(pv.take(pv.len() as int) =~= pv);
    assert(rel@ =~= p@.skip(root@.len() + 1int));
    if comps.len() == 0 {
        return None;
    }
    let n = comps.len();
    let last = strip_ext(&comps[n - 1]);
    let ghost cv = views(comps@);
    let ghost upd = cv.update(cv.len() - 1, stem(cv.last()));
    let mut mods: Vec<Vec<char>> = Vec::new();
    let mut k: usize = 0;
    let init = str_chars("__init__");
    while k < n
        invariant
            k <= n,
            n == comps@.len(),
            cv == views(comps@),
            last@ == stem(cv.last()),
            init@ == "__init__"@,
            upd == cv.update(cv.len() - 1, stem(cv.last())),
            views(mods@) == drop_init(upd.take(k as int)),
        decreases n - k,
    {
        assert(upd.take(k + 1).drop_last() =~= upd.take(k as int));
        let c: Vec<char> = if k + 1 == n {
            crate::text::slice_chars(last.as_slice(), 0, last.len())
        } else {
            crate::text::slice_chars(comps[k].as_slice(), 0, comps[k].len())
        };
        assert(c@ == upd[k as int]);
        assert(upd.take(k + 1).last() == c@);
        if !chars_eq(c.as_slice(), init.as_slice()) {
            let ghost before = views(mods@);
            mods.push(c);
            assert(views(mods@) =~= before.push(upd[k as int]));
        }
        k += 1;
    }
    assert(upd.take(n as int) =~= upd);
    if mods.len() == 0 {
        return None;
    }
    let dot: Vec<char> = vec!['.'];
    let j = crate::text::join_chars(&mods, dot.as_slice());
    proof {
        reveal_strlit(".");
        assert(dot@ =~= "."@);
    }
    Some(string_from_chars(j.as_slice()))
}

/// The URI of file `name` in the directory of the file at `uri`.
pub open spec fn sibling_of(uri: Seq<char>, name: Seq<char>) -> Seq<char> {
    match crate::params::last_index(uri, '/') {
        Some(i) => uri.take(i + 1) + name,
        None => name,
    }
}

/// The URI of file `name` next to the file at `uri` (see `sibling_of`).
pub fn sibling_uri(uri: &str, name: &str) -> (r: String)
    ensures
        r@ == sibling_of(uri@, name@),
{
    let u = str_chars(uri);
    let mut b = u.len();
    assert(u@.take(b as int) =~= u@);
    while b > 0 && u[b - 1] != '/'
        invariant
            b <= u@.len(),
            crate::params::last_index(u@, '/') == crate::params::last_index(u@.take(b as int), '/'),
        decreases b,
    {
        assert(u@.take(b as int).drop_last() =~= u@.take(b - 1));
        b -= 1;
    }
    let mut out = crate::text::slice_chars(&u, 0, b);
    let n = str_chars(name);
    push_all(&mut out, n.as_slice());
    if b > 0 {
        assert(u@.take(b as int).last() == '/');
    }
    assert(out@ =~= sibling_of(uri@, name@));
    string_from_chars(out.as_slice())
}

} // verus!
