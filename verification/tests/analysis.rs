use fastapi_lsp::analysis::{
    compute, di_cycle_diags_for_member, dep_node_name, bare_name, EnvLookup, FileFacts, PathSite, SettingsField,
    TemplateRef, UrlForSite, Workspace,
};
use fastapi_lsp::deps::{DepDef, DepRef, FileDeps, NodeId, OverrideSite};
use fastapi_lsp::params::ParamFacts;
use fastapi_lsp::position::{Location, Position, Range};
use fastapi_lsp::report::{Code, Diagnostic, Severity};
use fastapi_lsp::routing::{Method, PathParam, ResolvedPath, RouteId, RouteRecord};

fn rng(line: u32, a: u32, b: u32) -> Range {
    Range { start: Position { line, character: a }, end: Position { line, character: b } }
}

fn empty_ws() -> Workspace {
    Workspace {
        dep_files: vec![],
        includes: vec![],
        known_names: vec![],
        url_for_names: vec![],
        params: ParamFacts { annotated: vec![], dep_type_aliases: vec![], plain_typed: vec![], dep_params: vec![] },
        route_index: vec![],
        env_keys: vec![],
        env_file_keys: vec![],
        proven_dep_names: vec![],
        dep_cycle_map: vec![],
        model_names: vec![],
        template_keys: vec![],
        route_names: vec![],
        call_site_index: vec![],
        test_unknown_paths: false,
    }
}

fn facts(uri: &str) -> FileFacts {
    FileFacts {
        uri: uri.to_owned(),
        env_lookups: vec![],
        settings_fields: vec![],
        dep_defs: vec![],
        dep_refs: vec![],
        override_sites: vec![],
        routers: vec![],
        imported_names: vec![],
        templates: vec![],
        url_for_sites: vec![],
        security_scheme_sites: vec![],
        client_calls: vec![],
    }
}

fn record(uri: &str, id: &str, name: &str, path: Option<&str>) -> RouteRecord {
    RouteRecord {
        id: RouteId(id.to_owned()),
        ordinal: 0,
        name: name.to_owned(),
        method: Method::Get,
        resolved_path: match path {
            Some(p) => ResolvedPath::Resolved(p.to_owned()),
            None => ResolvedPath::Unresolved,
        },
        decorator_path: path.unwrap_or("/unknown").to_owned(),
        handler: Location { uri: uri.to_owned(), range: Range::default() },
        path_params: vec![],
        response_model: None,
        response_model_range: None,
        return_annotation: None,
        dependencies: vec![],
        path_range: None,
        path_quote_width: None,
        handler_params: vec![],
        handler_param_ranges: vec![],
        handler_has_splat_args: false,
        handler_params_known: true,
        params_insert_pos: None,
        chain: vec![],
        middleware: vec![],
    }
}

fn with_code<'a>(diags: &'a [Diagnostic], code: &str) -> Vec<&'a Diagnostic> {
    diags.iter().filter(|d| d.code == Some(Code::Text(code.to_owned()))).collect()
}

#[test]
fn url_unknown_name_suppressed_when_routes_unresolved() {
    let mut f = facts("file:///app/main.py");
    f.url_for_sites.push(UrlForSite { name: "some_route".to_owned(), kwarg_names: vec![], has_splat_kwargs: false, range: rng(3, 10, 22), name_range: None });
    let mut ws = empty_ws();
    let mut r = record("file:///app/router.py", "app.unknown:GET", "unknown", None);
    r.handler_params_known = false;
    ws.route_index.push((RouteId("app.unknown:GET".to_owned()), vec![r]));
    let diags = compute(&ws, &f, &[]);
    assert!(with_code(&diags, "url/unknown-name").is_empty(), "url/unknown-name should be suppressed when routes are unresolved");
}

#[test]
fn url_unknown_name_fires_when_routes_resolved() {
    let mut f = facts("file:///app/main.py");
    f.url_for_sites.push(UrlForSite { name: "some_route".to_owned(), kwarg_names: vec![], has_splat_kwargs: false, range: rng(3, 10, 22), name_range: None });
    let diags = compute(&empty_ws(), &f, &[]);
    let url = with_code(&diags, "url/unknown-name");
    assert_eq!(url.len(), 1);
    assert_eq!(url[0].message, "Unknown route name: some_route.");
    assert_eq!(url[0].range, rng(3, 10, 22));
}

fn get_book_ws(uri: &str) -> Workspace {
    let mut ws = empty_ws();
    let rid = RouteId("app.get_book:GET".to_owned());
    ws.route_names.push(("get_book".to_owned(), vec![rid.clone()]));
    let mut r = record(uri, "app.get_book:GET", "get_book", Some("/books/{book_id}"));
    r.path_params = vec![PathParam { name: "book_id".to_owned(), converter: "int".to_owned() }];
    r.handler_params_known = false;
    ws.route_index.push((rid, vec![r]));
    ws
}

#[test]
fn url_param_mismatch_suppressed_with_splat_kwargs() {
    let uri = "file:///app/main.py";
    let mut f = facts(uri);
    f.url_for_sites.push(UrlForSite { name: "get_book".to_owned(), kwarg_names: vec![], has_splat_kwargs: true, range: rng(2, 8, 28), name_range: None });
    let diags = compute(&get_book_ws(uri), &f, &[]);
    assert!(with_code(&diags, "url/param-mismatch").is_empty(), "url/param-mismatch should be suppressed when **splat kwargs present");
}

#[test]
fn url_param_mismatch_reports_missing_and_extra() {
    let uri = "file:///app/main.py";
    let mut f = facts(uri);
    f.url_for_sites.push(UrlForSite {
        name: "get_book".to_owned(),
        kwarg_names: vec!["author_id".to_owned(), "author_id".to_owned()],
        has_splat_kwargs: false,
        range: rng(2, 8, 28),
        name_range: None,
    });
    let diags = compute(&get_book_ws(uri), &f, &[]);
    let m = with_code(&diags, "url/param-mismatch");
    assert_eq!(m.len(), 1);
    assert_eq!(m[0].message, "Wrong url_for arguments for get_book: missing: book_id; extra: author_id.");
}

fn model_route(uri: &str, response_model: Option<&str>, annotation: Option<&str>) -> Workspace {
    let mut ws = empty_ws();
    let mut r = record(uri, "Book:GET", "Book", Some("/book"));
    r.response_model = response_model.map(|s| s.to_owned());
    r.return_annotation = annotation.map(|s| s.to_owned());
    ws.route_index.push((RouteId("Book:GET".to_owned()), vec![r]));
    ws
}

#[test]
fn unknown_response_model_fires_when_not_in_index_or_imports() {
    let diags = compute(&model_route("file:///a.py", Some("Book"), None), &facts("file:///a.py"), &[]);
    assert!(!with_code(&diags, "model/unknown-response-model").is_empty(), "should fire when model is not in index or imports");
}

#[test]
fn unknown_response_model_suppressed_when_in_model_index() {
    let mut ws = model_route("file:///a.py", Some("Book"), None);
    ws.model_names.push("Book".to_owned());
    let diags = compute(&ws, &facts("file:///a.py"), &[]);
    assert!(with_code(&diags, "model/unknown-response-model").is_empty(), "model in index suppresses diagnostic");
}

#[test]
fn unknown_response_model_suppressed_when_imported() {
    let mut f = facts("file:///a.py");
    f.imported_names.push("Book".to_owned());
    let diags = compute(&model_route("file:///a.py", Some("Book"), None), &f, &[]);
    assert!(with_code(&diags, "model/unknown-response-model").is_empty(), "imported name suppresses diagnostic");
}

#[test]
fn unknown_response_model_suppressed_by_wildcard_import() {
    let mut f = facts("file:///a.py");
    f.imported_names.push("*".to_owned());
    let diags = compute(&model_route("file:///a.py", Some("Book"), None), &f, &[]);
    assert!(with_code(&diags, "model/unknown-response-model").is_empty(), "wildcard import suppresses diagnostic");
}

#[test]
fn return_annotation_fires_when_not_in_index_or_imports() {
    let diags = compute(&model_route("file:///a.py", None, Some("Book")), &facts("file:///a.py"), &[]);
    assert_eq!(with_code(&diags, "model/unknown-response-model").len(), 1, "return annotation fires when model not found");
}

#[test]
fn return_annotation_suppressed_when_in_model_index() {
    let mut ws = model_route("file:///a.py", None, Some("Book"));
    ws.model_names.push("Book".to_owned());
    let diags = compute(&ws, &facts("file:///a.py"), &[]);
    assert!(with_code(&diags, "model/unknown-response-model").is_empty(), "return annotation suppressed when model in index");
}

#[test]
fn return_annotation_suppressed_when_imported() {
    let mut f = facts("file:///a.py");
    f.imported_names.push("Book".to_owned());
    let diags = compute(&model_route("file:///a.py", None, Some("Book")), &f, &[]);
    assert!(with_code(&diags, "model/unknown-response-model").is_empty(), "return annotation suppressed when name is imported");
}

#[test]
fn response_model_kwarg_takes_precedence_over_return_annotation() {
    let diags = compute(&model_route("file:///a.py", Some("Book"), Some("Author")), &facts("file:///a.py"), &[]);
    let model_diags = with_code(&diags, "model/unknown-response-model");
    assert_eq!(model_diags.len(), 1);
    assert!(model_diags[0].message.contains("Book"), "diagnostic names the kwarg model, not the annotation");
}

#[test]
fn dotted_response_model_checked_by_last_part() {
    let mut ws = model_route("file:///a.py", Some("schemas.Book"), None);
    let diags = compute(&ws, &facts("file:///a.py"), &[]);
    assert_eq!(with_code(&diags, "model/unknown-response-model")[0].message, "Unknown response model: Book.");
    ws.model_names.push("Book".to_owned());
    let diags = compute(&ws, &facts("file:///a.py"), &[]);
    assert!(with_code(&diags, "model/unknown-response-model").is_empty());
    assert_eq!(bare_name("a.b.C"), "C");
    assert_eq!(bare_name("C"), "C");
}

fn tpl_range() -> Range {
    rng(3, 10, 24)
}

fn tpl_facts(path: &str) -> FileFacts {
    let mut f = facts("file:///app.py");
    f.templates.push(TemplateRef { path: path.to_owned(), range: tpl_range() });
    f
}

#[test]
fn compute_fires_missing_template_when_roots_present() {
    let mut ws = empty_ws();
    ws.template_keys.push("index.html".to_owned());
    let diags = compute(&ws, &tpl_facts("missing.html"), &[]);
    let tpl = with_code(&diags, "tpl/missing-template");
    assert_eq!(tpl.len(), 1);
    assert!(tpl[0].message.contains("missing.html"));
}

#[test]
fn compute_suppressed_when_no_template_roots() {
    let diags = compute(&empty_ws(), &tpl_facts("missing.html"), &[]);
    assert!(with_code(&diags, "tpl/missing-template").is_empty(), "must not fire when no template roots configured");
}

#[test]
fn compute_no_diag_when_template_found() {
    let mut ws = empty_ws();
    ws.template_keys.push("index.html".to_owned());
    let diags = compute(&ws, &tpl_facts("index.html"), &[]);
    assert!(with_code(&diags, "tpl/missing-template").is_empty(), "no diag when template is in index");
}

#[test]
fn compute_includes_near_miss_suggestion() {
    let mut ws = empty_ws();
    ws.template_keys.push("book_list.html".to_owned());
    let diags = compute(&ws, &tpl_facts("book_lst.html"), &[]);
    let tpl = with_code(&diags, "tpl/missing-template");
    assert_eq!(tpl.len(), 1);
    assert!(tpl[0].message.contains("book_list.html"), "suggestion in message");
    assert!(tpl[0].message.contains("Did you mean"));
}

#[test]
fn missing_template_suggests_first_closest_key() {
    let mut ws = empty_ws();
    ws.template_keys = vec!["book_lisst.html".to_owned(), "bok_lst.html".to_owned(), "book_list.html".to_owned()];
    let diags = compute(&ws, &tpl_facts("book_lst.html"), &[]);
    assert_eq!(with_code(&diags, "tpl/missing-template")[0].message, "Template not found: book_lst.html. Did you mean bok_lst.html?");
}

#[test]
fn env_lookup_without_default_is_reported_unless_known() {
    let mut f = facts("file:///app.py");
    f.env_lookups = vec![
        EnvLookup { key: "DATABASE_URL".to_owned(), has_default: false, key_range: rng(1, 0, 12), replace_range: rng(1, 0, 12) },
        EnvLookup { key: "database_url".to_owned(), has_default: false, key_range: rng(2, 0, 12), replace_range: rng(2, 0, 12) },
        EnvLookup { key: "OTHER".to_owned(), has_default: true, key_range: rng(3, 0, 5), replace_range: rng(3, 0, 5) },
        EnvLookup { key: "path".to_owned(), has_default: false, key_range: rng(4, 0, 4), replace_range: rng(4, 0, 4) },
        EnvLookup { key: "MY_TOKEN".to_owned(), has_default: false, key_range: rng(5, 0, 8), replace_range: rng(5, 0, 8) },
    ];
    let mut ws = empty_ws();
    ws.env_keys.push("DATABASE_URL".to_owned());
    let diags = compute(&ws, &f, &["my_token".to_owned()]);
    let env = with_code(&diags, "env/undefined-key");
    assert!(env.is_empty(), "got {:?}", env);
    let diags = compute(&empty_ws(), &f, &[]);
    let env = with_code(&diags, "env/undefined-key");
    assert_eq!(env.len(), 3);
    assert_eq!(env[0].message, "Undefined env key: DATABASE_URL.");
    assert_eq!(env[0].severity, Some(Severity::Information));
    assert_eq!(env[2].range, rng(5, 0, 8));
}

#[test]
fn settings_field_without_default_needs_declared_key() {
    let mut f = facts("file:///settings.py");
    f.settings_fields = vec![
        SettingsField { env_key: Some("SECRET".to_owned()), has_default: false, range: rng(4, 4, 10) },
        SettingsField { env_key: Some("DEBUG".to_owned()), has_default: true, range: rng(5, 4, 9) },
        SettingsField { env_key: None, has_default: false, range: rng(6, 4, 9) },
        SettingsField { env_key: Some("HOME".to_owned()), has_default: false, range: rng(7, 4, 8) },
    ];
    let diags = compute(&empty_ws(), &f, &[]);
    let s = with_code(&diags, "settings/env-key-missing");
    assert_eq!(s.len(), 1);
    assert_eq!(s[0].message, "Required env key undeclared: SECRET.");
    let mut ws = empty_ws();
    ws.env_file_keys.push("SECRET".to_owned());
    assert!(with_code(&compute(&ws, &f, &[]), "settings/env-key-missing").is_empty());
}

fn node(uri: &str, line: u32) -> NodeId {
    NodeId { uri: uri.to_owned(), range: rng(line, 0, 5) }
}

fn dep_ref(name: &str, func: Option<&str>, line: u32, called: bool) -> DepRef {
    DepRef { name: name.to_owned(), caller_node_id: None, containing_func: func.map(|s| s.to_owned()), range: rng(line, 10, 20), is_called: called, callee_range: None }
}

#[test]
fn depends_called_fires_for_proven_dependency() {
    let mut f = facts("file:///app.py");
    f.dep_refs = vec![dep_ref("get_db", None, 3, true), dep_ref("helper", None, 4, true), dep_ref("get_db", None, 5, false)];
    let mut ws = empty_ws();
    ws.proven_dep_names.push("get_db".to_owned());
    let diags = compute(&ws, &f, &[]);
    let c = with_code(&diags, "di/depends-called");
    assert_eq!(c.len(), 1);
    assert_eq!(c[0].range, rng(3, 10, 20));
    assert_eq!(c[0].severity, Some(Severity::Error));
}

#[test]
fn override_of_unknown_dependency_is_unused() {
    let mut f = facts("file:///tests/conftest.py");
    f.override_sites = vec![
        OverrideSite { name: "get_db".to_owned(), range: rng(2, 0, 6) },
        OverrideSite { name: "get_dbb".to_owned(), range: rng(3, 0, 7) },
        OverrideSite { name: "".to_owned(), range: rng(4, 0, 0) },
    ];
    let mut ws = empty_ws();
    ws.dep_files.push(FileDeps {
        uri: "file:///app.py".to_owned(),
        dep_defs: vec![DepDef { name: "get_db".to_owned(), node_id: node("file:///app.py", 1) }],
        dep_refs: vec![],
        override_sites: vec![],
    });
    let diags = compute(&ws, &f, &[]);
    let o = with_code(&diags, "di/override-unused");
    assert_eq!(o.len(), 1);
    assert_eq!(o[0].message, "Unused dependency override: get_dbb.");
}

fn cycle_ws() -> (Workspace, FileFacts) {
    let uri = "file:///deps.py";
    let a = node(uri, 1);
    let b = node(uri, 5);
    let defs = vec![DepDef { name: "get_a".to_owned(), node_id: a.clone() }, DepDef { name: "get_b".to_owned(), node_id: b.clone() }];
    let refs = vec![dep_ref("get_b", Some("get_a"), 2, false), dep_ref("get_a", Some("get_b"), 6, false), dep_ref("other", Some("get_a"), 3, false)];
    let mut ws = empty_ws();
    ws.dep_files.push(FileDeps { uri: uri.to_owned(), dep_defs: defs.clone(), dep_refs: refs.clone(), override_sites: vec![] });
    ws.dep_cycle_map = vec![(a.clone(), vec![a.clone(), b.clone()]), (b.clone(), vec![a, b])];
    let mut f = facts(uri);
    f.dep_defs = defs;
    f.dep_refs = refs;
    (ws, f)
}

#[test]
fn di_cycle_reported_on_each_member_reference() {
    let (ws, f) = cycle_ws();
    let diags = compute(&ws, &f, &[]);
    let c = with_code(&diags, "di/cycle");
    assert_eq!(c.len(), 2);
    assert_eq!(c[0].message, "Dependency cycle: get_a → get_b → get_a.");
    assert_eq!(c[0].range, rng(2, 10, 20));
    assert_eq!(c[0].related.len(), 1);
    assert_eq!(c[0].related[0].message, "also in cycle: get_b");
    assert_eq!(c[1].range, rng(6, 10, 20));
    assert_eq!(c[1].related[0].message, "also in cycle: get_a");
}

#[test]
fn di_cycle_member_helpers() {
    let (ws, f) = cycle_ws();
    assert_eq!(dep_node_name(&node("file:///deps.py", 5), &ws.dep_files), Some("get_b".to_owned()));
    assert_eq!(dep_node_name(&node("file:///deps.py", 9), &ws.dep_files), None);
    let only_unknown = vec![node("file:///other.py", 1)];
    assert!(di_cycle_diags_for_member("get_a", &f.dep_refs, &only_unknown, "file:///deps.py", &ws.dep_files).is_empty());
}

#[test]
fn token_url_reported_when_no_route_serves_it() {
    let uri = "file:///auth.py";
    let mut f = facts(uri);
    f.security_scheme_sites = vec![
        PathSite { path: "/token".to_owned(), range: rng(1, 0, 8) },
        PathSite { path: "/login".to_owned(), range: rng(2, 0, 8) },
    ];
    let mut ws = empty_ws();
    ws.route_index.push((RouteId("login".to_owned()), vec![record(uri, "login", "login", Some("/login"))]));
    let diags = compute(&ws, &f, &[]);
    let t = with_code(&diags, "oauth2/unknown-token-url");
    assert_eq!(t.len(), 1);
    assert_eq!(t[0].message, "no route matches OAuth2 URL `/token`");
    ws.route_index.push((RouteId("x".to_owned()), vec![record(uri, "x", "x", None)]));
    assert!(with_code(&compute(&ws, &f, &[]), "oauth2/unknown-token-url").is_empty());
}

#[test]
fn test_unknown_path_only_when_enabled() {
    let uri = "file:///tests/test_app.py";
    let mut f = facts(uri);
    f.client_calls = vec![
        PathSite { path: "/api/missing".to_owned(), range: rng(5, 10, 30) },
        PathSite { path: "/api/ok".to_owned(), range: rng(6, 10, 30) },
    ];
    let mut ws = empty_ws();
    ws.call_site_index.push(((uri.to_owned(), rng(6, 10, 30)), vec![RouteId("ok".to_owned())]));
    assert!(with_code(&compute(&ws, &f, &[]), "test/unknown-path").is_empty());
    ws.test_unknown_paths = true;
    let diags = compute(&ws, &f, &[]);
    let t = with_code(&diags, "test/unknown-path");
    assert_eq!(t.len(), 1);
    assert_eq!(t[0].message, "no route matches `/api/missing`");
}
