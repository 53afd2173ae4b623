use fastapi_lsp::checks::{cross_route_diags, any_unresolved, IncludeFact, RouterDecl};
use fastapi_lsp::position::{Location, Position, Range};
use fastapi_lsp::report::{Code, Diagnostic, Severity};
use fastapi_lsp::routing::{Method, ResolvedPath, RouteId, RouteIndex, RouteRecord};

fn rng(line: u32, a: u32, b: u32) -> Range {
    Range { start: Position { line, character: a }, end: Position { line, character: b } }
}

fn route(uri: &str, handler: &str, ordinal: usize, line: u32, path: &str, decorator: &str) -> RouteRecord {
    RouteRecord {
        id: RouteId(format!("{}:{}:GET", uri, handler)),
        ordinal,
        name: handler.to_owned(),
        method: Method::Get,
        resolved_path: ResolvedPath::Resolved(path.to_owned()),
        decorator_path: decorator.to_owned(),
        handler: Location { uri: uri.to_owned(), range: rng(line, 0, 10) },
        path_params: vec![],
        response_model: None,
        response_model_range: None,
        return_annotation: None,
        dependencies: vec![],
        path_range: None,
        path_quote_width: None,
        handler_params: vec![],
        handler_param_ranges: vec![],
        handler_has_splat_args: false,
        handler_params_known: true,
        params_insert_pos: None,
        chain: vec![],
        middleware: vec![],
    }
}

fn index(records: Vec<RouteRecord>) -> RouteIndex {
    records.into_iter().map(|r| (r.id.clone(), vec![r])).collect()
}

fn with_code<'a>(diags: &'a [Diagnostic], code: &str) -> Vec<&'a Diagnostic> {
    diags.iter().filter(|d| d.code == Some(Code::Text(code.to_owned()))).collect()
}

fn file_diags(ix: &RouteIndex, uri: &str) -> Vec<Diagnostic> {
    cross_route_diags(ix, &[], &[], &[], &[], uri, any_unresolved(ix))
}

#[test]
fn route_duplicate_fires_for_same_path_same_router() {
    let uri = "file:///router.py";
    let ix = index(vec![
        route(uri, "view2", 0, 1, "/pca/import-from-pca", "/import-from-pca"),
        route(uri, "pca_import_view", 1, 4, "/pca/import-from-pca", "/import-from-pca"),
    ]);
    let diags = file_diags(&ix, uri);
    let dup = with_code(&diags, "route/duplicate");
    assert_eq!(dup.len(), 1, "route/duplicate should fire once; got {:?}", dup);
    assert!(dup[0].message.contains("/pca/import-from-pca"), "message: {}", dup[0].message);
}

#[test]
fn route_shadowed_not_fired_for_two_identical_literal_routes() {
    let uri = "file:///router.py";
    let ix = index(vec![
        route(uri, "view2", 0, 1, "/pca/import-from-pca", "/import-from-pca"),
        route(uri, "pca_import_view", 1, 4, "/pca/import-from-pca", "/import-from-pca"),
    ]);
    let diags = file_diags(&ix, uri);
    let shadowed = with_code(&diags, "route/shadowed");
    assert!(shadowed.is_empty(), "route/shadowed must not fire for two identical literal routes; got {:?}", shadowed);
}

#[test]
fn route_shadowed_fires_for_literal_after_param_route() {
    let uri = "file:///books.py";
    let ix = index(vec![
        route(uri, "get_book", 0, 1, "/books/{id}", "/books/{id}"),
        route(uri, "featured", 1, 5, "/books/featured", "/books/featured"),
    ]);
    let diags = file_diags(&ix, uri);
    let shadowed = with_code(&diags, "route/shadowed");
    assert_eq!(shadowed.len(), 1);
    assert_eq!(shadowed[0].range, rng(5, 0, 10));
    assert_eq!(shadowed[0].severity, Some(Severity::Warning));
}

fn dup_name_index(name: &str) -> RouteIndex {
    let mut a = route("file:///a.py", "a", 0, 1, "/projects/list", "/list");
    let mut b = route("file:///b.py", "b", 1, 1, "/companies/list", "/list");
    a.name = name.to_owned();
    b.name = name.to_owned();
    index(vec![a, b])
}

#[test]
fn route_duplicate_name_suppressed_when_not_used_in_url_for() {
    let ix = dup_name_index("index_view");
    let diags = cross_route_diags(&ix, &[], &[], &[], &[], "file:///a.py", false);
    let dup_name = with_code(&diags, "route/duplicate-name");
    assert!(dup_name.is_empty(), "route/duplicate-name must not fire when name is never used in url_for; got {:?}", dup_name);
}

#[test]
fn route_duplicate_name_fires_when_name_used_in_url_for() {
    let ix = dup_name_index("index_view");
    let used = vec!["index_view".to_owned()];
    let diags = cross_route_diags(&ix, &[], &[], &[], &used, "file:///a.py", false);
    let dup_name = with_code(&diags, "route/duplicate-name");
    assert!(!dup_name.is_empty(), "route/duplicate-name must fire when name is used in url_for");
    // The earlier registration gets the hint, the later one the warning.
    assert_eq!(dup_name[0].severity, Some(Severity::Hint));
    let diags_b = cross_route_diags(&ix, &[], &[], &[], &used, "file:///b.py", false);
    assert_eq!(with_code(&diags_b, "route/duplicate-name")[0].severity, Some(Severity::Warning));
}

fn unresolved_route() -> RouteRecord {
    let mut r = route("file:///myapp.py", "some_view", 0, 0, "", "/test");
    r.id = RouteId("unresolved:test".to_owned());
    r.resolved_path = ResolvedPath::Unresolved;
    r.handler.range = Range::default();
    r
}

#[test]
fn router_not_included_fires_even_when_other_routes_unresolved() {
    let ix = index(vec![unresolved_route()]);
    let routers = vec![RouterDecl { name: "never_router".to_owned(), range: rng(1, 0, 10) }];
    let known = vec!["never_router".to_owned()];
    let has_unresolved = any_unresolved(&ix);
    assert!(has_unresolved);
    let diags = cross_route_diags(&ix, &routers, &[], &known, &[], "file:///myapp.py", has_unresolved);
    let not_included = with_code(&diags, "route/router-not-included");
    assert!(!not_included.is_empty(), "router-not-included must fire for never_router; got {:?}", not_included);
}

#[test]
fn router_not_included_suppressed_when_target_matches_unresolved_include() {
    let ix = index(vec![unresolved_route()]);
    let routers = vec![RouterDecl { name: "never_router".to_owned(), range: rng(1, 0, 10) }];
    let includes = vec![IncludeFact { target: "never_router".to_owned(), alias_original: None }];
    let known = vec!["never_router".to_owned()];
    let diags = cross_route_diags(&ix, &routers, &includes, &known, &[], "file:///myapp.py", any_unresolved(&ix));
    let not_included = with_code(&diags, "route/router-not-included");
    assert!(not_included.is_empty(), "router-not-included must be suppressed; got {:?}", not_included);
}

#[test]
fn router_not_included_suppressed_by_unresolved_dotted_include() {
    let ix = index(vec![unresolved_route()]);
    let routers = vec![RouterDecl { name: "items".to_owned(), range: rng(1, 0, 10) }];
    let includes = vec![IncludeFact { target: "pkg.items".to_owned(), alias_original: None }];
    let diags = cross_route_diags(&ix, &routers, &includes, &[], &[], "file:///myapp.py", true);
    assert!(with_code(&diags, "route/router-not-included").is_empty());
    let diags = cross_route_diags(&ix, &routers, &[], &[], &[], "file:///myapp.py", true);
    assert_eq!(with_code(&diags, "route/router-not-included").len(), 1);
}

#[test]
fn any_unresolved_false_for_resolved_index() {
    let ix = index(vec![route("file:///a.py", "a", 0, 1, "/a", "/a")]);
    assert!(!any_unresolved(&ix));
}
