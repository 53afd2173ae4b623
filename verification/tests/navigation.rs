use fastapi_lsp::analysis::TemplateRef;
use fastapi_lsp::navigation::{document_links, document_symbols, inlay_hints, matches_query, symbol_name, workspace_symbols, RouteSymbolKind};
use fastapi_lsp::position::{Location, Position, Range};
use fastapi_lsp::routing::{Method, ResolvedPath, RouteId, RouteIndex, RouteRecord};

fn range(sl: u32, sc: u32, el: u32, ec: u32) -> Range {
    Range { start: Position::new(sl, sc), end: Position::new(el, ec) }
}

fn make_record(method: Method, path: &str, name: &str) -> RouteRecord {
    RouteRecord {
        id: RouteId(format!("{}:{path}", name)),
        ordinal: 0,
        name: name.to_owned(),
        method,
        resolved_path: ResolvedPath::Resolved(path.to_owned()),
        decorator_path: path.to_owned(),
        handler: Location { uri: "file:///a.py".to_owned(), range: Range::default() },
        path_params: vec![],
        response_model: None,
        response_model_range: None,
        return_annotation: None,
        dependencies: vec![],
        path_range: None,
        path_quote_width: None,
        handler_params: vec![],
        handler_param_ranges: vec![],
        handler_has_splat_args: false,
        handler_params_known: true,
        params_insert_pos: None,
        chain: vec![],
        middleware: vec![],
    }
}

#[test]
fn emits_link_when_template_found_in_index() {
    let templates = vec![TemplateRef { path: "index.html".to_owned(), range: range(5, 10, 5, 22) }];
    let index = vec![("index.html".to_owned(), "file:///app/templates/index.html".to_owned())];
    let links = document_links(&templates, &index);
    assert_eq!(links.len(), 1);
    assert_eq!(links[0].range, range(5, 10, 5, 22));
    assert_eq!(links[0].target, "file:///app/templates/index.html");
    assert_eq!(links[0].tooltip, "index.html");
}

#[test]
fn no_link_when_template_not_in_index() {
    let templates = vec![TemplateRef { path: "missing.html".to_owned(), range: range(3, 0, 3, 14) }];
    let links = document_links(&templates, &[]);
    assert!(links.is_empty());
}

#[test]
fn multiple_templates_multiple_links() {
    let templates = vec![
        TemplateRef { path: "a.html".to_owned(), range: range(1, 0, 1, 8) },
        TemplateRef { path: "missing.html".to_owned(), range: range(2, 0, 2, 14) },
        TemplateRef { path: "b.html".to_owned(), range: range(3, 0, 3, 8) },
    ];
    let index = vec![
        ("a.html".to_owned(), "file:///tpl/a.html".to_owned()),
        ("b.html".to_owned(), "file:///tpl/b.html".to_owned()),
    ];
    let links = document_links(&templates, &index);
    assert_eq!(links.len(), 2);
    let targets: Vec<&str> = links.iter().map(|l| l.target.as_str()).collect();
    assert!(targets.contains(&"file:///tpl/a.html"));
    assert!(targets.contains(&"file:///tpl/b.html"));
}

#[test]
fn no_facts_returns_empty() {
    let links = document_links(&[], &[]);
    assert!(links.is_empty());
}

#[test]
fn symbol_search_method_trailing_space() {
    let r = make_record(Method::Get, "/items", "list_items");
    assert!(matches_query(&r, "GET "), "trailing space after method must still match");
    assert!(matches_query(&r, "get "), "lowercase with trailing space must match");
}

#[test]
fn symbol_search_method_and_path_tokens() {
    let r = make_record(Method::Get, "/v1/items", "list_items");
    assert!(matches_query(&r, "GET items"), "method + path fragment must both match");
    assert!(matches_query(&r, "get /v1"), "lowercase method + prefix must match");
    assert!(!matches_query(&r, "POST items"), "wrong method must not match");
}

#[test]
fn symbol_search_empty_query_matches_all() {
    let r = make_record(Method::Post, "/anything", "handler");
    assert!(matches_query(&r, ""));
    assert!(matches_query(&r, "   "));
}

#[test]
fn symbol_names_and_kinds() {
    let r = make_record(Method::Get, "/items", "list_items");
    assert_eq!(symbol_name(&r), "GET /items · list_items");
    let mut m = make_record(Method::Mount, "/static", "static");
    assert_eq!(symbol_name(&m), "MOUNT /static");
    m.resolved_path = ResolvedPath::Unresolved;
    assert_eq!(symbol_name(&m), "MOUNT ⟨unresolved⟩/static");
    let mut other = make_record(Method::Post, "/b", "b");
    other.handler.uri = "file:///b.py".to_owned();
    let ix: RouteIndex = vec![(r.id.clone(), vec![r]), (m.id.clone(), vec![m]), (other.id.clone(), vec![other])];
    let syms = document_symbols(&ix, "file:///a.py");
    assert_eq!(syms.len(), 2);
    assert_eq!(syms[0].kind, RouteSymbolKind::Function);
    assert_eq!(syms[1].kind, RouteSymbolKind::Namespace);
    let found = workspace_symbols(&ix, "post");
    assert_eq!(found.len(), 1);
    assert_eq!(found[0].name, "POST /b · b");
    assert_eq!(found[0].location.uri, "file:///b.py");
}

#[test]
fn inlay_hints_show_prefixed_paths() {
    let mut one = make_record(Method::Get, "/items", "one");
    one.resolved_path = ResolvedPath::Resolved("/v1/items".to_owned());
    one.handler.range = range(3, 0, 3, 10);
    let mut twice_a = make_record(Method::Get, "/users", "users");
    twice_a.resolved_path = ResolvedPath::Resolved("/a/users".to_owned());
    twice_a.handler.range = range(8, 0, 8, 9);
    let mut twice_b = twice_a.clone();
    twice_b.resolved_path = ResolvedPath::Resolved("/b/users".to_owned());
    let plain = make_record(Method::Get, "/plain", "plain");
    let ix: RouteIndex = vec![
        (one.id.clone(), vec![one]),
        (twice_a.id.clone(), vec![twice_a, twice_b]),
        (plain.id.clone(), vec![plain]),
    ];
    let hints = inlay_hints(&ix, "file:///a.py", range(0, 0, 20, 0));
    assert_eq!(hints.len(), 2);
    assert_eq!(hints[0].label, "→ /v1/items");
    assert_eq!(hints[0].position, Position::new(3, 10));
    assert_eq!(hints[1].label, "→ 2 mounts (hover for paths)");
    assert!(inlay_hints(&ix, "file:///a.py", range(10, 0, 20, 0)).is_empty());
}
