use fastapi_lsp::analysis::{EnvLookup, TemplateRef, UrlForSite};
use fastapi_lsp::checks::RouterDecl;
use fastapi_lsp::deps::{DepDef, DepGraph, DepRef, NodeId};
use fastapi_lsp::goto::{edge_at, goto, references, ClientCall, Edge, NavFile, NavWorkspace};
use fastapi_lsp::hovers::{EnvEntry, HoverInclude};
use fastapi_lsp::mounts::PrefixValue;
use fastapi_lsp::position::{Location, Position, Range};
use fastapi_lsp::routing::{Method, ResolvedPath, RouteId, RouteRecord};

fn nav_file(uri: &str) -> NavFile {
    NavFile {
        uri: uri.to_owned(),
        url_for_sites: vec![],
        includes: vec![],
        dep_refs: vec![],
        env_lookups: vec![],
        client_calls: vec![],
        templates: vec![],
        routers: vec![],
        apps: vec![],
        dep_defs: vec![],
    }
}

fn workspace(files: Vec<NavFile>) -> NavWorkspace {
    NavWorkspace {
        files,
        route_index: vec![],
        route_names: vec![],
        env_index: vec![],
        call_site_index: vec![],
        template_index: vec![],
        test_refs: vec![],
        dep_graph: DepGraph { nodes: vec![], uses: vec![], used_by: vec![], override_sites: vec![] },
    }
}

fn record(id: &str, name: &str, method: Method, path: &str, uri: &str, handler_range: Range) -> RouteRecord {
    RouteRecord {
        id: RouteId(id.to_owned()),
        ordinal: 0,
        name: name.to_owned(),
        method,
        resolved_path: ResolvedPath::Resolved(path.to_owned()),
        decorator_path: path.to_owned(),
        handler: Location { uri: uri.to_owned(), range: handler_range },
        path_params: vec![],
        response_model: None,
        response_model_range: None,
        return_annotation: None,
        dependencies: vec![],
        path_range: None,
        path_quote_width: None,
        handler_params: vec![],
        handler_param_ranges: vec![],
        handler_has_splat_args: false,
        handler_params_known: false,
        params_insert_pos: None,
        chain: vec![],
        middleware: vec![],
    }
}

#[test]
fn goto_client_call_navigates_to_handler() {
    let uri_test = "file:///tests/test_routes.py";
    let uri_app = "file:///app.py";
    let call_range = Range { start: Position::new(5, 18), end: Position::new(5, 30) };
    let handler_range = Range { start: Position::new(10, 4), end: Position::new(10, 14) };
    let path_range = Range { start: Position::new(5, 19), end: Position::new(5, 29) };
    let mut f = nav_file(uri_test);
    f.client_calls.push(ClientCall { method: Method::Get, range: call_range, path_range });
    let mut ws = workspace(vec![f]);
    let route_id = RouteId("app.list_items".to_owned());
    ws.test_refs.push((route_id.clone(), vec![Location { uri: uri_test.to_owned(), range: call_range }]));
    ws.call_site_index.push(((uri_test.to_owned(), call_range), vec![route_id.clone()]));
    ws.route_index.push((route_id, vec![record("app.list_items", "list_items", Method::Get, "/items", uri_app, handler_range)]));
    let locs = goto(&ws, uri_test, Position::new(5, 22)).unwrap();
    assert_eq!(locs.len(), 1);
    assert_eq!(locs[0].uri, uri_app);
    assert_eq!(locs[0].range, handler_range);
}

#[test]
fn clicking_inside_fstring_interpolation_does_not_jump_to_route() {
    let uri_test = "file:///tests/test_routes.py";
    let uri_app = "file:///app.py";
    let call_range = Range { start: Position::new(0, 0), end: Position::new(0, 40) };
    let handler_range = Range { start: Position::new(10, 4), end: Position::new(10, 14) };
    let path_range = Range { start: Position::new(0, 15), end: Position::new(0, 20) };
    let mut f = nav_file(uri_test);
    f.client_calls.push(ClientCall { method: Method::Get, range: call_range, path_range });
    let mut ws = workspace(vec![f]);
    let route_id = RouteId("app.delete_item".to_owned());
    ws.call_site_index.push(((uri_test.to_owned(), call_range), vec![route_id.clone()]));
    ws.route_index.push((route_id, vec![record("app.delete_item", "delete_item", Method::Delete, "/v1/{item_id}", uri_app, handler_range)]));
    let result = goto(&ws, uri_test, Position::new(0, 30));
    assert!(result.is_none(), "clicking inside f-string interpolation must not jump to route handler");
}

#[test]
fn references_on_route_handler_includes_client_call_sites() {
    let uri_app = "file:///app.py";
    let uri_test = "file:///tests/test_routes.py";
    let handler_range = Range { start: Position::new(3, 4), end: Position::new(3, 14) };
    let call_range = Range { start: Position::new(8, 18), end: Position::new(8, 26) };
    let mut ws = workspace(vec![nav_file(uri_app)]);
    let route_id = RouteId("app.get_user".to_owned());
    ws.test_refs.push((route_id.clone(), vec![Location { uri: uri_test.to_owned(), range: call_range }]));
    ws.route_index.push((route_id, vec![record("app.get_user", "get_user", Method::Get, "/users/{id}", uri_app, handler_range)]));
    let locs = references(&ws, uri_app, Position::new(3, 8), false);
    assert_eq!(locs.len(), 1, "expected the client call site");
    assert_eq!(locs[0].uri, uri_test);
    assert_eq!(locs[0].range, call_range);
}

#[test]
fn references_include_declaration_adds_handler_location() {
    let uri_app = "file:///app.py";
    let handler_range = Range { start: Position::new(2, 4), end: Position::new(2, 12) };
    let mut ws = workspace(vec![nav_file(uri_app)]);
    ws.route_index.push((RouteId("app.ping:GET".to_owned()), vec![record("app.ping:GET", "ping", Method::Get, "/ping", uri_app, handler_range)]));
    let locs = references(&ws, uri_app, Position::new(2, 6), false);
    assert!(!locs.iter().any(|l| l.range == handler_range), "declaration should not appear when include_declaration=false");
    let locs_with = references(&ws, uri_app, Position::new(2, 6), true);
    assert!(locs_with.iter().any(|l| l.range == handler_range && l.uri == uri_app), "declaration should appear when include_declaration=true");
}

#[test]
fn references_on_dep_def_returns_dep_refs_and_override_sites() {
    let uri_app = "file:///app.py";
    let uri_test = "file:///tests/conftest.py";
    let def_range = Range { start: Position::new(1, 4), end: Position::new(1, 10) };
    let dep_ref_range = Range { start: Position::new(5, 20), end: Position::new(5, 26) };
    let override_range = Range { start: Position::new(10, 32), end: Position::new(10, 38) };
    let mut f = nav_file(uri_app);
    let node = NodeId { uri: uri_app.to_owned(), range: def_range };
    f.dep_defs.push(DepDef { name: "get_db".to_owned(), node_id: node.clone() });
    f.dep_refs.push(DepRef {
        name: "get_db".to_owned(),
        range: dep_ref_range,
        is_called: false,
        callee_range: None,
        containing_func: Some("my_route".to_owned()),
        caller_node_id: None,
    });
    let mut ws = workspace(vec![f]);
    ws.dep_graph = DepGraph {
        nodes: vec![node],
        uses: vec![vec![]],
        used_by: vec![vec![]],
        override_sites: vec![vec![Location { uri: uri_test.to_owned(), range: override_range }]],
    };
    let locs = references(&ws, uri_app, Position::new(1, 6), false);
    assert_eq!(locs.len(), 2, "expected dep_ref + override site");
    let ranges: Vec<Range> = locs.iter().map(|l| l.range).collect();
    assert!(ranges.contains(&dep_ref_range), "missing dep_ref location");
    assert!(ranges.contains(&override_range), "missing override site location");
    let override_loc = locs.iter().find(|l| l.range == override_range).unwrap();
    assert_eq!(override_loc.uri, uri_test);
}

// ── Further cases ─────────────────────────────────────────────────────────

fn rng(l: u32, a: u32, b: u32) -> Range {
    Range { start: Position::new(l, a), end: Position::new(l, b) }
}

#[test]
fn goto_edges_in_priority_order() {
    let mut f = nav_file("file:///a.py");
    f.url_for_sites.push(UrlForSite { name: "home".to_owned(), kwarg_names: vec![], has_splat_kwargs: false, range: rng(1, 0, 10), name_range: None });
    f.dep_refs.push(DepRef { name: "get_db".to_owned(), caller_node_id: None, containing_func: None, range: rng(1, 0, 10), is_called: false, callee_range: None });
    f.env_lookups.push(EnvLookup { key: "DB".to_owned(), has_default: false, key_range: rng(2, 0, 4), replace_range: rng(2, 0, 4) });
    f.templates.push(TemplateRef { path: "a.html".to_owned(), range: rng(3, 0, 8) });
    f.includes.push(HoverInclude { target: "api.router".to_owned(), prefix: PrefixValue::Unresolved, range: rng(4, 0, 9) });
    assert!(matches!(edge_at(&f, Position::new(1, 2)), Some(Edge::UrlForName(n)) if n == "home"));
    assert!(matches!(edge_at(&f, Position::new(2, 2)), Some(Edge::EnvKey(k)) if k == "DB"));
    assert!(matches!(edge_at(&f, Position::new(3, 2)), Some(Edge::TemplateName(p)) if p == "a.html"));
    assert!(matches!(edge_at(&f, Position::new(4, 2)), Some(Edge::IncludeTarget(t)) if t == "api.router"));
    assert!(edge_at(&f, Position::new(9, 0)).is_none());
}

#[test]
fn goto_resolves_names_routers_envs_and_templates() {
    let mut f = nav_file("file:///a.py");
    f.url_for_sites.push(UrlForSite { name: "home".to_owned(), kwarg_names: vec![], has_splat_kwargs: false, range: rng(1, 0, 10), name_range: None });
    f.env_lookups.push(EnvLookup { key: "DB".to_owned(), has_default: false, key_range: rng(2, 0, 4), replace_range: rng(2, 0, 4) });
    f.templates.push(TemplateRef { path: "a.html".to_owned(), range: rng(3, 0, 8) });
    f.includes.push(HoverInclude { target: "api.router".to_owned(), prefix: PrefixValue::Unresolved, range: rng(4, 0, 9) });
    f.dep_refs.push(DepRef { name: "get_db".to_owned(), caller_node_id: None, containing_func: None, range: rng(5, 0, 6), is_called: false, callee_range: None });
    let mut g = nav_file("file:///api.py");
    g.routers.push(RouterDecl { name: "router".to_owned(), range: rng(0, 0, 6) });
    g.dep_defs.push(DepDef { name: "get_db".to_owned(), node_id: NodeId { uri: "file:///api.py".to_owned(), range: rng(7, 4, 10) } });
    let mut ws = workspace(vec![f, g]);
    ws.route_names.push(("home".to_owned(), vec![RouteId("r1".to_owned())]));
    ws.route_index.push((RouteId("r1".to_owned()), vec![record("r1", "home", Method::Get, "/", "file:///views.py", rng(9, 4, 8))]));
    ws.env_index.push(("DB".to_owned(), EnvEntry { value: "x".to_owned(), locations: vec![Location { uri: "file:///.env".to_owned(), range: rng(0, 0, 2) }] }));
    ws.template_index.push(("a.html".to_owned(), "file:///t/a.html".to_owned()));
    let l = goto(&ws, "file:///a.py", Position::new(1, 1)).unwrap();
    assert_eq!((l[0].uri.as_str(), l[0].range), ("file:///views.py", rng(9, 4, 8)));
    let l = goto(&ws, "file:///a.py", Position::new(2, 1)).unwrap();
    assert_eq!(l[0].uri, "file:///.env");
    let l = goto(&ws, "file:///a.py", Position::new(3, 1)).unwrap();
    assert_eq!((l[0].uri.as_str(), l[0].range), ("file:///t/a.html", Range::default()));
    let l = goto(&ws, "file:///a.py", Position::new(4, 1)).unwrap();
    assert_eq!((l[0].uri.as_str(), l[0].range), ("file:///api.py", rng(0, 0, 6)));
    let l = goto(&ws, "file:///a.py", Position::new(5, 1)).unwrap();
    assert_eq!((l[0].uri.as_str(), l[0].range), ("file:///api.py", rng(7, 4, 10)));
    assert!(goto(&ws, "file:///unknown.py", Position::new(1, 1)).is_none());
}
