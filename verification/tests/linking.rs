use std::collections::HashMap;

use fastapi_lsp::deps::{build_cycle_map, build_dep_graph, resolve_def, DepDef, DepGraph, DepRef, FileDeps, NodeId, OverrideSite};
use fastapi_lsp::graph::cycle_components;
use fastapi_lsp::names::{build_route_names, NamedFile, NamedRoute};
use fastapi_lsp::indexing::{build_route_records, RouteFact, RouteFile};
use fastapi_lsp::caches::{build_dep_caches, build_model_index, CacheFile, DepDefFacts, ModelFile};
use fastapi_lsp::lenses::ModelFact;
use fastapi_lsp::mounts::{IncludeCall, LinkContext, MountFacts, PrefixValue, RouterMount};
use fastapi_lsp::joining::join_path_segments;
use fastapi_lsp::position::{Location, Position, Range};
use fastapi_lsp::routing::{
    build_path_trie, match_call, match_prefix, path_segments, trie_insert, trie_lookup, Method, ResolvedPath,
    RouteId, RouteIndex, RouteRecord, TrieNode,
};

#[test]
fn join_path_no_double_slash() {
    assert_eq!(join_path_segments(&["/api".into(), "/books".into(), "/{id}".into()]), "/api/books/{id}");
}

#[test]
fn join_path_empty_segments_skipped() {
    assert_eq!(join_path_segments(&["".into(), "/books".into(), "/".into()]), "/books/");
}

#[test]
fn join_path_trailing_slash_preserved() {
    assert_eq!(join_path_segments(&["/api".into(), "/books".into(), "/".into()]), "/api/books/");
}

#[test]
fn join_path_collapse_double_slash() {
    assert_eq!(join_path_segments(&["/api/".into(), "/books".into()]), "/api/books");
}

// ── SCC / cycle tests ─────────────────────────────────────────────────────

fn make_node(uri_str: &str) -> NodeId {
    NodeId { uri: uri_str.to_owned(), range: Range::default() }
}

/// Adjacency lists over interned node names.
fn make_uses(pairs: &[(&str, &str)]) -> (Vec<String>, Vec<Vec<usize>>) {
    let mut ids: HashMap<String, usize> = HashMap::new();
    let mut names: Vec<String> = Vec::new();
    let mut uses: Vec<Vec<usize>> = Vec::new();
    let mut intern = |s: &str, names: &mut Vec<String>, uses: &mut Vec<Vec<usize>>| -> usize {
        if let Some(&i) = ids.get(s) {
            return i;
        }
        let i = names.len();
        ids.insert(s.to_owned(), i);
        names.push(s.to_owned());
        uses.push(Vec::new());
        i
    };
    for &(from, to) in pairs {
        let a = intern(from, &mut names, &mut uses);
        let b = intern(to, &mut names, &mut uses);
        uses[a].push(b);
    }
    (names, uses)
}

#[test]
fn scc_no_cycle() {
    let (_, uses) = make_uses(&[("file:///a.py", "file:///b.py")]);
    let sccs = cycle_components(&uses);
    assert!(sccs.is_empty(), "no cycle expected");
}

#[test]
fn scc_self_loop() {
    let (_, uses) = make_uses(&[("file:///a.py", "file:///a.py")]);
    let sccs = cycle_components(&uses);
    assert_eq!(sccs.len(), 1);
    assert_eq!(sccs[0].len(), 1);
}

#[test]
fn scc_two_node_cycle() {
    let (names, uses) = make_uses(&[("file:///a.py", "file:///b.py"), ("file:///b.py", "file:///a.py")]);
    let sccs = cycle_components(&uses);
    assert_eq!(sccs.len(), 1);
    assert_eq!(sccs[0].len(), 2);
    let flat: std::collections::HashSet<&str> = sccs.iter().flatten().map(|&i| names[i].as_str()).collect();
    assert!(flat.contains("file:///a.py"));
    assert!(flat.contains("file:///b.py"));
}

#[test]
fn scc_three_node_cycle() {
    let (_, uses) = make_uses(&[
        ("file:///a.py", "file:///b.py"),
        ("file:///b.py", "file:///c.py"),
        ("file:///c.py", "file:///a.py"),
    ]);
    let sccs = cycle_components(&uses);
    assert_eq!(sccs.len(), 1);
    assert_eq!(sccs[0].len(), 3);
}

#[test]
fn scc_deep_linear_chain_no_stack_overflow() {
    let mut pairs: Vec<(String, String)> = Vec::with_capacity(9_999);
    for i in 0..9_999usize {
        pairs.push((format!("file:///n{i}.py"), format!("file:///n{}.py", i + 1)));
    }
    let pair_refs: Vec<(&str, &str)> = pairs.iter().map(|(a, b)| (a.as_str(), b.as_str())).collect();
    let (_, uses) = make_uses(&pair_refs);
    let sccs = cycle_components(&uses);
    assert!(sccs.is_empty(), "linear chain has no cycles");
}

#[test]
fn scc_cycle_map_covers_all_members() {
    let mut g = DepGraph::new();
    let a = g.intern(&make_node("file:///a.py"));
    let b = g.intern(&make_node("file:///b.py"));
    g.add_use(a, b);
    g.add_use(b, a);
    let cycle_map = build_cycle_map(&g);
    assert!(cycle_map[a].is_some());
    assert!(cycle_map[b].is_some());
}

#[test]
fn scc_cycle_map_separates_cycle_from_tail() {
    // a → b → a, b → c: c is on no cycle.
    let mut g = DepGraph::new();
    let a = g.intern(&make_node("file:///a.py"));
    let b = g.intern(&make_node("file:///b.py"));
    let c = g.intern(&make_node("file:///c.py"));
    g.add_use(a, b);
    g.add_use(b, a);
    g.add_use(b, c);
    g.add_use(b, c);
    assert_eq!(g.uses[b], vec![a, c]);
    assert_eq!(g.used_by[c], vec![b]);
    let cycle_map = build_cycle_map(&g);
    let mut members = cycle_map[a].clone().unwrap();
    members.sort();
    assert_eq!(members, vec![a, b]);
    assert!(cycle_map[c].is_none());
    assert_eq!(g.intern(&make_node("file:///a.py")), a);
}

fn make_def_index(defs: &[(&str, &str)]) -> Vec<(String, Vec<NodeId>)> {
    let mut index: Vec<(String, Vec<NodeId>)> = Vec::new();
    for &(name, uri_str) in defs {
        let node_id = make_node(uri_str);
        match index.iter_mut().find(|(n, _)| n == name) {
            Some((_, v)) => v.push(node_id),
            None => index.push((name.to_owned(), vec![node_id])),
        }
    }
    index
}

#[test]
fn resolve_def_local_first() {
    let index = make_def_index(&[("get_db", "file:///a.py"), ("get_db", "file:///b.py")]);
    let result = resolve_def("get_db", "file:///a.py", &index).unwrap();
    assert_eq!(result.uri, "file:///a.py");
}

#[test]
fn resolve_def_unique_workspace_fallback() {
    let index = make_def_index(&[("get_db", "file:///b.py")]);
    let result = resolve_def("get_db", "file:///a.py", &index).unwrap();
    assert_eq!(result.uri, "file:///b.py");
}

#[test]
fn resolve_def_ambiguous_returns_none() {
    let index = make_def_index(&[("get_db", "file:///b.py"), ("get_db", "file:///c.py")]);
    assert!(resolve_def("get_db", "file:///a.py", &index).is_none());
}

#[test]
fn resolve_def_not_found_returns_none() {
    let index: Vec<(String, Vec<NodeId>)> = Vec::new();
    assert!(resolve_def("missing", "file:///a.py", &index).is_none());
}

#[test]
fn override_sites_populated_from_file_facts() {
    let def_range = Range { start: Position::new(1, 4), end: Position::new(1, 10) };
    let override_range = Range { start: Position::new(5, 20), end: Position::new(5, 26) };
    let facts_app = FileDeps {
        uri: "file:///app.py".to_owned(),
        dep_defs: vec![DepDef {
            name: "get_db".to_owned(),
            node_id: NodeId { uri: "file:///app.py".to_owned(), range: def_range },
        }],
        dep_refs: vec![],
        override_sites: vec![],
    };
    let facts_test = FileDeps {
        uri: "file:///tests/conftest.py".to_owned(),
        dep_defs: vec![],
        dep_refs: vec![],
        override_sites: vec![OverrideSite { name: "get_db".to_owned(), range: override_range }],
    };
    let dep_graph = build_dep_graph(&[facts_app, facts_test]);
    let x = dep_graph
        .nodes
        .iter()
        .position(|n| n.uri == "file:///app.py" && n.range == def_range)
        .expect("dependency node present");
    let sites: &Vec<Location> = &dep_graph.override_sites[x];
    assert_eq!(sites.len(), 1);
    assert_eq!(sites[0].uri, "file:///tests/conftest.py");
    assert_eq!(sites[0].range, override_range);
}

#[test]
fn dep_graph_edges_follow_resolution_and_dedup() {
    let r = |l: u32| Range { start: Position::new(l, 0), end: Position::new(l, 5) };
    let handler = NodeId { uri: "file:///a.py".to_owned(), range: r(1) };
    let get_db = NodeId { uri: "file:///a.py".to_owned(), range: r(5) };
    let file = FileDeps {
        uri: "file:///a.py".to_owned(),
        dep_defs: vec![
            DepDef { name: "handler".to_owned(), node_id: handler.clone() },
            DepDef { name: "get_db".to_owned(), node_id: get_db.clone() },
        ],
        dep_refs: vec![
            DepRef { name: "get_db".to_owned(), caller_node_id: None, containing_func: Some("handler".to_owned()), range: Range::default(), is_called: false, callee_range: None },
            DepRef { name: "get_db".to_owned(), caller_node_id: Some(handler.clone()), containing_func: None, range: Range::default(), is_called: false, callee_range: None },
            DepRef { name: "".to_owned(), caller_node_id: Some(handler.clone()), containing_func: None, range: Range::default(), is_called: false, callee_range: None },
            DepRef { name: "missing".to_owned(), caller_node_id: Some(handler.clone()), containing_func: None, range: Range::default(), is_called: false, callee_range: None },
            DepRef { name: "get_db".to_owned(), caller_node_id: None, containing_func: None, range: Range::default(), is_called: false, callee_range: None },
        ],
        override_sites: vec![],
    };
    let g = build_dep_graph(&[file]);
    assert_eq!(g.nodes.len(), 2);
    let h = g.nodes.iter().position(|n| n.range == r(1)).unwrap();
    let d = g.nodes.iter().position(|n| n.range == r(5)).unwrap();
    assert_eq!(g.uses[h], vec![d]);
    assert!(g.uses[d].is_empty());
    assert_eq!(g.used_by[d], vec![h]);
}

// ── Trie tests ────────────────────────────────────────────────────────────

fn rid(s: &str) -> RouteId {
    RouteId(s.to_owned())
}

#[test]
fn trie_literal_path_match() {
    let mut root = TrieNode::default();
    trie_insert(&mut root, &["api", "users"], rid("get_users"));
    assert_eq!(trie_lookup(&root, &["api", "users"]), vec![rid("get_users")]);
}

#[test]
fn trie_literal_no_partial_match() {
    let mut root = TrieNode::default();
    trie_insert(&mut root, &["api", "users"], rid("get_users"));
    assert!(trie_lookup(&root, &["api"]).is_empty());
}

#[test]
fn trie_param_matches_any_segment() {
    let mut root = TrieNode::default();
    trie_insert(&mut root, &["users", "{user_id}"], rid("get_user"));
    assert_eq!(trie_lookup(&root, &["users", "42"]), vec![rid("get_user")]);
    assert_eq!(trie_lookup(&root, &["users", "abc"]), vec![rid("get_user")]);
}

#[test]
fn trie_param_does_not_match_empty_segment() {
    let mut root = TrieNode::default();
    trie_insert(&mut root, &["users", "{user_id}"], rid("get_user"));
    assert!(trie_lookup(&root, &["users", ""]).is_empty());
}

#[test]
fn trie_path_param_matches_single_remaining_segment() {
    let mut root = TrieNode::default();
    trie_insert(&mut root, &["files", "{path:path}"], rid("get_file"));
    assert_eq!(trie_lookup(&root, &["files", "readme.txt"]), vec![rid("get_file")]);
}

#[test]
fn trie_path_param_matches_multiple_remaining_segments() {
    let mut root = TrieNode::default();
    trie_insert(&mut root, &["files", "{path:path}"], rid("get_file"));
    assert_eq!(trie_lookup(&root, &["files", "a", "b", "c"]), vec![rid("get_file")]);
}

#[test]
fn trie_trailing_slash_distinct() {
    let mut root = TrieNode::default();
    trie_insert(&mut root, &["items"], rid("no_slash"));
    trie_insert(&mut root, &["items", ""], rid("with_slash"));
    assert_eq!(trie_lookup(&root, &["items"]), vec![rid("no_slash")]);
    assert_eq!(trie_lookup(&root, &["items", ""]), vec![rid("with_slash")]);
}

#[test]
fn trie_int_converter_goes_to_param_branch() {
    let mut root = TrieNode::default();
    trie_insert(&mut root, &["users", "{id:int}"], rid("get_user"));
    assert_eq!(trie_lookup(&root, &["users", "42"]), vec![rid("get_user")]);
    assert!(trie_lookup(&root, &["users", ""]).is_empty());
}

#[test]
fn trie_uuid_converter_goes_to_param_branch() {
    let mut root = TrieNode::default();
    trie_insert(&mut root, &["items", "{item_id:uuid}"], rid("get_item"));
    assert_eq!(trie_lookup(&root, &["items", "abc-123"]), vec![rid("get_item")]);
}

#[test]
fn trie_lookup_orders_literal_then_param_then_path() {
    let mut root = TrieNode::default();
    trie_insert(&mut root, &["f", "{rest:path}"], rid("tail"));
    trie_insert(&mut root, &["f", "{x}"], rid("param"));
    trie_insert(&mut root, &["f", "readme"], rid("lit"));
    trie_insert(&mut root, &["f", "readme"], rid("lit2"));
    assert_eq!(
        trie_lookup(&root, &["f", "readme"]),
        vec![rid("lit"), rid("lit2"), rid("param"), rid("tail")]
    );
    assert_eq!(trie_lookup(&root, &["f", "a", "b"]), vec![rid("tail")]);
    assert!(trie_lookup(&root, &["f"]).is_empty());
}

#[test]
fn path_segments_strips_query_string() {
    assert_eq!(path_segments("/api/users?page=1"), vec!["api", "users"]);
}

#[test]
fn path_segments_preserves_trailing_slash() {
    assert_eq!(path_segments("/api/users/"), vec!["api", "users", ""]);
}

#[test]
fn path_segments_no_trailing_slash() {
    assert_eq!(path_segments("/api/users"), vec!["api", "users"]);
}

#[test]
fn path_segments_root_path() {
    assert_eq!(path_segments("/"), vec![""]);
    assert_eq!(path_segments(""), Vec::<&str>::new());
}

fn record(id: &RouteId, name: &str, method: Method, path: &str) -> RouteRecord {
    RouteRecord {
        id: id.clone(),
        ordinal: 0,
        name: name.into(),
        method,
        resolved_path: ResolvedPath::Resolved(path.into()),
        decorator_path: path.into(),
        handler: Location { uri: "file:///a.py".into(), range: Range::default() },
        path_params: vec![],
        response_model: None,
        response_model_range: None,
        return_annotation: None,
        dependencies: vec![],
        path_range: None,
        path_quote_width: None,
        handler_params: vec![],
        handler_param_ranges: vec![],
        handler_has_splat_args: false,
        handler_params_known: false,
        params_insert_pos: None,
        chain: vec![],
        middleware: vec![],
    }
}

#[test]
fn match_call_slash_insensitive_retry() {
    let id = rid("get_items:GET");
    let route_index: RouteIndex = vec![(id.clone(), vec![record(&id, "get_items", Method::Get, "/items")])];
    let trie = build_path_trie(&route_index);
    let matched = match_call(&trie, &route_index, "/items/", Method::Get);
    assert_eq!(matched, vec![id]);
}

#[test]
fn match_call_slash_retry_with_query_string() {
    let id = rid("get_items:GET");
    let route_index: RouteIndex = vec![(id.clone(), vec![record(&id, "get_items", Method::Get, "/items")])];
    let trie = build_path_trie(&route_index);
    let matched = match_call(&trie, &route_index, "/items/?page=1", Method::Get);
    assert_eq!(matched, vec![id]);
}

#[test]
fn match_call_method_filter() {
    let id = rid("list_users:GET");
    let route_index: RouteIndex = vec![(id.clone(), vec![record(&id, "list_users", Method::Get, "/users")])];
    let trie = build_path_trie(&route_index);
    assert!(match_call(&trie, &route_index, "/users", Method::Post).is_empty());
    assert_eq!(match_call(&trie, &route_index, "/users", Method::Get), vec![id]);
}

#[test]
fn match_call_retry_adds_slash_and_skips_unresolved() {
    let id = rid("list:GET");
    let other = rid("gone:GET");
    let mut unresolved = record(&other, "gone", Method::Get, "/x");
    unresolved.resolved_path = ResolvedPath::Unresolved;
    let route_index: RouteIndex = vec![
        (id.clone(), vec![record(&id, "list", Method::Get, "/books/")]),
        (other.clone(), vec![unresolved]),
    ];
    let trie = build_path_trie(&route_index);
    assert_eq!(match_call(&trie, &route_index, "/books", Method::Get), vec![id]);
    assert!(match_call(&trie, &route_index, "/x", Method::Get).is_empty());
}

#[test]
fn match_prefix_filters_by_method_prefix_and_depth() {
    let a = rid("a");
    let b = rid("b");
    let c = rid("c");
    let route_index: RouteIndex = vec![
        (a.clone(), vec![record(&a, "a", Method::Get, "/v1/projects/{p}/documents")]),
        (b.clone(), vec![record(&b, "b", Method::Get, "/v1/projects/{p}/installers/{i}")]),
        (c.clone(), vec![record(&c, "c", Method::Post, "/v1/projects/{p}/documents")]),
    ];
    assert_eq!(match_prefix(&route_index, "/v1/projects/", Method::Get, None), vec![a.clone(), b.clone()]);
    assert_eq!(match_prefix(&route_index, "/v1/projects/", Method::Get, Some(5)), vec![a.clone()]);
    assert_eq!(match_prefix(&route_index, "/v1/projects/", Method::Get, Some(6)), vec![b]);
    assert!(match_prefix(&route_index, "", Method::Get, None).is_empty());
}

fn mount_route(handler: &str, name: Option<&str>) -> NamedRoute {
    NamedRoute { handler_name: handler.to_owned(), route_name: name.map(|n| n.to_owned()), methods: vec![Method::Mount] }
}

fn names_lookup<'a>(names: &'a [(String, Vec<RouteId>)], key: &str) -> Option<&'a Vec<RouteId>> {
    names.iter().find(|(k, _)| k == key).map(|(_, v)| v)
}

#[test]
fn named_mount_appears_in_route_names() {
    let files = vec![NamedFile { uri: "file:///app.py".to_owned(), routes: vec![mount_route("static", Some("static"))] }];
    let names = build_route_names(&files);
    assert!(names_lookup(&names, "static").is_some(), "named mount should appear in route_names");
}

#[test]
fn unnamed_mount_not_in_route_names() {
    let files = vec![NamedFile { uri: "file:///app.py".to_owned(), routes: vec![mount_route("StaticFiles", None)] }];
    let names = build_route_names(&files);
    assert!(names_lookup(&names, "StaticFiles").is_none(), "unnamed mount handler_name should NOT appear in route_names");
}

#[test]
fn route_names_ids_sorted_and_named_by_handler() {
    let get = |h: &str, n: Option<&str>| NamedRoute { handler_name: h.to_owned(), route_name: n.map(|x| x.to_owned()), methods: vec![Method::Get, Method::Post] };
    let files = vec![
        NamedFile { uri: "file:///b.py".to_owned(), routes: vec![get("items", None)] },
        NamedFile { uri: "file:///a.py".to_owned(), routes: vec![get("list_items", Some("items"))] },
    ];
    let names = build_route_names(&files);
    let ids: Vec<&str> = names_lookup(&names, "items").unwrap().iter().map(|r| r.0.as_str()).collect();
    assert_eq!(ids, vec!["file:///a.py:list_items:GET", "file:///a.py:list_items:POST", "file:///b.py:items:GET", "file:///b.py:items:POST"]);
    assert!(names_lookup(&names, "list_items").is_none());
}

fn fact(handler: &str, object: &str, path: &str, methods: Vec<Method>) -> RouteFact {
    RouteFact {
        handler_name: handler.to_owned(),
        handler_range: Range { start: Position::new(3, 0), end: Position::new(3, 20) },
        object_name: object.to_owned(),
        methods,
        path: PrefixValue::Literal(path.to_owned()),
        path_range: Some(Range { start: Position::new(2, 9), end: Position::new(2, 17) }),
        path_quote_width: None,
        path_params: vec![],
        response_model: Some("Item".to_owned()),
        response_model_range: None,
        return_annotation: None,
        dependencies: vec!["get_db".to_owned()],
        route_name: None,
        handler_params: vec!["q".to_owned()],
        handler_param_ranges: vec![],
        params_insert_pos: None,
        handler_has_splat_args: false,
        handler_params_known: true,
    }
}

#[test]
fn route_records_one_per_method_with_ordinals() {
    let mounts = vec![MountFacts {
        uri: "file:///app.py".to_owned(),
        apps: vec!["app".to_owned()],
        routers: vec![],
        includes: vec![],
        import_alias_originals: vec![],
        middlewares: vec![],
    }];
    let ctx = LinkContext::from_files(&mounts);
    let files = vec![RouteFile {
        uri: "file:///app.py".to_owned(),
        routes: vec![fact("items", "app", "/items", vec![Method::Get, Method::Post]), fact("health", "app", "/health", vec![Method::Get])],
    }];
    let ix = build_route_records(&ctx, &files);
    assert_eq!(ix.len(), 3);
    let get = &ix.iter().find(|(k, _)| k == "file:///app.py:items:GET").unwrap().1;
    assert_eq!(get.len(), 1);
    assert_eq!(get[0].ordinal, 0);
    assert_eq!(get[0].name, "items");
    assert!(matches!(&get[0].resolved_path, ResolvedPath::Resolved(p) if p == "/items"));
    assert_eq!(get[0].decorator_path, "/items");
    assert_eq!(get[0].dependencies, vec!["get_db".to_owned()]);
    assert_eq!(get[0].response_model.as_deref(), Some("Item"));
    let post = &ix.iter().find(|(k, _)| k == "file:///app.py:items:POST").unwrap().1;
    assert_eq!(post[0].ordinal, 1);
    let health = &ix.iter().find(|(k, _)| k == "file:///app.py:health:GET").unwrap().1;
    assert_eq!(health[0].ordinal, 2);
}

#[test]
fn router_name_collision_prefers_same_file() {
    let lit = |s: &str| PrefixValue::Literal(s.to_owned());
    let ctx = LinkContext {
        routers: vec![(
            "router".to_owned(),
            vec![
                (RouterMount { name: "router".to_owned(), prefix: lit("/a") }, "file:///app/a.py".to_owned()),
                (RouterMount { name: "router".to_owned(), prefix: lit("/b") }, "file:///app/b.py".to_owned()),
            ],
        )],
        apps: vec!["app".to_owned()],
        includes_by_target: vec![(
            "router".to_owned(),
            vec![(IncludeCall { target: "router".to_owned(), prefix: lit(""), app_name: "app".to_owned() }, "file:///app/main.py".to_owned())],
        )],
        middlewares_by_obj: vec![],
    };
    let resolved = ctx.resolve_route_paths("file:///app/a.py", "router", &lit("/items"));
    assert_eq!(resolved.len(), 1);
    assert!(matches!(&resolved[0], ResolvedPath::Resolved(p) if p == "/a/items"));
    let resolved = ctx.resolve_route_paths("file:///app/b.py", "router", &lit("/items"));
    assert_eq!(resolved.len(), 1);
    assert!(matches!(&resolved[0], ResolvedPath::Resolved(p) if p == "/b/items"));
}

fn def(name: &str, has_yield: bool, params: &[&str]) -> DepDefFacts {
    DepDefFacts { name: name.to_owned(), has_yield, param_names: params.iter().map(|p| p.to_string()).collect() }
}

#[test]
fn dep_caches_collect_proven_names_and_first_params() {
    let files = vec![
        CacheFile {
            dep_defs: vec![def("get_db", true, &["settings"]), def("get_user", false, &["token"])],
            dep_refs: vec![("get_user".to_owned(), false), ("called_dep".to_owned(), true), (String::new(), false)],
            alias_fns: vec!["alias_fn".to_owned(), String::new()],
        },
        CacheFile { dep_defs: vec![def("get_user", true, &["other"])], dep_refs: vec![("get_db".to_owned(), false)], alias_fns: vec![] },
    ];
    let (proven, params) = build_dep_caches(&files);
    let mut p: Vec<&str> = proven.iter().map(|s| s.as_str()).collect();
    p.sort();
    assert_eq!(p, vec!["alias_fn", "get_db", "get_user"]);
    let get = |n: &str| params.iter().find(|(k, _)| k == n).map(|(_, v)| v.clone());
    assert_eq!(get("get_user"), Some(vec!["token".to_owned()]));
    assert_eq!(get("get_db"), Some(vec!["settings".to_owned()]));
    assert_eq!(get("called_dep"), None);
}

#[test]
fn model_index_lists_defining_files_in_order() {
    let m = |n: &str| ModelFact { name: n.to_owned(), range: Range { start: Position::new(0, 0), end: Position::new(0, 1) }, is_settings: false };
    let files = vec![
        ModelFile { uri: "file:///a.py".to_owned(), models: vec![m("Book"), m("Author")] },
        ModelFile { uri: "file:///b.py".to_owned(), models: vec![m("Book")] },
    ];
    let ix = build_model_index(&files);
    let get = |n: &str| ix.iter().find(|(k, _)| k == n).map(|(_, v)| v.clone());
    assert_eq!(get("Book"), Some(vec!["file:///a.py".to_owned(), "file:///b.py".to_owned()]));
    assert_eq!(get("Author"), Some(vec!["file:///a.py".to_owned()]));
    assert_eq!(get("Missing"), None);
}

#[test]
fn scc_cycle_map_members_share_one_list_in_cycle_order() {
    // a → b → c → a, a single cycle
    let mut g = DepGraph::new();
    let a = g.intern(&make_node("file:///a.py"));
    let b = g.intern(&make_node("file:///b.py"));
    let c = g.intern(&make_node("file:///c.py"));
    g.add_use(a, b);
    g.add_use(b, c);
    g.add_use(c, a);
    let cycle_map = build_cycle_map(&g);
    let v = cycle_map[a].clone().unwrap();
    assert_eq!(cycle_map[b].clone().unwrap(), v);
    assert_eq!(cycle_map[c].clone().unwrap(), v);
    assert_eq!(v.len(), 3);
    for i in 0..3 {
        assert!(g.uses[v[i]].contains(&v[(i + 1) % 3]));
    }
}

#[test]
fn trie_insert_finds_concrete_paths_and_keeps_matches() {
    let mut root = TrieNode::default();
    trie_insert(&mut root, &["items", "{item_id}"], RouteId("a".to_owned()));
    assert_eq!(trie_lookup(&root, &["items", "42"]).len(), 1);
    trie_insert(&mut root, &["items", "{other}"], RouteId("b".to_owned()));
    let found = trie_lookup(&root, &["items", "42"]);
    assert!(found.iter().any(|r| r.0 == "a"));
    assert!(found.iter().any(|r| r.0 == "b"));
}

fn settings_class(name: &str, uri: &str, keys: &[&str], parents: &[&str]) -> fastapi_lsp::settings::SettingsClass {
    fastapi_lsp::settings::SettingsClass {
        class_name: name.to_owned(),
        uri: uri.to_owned(),
        fields: keys
            .iter()
            .enumerate()
            .map(|(i, k)| fastapi_lsp::analysis::SettingsField {
                env_key: Some((*k).to_owned()),
                has_default: false,
                range: Range { start: Position { line: i as u32, character: 0 }, end: Position { line: i as u32, character: 1 } },
            })
            .collect(),
        superclass_names: parents.iter().map(|p| (*p).to_owned()).collect(),
    }
}

fn collected_keys(name: &str, classes: &Vec<fastapi_lsp::settings::SettingsClass>) -> Vec<(String, String)> {
    fastapi_lsp::settings::collect_settings_fields(&name.to_owned(), classes)
        .into_iter()
        .map(|(uri, f)| (uri, f.env_key.unwrap()))
        .collect()
}

#[test]
fn settings_fields_diamond_visits_base_once() {
    let classes = vec![
        settings_class("Base", "file:///base.py", &["A"], &[]),
        settings_class("Mid1", "file:///m.py", &["B"], &["Base"]),
        settings_class("Mid2", "file:///m.py", &["C"], &["Base", "BaseSettings"]),
        settings_class("Top", "file:///top.py", &["D"], &["Mid1", "Mid2"]),
    ];
    let got = collected_keys("Top", &classes);
    let want: Vec<(String, String)> = vec![
        ("file:///top.py".into(), "D".into()),
        ("file:///m.py".into(), "B".into()),
        ("file:///base.py".into(), "A".into()),
        ("file:///m.py".into(), "C".into()),
    ];
    assert_eq!(got, want);
}

#[test]
fn settings_fields_inheritance_cycle_terminates() {
    let classes = vec![
        settings_class("X", "file:///x.py", &["X1"], &["Y"]),
        settings_class("Y", "file:///y.py", &["Y1", "Y2"], &["X"]),
    ];
    let got = collected_keys("Y", &classes);
    let want: Vec<(String, String)> = vec![
        ("file:///y.py".into(), "Y1".into()),
        ("file:///y.py".into(), "Y2".into()),
        ("file:///x.py".into(), "X1".into()),
    ];
    assert_eq!(got, want);
    assert!(collected_keys("Unknown", &classes).is_empty());
}

fn call(method: Method, path: &str, is_prefix: bool, line: u32) -> fastapi_lsp::testrefs::CallFact {
    fastapi_lsp::testrefs::CallFact {
        method,
        path: path.into(),
        is_prefix,
        path_depth: None,
        range: Range { start: Position { line, character: 4 }, end: Position { line, character: 30 } },
    }
}

#[test]
fn test_refs_group_call_sites_by_route() {
    let items = rid("file:///app.py#list_items:GET");
    let item = rid("file:///app.py#get_item:GET");
    let create = rid("file:///app.py#create_item:POST");
    let route_index: RouteIndex = vec![
        (items.clone(), vec![record(&items, "list_items", Method::Get, "/items")]),
        (item.clone(), vec![record(&item, "get_item", Method::Get, "/items/{item_id}")]),
        (create.clone(), vec![record(&create, "create_item", Method::Post, "/items")]),
    ];
    let trie = build_path_trie(&route_index);
    let files = vec![
        fastapi_lsp::testrefs::CallFile {
            uri: "file:///test_a.py".into(),
            calls: vec![
                call(Method::Get, "/items/", false, 3),
                call(Method::Get, "/items/42", false, 5),
                call(Method::Delete, "/items", false, 7),
            ],
        },
        fastapi_lsp::testrefs::CallFile {
            uri: "file:///test_b.py".into(),
            calls: vec![call(Method::Get, "/items", false, 1), call(Method::Get, "/items/", true, 2)],
        },
    ];
    let refs = fastapi_lsp::testrefs::build_test_refs(&files, &trie, &route_index);
    let lines = |id: &RouteId| -> Vec<(String, u32)> {
        refs.iter()
            .find(|(k, _)| k == id)
            .map(|(_, locs)| locs.iter().map(|l| (l.uri.clone(), l.range.start.line)).collect())
            .unwrap_or_default()
    };
    assert_eq!(lines(&items), vec![("file:///test_a.py".to_owned(), 3), ("file:///test_b.py".to_owned(), 1)]);
    assert_eq!(
        lines(&item),
        vec![("file:///test_a.py".to_owned(), 5), ("file:///test_b.py".to_owned(), 2)]
    );
    assert!(lines(&create).is_empty());
    assert_eq!(refs.len(), 2);

    let sites = fastapi_lsp::testrefs::build_call_site_index(&refs);
    assert_eq!(sites.len(), 4);
    let at = |uri: &str, line: u32| -> Option<Vec<RouteId>> {
        sites.iter().find(|((u, r), _)| u == uri && r.start.line == line).map(|(_, ids)| ids.clone())
    };
    assert_eq!(at("file:///test_a.py", 3), Some(vec![items.clone()]));
    assert_eq!(at("file:///test_a.py", 5), Some(vec![item.clone()]));
    assert_eq!(at("file:///test_b.py", 2), Some(vec![item.clone()]));
    assert_eq!(at("file:///test_a.py", 7), None);
}

#[test]
fn env_file_keys_come_from_settings_env_files_only() {
    let files: Vec<(String, Vec<String>)> = vec![
        ("file:///proj/.env".into(), vec!["DATABASE_URL".into(), "SECRET".into()]),
        ("file:///proj/config/.env.prod".into(), vec!["SECRET".into(), "API_KEY".into()]),
        ("file:///proj/.env.local".into(), vec!["LOCAL_ONLY".into()]),
    ];
    let settings = vec!["config/.env.prod".to_owned(), "./.env".to_owned()];
    let mut keys = fastapi_lsp::envkeys::build_env_file_keys(&files, &settings);
    keys.sort();
    assert_eq!(keys, vec!["API_KEY".to_owned(), "DATABASE_URL".to_owned(), "SECRET".to_owned()]);
    assert!(fastapi_lsp::envkeys::build_env_file_keys(&files, &vec![]).is_empty());
    assert!(fastapi_lsp::envkeys::build_env_file_keys(&files, &vec!["..".to_owned()]).is_empty());
}

#[test]
fn env_index_merges_env_files_and_settings_fields() {
    let loc = |uri: &str, line: u32| Location {
        uri: uri.to_owned(),
        range: Range { start: Position { line, character: 0 }, end: Position { line, character: 1 } },
    };
    let env = |value: &str, l: Location| fastapi_lsp::hovers::EnvEntry { value: value.to_owned(), locations: vec![l] };
    let entries: Vec<(String, fastapi_lsp::hovers::EnvEntry)> = vec![
        ("DATABASE_URL".into(), env("sqlite://", loc("file:///.env", 0))),
        ("DATABASE_URL".into(), env("postgres://", loc("file:///.env.prod", 2))),
    ];
    let classes = vec![
        settings_class("Base", "file:///base.py", &["DATABASE_URL"], &[]),
        settings_class("App", "file:///app.py", &["API_KEY"], &["Base"]),
    ];
    let index = fastapi_lsp::envindex::build_env_index(&entries, &classes);
    let get = |k: &str| index.iter().find(|(key, _)| key == k).map(|(_, e)| e.clone());
    let db = get("DATABASE_URL").unwrap();
    assert_eq!(db.value, "sqlite://");
    let db_locs: Vec<(String, u32)> = db.locations.iter().map(|l| (l.uri.clone(), l.range.start.line)).collect();
    assert_eq!(
        db_locs,
        vec![("file:///.env".to_owned(), 0), ("file:///.env.prod".to_owned(), 2), ("file:///base.py".to_owned(), 0)]
    );
    let api = get("API_KEY").unwrap();
    assert_eq!(api.value, "");
    assert_eq!(api.locations.len(), 1);
    assert_eq!(api.locations[0].uri, "file:///app.py");
    assert!(get("MISSING").is_none());
    assert_eq!(index.len(), 2);
}
