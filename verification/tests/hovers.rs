use fastapi_lsp::deps::{DepGraph, DepRef, FileDeps, NodeId};
use fastapi_lsp::hovers::{
    dep_card, dep_hover, env_entry_card, env_hover, settings_field_hover, SettingsFieldAt, hover, include_hover, route_card, EnvEntry, HoverDep, HoverInclude, RouteObject,
};
use fastapi_lsp::lenses::{LensFileFacts, PlainTypedParam};
use fastapi_lsp::mounts::PrefixValue;
use fastapi_lsp::position::{Location, Position, Range};
use fastapi_lsp::routing::{ChainLink, Method, PathParam, ResolvedPath, RouteId, RouteIndex, RouteRecord};

fn rng(l: u32, a: u32, b: u32) -> Range {
    Range { start: Position { line: l, character: a }, end: Position { line: l, character: b } }
}

fn record(id: &str, name: &str, uri: &str, method: Method, path: &str, deps: Vec<String>) -> RouteRecord {
    RouteRecord {
        id: RouteId(id.to_owned()),
        ordinal: 0,
        name: name.to_owned(),
        method,
        resolved_path: ResolvedPath::Resolved(path.to_owned()),
        decorator_path: path.to_owned(),
        handler: Location { uri: uri.to_owned(), range: Range::default() },
        path_params: vec![],
        response_model: None,
        response_model_range: None,
        return_annotation: None,
        dependencies: deps,
        path_range: None,
        path_quote_width: None,
        handler_params: vec![],
        handler_param_ranges: vec![],
        handler_has_splat_args: false,
        handler_params_known: false,
        params_insert_pos: None,
        chain: vec![],
        middleware: vec![],
    }
}

fn make_route(name: &str, uri: &str, deps: Vec<String>) -> (RouteId, Vec<RouteRecord>) {
    let id = format!("app.{name}");
    let r = record(&id, name, uri, Method::Get, &format!("/{name}"), deps);
    (RouteId(id), vec![r])
}

fn facts(uri: &str) -> LensFileFacts {
    LensFileFacts { uri: uri.to_owned(), dep_refs: vec![], plain_typed_params: vec![], dep_type_aliases: vec![] }
}

fn empty_graph() -> DepGraph {
    DepGraph { nodes: vec![], uses: vec![], used_by: vec![], override_sites: vec![] }
}

fn dep(name: &str, uri: &str, range: Range, has_yield: bool) -> HoverDep {
    HoverDep { name: name.to_owned(), node_id: NodeId { uri: uri.to_owned(), range }, has_yield }
}

#[test]
fn dep_hover_shows_used_by_route_count_in_header() {
    let def_range = Range { start: Position::new(2, 4), end: Position::new(2, 10) };
    let defs = vec![dep("get_db", "file:///app.py", def_range, false)];
    let ix: RouteIndex = vec![make_route("list_books", "file:///app.py", vec!["get_db".to_owned()])];
    let files = vec![facts("file:///app.py")];
    let md = dep_hover(&ix, &files, &[], &empty_graph(), &defs, Position::new(2, 6)).unwrap();
    assert!(md.contains("used by 1 route"), "header should say '1 route', got: {md}");
    assert!(md.contains("`list_books` (route)"), "used-by line should list route");
    assert!(md.contains("uses: —"), "uses line should show — when no sub-deps");
}

#[test]
fn dep_hover_unused_dep_says_unused() {
    let def_range = Range { start: Position::new(5, 4), end: Position::new(5, 12) };
    let defs = vec![dep("unused_dep", "file:///app.py", def_range, false)];
    let files = vec![facts("file:///app.py")];
    let md = dep_hover(&vec![], &files, &[], &empty_graph(), &defs, Position::new(5, 8)).unwrap();
    assert!(md.contains("unused"), "header should say 'unused', got: {md}");
    assert!(md.contains("used by: —"), "unused dep should show '- used by: —'");
    assert!(!md.contains("(route)"), "unused dep should not list any routes");
}

#[test]
fn dep_hover_override_site_appears() {
    let def_range = Range { start: Position::new(1, 4), end: Position::new(1, 10) };
    let override_range = Range { start: Position::new(10, 32), end: Position::new(10, 38) };
    let defs = vec![dep("get_db", "file:///app.py", def_range, true)];
    let g = DepGraph {
        nodes: vec![NodeId { uri: "file:///app.py".to_owned(), range: def_range }],
        uses: vec![vec![]],
        used_by: vec![vec![]],
        override_sites: vec![vec![Location { uri: "file:///tests/conftest.py".to_owned(), range: override_range }]],
    };
    let files = vec![facts("file:///app.py")];
    let md = dep_hover(&vec![], &files, &[], &g, &defs, Position::new(1, 6)).unwrap();
    assert!(md.contains("overridden in"), "should mention override site");
    assert!(md.contains("tests/conftest.py"), "should show dir/file path");
    assert!(md.contains("generator"), "should mention has_yield");
}

#[test]
fn dep_hover_counts_parameter_level_depends() {
    let def_range = Range { start: Position::new(1, 4), end: Position::new(1, 10) };
    let dep_ref_range = Range { start: Position::new(20, 15), end: Position::new(20, 21) };
    let defs = vec![dep("get_db", "file:///app.py", def_range, false)];
    let mut f = facts("file:///app.py");
    f.dep_refs.push(DepRef {
        name: "get_db".to_owned(),
        range: dep_ref_range,
        is_called: false,
        callee_range: None,
        containing_func: Some("read_items".to_owned()),
        caller_node_id: None,
    });
    let ix: RouteIndex = vec![make_route("read_items", "file:///app.py", vec![])];
    let md = dep_hover(&ix, &[f], &[], &empty_graph(), &defs, Position::new(1, 6)).unwrap();
    assert!(md.contains("used by 1 route"), "parameter-level dep should count; got: {md}");
    assert!(md.contains("`read_items` (route)"), "should list the route using the dep");
}

#[test]
fn dep_hover_counts_usage_via_type_alias() {
    let uri = "file:///app/deps.py";
    let route_uri = "file:///app/routes.py";
    let def_range = Range { start: Position::new(3, 4), end: Position::new(3, 28) };
    let defs = vec![dep("_fetch_private_contract", uri, def_range, false)];
    let mut f = facts(uri);
    f.dep_type_aliases.push(("CurrentPrivateContract".to_owned(), "_fetch_private_contract".to_owned()));
    let mut rf = facts(route_uri);
    rf.plain_typed_params.push(PlainTypedParam {
        containing_func: "get_contract".to_owned(),
        type_ident: "CurrentPrivateContract".to_owned(),
        annotation_range: Range::default(),
    });
    let ix: RouteIndex = vec![make_route("get_contract", route_uri, vec![])];
    let md = dep_hover(&ix, &[f, rf], &[], &empty_graph(), &defs, Position::new(3, 10)).unwrap();
    assert!(md.contains("used by 1 route"), "dep used via type alias must not show 'unused'; got: {md}");
    assert!(md.contains("`get_contract` (route)"), "should list the route; got: {md}");
}

#[test]
fn dep_hover_counts_alias_usage_for_route_with_custom_name() {
    let uri = "file:///app/deps.py";
    let route_uri = "file:///app/routes.py";
    let def_range = Range { start: Position::new(3, 4), end: Position::new(3, 28) };
    let defs = vec![dep("_fetch_contract", uri, def_range, false)];
    let mut f = facts(uri);
    f.dep_type_aliases.push(("CurrentContract".to_owned(), "_fetch_contract".to_owned()));
    let mut rf = facts(route_uri);
    rf.plain_typed_params.push(PlainTypedParam {
        containing_func: "upload_contract_view".to_owned(),
        type_ident: "CurrentContract".to_owned(),
        annotation_range: Range::default(),
    });
    let id = format!("{route_uri}:upload_contract_view:POST");
    let r = record(&id, "contracts.upload", route_uri, Method::Post, "/contracts/upload", vec![]);
    let ix: RouteIndex = vec![(RouteId(id), vec![r])];
    let md = dep_hover(&ix, &[f, rf], &[], &empty_graph(), &defs, Position::new(3, 10)).unwrap();
    assert!(md.contains("used by 1 route"), "dep used via alias in route with custom name must show usage; got: {md}");
    assert!(md.contains("`contracts.upload` (route)"), "should display the route name kwarg, not the function name; got: {md}");
}

#[test]
fn include_hover_resolves_import_alias_to_count_routes() {
    let router_uri = "file:///app/projects/router.py";
    let includes = vec![HoverInclude {
        target: "projects_router".to_owned(),
        prefix: PrefixValue::Literal("/v1/projects".to_owned()),
        range: Range { start: Position::new(5, 0), end: Position::new(5, 50) },
    }];
    let aliases = vec![("projects_router".to_owned(), "router".to_owned())];
    let objs = vec![RouteObject {
        uri: router_uri.to_owned(),
        handler_name: "list_projects".to_owned(),
        object_name: "router".to_owned(),
    }];
    let id = format!("{router_uri}:list_projects:GET");
    let mut r = record(&id, "list_projects", router_uri, Method::Get, "/v1/projects/", vec![]);
    r.decorator_path = "/".to_owned();
    let ix: RouteIndex = vec![(RouteId(id), vec![r])];
    let md = include_hover(&includes, &aliases, &objs, &ix, Position::new(5, 10)).unwrap();
    assert!(md.contains("1 route"), "aliased router import must count routes from the declaring file; got: {md}");
}

// ── Further cases ─────────────────────────────────────────────────────────

#[test]
fn include_hover_exact_text_and_prefix_filter() {
    let router_uri = "file:///app/projects/router.py";
    let other_uri = "file:///app/users/router.py";
    let includes = vec![HoverInclude {
        target: "projects_router".to_owned(),
        prefix: PrefixValue::Literal("/v1/projects".to_owned()),
        range: rng(5, 0, 50),
    }];
    let aliases = vec![("projects_router".to_owned(), "router".to_owned())];
    let objs = vec![
        RouteObject { uri: router_uri.to_owned(), handler_name: "list_projects".to_owned(), object_name: "router".to_owned() },
        RouteObject { uri: other_uri.to_owned(), handler_name: "list_users".to_owned(), object_name: "router".to_owned() },
    ];
    let id1 = format!("{router_uri}:list_projects:GET");
    let id2 = format!("{other_uri}:list_users:GET");
    let r1 = record(&id1, "list_projects", router_uri, Method::Get, "/v1/projects/", vec![]);
    let r2 = record(&id2, "list_users", other_uri, Method::Get, "/v1/users/", vec![]);
    let ix: RouteIndex = vec![(RouteId(id1), vec![r1]), (RouteId(id2), vec![r2])];
    let md = include_hover(&includes, &aliases, &objs, &ix, Position::new(5, 10)).unwrap();
    assert_eq!(md, "**router** `projects_router` — 1 routes under `/v1/projects`");
    assert!(include_hover(&includes, &aliases, &objs, &ix, Position::new(6, 0)).is_none());
}

#[test]
fn include_hover_without_alias_counts_all_routes_on_object() {
    let includes = vec![HoverInclude { target: "api.router".to_owned(), prefix: PrefixValue::Unresolved, range: rng(1, 0, 30) }];
    let objs = vec![
        RouteObject { uri: "file:///a.py".to_owned(), handler_name: "one".to_owned(), object_name: "router".to_owned() },
        RouteObject { uri: "file:///b.py".to_owned(), handler_name: "two".to_owned(), object_name: "router".to_owned() },
    ];
    let r1 = record("file:///a.py:one:GET", "one", "file:///a.py", Method::Get, "/x/one", vec![]);
    let r2 = record("file:///b.py:two:GET", "two", "file:///b.py", Method::Get, "/y/two", vec![]);
    let ix: RouteIndex = vec![(r1.id.clone(), vec![r1]), (r2.id.clone(), vec![r2])];
    let md = include_hover(&includes, &[], &objs, &ix, Position::new(1, 3)).unwrap();
    assert_eq!(md, "**router** `api.router` — 2 routes");
}

#[test]
fn route_card_lists_every_section() {
    let mut r = record("file:///a.py:get_item:GET", "get_item", "file:///a.py", Method::Get, "/v1/items/{id}", vec!["auth".to_owned(), "db".to_owned()]);
    r.chain = vec![
        ChainLink { object_name: "app".to_owned(), prefix: String::new() },
        ChainLink { object_name: "router".to_owned(), prefix: "/v1".to_owned() },
    ];
    r.response_model = Some("Item".to_owned());
    r.path_params = vec![PathParam { name: "id".to_owned(), converter: "str".to_owned() }];
    r.middleware = vec!["CORSMiddleware".to_owned()];
    let card = route_card(&r);
    assert_eq!(
        card,
        "**GET** `/v1/items/{id}`\n\n- chain: app → router `/v1`\n- response model: `Item`\n- dependencies: auth, db\n- path params: id\n- middleware:\n  - `CORSMiddleware`"
    );
}

#[test]
fn route_card_unresolved_path_is_marked() {
    let mut r = record("x", "h", "file:///a.py", Method::Post, "/p", vec![]);
    r.resolved_path = ResolvedPath::Unresolved;
    assert_eq!(route_card(&r), "**POST** `⟨unresolved⟩/p`\n");
}

#[test]
fn hover_finds_route_under_cursor() {
    let mut r = record("file:///a.py:h:GET", "h", "file:///a.py", Method::Get, "/h", vec![]);
    r.handler.range = rng(3, 4, 5);
    let ix: RouteIndex = vec![(r.id.clone(), vec![r])];
    assert_eq!(hover(&ix, "file:///a.py", Position::new(3, 4)).unwrap(), "**GET** `/h`\n");
    assert!(hover(&ix, "file:///b.py", Position::new(3, 4)).is_none());
    assert!(hover(&ix, "file:///a.py", Position::new(4, 0)).is_none());
}

#[test]
fn dep_card_exact_text() {
    let sites = vec![Location { uri: "file:///tests/conftest.py".to_owned(), range: rng(9, 0, 1) }];
    let card = dep_card("get_db", true, &vec!["a".to_owned(), "b".to_owned()], &vec!["inner".to_owned()], &vec![], &sites);
    assert_eq!(
        card,
        "**dependency** `get_db` — used by 2 routes, 1 dependency\n\n- used by: `a` (route) · `b` (route) · `inner` (dependency)\n- uses: —\n- generator (yields value, returns on cleanup)\n- overridden in: `tests/conftest.py:10`"
    );
}

#[test]
fn dep_hover_lists_dependency_neighbours() {
    let a = NodeId { uri: "file:///d.py".to_owned(), range: rng(1, 4, 5) };
    let b = NodeId { uri: "file:///d.py".to_owned(), range: rng(5, 4, 5) };
    let g = DepGraph {
        nodes: vec![a.clone(), b.clone()],
        uses: vec![vec![1], vec![]],
        used_by: vec![vec![], vec![0]],
        override_sites: vec![vec![], vec![]],
    };
    let dep_files = vec![FileDeps {
        uri: "file:///d.py".to_owned(),
        dep_defs: vec![
            fastapi_lsp::deps::DepDef { name: "outer".to_owned(), node_id: a.clone() },
            fastapi_lsp::deps::DepDef { name: "inner".to_owned(), node_id: b.clone() },
        ],
        dep_refs: vec![],
        override_sites: vec![],
    }];
    let defs = vec![
        HoverDep { name: "outer".to_owned(), node_id: a, has_yield: false },
        HoverDep { name: "inner".to_owned(), node_id: b, has_yield: false },
    ];
    let md = dep_hover(&vec![], &[], &dep_files, &g, &defs, Position::new(5, 4)).unwrap();
    assert_eq!(md, "**dependency** `inner` — used by 1 dependency\n\n- used by: `outer` (dependency)\n- uses: —");
    let md = dep_hover(&vec![], &[], &dep_files, &g, &defs, Position::new(1, 4)).unwrap();
    assert_eq!(md, "**dependency** `outer` — unused\n\n- used by: —\n- uses: `inner`");
}

#[test]
fn env_entry_card_shows_value_and_sites() {
    let e = EnvEntry {
        value: "postgres://x".to_owned(),
        locations: vec![Location { uri: "file:///proj/.env".to_owned(), range: rng(2, 0, 5) }],
    };
    assert_eq!(env_entry_card("DB_URL", Some(&e), false), "`DB_URL` = `postgres://x`\n\ndefined in: `..env:3`");
    assert_eq!(env_entry_card("SECRET_KEY", Some(&e), true), "`SECRET_KEY` = ••••••\n\ndefined in: `..env:3`");
    assert_eq!(env_entry_card("MISSING", None, false), "`MISSING` = [not in workspace env files]");
}

fn env_ix() -> Vec<(String, EnvEntry)> {
    let loc = Location { uri: "file:///p/.env".to_owned(), range: Range { start: Position::new(2, 0), end: Position::new(2, 6) } };
    vec![
        ("DB_URL".to_owned(), EnvEntry { value: "postgres://x".to_owned(), locations: vec![loc.clone()] }),
        ("API_SECRET".to_owned(), EnvEntry { value: "hunter2".to_owned(), locations: vec![loc] }),
    ]
}

#[test]
fn env_hover_shows_card_of_lookup_under_cursor() {
    let lookups = vec![("DB_URL".to_owned(), Range { start: Position::new(4, 10), end: Position::new(4, 30) })];
    let h = env_hover(&lookups, &env_ix(), &[], Position::new(4, 12)).unwrap();
    assert_eq!(h, env_entry_card("DB_URL", Some(&env_ix()[0].1), false));
    assert!(env_hover(&lookups, &env_ix(), &[], Position::new(4, 30)).is_none());
}

#[test]
fn env_hover_masks_secret_keys() {
    let lookups = vec![("API_SECRET".to_owned(), Range { start: Position::new(1, 0), end: Position::new(1, 20) })];
    let h = env_hover(&lookups, &env_ix(), &["API_SECRET".to_owned()], Position::new(1, 3)).unwrap();
    assert!(!h.contains("hunter2"));
}

#[test]
fn settings_field_hover_uses_field_name_without_env_key() {
    let fields = vec![
        SettingsFieldAt { env_key: Some("DB_URL".to_owned()), field_name: "database".to_owned(), range: Range { start: Position::new(3, 4), end: Position::new(3, 12) } },
        SettingsFieldAt { env_key: None, field_name: "MISSING".to_owned(), range: Range { start: Position::new(4, 4), end: Position::new(4, 11) } },
    ];
    let h = settings_field_hover(&fields, &env_ix(), &[], Position::new(3, 5)).unwrap();
    assert!(h.contains("postgres://x"));
    let h2 = settings_field_hover(&fields, &env_ix(), &[], Position::new(4, 5)).unwrap();
    assert!(h2.contains("MISSING") && h2.contains("[not in workspace env files]"));
    assert!(settings_field_hover(&fields, &env_ix(), &[], Position::new(9, 0)).is_none());
}
