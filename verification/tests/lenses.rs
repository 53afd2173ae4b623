use fastapi_lsp::checks::RouterDecl;
use fastapi_lsp::deps::{DepDef, DepGraph, DepRef, NodeId};
use fastapi_lsp::lenses::{code_lenses, resolve, Lens, LensFile, LensFileFacts, LensWorkspace, ModelFact, PlainTypedParam};
use fastapi_lsp::position::{Location, Position, Range};
use fastapi_lsp::routing::{Method, ResolvedPath, RouteId, RouteIndex, RouteRecord};

fn rng(l: u32, a: u32, b: u32) -> Range {
    Range { start: Position { line: l, character: a }, end: Position { line: l, character: b } }
}

fn make_route(id: &str, name: &str, path: &str, uri: &str, handler_range: Range) -> (RouteId, RouteRecord) {
    let rid = RouteId(id.to_owned());
    let record = RouteRecord {
        id: rid.clone(),
        ordinal: 0,
        name: name.to_owned(),
        method: Method::Get,
        resolved_path: ResolvedPath::Resolved(path.to_owned()),
        decorator_path: path.to_owned(),
        handler: Location { uri: uri.to_owned(), range: handler_range },
        path_params: vec![],
        response_model: None,
        response_model_range: None,
        return_annotation: None,
        dependencies: vec![],
        path_range: None,
        path_quote_width: None,
        handler_params: vec![],
        handler_param_ranges: vec![],
        handler_has_splat_args: false,
        handler_params_known: false,
        params_insert_pos: None,
        chain: vec![],
        middleware: vec![],
    };
    (rid, record)
}

fn empty_graph() -> DepGraph {
    DepGraph { nodes: vec![], uses: vec![], used_by: vec![], override_sites: vec![] }
}

fn ws() -> LensWorkspace {
    LensWorkspace { files: vec![], route_index: vec![], test_ref_counts: vec![], cycle_nodes: vec![], dep_graph: empty_graph() }
}

fn file(uri: &str) -> LensFile {
    LensFile { uri: uri.to_owned(), dep_defs: vec![], routers: vec![], route_objects: vec![], models: vec![], dep_type_alias_ranges: vec![] }
}

fn facts(uri: &str) -> LensFileFacts {
    LensFileFacts { uri: uri.to_owned(), dep_refs: vec![], plain_typed_params: vec![], dep_type_aliases: vec![] }
}

fn with_command<'a>(lenses: &'a [Lens], command: &str) -> Option<&'a Lens> {
    lenses.iter().find(|l| l.command.as_ref().is_some_and(|c| c.command == command))
}

fn none_with(lenses: &[Lens], command: &str) -> bool {
    lenses.iter().all(|l| l.command.as_ref().is_none_or(|c| c.command != command))
}

fn title(l: &Lens) -> &str {
    l.command.as_ref().unwrap().title.as_str()
}

#[test]
fn no_lenses_when_no_test_refs() {
    let mut w = ws();
    let (rid, rec) = make_route("app.get_items:GET", "get_items", "/items", "file:///app.py", rng(2, 4, 14));
    w.route_index.push((rid, vec![rec]));
    assert!(code_lenses(&w, &file("file:///app.py")).is_empty());
}

#[test]
fn lens_emitted_for_route_with_test_refs() {
    let handler_range = rng(5, 4, 16);
    let mut w = ws();
    let (rid, rec) = make_route("app.list_users:GET", "list_users", "/users", "file:///app.py", handler_range);
    w.test_ref_counts.push((rid.clone(), 1));
    w.route_index.push((rid, vec![rec]));
    let lenses = code_lenses(&w, &file("file:///app.py"));
    assert_eq!(lenses.len(), 1);
    assert_eq!(lenses[0].range, handler_range);
    assert!(lenses[0].command.is_none(), "initial lens must be unresolved");
    assert!(lenses[0].route_ids.is_some());
}

#[test]
fn resolve_fills_command_with_count() {
    let mut w = ws();
    let (rid, rec) = make_route("app.ping:GET", "ping", "/ping", "file:///app.py", rng(3, 4, 12));
    w.test_ref_counts.push((rid.clone(), 1));
    w.route_index.push((rid, vec![rec]));
    let lenses = code_lenses(&w, &file("file:///app.py"));
    let resolved = resolve(lenses.into_iter().next().unwrap(), &w.test_ref_counts);
    let cmd = resolved.command.unwrap();
    assert_eq!(cmd.title, "▶ 1 test reference");
    assert_eq!(cmd.command, "fastapi-lsp.showTestRefs");
}

#[test]
fn resolve_plural_for_multiple_refs() {
    let mut w = ws();
    let (rid, rec) = make_route("app.get_item:GET", "get_item", "/items/{id}", "file:///app.py", rng(7, 4, 18));
    w.test_ref_counts.push((rid.clone(), 3));
    w.route_index.push((rid, vec![rec]));
    let lenses = code_lenses(&w, &file("file:///app.py"));
    let resolved = resolve(lenses.into_iter().next().unwrap(), &w.test_ref_counts);
    assert_eq!(resolved.command.unwrap().title, "▶ 3 test references");
}

#[test]
fn resolve_leaves_lens_without_references() {
    let lens = Lens { range: rng(1, 0, 1), command: None, route_ids: Some(vec!["x".to_owned()]) };
    let resolved = resolve(lens, &[]);
    assert!(resolved.command.is_none());
}

#[test]
fn multi_mount_does_not_double_count_refs() {
    let handler_range = rng(3, 4, 12);
    let mut w = ws();
    let (rid, rec1) = make_route("app.get_items:GET", "get_items", "/items", "file:///app.py", handler_range);
    let (_, rec2) = make_route("app.get_items:GET", "get_items", "/v2/items", "file:///app.py", handler_range);
    w.test_ref_counts.push((rid.clone(), 1));
    w.route_index.push((rid, vec![rec1, rec2]));
    let lenses = code_lenses(&w, &file("file:///app.py"));
    assert_eq!(lenses.len(), 1);
    let resolved = resolve(lenses.into_iter().next().unwrap(), &w.test_ref_counts);
    assert_eq!(resolved.command.unwrap().title, "▶ 1 test reference", "should not double-count multi-mount records");
}

#[test]
fn deduplicates_lenses_by_handler_range_and_merges_counts() {
    let handler_range = rng(4, 4, 14);
    let mut w = ws();
    let (rid1, rec1) = make_route("app.handler:GET", "handler", "/path", "file:///app.py", handler_range);
    let (rid2, rec2) = make_route("app.handler:POST", "handler", "/path", "file:///app.py", handler_range);
    w.test_ref_counts.push((rid1.clone(), 1));
    w.test_ref_counts.push((rid2.clone(), 2));
    w.route_index.push((rid1, vec![rec1]));
    w.route_index.push((rid2, vec![rec2]));
    let lenses = code_lenses(&w, &file("file:///app.py"));
    assert_eq!(lenses.len(), 1, "duplicate handler ranges should yield one lens");
    let resolved = resolve(lenses.into_iter().next().unwrap(), &w.test_ref_counts);
    assert_eq!(resolved.command.unwrap().title, "▶ 3 test references");
}

fn make_dep_def(name: &str, uri: &str, row: u32) -> DepDef {
    DepDef { name: name.to_owned(), node_id: NodeId { uri: uri.to_owned(), range: rng(row, 4, 4 + name.len() as u32) } }
}

fn make_dep_ref(name: &str) -> DepRef {
    DepRef { name: name.to_owned(), caller_node_id: None, containing_func: None, range: Range::default(), is_called: false, callee_range: None }
}

#[test]
fn dep_usage_lens_emitted_for_used_dep() {
    let mut w = ws();
    let mut f = file("file:///app/deps.py");
    f.dep_defs.push(make_dep_def("get_db", "file:///app/deps.py", 5));
    w.files.push(facts("file:///app/deps.py"));
    let mut caller = facts("file:///app/routes.py");
    caller.dep_refs.push(make_dep_ref("get_db"));
    caller.dep_refs.push(make_dep_ref("get_db"));
    w.files.push(caller);
    let lenses = code_lenses(&w, &f);
    let usage = with_command(&lenses, "editor.showReferences");
    assert!(usage.is_some(), "expected a dep-usage lens");
    assert_eq!(title(usage.unwrap()), "2 usages");
    let refs = usage.unwrap().command.as_ref().unwrap().references.as_ref().unwrap();
    assert_eq!(refs.uri, "file:///app/deps.py");
    assert_eq!(refs.position, Position { line: 5, character: 4 });
    assert_eq!(refs.locations.len(), 2);
    assert_eq!(refs.locations[0].0, "file:///app/routes.py");
}

#[test]
fn dep_usage_no_lens_when_zero_usages() {
    let mut w = ws();
    let mut f = file("file:///app/deps.py");
    f.dep_defs.push(make_dep_def("get_db", "file:///app/deps.py", 5));
    w.files.push(facts("file:///app/deps.py"));
    let lenses = code_lenses(&w, &f);
    assert!(none_with(&lenses, "editor.showReferences"), "no usage lens expected when dep is unreferenced");
}

#[test]
fn dep_usage_no_lens_for_single_usage() {
    let mut w = ws();
    let mut f = file("file:///app/deps.py");
    f.dep_defs.push(make_dep_def("get_db", "file:///app/deps.py", 3));
    let mut own = facts("file:///app/deps.py");
    own.dep_refs.push(make_dep_ref("get_db"));
    w.files.push(own);
    let lenses = code_lenses(&w, &f);
    assert!(none_with(&lenses, "editor.showReferences"), "single usage must not produce a lens");
}

#[test]
fn dep_usage_plural_label() {
    let mut w = ws();
    let mut f = file("file:///app/deps.py");
    f.dep_defs.push(make_dep_def("get_db", "file:///app/deps.py", 3));
    w.files.push(facts("file:///app/deps.py"));
    let mut caller = facts("file:///app/routes.py");
    caller.dep_refs.push(make_dep_ref("get_db"));
    caller.dep_refs.push(make_dep_ref("get_db"));
    w.files.push(caller);
    let lenses = code_lenses(&w, &f);
    assert_eq!(title(with_command(&lenses, "editor.showReferences").unwrap()), "2 usages");
}

#[test]
fn dep_usage_counts_alias_typed_params() {
    let mut w = ws();
    let mut f = file("file:///app/deps.py");
    f.dep_defs.push(make_dep_def("get_db", "file:///app/deps.py", 3));
    let mut own = facts("file:///app/deps.py");
    own.dep_type_aliases.push(("DbSession".to_owned(), "get_db".to_owned()));
    own.dep_refs.push(make_dep_ref("get_db"));
    w.files.push(own);
    let mut caller = facts("file:///app/routes.py");
    caller.plain_typed_params.push(PlainTypedParam { containing_func: "h".to_owned(), type_ident: "DbSession".to_owned(), annotation_range: rng(9, 3, 12) });
    w.files.push(caller);
    let lenses = code_lenses(&w, &f);
    let usage = with_command(&lenses, "editor.showReferences").unwrap();
    assert_eq!(title(usage), "2 usages");
    let refs = usage.command.as_ref().unwrap().references.as_ref().unwrap();
    assert_eq!(refs.locations[1], ("file:///app/routes.py".to_owned(), rng(9, 3, 12)));
}

fn route_router(name: &str, range: Range) -> RouterDecl {
    RouterDecl { name: name.to_owned(), range }
}

#[test]
fn router_route_count_lens_emitted() {
    let mut f = file("file:///app/router.py");
    f.routers.push(route_router("router", rng(2, 0, 6)));
    f.route_objects = vec!["router".to_owned(), "router".to_owned(), "other_router".to_owned()];
    let lenses = code_lenses(&ws(), &f);
    assert_eq!(title(with_command(&lenses, "fastapi-lsp.routerRoutes").unwrap()), "2 routes");
}

#[test]
fn router_no_lens_when_no_routes() {
    let mut f = file("file:///app/router.py");
    f.routers.push(route_router("router", Range::default()));
    let lenses = code_lenses(&ws(), &f);
    assert!(none_with(&lenses, "fastapi-lsp.routerRoutes"), "no route-count lens expected for empty router");
}

#[test]
fn dep_cycle_lens_emitted_when_in_cycle() {
    let mut w = ws();
    let d = make_dep_def("cyclic_dep", "file:///app/deps.py", 10);
    w.cycle_nodes.push(d.node_id.clone());
    let mut f = file("file:///app/deps.py");
    f.dep_defs.push(d);
    let lenses = code_lenses(&w, &f);
    assert_eq!(title(with_command(&lenses, "fastapi-lsp.depCycle").unwrap()), "⚠ in dependency cycle");
}

#[test]
fn dep_cycle_no_lens_when_not_in_cycle() {
    let mut f = file("file:///app/deps.py");
    f.dep_defs.push(make_dep_def("safe_dep", "file:///app/deps.py", 5));
    let lenses = code_lenses(&ws(), &f);
    assert!(none_with(&lenses, "fastapi-lsp.depCycle"), "no cycle lens for dep not in any cycle");
}

fn model_route(id: &str, model: &str) -> (RouteId, RouteRecord) {
    let (rid, mut rec) = make_route(id, id, "/items", "file:///app/routes.py", Range::default());
    rec.response_model = Some(model.to_owned());
    (rid, rec)
}

#[test]
fn model_lens_emitted_when_used_as_response_model() {
    let mut w = ws();
    let (r1, rec1) = model_route("r1:GET", "Item");
    let (r2, rec2) = model_route("r2:GET", "Item");
    w.route_index.push((r1, vec![rec1]));
    w.route_index.push((r2, vec![rec2]));
    let mut f = file("file:///app/models.py");
    f.models.push(ModelFact { name: "Item".to_owned(), range: rng(4, 0, 4), is_settings: false });
    let lenses = code_lenses(&w, &f);
    assert_eq!(title(with_command(&lenses, "fastapi-lsp.modelRoutes").unwrap()), "used in 2 routes");
}

#[test]
fn model_lens_uses_return_annotation_fallback() {
    let mut w = ws();
    let (rid, mut rec) = model_route("r:GET", "SomethingElse");
    rec.response_model = None;
    rec.return_annotation = Some("Widget".to_owned());
    w.route_index.push((rid, vec![rec]));
    let mut f = file("file:///app/models.py");
    f.models.push(ModelFact { name: "Widget".to_owned(), range: Range::default(), is_settings: false });
    let lenses = code_lenses(&w, &f);
    assert_eq!(title(with_command(&lenses, "fastapi-lsp.modelRoutes").unwrap()), "used in 1 route");
}

#[test]
fn settings_model_no_lens() {
    let mut w = ws();
    let (rid, rec) = model_route("r:GET", "AppSettings");
    w.route_index.push((rid, vec![rec]));
    let mut f = file("file:///app/config.py");
    f.models.push(ModelFact { name: "AppSettings".to_owned(), range: Range::default(), is_settings: true });
    let lenses = code_lenses(&w, &f);
    assert!(none_with(&lenses, "fastapi-lsp.modelRoutes"), "BaseSettings subclass must not get a response-model lens");
}

fn graph_with_overrides(node: &NodeId, n: usize) -> DepGraph {
    let loc = Location { uri: "file:///tests/conftest.py".to_owned(), range: Range::default() };
    DepGraph { nodes: vec![node.clone()], uses: vec![vec![]], used_by: vec![vec![]], override_sites: vec![vec![loc; n]] }
}

#[test]
fn dep_override_lens_emitted() {
    let d = make_dep_def("get_db", "file:///app/deps.py", 8);
    let mut w = ws();
    w.dep_graph = graph_with_overrides(&d.node_id, 2);
    let mut f = file("file:///app/deps.py");
    f.dep_defs.push(d);
    let lenses = code_lenses(&w, &f);
    assert_eq!(title(with_command(&lenses, "fastapi-lsp.depOverrides").unwrap()), "2 test overrides");
}

#[test]
fn dep_override_singular_label() {
    let d = make_dep_def("get_db", "file:///app/deps.py", 8);
    let mut w = ws();
    w.dep_graph = graph_with_overrides(&d.node_id, 1);
    let mut f = file("file:///app/deps.py");
    f.dep_defs.push(d);
    let lenses = code_lenses(&w, &f);
    assert_eq!(title(with_command(&lenses, "fastapi-lsp.depOverrides").unwrap()), "1 test override");
}

#[test]
fn alias_usage_lens_emitted() {
    let alias_uri = "file:///app/common/db/dependencies.py";
    let alias_range = rng(11, 0, 60);
    let mut w = ws();
    w.files.push(facts(alias_uri));
    let mut handler = facts("file:///app/features/projects/router.py");
    for i in 0..12u32 {
        handler.plain_typed_params.push(PlainTypedParam {
            containing_func: "some_handler".to_owned(),
            type_ident: "DbSession".to_owned(),
            annotation_range: rng(i + 10, 15, 24),
        });
    }
    w.files.push(handler);
    let mut f = file(alias_uri);
    f.dep_type_alias_ranges.push(("DbSession".to_owned(), alias_range));
    let lenses = code_lenses(&w, &f);
    let l = with_command(&lenses, "editor.showReferences").unwrap();
    assert_eq!(title(l), "12 usages");
    assert_eq!(l.range, alias_range);
}

#[test]
fn alias_no_lens_when_unused() {
    let mut f = file("file:///app/deps.py");
    f.dep_type_alias_ranges.push(("UnusedAlias".to_owned(), rng(5, 0, 40)));
    let mut w = ws();
    w.files.push(facts("file:///app/deps.py"));
    let lenses = code_lenses(&w, &f);
    assert!(none_with(&lenses, "editor.showReferences"), "no alias lens when no handler params use it");
}

#[test]
fn alias_no_lens_when_single_usage() {
    let mut f = file("file:///app/deps.py");
    f.dep_type_alias_ranges.push(("MyAlias".to_owned(), Range::default()));
    let mut own = facts("file:///app/deps.py");
    own.plain_typed_params.push(PlainTypedParam { containing_func: "handler".to_owned(), type_ident: "MyAlias".to_owned(), annotation_range: Range::default() });
    let mut w = ws();
    w.files.push(own);
    let lenses = code_lenses(&w, &f);
    assert!(none_with(&lenses, "editor.showReferences"), "single usage must not produce an alias lens");
}

#[test]
fn lenses_sorted_by_start_position() {
    let mut f = file("file:///app/router.py");
    f.routers.push(route_router("late", rng(9, 0, 4)));
    f.routers.push(route_router("early", rng(1, 0, 5)));
    f.route_objects = vec!["late".to_owned(), "early".to_owned(), "early".to_owned()];
    let lenses = code_lenses(&ws(), &f);
    assert_eq!(lenses.len(), 2);
    assert_eq!(title(&lenses[0]), "2 routes");
    assert_eq!(title(&lenses[1]), "1 route");
}
