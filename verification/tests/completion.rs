use fastapi_lsp::joining::path_to_snippet;
use fastapi_lsp::analysis::{EnvLookup, TemplateRef, UrlForSite};
use fastapi_lsp::completion::{completion, ItemKind};
use fastapi_lsp::deps::DepGraph;
use fastapi_lsp::goto::{ClientCall, NavFile, NavWorkspace};
use fastapi_lsp::hovers::EnvEntry;
use fastapi_lsp::position::{Location, Position, Range};
use fastapi_lsp::routing::{Method, ResolvedPath, RouteId, RouteRecord};
use fastapi_lsp::pysource::{extract_handler_block, find_decorator_line_for_path, import_insert_line};

#[test]
fn path_to_snippet_no_params_is_plain() {
    assert_eq!(path_to_snippet("/items"), "/items");
    assert_eq!(path_to_snippet("/api/books"), "/api/books");
}

#[test]
fn path_to_snippet_single_param() {
    assert_eq!(path_to_snippet("/items/{item_id}"), "/items/${1:item_id}");
}

#[test]
fn path_to_snippet_multiple_params() {
    assert_eq!(
        path_to_snippet("/users/{user_id}/posts/{post_id}"),
        "/users/${1:user_id}/posts/${2:post_id}"
    );
}

#[test]
fn path_to_snippet_path_converter_uses_name_only() {
    assert_eq!(path_to_snippet("/files/{filepath:path}"), "/files/${1:filepath}");
}

#[test]
fn import_insert_line_empty_file() {
    assert_eq!(import_insert_line(""), 0);
}

#[test]
fn import_insert_line_no_header() {
    assert_eq!(import_insert_line("import fastapi\n"), 0);
}

#[test]
fn import_insert_line_after_future() {
    let src = "from __future__ import annotations\nimport fastapi\n";
    assert_eq!(import_insert_line(src), 1);
}

#[test]
fn import_insert_line_after_docstring_and_future() {
    let src = "\"\"\"Module docstring.\"\"\"\nfrom __future__ import annotations\nimport fastapi\n";
    assert_eq!(import_insert_line(src), 2);
}

#[test]
fn import_insert_line_after_multiline_docstring() {
    let src = "\"\"\"\nMulti-line docstring.\n\"\"\"\nfrom __future__ import annotations\n";
    assert_eq!(import_insert_line(src), 4);
}

#[test]
fn import_insert_line_skips_comments_and_prefixed_docstring() {
    let src = "# header\n\nr'''doc\nmore'''\n# c\nfrom __future__ import x\r\nimport os\n";
    assert_eq!(import_insert_line(src), 6);
    assert_eq!(import_insert_line("\"\"\"never closed\nx = 1\n"), 2);
}

#[test]
fn extract_handler_block_preserves_crlf() {
    let source = "@app.get(\"/\")\r\nasync def root():\r\n    return {}\r\n";
    let lines: Vec<&str> = source.split_inclusive('\n').collect();
    let handler_range = Range { start: Position::new(0, 0), end: Position::new(2, 14) };
    let (start, _end, text) = extract_handler_block(&lines, handler_range).unwrap();
    assert_eq!(start, 0);
    assert!(text.contains("\r\n"), "CRLF must be preserved, got: {:?}", text);
    assert_eq!(text, source);
}

#[test]
fn extract_handler_block_no_trailing_newline_clamped() {
    let source = "@app.get(\"/\")\nasync def root():\n    return {}";
    let lines: Vec<&str> = source.split_inclusive('\n').collect();
    let handler_range = Range { start: Position::new(0, 0), end: Position::new(2, 14) };
    let (_, end_pos, _) = extract_handler_block(&lines, handler_range).unwrap();
    assert_eq!(end_pos.line, 2, "end line must not exceed last line");
    assert!(end_pos.character > 0, "end character must point inside last line");
}

#[test]
fn extract_handler_block_collects_decorators_above_def() {
    let source = "x = 1\n# note\n@app.get(\"/\")\ndef root():\n    return 1\ny = 2\n";
    let lines: Vec<&str> = source.split_inclusive('\n').collect();
    let handler_range = Range { start: Position::new(3, 0), end: Position::new(4, 12) };
    let (start, end_pos, text) = extract_handler_block(&lines, handler_range).unwrap();
    assert_eq!(start, 1);
    assert_eq!(end_pos, Position::new(5, 0));
    assert_eq!(text, "# note\n@app.get(\"/\")\ndef root():\n    return 1\n");
    let past = Range { start: Position::new(3, 0), end: Position::new(9, 0) };
    assert!(extract_handler_block(&lines, past).is_none());
}

#[test]
fn decorator_lines_are_found_above() {
    let lines = vec!["@router.get(", "    \"/items\",", ")", "def f():", "  @x"];
    let path_range = Range { start: Position::new(1, 4), end: Position::new(1, 12) };
    assert_eq!(find_decorator_line_for_path(&lines, path_range), Some(0));
    let on_line = Range { start: Position::new(4, 0), end: Position::new(4, 1) };
    assert_eq!(find_decorator_line_for_path(&lines, on_line), Some(4));
}

fn nav_file(uri: &str) -> NavFile {
    NavFile {
        uri: uri.to_owned(),
        url_for_sites: vec![],
        includes: vec![],
        dep_refs: vec![],
        env_lookups: vec![],
        client_calls: vec![],
        templates: vec![],
        routers: vec![],
        apps: vec![],
        dep_defs: vec![],
    }
}

fn workspace(files: Vec<NavFile>) -> NavWorkspace {
    NavWorkspace {
        files,
        route_index: vec![],
        route_names: vec![],
        env_index: vec![],
        call_site_index: vec![],
        template_index: vec![],
        test_refs: vec![],
        dep_graph: DepGraph { nodes: vec![], uses: vec![], used_by: vec![], override_sites: vec![] },
    }
}

fn make_route(name: &str, path: &str, method: Method, uri: &str) -> (RouteId, RouteRecord) {
    let id = RouteId(format!("app.{name}"));
    let record = RouteRecord {
        id: id.clone(),
        ordinal: 0,
        name: name.to_owned(),
        method,
        resolved_path: ResolvedPath::Resolved(path.to_owned()),
        decorator_path: path.to_owned(),
        handler: Location { uri: uri.to_owned(), range: Range::default() },
        path_params: vec![],
        response_model: None,
        response_model_range: None,
        return_annotation: None,
        dependencies: vec![],
        path_range: None,
        path_quote_width: None,
        handler_params: vec![],
        handler_param_ranges: vec![],
        handler_has_splat_args: false,
        handler_params_known: false,
        params_insert_pos: None,
        chain: vec![],
        middleware: vec![],
    };
    (id, record)
}

#[test]
fn client_path_completion_offers_matching_method_routes() {
    let uri = "file:///tests/test_routes.py";
    let path_range = Range { start: Position::new(3, 14), end: Position::new(3, 16) };
    let mut f = nav_file(uri);
    f.client_calls.push(ClientCall { method: Method::Get, range: Range::default(), path_range });
    let mut ws = workspace(vec![f]);
    let (id1, r1) = make_route("list_items", "/items", Method::Get, "file:///app.py");
    let (id2, r2) = make_route("get_item", "/items/{id}", Method::Get, "file:///app.py");
    let (id3, r3) = make_route("create_item", "/items", Method::Post, "file:///app.py");
    ws.route_index = vec![(id1, vec![r1]), (id2, vec![r2]), (id3, vec![r3])];
    let items = completion(&ws, uri, Position::new(3, 14), &[], None).unwrap().items;
    assert_eq!(items.len(), 2, "only GET routes should appear");
    let labels: Vec<&str> = items.iter().map(|i| i.label.as_str()).collect();
    assert!(labels.contains(&"/items"), "plain route should appear");
    assert!(labels.contains(&"/items/{id}"), "param route should appear");
    let param_item = items.iter().find(|i| i.label == "/items/{id}").unwrap();
    assert!(param_item.snippet);
    assert_eq!(param_item.new_text, "/items/${1:id}");
    assert_eq!(param_item.range, path_range);
    let plain_item = items.iter().find(|i| i.label == "/items").unwrap();
    assert!(!plain_item.snippet);
}

fn make_template_ws(prefix: &str, tpl_range: Range, entries: &[(&str, &str)]) -> NavWorkspace {
    let mut f = nav_file("file:///project/app/main.py");
    f.templates.push(TemplateRef { path: prefix.to_owned(), range: tpl_range });
    let mut ws = workspace(vec![f]);
    ws.template_index = entries.iter().map(|(k, v)| (k.to_string(), v.to_string())).collect();
    ws
}

fn tpl_range() -> Range {
    Range { start: Position::new(3, 40), end: Position::new(3, 52) }
}

#[test]
fn flat_files_complete_with_file_kind() {
    let ws = make_template_ws("", tpl_range(), &[("index.html", "file:///project/tpl/index.html"), ("about.html", "file:///project/tpl/about.html")]);
    let items = completion(&ws, "file:///project/app/main.py", Position::new(3, 41), &[], None).unwrap().items;
    assert_eq!(items.len(), 2);
    assert!(items.iter().all(|i| i.kind == ItemKind::File));
}

#[test]
fn directory_items_have_folder_kind_and_incomplete_list() {
    let ws = make_template_ws(
        "",
        tpl_range(),
        &[
            ("admin/index.html", "file:///project/tpl/admin/index.html"),
            ("admin/users.html", "file:///project/tpl/admin/users.html"),
            ("index.html", "file:///project/tpl/index.html"),
        ],
    );
    let list = completion(&ws, "file:///project/app/main.py", Position::new(3, 41), &[], None).unwrap();
    assert!(list.incomplete, "must be incomplete when directories present");
    let folder_items: Vec<_> = list.items.iter().filter(|i| i.kind == ItemKind::Folder).collect();
    assert_eq!(folder_items.len(), 1, "admin/ deduped to one entry");
    assert_eq!(folder_items[0].label, "admin/");
}

#[test]
fn prefix_filters_to_next_level() {
    let ws = make_template_ws(
        "admin/",
        Range { start: Position::new(3, 40), end: Position::new(3, 55) },
        &[
            ("admin/index.html", "file:///project/tpl/admin/index.html"),
            ("admin/users.html", "file:///project/tpl/admin/users.html"),
            ("index.html", "file:///project/tpl/index.html"),
        ],
    );
    let list = completion(&ws, "file:///project/app/main.py", Position::new(3, 46), &[], None).unwrap();
    assert_eq!(list.items.len(), 2, "only admin/ entries");
    let labels: Vec<&str> = list.items.iter().map(|i| i.label.as_str()).collect();
    assert!(labels.contains(&"admin/index.html"));
    assert!(labels.contains(&"admin/users.html"));
    assert!(!list.incomplete, "no dirs at this level → complete");
}

#[test]
fn empty_index_returns_none() {
    let ws = make_template_ws("", tpl_range(), &[]);
    assert!(completion(&ws, "file:///project/app/main.py", Position::new(3, 41), &[], None).is_none(), "no completion when index empty");
}

#[test]
fn cursor_outside_template_string_returns_none() {
    let ws = make_template_ws("", tpl_range(), &[("index.html", "file:///project/tpl/index.html")]);
    assert!(completion(&ws, "file:///project/app/main.py", Position::new(10, 0), &[], None).is_none());
}

#[test]
fn cursor_at_exclusive_end_of_string_node_returns_none() {
    let ws = make_template_ws("", tpl_range(), &[("index.html", "file:///project/tpl/index.html")]);
    assert!(
        completion(&ws, "file:///project/app/main.py", Position::new(3, 52), &[], None).is_none(),
        "col 52 is past the closing quote — must not trigger completion"
    );
}

#[test]
fn text_edit_range_excludes_quotes() {
    let ws = make_template_ws("", tpl_range(), &[("index.html", "file:///project/tpl/index.html")]);
    let items = completion(&ws, "file:///project/app/main.py", Position::new(3, 41), &[], None).unwrap().items;
    assert_eq!(items[0].range.start.character, 41, "start after opening quote");
    assert_eq!(items[0].range.end.character, 51, "end before closing quote");
}

#[test]
fn url_for_completion_returns_all_route_names() {
    let uri = "file:///app/views.py";
    let name_range = Range { start: Position::new(0, 20), end: Position::new(0, 20) };
    let mut f = nav_file(uri);
    f.url_for_sites.push(UrlForSite { name: String::new(), kwarg_names: vec![], has_splat_kwargs: false, range: Range::default(), name_range: Some(name_range) });
    let mut ws = workspace(vec![f]);
    let (id1, r1) = make_route("list_items", "/items", Method::Get, "file:///app.py");
    let (id2, r2) = make_route("create_item", "/items", Method::Post, "file:///app.py");
    ws.route_index = vec![(id1.clone(), vec![r1]), (id2.clone(), vec![r2])];
    ws.route_names = vec![("list_items".to_owned(), vec![id1]), ("create_item".to_owned(), vec![id2])];
    let items = completion(&ws, uri, Position::new(0, 20), &[], None).unwrap().items;
    let labels: Vec<&str> = items.iter().map(|i| i.label.as_str()).collect();
    assert!(labels.contains(&"list_items"), "GET route name should appear");
    assert!(labels.contains(&"create_item"), "POST route name should appear");
    let item = items.iter().find(|i| i.label == "list_items").unwrap();
    assert_eq!(item.range, name_range);
    assert_eq!(item.new_text, "list_items");
    assert_eq!(item.detail.as_deref(), Some("GET /items"));
}

#[test]
fn env_key_completion_masks_secret_values() {
    let uri = "file:///app/settings.py";
    let mut f = nav_file(uri);
    f.env_lookups.push(EnvLookup { key: "DB".to_owned(), has_default: false, key_range: Range { start: Position::new(1, 10), end: Position::new(1, 14) }, replace_range: Range { start: Position::new(1, 11), end: Position::new(1, 13) } });
    let mut ws = workspace(vec![f]);
    ws.env_index = vec![
        ("DB".to_owned(), EnvEntry { value: "sqlite".to_owned(), locations: vec![] }),
        ("API_TOKEN".to_owned(), EnvEntry { value: "abc".to_owned(), locations: vec![] }),
    ];
    let items = completion(&ws, uri, Position::new(1, 12), &["API_TOKEN".to_owned()], None).unwrap().items;
    assert_eq!(items.len(), 2);
    assert_eq!(items[0].documentation.as_deref(), Some("`DB` = `sqlite`"));
    assert_eq!(items[1].detail.as_deref(), Some("`••••••`"));
    assert_eq!(items[1].range, Range { start: Position::new(1, 11), end: Position::new(1, 13) });
}
