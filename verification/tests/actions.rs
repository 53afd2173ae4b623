use fastapi_lsp::actions::{create_model_actions, param_actions, move_actions, convert_actions, AnnotatedParam, create_dependency_actions, template_actions, ActionKind, CodeAction, DocChange, FileRoute, TextEdit};
use fastapi_lsp::analysis::TemplateRef;
use fastapi_lsp::deps::DepRef;
use fastapi_lsp::extract::extract_router_action;
use fastapi_lsp::assist::{code_actions, ActionContext};
use fastapi_lsp::named_dep::{named_dependency_actions, DepFile};
use fastapi_lsp::position::{Location, Position, Range};
use fastapi_lsp::routing::{Method, PathParam, ResolvedPath, RouteId, RouteIndex, RouteRecord};

fn rng(l1: u32, c1: u32, l2: u32, c2: u32) -> Range {
    Range { start: Position::new(l1, c1), end: Position::new(l2, c2) }
}

fn direct_route(uri: &str, handler: &str, path: &str, decorator_path: &str, ordinal: usize, path_range: Range, handler_range: Range) -> RouteRecord {
    RouteRecord {
        id: RouteId(format!("{uri}:{handler}:GET")),
        ordinal,
        name: handler.to_owned(),
        method: Method::Get,
        resolved_path: ResolvedPath::Resolved(path.to_owned()),
        decorator_path: decorator_path.to_owned(),
        handler: Location { uri: uri.to_owned(), range: handler_range },
        path_params: vec![],
        response_model: None,
        response_model_range: None,
        return_annotation: None,
        dependencies: vec![],
        path_range: Some(path_range),
        path_quote_width: None,
        handler_params: vec![],
        handler_param_ranges: vec![],
        handler_has_splat_args: false,
        handler_params_known: true,
        params_insert_pos: None,
        chain: vec![],
        middleware: vec![],
    }
}

fn file_route(handler: &str, object: &str, handler_range: Range) -> FileRoute {
    FileRoute { handler_name: handler.to_owned(), handler_range, object_name: object.to_owned() }
}

fn lines_of(source: &str) -> Vec<String> {
    source.lines().map(|l| l.to_owned()).collect()
}

fn all_edits(a: &CodeAction) -> Vec<&TextEdit> {
    let mut out = vec![];
    for c in &a.changes {
        if let DocChange::Edit { edits, .. } = c {
            out.extend(edits.iter());
        }
    }
    out
}

struct BooksCase {
    index: RouteIndex,
    routes: Vec<FileRoute>,
    lines: Vec<String>,
}

fn books_case() -> BooksCase {
    let source = "@app.get(\"/books\")\ndef list_books(): ...\n@app.get(\"/books/{book_id}\")\ndef get_book(book_id: int): ...\n";
    let uri = "file:///project/app.py";
    let pr1 = rng(0, 9, 0, 17);
    let hr1 = rng(1, 0, 1, 20);
    let pr2 = rng(2, 9, 2, 27);
    let hr2 = rng(3, 0, 3, 30);
    let rr1 = direct_route(uri, "list_books", "/books", "/books", 0, pr1, hr1);
    let rr2 = direct_route(uri, "get_book", "/books/{book_id}", "/books/{book_id}", 0, pr2, hr2);
    BooksCase {
        index: vec![(rr1.id.clone(), vec![rr1]), (rr2.id.clone(), vec![rr2])],
        routes: vec![file_route("list_books", "app", hr1), file_route("get_book", "app", hr2)],
        lines: lines_of(source),
    }
}

#[test]
fn extract_router_offered_for_routes_sharing_common_prefix() {
    let c = books_case();
    let uri = "file:///project/app.py".to_owned();
    let action = extract_router_action(&c.index, &uri, rng(1, 0, 1, 0), &c.routes, &vec![], &vec![], &vec![], &c.lines);
    assert!(action.is_some(), "extract router action should be offered");
    let action = action.unwrap();
    assert!(action.title.contains("Extract router"));
    assert!(action.title.contains("/books"), "title must include the prefix");
    assert_eq!(action.kind, ActionKind::RefactorExtract);
}

#[test]
fn extract_router_rewrites_path_and_object_name() {
    let c = books_case();
    let uri = "file:///project/app.py".to_owned();
    let action = extract_router_action(&c.index, &uri, rng(1, 0, 1, 0), &c.routes, &vec![], &vec![], &vec![], &c.lines)
        .expect("action should exist");
    let edits = all_edits(&action);
    assert!(!edits.is_empty(), "expected document_changes with edits");
    assert!(edits.iter().any(|e| e.new_text == "\"\""), "should strip prefix from /books → \"\"");
    assert!(edits.iter().any(|e| e.new_text == "\"/{book_id}\""), "should strip prefix from /books/{{book_id}} → /{{book_id}}");
    assert!(edits.iter().any(|e| e.new_text == "router"), "should rename object_name from app to router");
    assert!(edits.iter().any(|e| e.new_text.contains("APIRouter(prefix=\"/books\")")), "should insert APIRouter declaration");
    assert!(edits.iter().any(|e| e.new_text.contains("app.include_router(router)")), "should append include_router call");
}

#[test]
fn extract_router_not_offered_with_single_route() {
    let source = "@app.get(\"/books/{book_id}\")\ndef get_book(book_id: int): ...\n";
    let uri = "file:///project/app.py";
    let pr = rng(0, 9, 0, 27);
    let hr = rng(1, 0, 1, 30);
    let rr = direct_route(uri, "get_book", "/books/{book_id}", "/books/{book_id}", 0, pr, hr);
    let index: RouteIndex = vec![(rr.id.clone(), vec![rr])];
    let routes = vec![file_route("get_book", "app", hr)];
    let action = extract_router_action(&index, &uri.to_owned(), rng(1, 0, 1, 0), &routes, &vec![], &vec![], &vec![], &lines_of(source));
    assert!(action.is_none(), "must not offer extract router with only one candidate");
}

#[test]
fn extract_router_not_offered_when_router_already_included() {
    let source = "@router.get(\"/books\")\ndef list_books(): ...\n@router.get(\"/books/{book_id}\")\ndef get_book(book_id: int): ...\n";
    let uri = "file:///project/books.py";
    let pr1 = rng(0, 12, 0, 20);
    let hr1 = rng(1, 0, 1, 20);
    let pr2 = rng(2, 12, 2, 30);
    let hr2 = rng(3, 0, 3, 30);
    let rr1 = direct_route(uri, "list_books", "/api/books", "/books", 0, pr1, hr1);
    let rr2 = direct_route(uri, "get_book", "/api/books/{book_id}", "/books/{book_id}", 1, pr2, hr2);
    let index: RouteIndex = vec![(rr1.id.clone(), vec![rr1]), (rr2.id.clone(), vec![rr2])];
    let routes = vec![file_route("list_books", "router", hr1), file_route("get_book", "router", hr2)];
    let targets = vec!["router".to_owned()];
    let routers = vec!["router".to_owned()];
    let action = extract_router_action(&index, &uri.to_owned(), rng(1, 0, 1, 0), &routes, &targets, &routers, &vec![], &lines_of(source));
    assert!(action.is_none(), "must not offer extract router when router is already included");
}

#[test]
fn extract_router_exact_edits_and_import() {
    let c = books_case();
    let uri = "file:///project/app.py".to_owned();
    let action = extract_router_action(&c.index, &uri, rng(3, 2, 3, 2), &c.routes, &vec![], &vec![], &vec![], &c.lines).unwrap();
    assert_eq!(action.title, "Extract router with prefix `/books`");
    let edits = all_edits(&action);
    assert_eq!(edits.len(), 6);
    assert_eq!(edits[0].range, rng(2147483647, 0, 2147483647, 0));
    assert_eq!(edits[0].new_text, "\napp.include_router(router)\n");
    // highest handler first: get_book's path, then its decorator object
    assert_eq!(edits[1].range, rng(2, 9, 2, 27));
    assert_eq!(edits[1].new_text, "\"/{book_id}\"");
    assert_eq!(edits[2].range, rng(2, 1, 2, 4));
    assert_eq!(edits[2].new_text, "router");
    assert_eq!(edits[3].range, rng(0, 9, 0, 17));
    assert_eq!(edits[4].range, rng(0, 1, 0, 4));
    assert_eq!(edits[5].range, rng(0, 0, 0, 0));
    assert_eq!(edits[5].new_text, "from fastapi import APIRouter\nrouter = APIRouter(prefix=\"/books\")\n\n");
}

#[test]
fn extract_router_names_router_after_segment_when_router_exists() {
    let c = books_case();
    let uri = "file:///project/app.py".to_owned();
    let routers = vec!["router".to_owned()];
    let imported = vec!["APIRouter".to_owned()];
    let action = extract_router_action(&c.index, &uri, rng(1, 0, 1, 0), &c.routes, &vec![], &routers, &imported, &c.lines).unwrap();
    let edits = all_edits(&action);
    assert!(edits.iter().any(|e| e.new_text == "books_router"));
    assert_eq!(edits.last().unwrap().new_text, "books_router = APIRouter(prefix=\"/books\")\n\n");
}

#[test]
fn extract_router_not_offered_when_cursor_off_handlers() {
    let c = books_case();
    let uri = "file:///project/app.py".to_owned();
    let action = extract_router_action(&c.index, &uri, rng(7, 0, 7, 0), &c.routes, &vec![], &vec![], &vec![], &c.lines);
    assert!(action.is_none());
}

// ── missing-template quick fixes ──

fn tpl_ref(path: &str) -> TemplateRef {
    TemplateRef { path: path.to_owned(), range: rng(2, 40, 2, 55) }
}

fn tpl_ref_source() -> String {
    "# line 0\n# line 1\n".to_owned() + &" ".repeat(40) + "\"some_template.html\"\n"
}

fn titles(actions: &[CodeAction]) -> Vec<&str> {
    actions.iter().map(|a| a.title.as_str()).collect()
}

#[test]
fn change_to_near_miss_offered_when_suggestion_exists() {
    let uri = "file:///project/app/main.py".to_owned();
    let keys = vec!["book_list.html".to_owned()];
    let actions = template_actions(&uri, &[tpl_ref("book_lst.html")], &tpl_ref_source(), &keys, false, &None, rng(2, 45, 2, 45));
    assert!(titles(&actions).iter().any(|t| t.contains("book_list.html")), "change-to action should be offered");
}

#[test]
fn create_template_not_offered_without_can_create_files() {
    let uri = "file:///project/app/main.py".to_owned();
    let keys = vec!["other.html".to_owned()];
    let actions = template_actions(&uri, &[tpl_ref("new.html")], "", &keys, false, &None, rng(2, 45, 2, 45));
    assert!(
        !titles(&actions).iter().any(|t| t.contains("Create") && t.contains("new.html")),
        "create action must not appear without can_create_files"
    );
}

#[test]
fn create_template_offered_when_can_create_files_and_root_exists() {
    let uri = "file:///project/app/main.py".to_owned();
    let keys = vec!["other.html".to_owned()];
    let root = Some("/project/templates".to_owned());
    let actions = template_actions(&uri, &[tpl_ref("new.html")], &tpl_ref_source(), &keys, true, &root, rng(2, 45, 2, 45));
    assert!(
        titles(&actions).iter().any(|t| t.contains("Create") && t.contains("new.html")),
        "create action must appear when can_create_files=true and root exists"
    );
}

#[test]
fn no_template_actions_when_template_found_in_index() {
    let uri = "file:///project/app/main.py".to_owned();
    let keys = vec!["index.html".to_owned()];
    let actions = template_actions(&uri, &[tpl_ref("index.html")], &tpl_ref_source(), &keys, true, &None, rng(2, 45, 2, 45));
    assert!(!titles(&actions).iter().any(|t| t.contains("index.html")), "no template actions when template is found");
}

#[test]
fn create_template_path_traversal_is_rejected() {
    let uri = "file:///project/app/main.py".to_owned();
    let keys = vec!["other.html".to_owned()];
    let root = Some("/project/templates".to_owned());
    let evil = "../../etc/passwd";
    let actions = template_actions(&uri, &[tpl_ref(evil)], &tpl_ref_source(), &keys, true, &root, rng(2, 45, 2, 45));
    assert!(
        !titles(&actions).iter().any(|t| t.starts_with("Create") && t.contains(evil)),
        "path traversal in template name must not produce Create action"
    );
}

#[test]
fn no_template_actions_when_cursor_outside_string_range() {
    let uri = "file:///project/app/main.py".to_owned();
    let keys = vec!["other.html".to_owned()];
    let actions = template_actions(&uri, &[tpl_ref("missing.html")], &tpl_ref_source(), &keys, false, &None, rng(10, 0, 10, 0));
    assert!(!titles(&actions).iter().any(|t| t.contains("missing.html")), "no template actions when cursor outside string range");
}

// ── create dependency ──

fn dep_ref(name: &str, line: u32, c1: u32, c2: u32, func: Option<&str>) -> DepRef {
    DepRef {
        name: name.to_owned(),
        caller_node_id: None,
        containing_func: func.map(|f| f.to_owned()),
        range: rng(line, c1, line, c2),
        is_called: false,
        callee_range: None,
    }
}

fn items_route() -> FileRoute {
    file_route("get_items", "app", rng(1, 0, 1, 20))
}

const ITEMS_SOURCE: &str = "@app.get(\"/items\")\ndef get_items(pg = Depends(get_pagination)): ...\n";

fn main_uri() -> String {
    "file:///project/app/main.py".to_owned()
}

fn doc_edits(a: &CodeAction) -> Vec<(&String, &Vec<TextEdit>)> {
    let mut out = vec![];
    for c in &a.changes {
        if let DocChange::Edit { uri, edits } = c {
            out.push((uri, edits));
        }
    }
    out
}

#[test]
fn create_dependency_offered_when_name_unproven() {
    let uri = main_uri();
    let refs = [dep_ref("get_pagination", 1, 19, 35, Some("get_items"))];
    let actions = create_dependency_actions(&uri, &refs, &[], "/project", &[uri.clone()], &Some(ITEMS_SOURCE.to_owned()), &[items_route()], rng(1, 25, 1, 25));
    let t = titles(&actions);
    assert!(t.iter().any(|t| t.contains("get_pagination")), "expected create-dependency action, got: {t:?}");
}

#[test]
fn create_dependency_not_offered_when_defined() {
    let uri = main_uri();
    let refs = [dep_ref("get_pagination", 1, 19, 35, Some("get_items"))];
    let defined = ["get_pagination".to_owned()];
    let actions = create_dependency_actions(&uri, &refs, &defined, "/project", &[uri.clone()], &Some(ITEMS_SOURCE.to_owned()), &[items_route()], rng(1, 25, 1, 25));
    assert!(
        !titles(&actions).iter().any(|t| t.contains("get_pagination") && t.contains("Create dependency")),
        "must not offer create-dependency when dep is defined"
    );
}

#[test]
fn create_dependency_targets_deps_py_when_present() {
    let uri = main_uri();
    let deps_uri = "file:///project/app/deps.py".to_owned();
    let refs = [dep_ref("get_pagination", 1, 19, 35, Some("get_items"))];
    let actions = create_dependency_actions(&uri, &refs, &[], "/project", &[uri.clone(), deps_uri], &Some(ITEMS_SOURCE.to_owned()), &[items_route()], rng(1, 25, 1, 25));
    let action = actions.iter().find(|a| a.title.contains("get_pagination")).expect("action should exist");
    assert!(action.title.contains("deps"), "title should reference deps module: {}", action.title);
    let edits = doc_edits(action);
    assert!(!edits.is_empty(), "expected document_changes with edits");
    assert_eq!(edits.len(), 2, "expected 2 document edits (deps.py + main.py)");
    assert!(edits.iter().any(|(u, _)| u.contains("deps.py")), "missing deps.py edit");
    assert!(edits.iter().any(|(u, _)| u.contains("main.py")), "missing main.py import edit");
    let import_edit = edits.iter().find(|(u, _)| u.contains("main.py")).and_then(|(_, e)| e.first()).expect("missing import edit");
    assert_eq!(import_edit.range.start.line, 0, "import should be inserted at line 0");
    assert!(import_edit.new_text.contains("get_pagination"), "import text should mention get_pagination");
}

#[test]
fn create_dependency_inserts_inline_when_no_deps_py() {
    let uri = main_uri();
    let refs = [dep_ref("get_pagination", 1, 19, 35, Some("get_items"))];
    let actions = create_dependency_actions(&uri, &refs, &[], "/project", &[uri.clone()], &Some(ITEMS_SOURCE.to_owned()), &[items_route()], rng(1, 25, 1, 25));
    let action = actions.iter().find(|a| a.title.contains("get_pagination")).expect("action should exist");
    assert!(action.title.contains("above handler"), "title should say 'above handler': {}", action.title);
    let edits = doc_edits(action);
    assert!(!edits.is_empty(), "expected document_changes with edits");
    assert_eq!(edits.len(), 1, "expected 1 document edit (inline only)");
    let edit = edits[0].1.first().expect("missing text edit");
    assert!(edit.new_text.contains("def get_pagination"), "stub should contain function def");
    assert!(edit.new_text.contains("..."), "stub should contain ellipsis body");
    assert_eq!(edit.range.start.line, 0, "should insert at decorator line");
}

#[test]
fn create_dependency_not_offered_when_containing_func_missing() {
    let uri = main_uri();
    let refs = [dep_ref("get_pagination", 0, 5, 28, None)];
    let actions = create_dependency_actions(&uri, &refs, &[], "/project", &[uri.clone()], &Some("pg = Depends(get_pagination)\n".to_owned()), &[], rng(0, 15, 0, 15));
    assert!(
        !titles(&actions).iter().any(|t| t.contains("get_pagination")),
        "must not offer action when containing_func is None and no deps.py"
    );
}

#[test]
fn create_dependency_only_offered_for_dep_ref_under_cursor() {
    let uri = main_uri();
    let source = "@app.get(\"/items\")\ndef get_items(a = Depends(get_pagination), b = Depends(get_db)): ...\n";
    let refs = [dep_ref("get_pagination", 1, 18, 34, Some("get_items")), dep_ref("get_db", 1, 44, 54, Some("get_items"))];
    let actions = create_dependency_actions(&uri, &refs, &[], "/project", &[uri.clone()], &Some(source.to_owned()), &[items_route()], rng(1, 25, 1, 25));
    let t = titles(&actions);
    assert!(t.iter().any(|t| t.contains("get_pagination")), "should offer for get_pagination");
    assert!(!t.iter().any(|t| t.contains("get_db")), "must NOT offer for get_db when cursor misses its range");
}

#[test]
fn create_dependency_not_offered_when_cursor_misses_range() {
    let uri = main_uri();
    let refs = [dep_ref("get_pagination", 1, 19, 35, Some("get_items"))];
    let actions = create_dependency_actions(&uri, &refs, &[], "/project", &[uri.clone()], &Some(ITEMS_SOURCE.to_owned()), &[items_route()], rng(0, 0, 0, 0));
    assert!(!titles(&actions).iter().any(|t| t.contains("get_pagination")), "must not offer action when cursor misses range");
}

// ── inline / Annotated conversions ──

fn inline_param() -> AnnotatedParam {
    AnnotatedParam {
        param_name: "db".to_owned(),
        containing_func: "get_book".to_owned(),
        type_text: "Session".to_owned(),
        depends_text: "Depends(get_db)".to_owned(),
        is_annotated: false,
        has_extra_args: false,
        annotation_range: rng(3, 17, 3, 24),
        default_range: Some(rng(3, 27, 3, 42)),
    }
}

fn convert_at(ap: AnnotatedParam, imported: &[String], cursor: Position) -> Vec<CodeAction> {
    convert_actions(&"file:///app.py".to_owned(), &[ap], imported, 0, Range { start: cursor, end: cursor })
}

#[test]
fn convert_inline_to_annotated_offered_on_cursor() {
    let actions = convert_at(inline_param(), &[], Position::new(3, 18));
    let action = actions.iter().find(|a| a.title.contains("Annotated style"));
    assert!(action.is_some(), "should offer convert-to-Annotated action");
    let action = action.unwrap();
    assert!(action.title.contains("db"), "title should name the param");
    let edits = all_edits(action);
    assert!(!edits.is_empty(), "expected document_changes");
    assert!(edits.iter().any(|e| e.new_text.contains("Annotated[Session")), "edit should contain Annotated[Session, Depends(get_db)]");
}

#[test]
fn convert_inline_to_annotated_adds_import_when_missing() {
    let actions = convert_at(inline_param(), &[], Position::new(3, 18));
    let action = actions.iter().find(|a| a.title.contains("Annotated style")).unwrap();
    assert!(all_edits(action).iter().any(|e| e.new_text.contains("from typing import Annotated")), "should add Annotated import when missing");
}

#[test]
fn convert_annotated_to_inline_offered_on_cursor() {
    let annotation_range = rng(3, 17, 3, 50);
    let ap = AnnotatedParam { is_annotated: true, annotation_range, default_range: None, ..inline_param() };
    let actions = convert_at(ap, &[], Position::new(3, 25));
    let action = actions.iter().find(|a| a.title.contains("inline style"));
    assert!(action.is_some(), "should offer convert-to-inline action");
    let edits = all_edits(action.unwrap());
    assert_eq!(edits.len(), 1, "inline conversion should produce exactly one edit");
    assert_eq!(edits[0].range, annotation_range);
    assert_eq!(edits[0].new_text, "Session = Depends(get_db)");
}

#[test]
fn convert_inline_to_annotated_no_import_when_already_imported() {
    let actions = convert_at(inline_param(), &["Annotated".to_owned()], Position::new(3, 18));
    let action = actions.iter().find(|a| a.title.contains("Annotated style")).unwrap();
    assert!(
        !all_edits(action).iter().any(|e| e.new_text.contains("from typing import Annotated")),
        "should NOT add import when Annotated is already imported"
    );
}

#[test]
fn convert_inline_to_annotated_offered_for_cursor_on_depends() {
    let actions = convert_at(inline_param(), &[], Position::new(3, 30));
    assert!(actions.iter().any(|a| a.title.contains("Annotated style")), "action should be offered when cursor is on Depends side");
}

#[test]
fn convert_annotated_to_inline_not_offered_when_extra_args() {
    let ap = AnnotatedParam {
        param_name: "x".to_owned(),
        containing_func: "handler".to_owned(),
        type_text: "int".to_owned(),
        depends_text: "Depends(fn)".to_owned(),
        is_annotated: true,
        has_extra_args: true,
        annotation_range: rng(3, 17, 3, 60),
        default_range: None,
    };
    let actions = convert_at(ap, &[], Position::new(3, 30));
    assert!(!actions.iter().any(|a| a.title.contains("inline style")), "inline conversion must be suppressed when extra Annotated args present");
}

#[test]
fn convert_not_offered_when_cursor_misses_param() {
    let actions = convert_at(inline_param(), &[], Position::new(10, 0));
    assert!(
        !actions.iter().any(|a| a.title.contains("Annotated style") || a.title.contains("inline style")),
        "should not offer when cursor misses the param span"
    );
}

// ── move a shadowed route ──

#[test]
fn route_shadowed_move_above_offered_same_file() {
    let uri = "file:///app.py";
    let source = "@app.get('/items/{id}')\ndef get_book(id: str): ...\n\n@app.get('/items/featured')\ndef get_featured(): ...\n";
    let mut shadower = direct_route(uri, "get_book", "/items/{id}", "/items/{id}", 0, rng(0, 9, 0, 22), rng(1, 0, 1, 26));
    shadower.id = RouteId("app.shadower2".to_owned());
    shadower.path_range = None;
    shadower.path_params = vec![PathParam { name: "id".to_owned(), converter: "str".to_owned() }];
    let mut shadowed = direct_route(uri, "get_featured", "/items/featured", "/items/featured", 1, rng(3, 9, 3, 26), rng(4, 0, 4, 22));
    shadowed.id = RouteId("app.shadowed2".to_owned());
    shadowed.path_range = None;
    let index: RouteIndex = vec![(shadower.id.clone(), vec![shadower]), (shadowed.id.clone(), vec![shadowed])];
    let lines: Vec<String> = source.split_inclusive('\n').map(|l| l.to_owned()).collect();
    let actions = move_actions(&index, &uri.to_owned(), &lines, rng(4, 0, 4, 0));
    let action = actions.iter().find(|a| a.title.starts_with("Move route above"));
    assert!(action.is_some(), "Move route above action should be offered");
    assert!(action.unwrap().title.contains("get_book"), "title names the shadowing handler");
}

// ── path parameter / handler argument actions ──

fn pp(name: &str) -> PathParam {
    PathParam { name: name.to_owned(), converter: "str".to_owned() }
}

fn param_route(path: &str, path_params: Vec<PathParam>, handler_params: Vec<String>, ranges: Vec<Range>, insert: Option<Position>, splat: bool) -> RouteIndex {
    let uri = "file:///app.py";
    let mut r = direct_route(uri, "handler", path, path, 0, rng(2, 0, 2, (path.len() + 2) as u32), Range::default());
    r.id = RouteId(format!("app.handler:{}:GET", path));
    r.path_params = path_params;
    r.handler_params = handler_params;
    r.handler_param_ranges = ranges;
    r.params_insert_pos = insert;
    r.handler_has_splat_args = splat;
    vec![(r.id.clone(), vec![r])]
}

fn params_at(index: &RouteIndex, cursor: Position) -> Vec<CodeAction> {
    param_actions(index, &"file:///app.py".to_owned(), &[], Range { start: cursor, end: cursor })
}

#[test]
fn param_missing_arg_action_offered_on_path_segment() {
    let index = param_route("/items/{book_id}", vec![pp("book_id")], vec![], vec![], Some(Position::new(5, 15)), false);
    let actions = params_at(&index, Position::new(2, 8));
    let t = titles(&actions);
    assert!(t.iter().any(|t| t.contains("book_id")), "expected add-param action, got: {:?}", t);
}

#[test]
fn param_missing_arg_action_not_offered_when_cursor_misses_segment() {
    let index = param_route("/items/{book_id}", vec![pp("book_id")], vec![], vec![], Some(Position::new(5, 15)), false);
    let actions = params_at(&index, Position::new(10, 0));
    assert!(!titles(&actions).iter().any(|t| t.contains("book_id")), "action should not appear when cursor misses segment");
}

#[test]
fn param_missing_arg_no_comma_for_empty_params() {
    let index = param_route("/{x}", vec![pp("x")], vec![], vec![], Some(Position::new(5, 10)), false);
    let actions = params_at(&index, Position::new(2, 2));
    let action = actions.first().expect("action should exist");
    let edits = all_edits(action);
    assert!(!edits[0].new_text.starts_with(','), "empty params should not start with comma");
    assert!(edits[0].new_text.contains("x: str"));
}

#[test]
fn param_missing_arg_adds_comma_when_params_exist() {
    let index = param_route("/{x}", vec![pp("x")], vec!["request".to_owned()], vec![Range::default()], Some(Position::new(5, 20)), false);
    let actions = params_at(&index, Position::new(2, 2));
    let action = actions.first().expect("action should exist");
    assert!(all_edits(action)[0].new_text.starts_with(", "), "should prepend comma when params exist");
}

#[test]
fn param_missing_arg_not_offered_when_splat_args() {
    let index = param_route("/items/{book_id}", vec![pp("book_id")], vec![], vec![], Some(Position::new(5, 15)), true);
    let actions = params_at(&index, Position::new(2, 8));
    assert!(!titles(&actions).iter().any(|t| t.contains("book_id")), "splat args should suppress add-param action");
}

#[test]
fn arg_missing_param_rename_offered_for_near_miss() {
    let hp_range = rng(6, 8, 6, 16);
    let index = param_route("/items/{book_id}", vec![pp("book_id")], vec!["boook_id".to_owned()], vec![hp_range], Some(Position::new(6, 17)), false);
    let actions = params_at(&index, Position::new(6, 8));
    let rename = actions.iter().find(|a| a.title.contains("Rename"));
    assert!(rename.is_some(), "rename action should be offered for near-miss");
    let action = rename.unwrap();
    assert!(action.title.contains("book_id"), "title should mention target name");
    let docs = doc_edits(action);
    assert!(!docs.is_empty(), "expected document_changes with one text edit");
    assert_eq!(docs.len(), 1);
    assert_eq!(docs[0].1[0].range, hp_range, "edit must cover the handler param token");
    assert_eq!(docs[0].1[0].new_text, "book_id", "must rename to path param name");
}

#[test]
fn arg_missing_param_rename_not_offered_when_multiple_unbound_params() {
    let index = param_route("/{a}/{b}", vec![pp("a"), pp("b")], vec!["aa".to_owned()], vec![rng(6, 8, 6, 11)], Some(Position::new(6, 12)), false);
    let actions = params_at(&index, Position::new(6, 8));
    assert!(!titles(&actions).iter().any(|t| t.contains("Rename")), "rename should not appear when multiple params unbound");
}

#[test]
fn arg_missing_param_rename_not_offered_when_ranges_mismatch_handler_params() {
    let hp_range = rng(6, 8, 6, 16);
    let mut index = param_route("/items/{book_id}", vec![pp("book_id")], vec!["boook_id".to_owned()], vec![], Some(Position::new(6, 17)), false);
    index[0].1[0].handler.range = hp_range;
    index[0].1[0].path_range = Some(rng(2, 0, 2, 18));
    let actions = params_at(&index, Position::new(6, 8));
    assert!(!titles(&actions).iter().any(|t| t.contains("Rename")), "mismatched ranges must suppress rename to prevent destructive edit");
}

#[test]
fn arg_missing_param_add_segment_offered_with_rename() {
    let hp_range = rng(6, 8, 6, 16);
    let index = param_route("/items/{book_id}", vec![pp("book_id")], vec!["boook_id".to_owned()], vec![hp_range], Some(Position::new(6, 17)), false);
    let actions = params_at(&index, Position::new(6, 8));
    let add_seg = actions.iter().find(|a| a.title.contains("segment"));
    assert!(add_seg.is_some(), "add-segment action should appear alongside rename");
    let action = add_seg.unwrap();
    assert!(action.title.contains("boook_id"), "title uses handler param name");
    assert_eq!(all_edits(action)[0].new_text, "/{boook_id}", "segment text uses handler param name");
}

// ── extract to named dependency ──

fn annotated_dep_param(name: &str, func: &str, line: u32, c1: u32, c2: u32, type_text: &str, depends_text: &str) -> AnnotatedParam {
    AnnotatedParam {
        param_name: name.to_owned(),
        containing_func: func.to_owned(),
        type_text: type_text.to_owned(),
        depends_text: depends_text.to_owned(),
        is_annotated: true,
        has_extra_args: false,
        annotation_range: rng(line, c1, line, c2),
        default_range: None,
    }
}

fn simple_route(handler: &str, line: u32) -> FileRoute {
    file_route(handler, "app", rng(line, 0, line, 20))
}

fn named_dep(uri: &str, params: Vec<AnnotatedParam>, source: &str, defined: &[&str], routes: Vec<FileRoute>, extra_sources: &[&str], cursor: Position) -> Vec<CodeAction> {
    let files = vec![DepFile { uri: uri.to_owned(), source: source.to_owned(), params: params.clone() }];
    let mut src_uris = vec![uri.to_owned()];
    src_uris.extend(extra_sources.iter().map(|s| s.to_string()));
    let defined: Vec<String> = defined.iter().map(|s| s.to_string()).collect();
    named_dependency_actions(&uri.to_owned(), &params, &lines_of(source), &defined, &routes, &files, &src_uris, "/project", Range { start: cursor, end: cursor })
}

const BOOK_SOURCE: &str = "@app.get(\"/books\")\ndef get_book(book_id: int, db: Annotated[Session, Depends(get_db)]): ...\n";

#[test]
fn extract_dependency_same_file_offered_when_dep_defined() {
    let ap = annotated_dep_param("db", "get_book", 1, 4, 40, "Session", "Depends(get_db)");
    let actions = named_dep("file:///project/app.py", vec![ap], BOOK_SOURCE, &["get_db"], vec![simple_route("get_book", 1)], &[], Position::new(1, 20));
    let action = actions
        .iter()
        .find(|a| a.title.contains("SessionDep") && !a.title.contains("workspace"))
        .expect("same-file extract action should be offered");
    assert_eq!(action.kind, ActionKind::RefactorExtract);
    let edits = all_edits(action);
    assert!(!edits.is_empty(), "expected document_changes");
    assert!(edits.len() >= 2, "should have alias insert and annotation replacement");
    assert!(edits.iter().any(|e| e.new_text.contains("SessionDep = Annotated[Session, Depends(get_db)]")), "should insert alias definition");
    assert!(edits.iter().any(|e| e.new_text == "SessionDep"), "should replace annotation with alias name");
}

#[test]
fn extract_dependency_not_offered_when_dep_undefined() {
    let ap = annotated_dep_param("db", "get_book", 1, 4, 40, "Session", "Depends(get_db)");
    let actions = named_dep("file:///project/app.py", vec![ap], BOOK_SOURCE, &[], vec![simple_route("get_book", 1)], &[], Position::new(1, 20));
    assert!(!titles(&actions).iter().any(|t| t.contains("SessionDep")), "should not offer extract when dep is undefined");
}

#[test]
fn extract_dependency_not_offered_when_alias_already_bound() {
    let ap = annotated_dep_param("db", "get_book", 2, 4, 40, "Session", "Depends(get_db)");
    let source = "SessionDep = Annotated[Session, Depends(get_db)]\n@app.get(\"/books\")\ndef get_book(book_id: int, db: Annotated[Session, Depends(get_db)]): ...\n";
    let actions = named_dep("file:///project/app.py", vec![ap], source, &["get_db"], vec![simple_route("get_book", 2)], &[], Position::new(2, 20));
    assert!(
        !titles(&actions).iter().any(|t| t.contains("Extract to named dependency") && t.contains("SessionDep")),
        "should not offer extract when alias name is already bound"
    );
}

#[test]
fn extract_dependency_replaces_all_occurrences_in_file() {
    let source = "@app.get(\"/a\")\ndef handler_a(db: Annotated[Session, Depends(get_db)]): ...\n@app.get(\"/b\")\ndef handler_b(db: Annotated[Session, Depends(get_db)]): ...\n";
    let ap1 = annotated_dep_param("db", "handler_a", 1, 17, 53, "Session", "Depends(get_db)");
    let ap2 = annotated_dep_param("db", "handler_b", 3, 17, 53, "Session", "Depends(get_db)");
    let routes = vec![simple_route("handler_a", 1), simple_route("handler_b", 3)];
    let actions = named_dep("file:///project/app.py", vec![ap1, ap2], source, &["get_db"], routes, &[], Position::new(1, 30));
    let action = actions
        .iter()
        .find(|a| a.title.contains("SessionDep") && !a.title.contains("workspace"))
        .expect("extract action should be offered");
    let edits = all_edits(action);
    assert!(!edits.is_empty(), "expected document_changes");
    assert_eq!(edits.iter().filter(|e| e.new_text == "SessionDep").count(), 2, "should replace both occurrences of the annotation");
    // highest line first, then the alias above the first handler's decorator
    assert_eq!(edits[0].range, rng(3, 17, 3, 53));
    assert_eq!(edits[1].range, rng(1, 17, 1, 53));
    assert_eq!(edits[2].range, rng(0, 0, 0, 0));
    assert_eq!(edits[2].new_text, "SessionDep = Annotated[Session, Depends(get_db)]\n\n");
}

#[test]
fn extract_dependency_workspace_uses_deps_py() {
    let ap = annotated_dep_param("db", "get_book", 1, 4, 40, "Session", "Depends(get_db)");
    let actions = named_dep(
        "file:///project/app/main.py",
        vec![ap],
        BOOK_SOURCE,
        &["get_db"],
        vec![simple_route("get_book", 1)],
        &["file:///project/app/deps.py"],
        Position::new(1, 20),
    );
    let ws = actions
        .iter()
        .find(|a| a.title.contains("SessionDep") && a.title.contains("workspace"))
        .expect("workspace extract action should be offered");
    let docs = doc_edits(ws);
    assert!(!docs.is_empty(), "expected document_changes");
    let uris: Vec<&str> = docs.iter().map(|(u, _)| u.as_str()).collect();
    assert!(uris.iter().any(|u| u.contains("deps.py")), "workspace action should target deps.py for alias; got {uris:?}");
    // the using file imports the alias from the deps module
    let main_edits = docs.iter().find(|(u, _)| u.ends_with("main.py")).unwrap().1;
    assert!(main_edits.iter().any(|e| e.new_text == "from app.deps import SessionDep\n"));
    let deps_edits = docs.iter().find(|(u, _)| u.ends_with("deps.py")).unwrap().1;
    assert_eq!(deps_edits[0].new_text, "\nSessionDep = Annotated[Session, Depends(get_db)]\n");
}

#[test]
fn extract_dependency_workspace_defines_alias_locally_without_deps_file() {
    let ap = annotated_dep_param("db", "get_book", 1, 4, 40, "Session", "Depends(get_db)");
    let actions = named_dep("file:///project/app.py", vec![ap], BOOK_SOURCE, &["get_db"], vec![simple_route("get_book", 1)], &[], Position::new(1, 20));
    let ws = actions.iter().find(|a| a.title.contains("(workspace)")).expect("workspace action");
    let docs = doc_edits(ws);
    assert_eq!(docs.len(), 1);
    assert_eq!(docs[0].1.len(), 2);
    assert_eq!(docs[0].1[1].new_text, "SessionDep = Annotated[Session, Depends(get_db)]\n\n");
}

// ── create a response model ──

fn model_route(uri: &str, model: &str, rm_range: Range) -> RouteIndex {
    let mut r = direct_route(uri, "handler", "/items", "/items", 0, rng(0, 0, 0, 0), rng(1, 0, 1, 20));
    r.id = RouteId("app.handler:GET".to_owned());
    r.path_range = None;
    r.response_model = Some(model.to_owned());
    r.response_model_range = Some(rm_range);
    vec![(r.id.clone(), vec![r])]
}

struct ModelCase<'a> {
    mi: Vec<(String, Vec<String>)>,
    imported: Vec<String>,
    imports: Vec<(String, String)>,
    model_files: Vec<String>,
    sources: Vec<(String, String)>,
    can_create: bool,
    _p: std::marker::PhantomData<&'a ()>,
}

fn model_case() -> ModelCase<'static> {
    ModelCase { mi: vec![], imported: vec![], imports: vec![], model_files: vec![], sources: vec![], can_create: false, _p: std::marker::PhantomData }
}

fn create_models(c: &ModelCase) -> Vec<CodeAction> {
    let uri = "file:///project/app.py";
    let index = model_route(uri, "BookCreate", rng(0, 20, 0, 30));
    create_model_actions(&index, &uri.to_owned(), &c.mi, &c.imported, &c.imports, "/project", &c.model_files, &c.sources, c.can_create, rng(0, 25, 0, 25))
}

#[test]
fn create_model_offered_for_camel_case_not_in_index() {
    let mut c = model_case();
    c.sources = vec![("file:///project/schemas.py".to_owned(), String::new())];
    let actions = create_models(&c);
    let action = actions.iter().find(|a| a.title.contains("Create model"));
    assert!(action.is_some(), "create model action should be offered");
    let action = action.unwrap();
    assert!(action.title.contains("BookCreate"), "title must name the model");
    assert!(action.title.contains("schemas"), "title must name target module");
}

#[test]
fn create_model_not_offered_when_model_in_index() {
    let mut c = model_case();
    c.mi = vec![("BookCreate".to_owned(), vec!["file:///project/schemas.py".to_owned()])];
    let actions = create_models(&c);
    assert!(!titles(&actions).iter().any(|t| t.contains("Create model")), "create action must not appear when model is already in the index");
}

#[test]
fn create_model_not_offered_when_already_imported() {
    let mut c = model_case();
    c.imported = vec!["BookCreate".to_owned()];
    let actions = create_models(&c);
    assert!(!titles(&actions).iter().any(|t| t.contains("Create model")), "create action must not appear when name is already imported");
}

#[test]
fn create_model_uses_imports_first_when_imported_module_has_models() {
    let mut c = model_case();
    c.imports = vec![("Book".to_owned(), "app.models".to_owned())];
    c.model_files = vec!["file:///project/app/models.py".to_owned()];
    c.sources = vec![
        ("file:///project/app/models.py".to_owned(), "from pydantic import BaseModel\nclass Book(BaseModel): pass\n".to_owned()),
        ("file:///project/schemas.py".to_owned(), String::new()),
    ];
    let actions = create_models(&c);
    let action = actions.iter().find(|a| a.title.contains("Create model"));
    assert!(action.is_some(), "create model action should be offered");
    let action = action.unwrap();
    assert!(action.title.contains("app.models"), "imports-first: action should target app.models, got: {}", action.title);
    assert!(!action.title.contains("schemas"), "schemas.py fallback must NOT be used when an imported module with models exists");
}

#[test]
fn create_model_new_file_requires_create_capability() {
    let mut c = model_case();
    let actions = create_models(&c);
    assert!(!titles(&actions).iter().any(|t| t.contains("Create model")), "must not offer create action when can_create_files=false");
    c.can_create = true;
    let actions = create_models(&c);
    assert!(titles(&actions).iter().any(|t| t.contains("Create model")), "must offer create action when can_create_files=true");
}

// ── all families together ──

fn empty_context(uri: &str, source: Option<&str>) -> ActionContext {
    ActionContext {
        uri: uri.to_owned(),
        source: source.map(|s| s.to_owned()),
        root: "/project".to_owned(),
        route_index: vec![],
        dep_refs: vec![],
        annotated_params: vec![],
        env_lookups: vec![],
        templates: vec![],
        routes: vec![],
        routers: vec![],
        imported: vec![],
        imports: vec![],
        proven: vec![],
        defined: vec![],
        dep_params: vec![],
        model_index: vec![],
        model_files: vec![],
        sources: vec![],
        include_targets: vec![],
        dep_files: vec![],
        template_keys: vec![],
        template_root: None,
        env_keys: vec![],
        env_ignore: vec![],
        env_uri: None,
        env_example: None,
        can_create_files: false,
        show_document: false,
    }
}

#[test]
fn code_actions_offers_extract_router_with_source() {
    let c = books_case();
    let source = "@app.get(\"/books\")\ndef list_books(): ...\n@app.get(\"/books/{book_id}\")\ndef get_book(book_id: int): ...\n";
    let mut ctx = empty_context("file:///project/app.py", Some(source));
    ctx.route_index = c.index;
    ctx.routes = c.routes;
    let actions = code_actions(&ctx, rng(1, 0, 1, 0));
    assert!(actions.iter().any(|a| a.title == "Extract router with prefix `/books`"));
    // without the source no action that edits by line is offered
    let mut ctx2 = empty_context("file:///project/app.py", None);
    ctx2.route_index = ctx.route_index.clone();
    ctx2.routes = ctx.routes.clone();
    assert!(!code_actions(&ctx2, rng(1, 0, 1, 0)).iter().any(|a| a.title.contains("Extract router")));
}

#[test]
fn code_actions_orders_families() {
    let uri = "file:///app.py";
    let mut ctx = empty_context(uri, Some("x\n\n\ny\n"));
    ctx.annotated_params = vec![AnnotatedParam {
        param_name: "db".to_owned(),
        containing_func: "get_book".to_owned(),
        type_text: "Session".to_owned(),
        depends_text: "Depends(get_db)".to_owned(),
        is_annotated: true,
        has_extra_args: false,
        annotation_range: rng(3, 0, 3, 30),
        default_range: None,
    }];
    ctx.defined = vec!["get_db".to_owned()];
    let actions = code_actions(&ctx, rng(3, 5, 3, 5));
    let t = titles(&actions);
    assert_eq!(t, vec!["Convert `db` to inline style", "Extract to named dependency `SessionDep`"]);
}
