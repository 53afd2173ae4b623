use fastapi_lsp::fixes::position_to_offset;
use fastapi_lsp::position::Position;

#[test]
fn position_to_offset_first_line() {
    let content = b"hello\nworld\n";
    assert_eq!(position_to_offset(content, Position::new(0, 0)), 0);
    assert_eq!(position_to_offset(content, Position::new(0, 5)), 5);
}

#[test]
fn position_to_offset_second_line() {
    let content = b"hello\nworld\n";
    assert_eq!(position_to_offset(content, Position::new(1, 0)), 6);
    assert_eq!(position_to_offset(content, Position::new(1, 3)), 9);
}

#[test]
fn position_to_offset_clamps_past_end() {
    let content = b"hi";
    assert_eq!(position_to_offset(content, Position::new(0, 100)), 2);
}

#[test]
fn position_to_offset_missing_line_is_end() {
    let content = b"a\nb";
    assert_eq!(position_to_offset(content, Position::new(7, 0)), 3);
    assert_eq!(position_to_offset(content, Position::new(1, 1)), 3);
}

use fastapi_lsp::deps::DepRef;
use fastapi_lsp::fixes::{apply_edits, applicable_fixes, applied_set, collect_fixes, edits_for_file, fix_uris, FileFix, FixFile};
use fastapi_lsp::position::Range;
use fastapi_lsp::report::{Code, Diagnostic, Severity};
use fastapi_lsp::position::Location;
use fastapi_lsp::routing::{Method, PathParam, ResolvedPath, RouteId, RouteIndex, RouteRecord};

#[test]
fn apply_fixes_replaces_range() {
    let content = b"def foo(bar):\n    pass\n";
    let range = Range { start: Position::new(0, 8), end: Position::new(0, 11) };
    let result = apply_edits(content, &[(range, "baz".to_owned())]);
    assert_eq!(String::from_utf8(result).unwrap(), "def foo(baz):\n    pass\n");
}

#[test]
fn apply_fixes_multiple_edits_bottom_up() {
    let content = b"ab\ncd\n";
    let r1 = Range { start: Position::new(0, 0), end: Position::new(0, 2) };
    let r2 = Range { start: Position::new(1, 0), end: Position::new(1, 2) };
    let result = apply_edits(content, &[(r1, "XX".to_owned()), (r2, "YY".to_owned())]);
    assert_eq!(String::from_utf8(result).unwrap(), "XX\nYY\n");
}

#[test]
fn apply_edits_same_line_uses_original_offsets() {
    let content = b"a = f(x, y)\n";
    let r1 = Range { start: Position::new(0, 6), end: Position::new(0, 7) };
    let r2 = Range { start: Position::new(0, 9), end: Position::new(0, 10) };
    let result = apply_edits(content, &[(r1, "first".to_owned()), (r2, "second".to_owned())]);
    assert_eq!(String::from_utf8(result).unwrap(), "a = f(first, second)\n");
}

#[test]
fn apply_edits_skips_inverted_range() {
    let content = b"hello";
    let r = Range { start: Position::new(0, 4), end: Position::new(0, 1) };
    assert_eq!(apply_edits(content, &[(r, "X".to_owned())]), b"hello".to_vec());
}

fn route(uri: &str, params: &[&str], handler: &[&str], deps: &[&str]) -> RouteRecord {
    RouteRecord {
        id: RouteId(format!("{uri}:h:GET")),
        ordinal: 0,
        name: "h".to_owned(),
        method: Method::Get,
        resolved_path: ResolvedPath::Resolved("/x".to_owned()),
        decorator_path: "/x".to_owned(),
        handler: Location { uri: uri.to_owned(), range: Range::default() },
        path_params: params.iter().map(|p| PathParam { name: p.to_string(), converter: "str".to_owned() }).collect(),
        response_model: None,
        response_model_range: None,
        return_annotation: None,
        dependencies: deps.iter().map(|d| d.to_string()).collect(),
        path_range: None,
        path_quote_width: None,
        handler_params: handler.iter().map(|h| h.to_string()).collect(),
        handler_param_ranges: (0..handler.len() as u32).map(|i| Range { start: Position::new(3, 10 * i), end: Position::new(3, 10 * i + 4) }).collect(),
        handler_has_splat_args: false,
        handler_params_known: true,
        params_insert_pos: None,
        chain: vec![],
        middleware: vec![],
    }
}

#[test]
fn collect_fixes_renames_near_miss_and_uncalls_depends() {
    let uri = "file:///app.py";
    let called = DepRef {
        name: "get_db".to_owned(),
        caller_node_id: None,
        containing_func: Some("h".to_owned()),
        range: Range { start: Position::new(5, 20), end: Position::new(5, 26) },
        is_called: true,
        callee_range: Some(Range { start: Position::new(5, 20), end: Position::new(5, 28) }),
    };
    let unknown = DepRef { name: "other".to_owned(), ..called.clone() };
    let files = vec![FixFile { uri: uri.to_owned(), dep_refs: vec![called, unknown] }];
    let r = route(uri, &["item_id"], &["itm_id", "q"], &[]);
    let ix: RouteIndex = vec![(r.id.clone(), vec![r])];
    let fixes = collect_fixes(&files, &ix, &["get_db".to_owned()], &[]);
    assert_eq!(fixes.len(), 2);
    assert_eq!(fixes[0].new_text, "get_db");
    assert_eq!(fixes[0].edit_range, Range { start: Position::new(5, 20), end: Position::new(5, 28) });
    assert_eq!(fixes[0].diag_range, Range { start: Position::new(5, 20), end: Position::new(5, 26) });
    assert_eq!(fixes[1].new_text, "item_id");
    assert_eq!(fixes[1].edit_range, Range { start: Position::new(3, 0), end: Position::new(3, 4) });
}

#[test]
fn collect_fixes_skips_when_param_bound_by_dependency_or_ambiguous() {
    let uri = "file:///app.py";
    let files = vec![FixFile { uri: uri.to_owned(), dep_refs: vec![] }];
    let dp = vec![("auth".to_owned(), vec!["item_id".to_owned()])];
    let r1 = route(uri, &["item_id"], &["itm_id"], &["auth"]);
    let r2 = route(uri, &["a", "b"], &["aa"], &[]);
    let ix: RouteIndex = vec![(r1.id.clone(), vec![r1, r2])];
    assert!(collect_fixes(&files, &ix, &[], &dp).is_empty());
}

fn diag(uri_range: Range) -> Diagnostic {
    Diagnostic {
        range: uri_range,
        severity: Some(Severity::Warning),
        code: Some(Code::Text("x".to_owned())),
        source: None,
        message: "m".to_owned(),
        related: vec![],
        tags: vec![],
    }
}

#[test]
fn applicable_fixes_match_reported_diagnostics() {
    let r1 = Range { start: Position::new(1, 0), end: Position::new(1, 3) };
    let r2 = Range { start: Position::new(2, 0), end: Position::new(2, 3) };
    let fixes = vec![
        FileFix { uri: "file:///a.py".to_owned(), diag_range: r1, edit_range: r1, new_text: "x".to_owned() },
        FileFix { uri: "file:///a.py".to_owned(), diag_range: r2, edit_range: r2, new_text: "y".to_owned() },
        FileFix { uri: "file:///b.py".to_owned(), diag_range: r1, edit_range: r1, new_text: "z".to_owned() },
    ];
    let diags = vec![("file:///a.py".to_owned(), diag(r2)), ("file:///b.py".to_owned(), diag(r1))];
    let app = applicable_fixes(&fixes, &diags);
    assert_eq!(app.len(), 2);
    assert_eq!(app[0].new_text, "y");
    assert_eq!(app[1].new_text, "z");
    assert_eq!(applied_set(&app), vec![("file:///a.py".to_owned(), r2), ("file:///b.py".to_owned(), r1)]);
    assert_eq!(fix_uris(&fixes), vec!["file:///a.py".to_owned(), "file:///b.py".to_owned()]);
    assert_eq!(edits_for_file(&fixes, "file:///a.py"), vec![(r1, "x".to_owned()), (r2, "y".to_owned())]);
}
