use fastapi_lsp::diagnostics::{
    arg_missing_param_diag, depends_called_diag, di_cycle_diag, missing_template_diag, override_unused_diag,
    param_missing_arg_diag, route_duplicate_diag, route_duplicate_name_diag, route_duplicate_name_hint,
    route_shadowed_diag, router_not_included_diag, settings_missing_env_diag, test_unknown_path_diag,
    undefined_key_diag, unknown_response_model_diag, unknown_token_url_diag, url_param_mismatch_diag,
    url_unknown_name_diag,
};
use fastapi_lsp::position::{Location, Position, Range};
use fastapi_lsp::report::{
    code_str, display_path, diag_line, fixed_summary_line, has_findings, has_unfixed_findings, keep_code,
    related_line, severity_str, summary_line, text_report, text_report_with_applied, Code, Diagnostic, RelatedInfo, Severity, Tag,
};

fn make_diag(sev: Severity, code: &str) -> Diagnostic {
    Diagnostic {
        range: Range { start: Position::new(0, 0), end: Position::new(0, 10) },
        severity: Some(sev),
        code: Some(Code::Text(code.to_owned())),
        source: Some("fastapi-lsp".to_owned()),
        message: format!("test diagnostic for {code}"),
        related: vec![],
        tags: vec![],
    }
}

fn text(code: &str) -> Option<Code> {
    Some(Code::Text(code.to_owned()))
}

#[test]
fn severity_str_mapping() {
    assert_eq!(severity_str(Some(Severity::Error)), "error");
    assert_eq!(severity_str(Some(Severity::Warning)), "warning");
    assert_eq!(severity_str(Some(Severity::Information)), "info");
    assert_eq!(severity_str(Some(Severity::Hint)), "hint");
    assert_eq!(severity_str(None), "note");
}

#[test]
fn code_str_extracts_string_code() {
    let d = make_diag(Severity::Warning, "route/duplicate");
    assert_eq!(code_str(&d.code), "route/duplicate");
}

#[test]
fn code_str_empty_for_number_code() {
    let code = Some(Code::Number(42));
    assert_eq!(code_str(&code), "");
}

#[test]
fn uri_to_display_path_strips_file_prefix() {
    assert_eq!(display_path("file:///project/app/main.py", None), "/project/app/main.py");
    assert_eq!(display_path("file:///project/app/main.py", Some("/project")), "app/main.py");
    assert_eq!(display_path("file:///projectx/a.py", Some("/project")), "/projectx/a.py");
    assert_eq!(display_path("untitled:1", Some("/project")), "untitled:1");
}

#[test]
fn has_findings_true_for_warning() {
    let diags = [("file:///a.py".to_owned(), make_diag(Severity::Warning, "route/duplicate"))];
    assert!(has_findings(&diags));
}

#[test]
fn has_findings_false_for_info_only() {
    let diags = [("file:///a.py".to_owned(), make_diag(Severity::Information, "env/undefined-key"))];
    assert!(!has_findings(&diags), "Info-only diags should not set has_findings");
}

#[test]
fn has_findings_false_for_hint_only() {
    let diags = [("file:///a.py".to_owned(), make_diag(Severity::Hint, "route/arg-missing-param"))];
    assert!(!has_findings(&diags), "Hint-only diags should not set has_findings");
}

#[test]
fn only_and_ignore_filter_codes() {
    let only = vec!["di/cycle".to_owned()];
    let ignore = vec!["route/duplicate".to_owned()];
    assert!(keep_code("di/cycle", &only, &[]));
    assert!(!keep_code("route/shadowed", &only, &[]));
    assert!(keep_code("route/shadowed", &[], &ignore));
    assert!(!keep_code("route/duplicate", &[], &ignore));
    assert!(!keep_code("di/cycle", &only, &["di/cycle".to_owned()]));
}

#[test]
fn summary_line_counts_errors_and_warnings() {
    let w = ("file:///a.py".to_owned(), make_diag(Severity::Warning, "route/duplicate"));
    let e = ("file:///a.py".to_owned(), make_diag(Severity::Error, "di/cycle"));
    let i = ("file:///a.py".to_owned(), make_diag(Severity::Information, "env/undefined-key"));
    assert_eq!(summary_line(&[]), "All checks passed.");
    assert_eq!(summary_line(&[e.clone(), w.clone(), w.clone()]), "Found 1 error and 2 warnings.");
    assert_eq!(summary_line(&[e.clone(), e.clone()]), "Found 2 errors.");
    assert_eq!(summary_line(&[w.clone(), i.clone()]), "Found 1 warning.");
    assert_eq!(summary_line(&[i.clone(), i.clone(), i.clone()]), "Found 3 notices.");
    assert_eq!(summary_line(&[i]), "Found 1 notice.");
}

#[test]
fn fixed_summary_line_reports_remaining() {
    let w = ("file:///a.py".to_owned(), make_diag(Severity::Warning, "route/arg-missing-param"));
    let mut e = ("file:///b.py".to_owned(), make_diag(Severity::Error, "di/depends-called"));
    e.1.range = Range { start: Position::new(4, 0), end: Position::new(4, 3) };
    let applied = vec![("file:///a.py".to_owned(), w.1.range)];
    assert_eq!(fixed_summary_line(&[w.clone()], &applied), "Applied 1 fix. All checks passed.");
    assert_eq!(fixed_summary_line(&[w.clone(), e.clone()], &applied), "Applied 1 fix. 1 error remains.");
    assert_eq!(fixed_summary_line(&[w.clone(), w.clone()], &[]), "2 warnings remain.");
    assert_eq!(fixed_summary_line(&[], &[]), "All checks passed.");
    assert!(has_unfixed_findings(&[w.clone(), e.clone()], &applied));
    assert!(!has_unfixed_findings(&[w], &applied));
}

#[test]
fn text_lines_are_one_based() {
    let mut d = make_diag(Severity::Warning, "route/duplicate");
    d.range.start = Position::new(9, 4);
    d.message = "Duplicate route: GET /x.".to_owned();
    assert_eq!(diag_line("app/main.py", &d), "app/main.py:10:5: route/duplicate Duplicate route: GET /x.");
    let loc = Location { uri: "file:///b.py".to_owned(), range: Range { start: Position::new(0, 0), end: Position::new(0, 1) } };
    assert_eq!(related_line("b.py", &loc), "  --> b.py:1:1");
}

#[test]
fn undefined_key_message_format() {
    let range = Range { start: Position::new(1, 10), end: Position::new(1, 20) };
    let d = undefined_key_diag("APP_TIMEOUT", range);
    assert_eq!(d.severity, Some(Severity::Information));
    assert!(d.message.contains("APP_TIMEOUT"));
    assert!(d.message.contains("Undefined env key"));
    assert_eq!(d.code, text("env/undefined-key"));
}

#[test]
fn diagnostic_has_stable_source_and_code() {
    let range = Range { start: Position::new(0, 0), end: Position::new(0, 5) };
    let d = undefined_key_diag("MY_KEY", range);
    assert_eq!(d.source.as_deref(), Some("fastapi-lsp"));
    assert_eq!(d.code, text("env/undefined-key"));
}

#[test]
fn di_cycle_diag_properties() {
    let range = Range { start: Position::new(1, 4), end: Position::new(1, 20) };
    let d = di_cycle_diag(range, "dependency cycle: get_a → get_b → get_a", vec![], "file:///a.py".to_owned());
    assert_eq!(d.severity, Some(Severity::Error));
    assert_eq!(d.code, text("di/cycle"));
    assert_eq!(d.source.as_deref(), Some("fastapi-lsp"));
    assert!(d.message.contains("get_a → get_b → get_a"));
}

#[test]
fn depends_called_diag_properties() {
    let range = Range { start: Position::new(2, 16), end: Position::new(2, 30) };
    let d = depends_called_diag(range);
    assert_eq!(d.severity, Some(Severity::Error));
    assert_eq!(d.source.as_deref(), Some("fastapi-lsp"));
    assert_eq!(d.code, text("di/depends-called"));
    assert!(d.message.contains("remove ()"));
}

#[test]
fn override_unused_diag_properties() {
    let range = Range { start: Position::new(3, 8), end: Position::new(3, 22) };
    let d = override_unused_diag("old_get_db", range);
    assert_eq!(d.severity, Some(Severity::Information));
    assert_eq!(d.source.as_deref(), Some("fastapi-lsp"));
    assert_eq!(d.code, text("di/override-unused"));
    assert!(d.message.contains("old_get_db"));
    assert!(d.message.contains("Unused dependency override"));
    assert_eq!(d.tags, vec![Tag::Unnecessary]);
}

#[test]
fn url_unknown_name_diag_properties() {
    let range = Range { start: Position::new(5, 20), end: Position::new(5, 36) };
    let d = url_unknown_name_diag("get_nosuchroute", range);
    assert_eq!(d.severity, Some(Severity::Warning));
    assert_eq!(d.code, text("url/unknown-name"));
    assert_eq!(d.source.as_deref(), Some("fastapi-lsp"));
    assert!(d.message.contains("get_nosuchroute"));
    assert!(d.message.contains("Unknown route name"));
}

#[test]
fn url_param_mismatch_missing_param() {
    let range = Range { start: Position::new(6, 10), end: Position::new(6, 30) };
    let d = url_param_mismatch_diag("get_book", &["book_id"], &[], range);
    assert_eq!(d.severity, Some(Severity::Warning));
    assert_eq!(d.code, text("url/param-mismatch"));
    assert!(d.message.contains("get_book"));
    assert!(d.message.contains("book_id"));
    assert!(d.message.contains("missing"));
}

#[test]
fn url_param_mismatch_extra_kwarg() {
    let range = Range { start: Position::new(7, 4), end: Position::new(7, 24) };
    let d = url_param_mismatch_diag("list_books", &[], &["author_id"], range);
    assert!(d.message.contains("author_id"));
    assert!(d.message.contains("extra"));
    assert_eq!(
        url_param_mismatch_diag("r", &["a", "b"], &["c"], range).message,
        "Wrong url_for arguments for r: missing: a, b; extra: c."
    );
}

#[test]
fn route_duplicate_diag_properties() {
    let range = Range { start: Position::new(10, 4), end: Position::new(10, 18) };
    let other = Location { uri: "file:///a.py".to_owned(), range: Range::default() };
    let d = route_duplicate_diag(range, "GET /books/{id}", other);
    assert_eq!(d.severity, Some(Severity::Warning));
    assert_eq!(d.code, text("route/duplicate"));
    assert!(!d.related.is_empty());
    assert!(d.message.contains("Duplicate route"));
}

#[test]
fn route_shadowed_diag_properties() {
    let range = Range { start: Position::new(12, 4), end: Position::new(12, 20) };
    let other = Location { uri: "file:///b.py".to_owned(), range: Range::default() };
    let d = route_shadowed_diag(range, "/books/featured", "/books/{id}", other);
    assert_eq!(d.severity, Some(Severity::Warning));
    assert_eq!(d.code, text("route/shadowed"));
    assert!(d.message.contains("Shadowed route"));
    assert!(!d.related.is_empty());
}

#[test]
fn route_duplicate_name_diag_properties() {
    let range = Range { start: Position::new(8, 4), end: Position::new(8, 16) };
    let other = Location { uri: "file:///c.py".to_owned(), range: Range::default() };
    let d = route_duplicate_name_diag(range, "get_book", other.clone());
    assert_eq!(d.severity, Some(Severity::Warning));
    assert_eq!(d.code, text("route/duplicate-name"));
    assert!(d.message.contains("get_book"));
    assert!(!d.related.is_empty());
    let h = route_duplicate_name_hint(range, "get_book", other);
    assert_eq!(h.severity, Some(Severity::Hint));
    assert_eq!(h.code, text("route/duplicate-name"));
    assert!(h.message.contains("get_book"));
    assert!(!h.related.is_empty());
}

#[test]
fn router_not_included_diag_properties() {
    let range = Range { start: Position::new(3, 0), end: Position::new(3, 14) };
    let d = router_not_included_diag("book_router", range);
    assert_eq!(d.severity, Some(Severity::Warning));
    assert_eq!(d.code, text("route/router-not-included"));
    assert!(d.message.contains("book_router"));
    assert!(d.message.contains("Router not included"));
}

#[test]
fn settings_missing_env_diag_properties() {
    let range = Range { start: Position::new(5, 4), end: Position::new(5, 14) };
    let d = settings_missing_env_diag("DATABASE_URL", range);
    assert_eq!(d.severity, Some(Severity::Warning));
    assert_eq!(d.code, text("settings/env-key-missing"));
    assert_eq!(d.source.as_deref(), Some("fastapi-lsp"));
    assert!(d.message.contains("DATABASE_URL"), "message: {}", d.message);
}

#[test]
fn param_missing_arg_diag_properties() {
    let d = param_missing_arg_diag("book_id", Range::default());
    assert_eq!(d.severity, Some(Severity::Warning));
    assert_eq!(d.code, text("route/param-missing-arg"));
    assert_eq!(d.source, Some("fastapi-lsp".to_owned()));
    assert!(d.message.contains("book_id"));
}

#[test]
fn arg_missing_param_diag_properties() {
    let d = arg_missing_param_diag("book_idd", "book_id", Range::default());
    assert_eq!(d.severity, Some(Severity::Hint));
    assert_eq!(d.code, text("route/arg-missing-param"));
    assert!(d.message.contains("book_idd"));
    assert!(d.message.contains("book_id"));
    assert_eq!(d.message, "Handler parameter not in path: book_idd. Did you mean {book_id}?");
}

#[test]
fn missing_template_diag_no_suggestion() {
    let d = missing_template_diag("missing.html", None, Range::default());
    assert_eq!(d.severity, Some(Severity::Warning));
    assert_eq!(d.code, text("tpl/missing-template"));
    assert!(d.message.contains("missing.html"), "message contains path");
    assert!(!d.message.contains("did you mean"), "no suggestion clause when None");
}

#[test]
fn missing_template_diag_with_suggestion() {
    let d = missing_template_diag("book_lst.html", Some("book_list.html"), Range::default());
    assert!(d.message.contains("book_lst.html"));
    assert!(d.message.contains("book_list.html"));
    assert!(d.message.contains("Did you mean"));
}

#[test]
fn test_unknown_path_diag_properties() {
    let range = Range { start: Position::new(5, 10), end: Position::new(5, 30) };
    let d = test_unknown_path_diag("/api/missing", range);
    assert_eq!(d.severity, Some(Severity::Warning));
    assert_eq!(d.code, text("test/unknown-path"));
    assert!(d.message.contains("/api/missing"));
    assert_eq!(d.source, Some("fastapi-lsp".to_owned()));
}

#[test]
fn token_url_and_response_model_messages() {
    let r = Range::default();
    assert_eq!(unknown_token_url_diag("/token", r).message, "no route matches OAuth2 URL `/token`");
    assert_eq!(unknown_response_model_diag("Book", r).message, "Unknown response model: Book.");
    assert_eq!(unknown_response_model_diag("Book", r).severity, Some(Severity::Hint));
}

#[test]
fn text_report_lists_related_locations() {
    let mut d = make_diag(Severity::Warning, "route/duplicate");
    d.range = Range { start: Position::new(4, 2), end: Position::new(4, 9) };
    d.related = vec![RelatedInfo {
        location: Location { uri: "file:///w/app/b.py".to_owned(), range: Range { start: Position::new(9, 0), end: Position::new(9, 1) } },
        message: "other".to_owned(),
    }];
    let diags = vec![("file:///w/app/a.py".to_owned(), d.clone())];
    assert_eq!(
        text_report(&diags, Some("/w")),
        vec![
            "app/a.py:5:3: route/duplicate test diagnostic for route/duplicate".to_owned(),
            "  --> app/b.py:10:1".to_owned(),
        ]
    );
    let applied = vec![("file:///w/app/a.py".to_owned(), d.range)];
    assert_eq!(
        text_report_with_applied(&diags, &applied, None),
        vec!["/w/app/a.py:5:3: route/duplicate test diagnostic for route/duplicate [fixed]".to_owned()]
    );
}
