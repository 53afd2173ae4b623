use fastapi_lsp::params::{route_param_checks, record_param_diags, param_segment_range, ParamFacts};
use fastapi_lsp::position::{Location, Position, Range};
use fastapi_lsp::report::{Code, Diagnostic, Severity};
use fastapi_lsp::routing::{Method, PathParam, ResolvedPath, RouteId, RouteIndex, RouteRecord};

fn param(name: &str, converter: &str) -> PathParam {
    PathParam { name: name.to_owned(), converter: converter.to_owned() }
}

fn route_with_params(
    uri: &str,
    path: &str,
    path_params: Vec<PathParam>,
    handler_params: Vec<String>,
    handler_has_splat_args: bool,
    handler_params_known: bool,
) -> RouteRecord {
    RouteRecord {
        id: RouteId(format!("app.handler:{path}:GET")),
        ordinal: 0,
        name: "handler".to_owned(),
        method: Method::Get,
        resolved_path: ResolvedPath::Resolved(path.to_owned()),
        decorator_path: path.to_owned(),
        handler: Location { uri: uri.to_owned(), range: Range::default() },
        path_params,
        response_model: None,
        response_model_range: None,
        return_annotation: None,
        dependencies: vec![],
        path_range: None,
        path_quote_width: None,
        handler_params,
        handler_param_ranges: vec![],
        handler_has_splat_args,
        handler_params_known,
        params_insert_pos: None,
        chain: vec![],
        middleware: vec![],
    }
}

fn index(records: Vec<RouteRecord>) -> RouteIndex {
    let mut ix: RouteIndex = Vec::new();
    for r in records {
        match ix.iter_mut().find(|(id, _)| id.0 == r.id.0) {
            Some((_, v)) => v.push(r),
            None => ix.push((r.id.clone(), vec![r])),
        }
    }
    ix
}

fn no_facts() -> ParamFacts {
    ParamFacts { annotated: vec![], dep_type_aliases: vec![], plain_typed: vec![], dep_params: vec![] }
}

fn with_code<'a>(diags: &'a [Diagnostic], code: &str) -> Vec<&'a Diagnostic> {
    diags.iter().filter(|d| d.code == Some(Code::Text(code.to_owned()))).collect()
}

#[test]
fn no_diags_when_param_bound_by_handler() {
    let rec = route_with_params("file:///a.py", "/books/{book_id}", vec![param("book_id", "str")], vec!["book_id".to_owned()], false, true);
    let diags = route_param_checks(&index(vec![rec]), "file:///a.py", &no_facts());
    assert!(with_code(&diags, "route/param-missing-arg").is_empty(), "no diag when handler has param");
}

#[test]
fn param_missing_arg_fires_when_unbound() {
    let rec = route_with_params("file:///a.py", "/books/{book_id}", vec![param("book_id", "str")], vec!["title".to_owned()], false, true);
    let diags = route_param_checks(&index(vec![rec]), "file:///a.py", &no_facts());
    let param_diags = with_code(&diags, "route/param-missing-arg");
    assert_eq!(param_diags.len(), 1);
    assert!(param_diags[0].message.contains("book_id"));
}

#[test]
fn param_missing_arg_not_duplicated_for_multi_mount() {
    let v1 = route_with_params("file:///a.py", "/v1/books/{book_id}", vec![param("book_id", "str")], vec!["title".to_owned()], false, true);
    let mut v2 = v1.clone();
    v2.resolved_path = ResolvedPath::Resolved("/v2/books/{book_id}".to_owned());
    v2.decorator_path = "/books/{book_id}".to_owned();
    let diags = route_param_checks(&index(vec![v1, v2]), "file:///a.py", &no_facts());
    assert_eq!(
        with_code(&diags, "route/param-missing-arg").len(),
        1,
        "multi-mount must produce exactly one param-missing-arg, not one per mount"
    );
}

#[test]
fn param_missing_arg_suppressed_by_splat() {
    let rec = route_with_params("file:///a.py", "/books/{book_id}", vec![param("book_id", "str")], vec!["title".to_owned()], true, true);
    let diags = route_param_checks(&index(vec![rec]), "file:///a.py", &no_facts());
    assert!(with_code(&diags, "route/param-missing-arg").is_empty(), "splat suppresses param-missing-arg");
}

#[test]
fn arg_missing_param_fires_on_near_miss() {
    let rec = route_with_params("file:///a.py", "/books/{book_id}", vec![param("book_id", "str")], vec!["book_idd".to_owned()], false, true);
    let diags = route_param_checks(&index(vec![rec]), "file:///a.py", &no_facts());
    assert!(!with_code(&diags, "route/arg-missing-param").is_empty(), "arg-missing-param should fire on near-miss rename");
    assert!(!with_code(&diags, "route/param-missing-arg").is_empty(), "param-missing-arg should also fire");
}

#[test]
fn param_bound_by_dep_suppresses_diag() {
    let mut rec = route_with_params("file:///a.py", "/books/{book_id}", vec![param("book_id", "str")], vec!["user".to_owned()], false, true);
    rec.dependencies = vec!["verify_owner".to_owned()];
    let mut facts = no_facts();
    facts.dep_params.push(("verify_owner".to_owned(), vec!["book_id".to_owned()]));
    let diags = route_param_checks(&index(vec![rec]), "file:///a.py", &facts);
    assert!(with_code(&diags, "route/param-missing-arg").is_empty(), "dep binding suppresses param-missing-arg");
}

#[test]
fn param_bound_via_type_alias_dep_with_custom_route_name() {
    let uri = "file:///router.py";
    let handler_func = "create_contract_view";
    let mut rec = route_with_params(uri, "/contracts/{contract_id}", vec![param("contract_id", "str")],
        vec!["dbsession".to_owned(), "contract".to_owned()], false, true);
    rec.id = RouteId(format!("{}:{}:POST", uri, handler_func));
    rec.name = "api.contracts.create".to_owned();
    rec.method = Method::Post;
    let facts = ParamFacts {
        annotated: vec![],
        dep_type_aliases: vec![("CurrentContract".to_owned(), "fetch_contract".to_owned())],
        plain_typed: vec![(handler_func.to_owned(), "CurrentContract".to_owned())],
        dep_params: vec![("fetch_contract".to_owned(), vec!["dbsession".to_owned(), "contract_id".to_owned()])],
    };
    let diags = route_param_checks(&index(vec![rec]), uri, &facts);
    let missing = with_code(&diags, "route/param-missing-arg");
    assert!(missing.is_empty(), "contract_id bound via type alias dep must not produce param-missing-arg; got {:?}", missing);
}

#[test]
fn route_param_checks_suppressed_when_params_unknown() {
    let rec = route_with_params("file:///a.py", "/books/{book_id}", vec![param("book_id", "str")], vec![], false, false);
    let diags = route_param_checks(&index(vec![rec]), "file:///a.py", &no_facts());
    let route_diags: Vec<_> = diags
        .iter()
        .filter(|d| matches!(&d.code, Some(Code::Text(c)) if c.starts_with("route/param-")))
        .collect();
    assert!(route_diags.is_empty(), "route/param-* must be suppressed when handler_params_known is false");
}

fn dep_state(dep_in_signature: &str, dep_params: Vec<String>, nested: Option<(&str, Vec<String>)>) -> (RouteRecord, ParamFacts) {
    let rec = route_with_params("file:///router.py", "/{id}", vec![param("id", "str")], vec!["obj".to_owned()], false, true);
    let mut facts = no_facts();
    facts.dep_params.push((dep_in_signature.to_owned(), dep_params));
    facts.annotated.push(("handler".to_owned(), format!("Depends({dep_in_signature})")));
    if let Some((nested_name, nested_params)) = nested {
        facts.dep_params.push((nested_name.to_owned(), nested_params));
        facts.annotated.push((dep_in_signature.to_owned(), format!("Depends({nested_name})")));
    }
    (rec, facts)
}

#[test]
fn param_not_unbound_when_dep_in_handler_signature_consumes_it() {
    let (rec, facts) = dep_state("get_project", vec!["id".to_owned()], None);
    let diags = route_param_checks(&index(vec![rec]), "file:///router.py", &facts);
    let missing = with_code(&diags, "route/param-missing-arg");
    assert!(missing.is_empty(), "dep in handler signature consumes the path param; got {:?}", missing);
}

#[test]
fn param_not_unbound_when_dep_is_nested_two_levels() {
    let (rec, facts) = dep_state("check_auth", vec!["inner".to_owned()], Some(("get_project", vec!["id".to_owned()])));
    let diags = route_param_checks(&index(vec![rec]), "file:///router.py", &facts);
    let missing = with_code(&diags, "route/param-missing-arg");
    assert!(missing.is_empty(), "nested dep consumes the path param; got {:?}", missing);
}

#[test]
fn param_bound_by_type_alias_dep_suppresses_diag() {
    let rec = route_with_params("file:///router.py", "/projects/{id:uuid}", vec![param("id", "uuid")], vec!["project".to_owned()], false, true);
    let facts = ParamFacts {
        annotated: vec![],
        dep_type_aliases: vec![("CurrentProject".to_owned(), "fetch_project".to_owned())],
        plain_typed: vec![("handler".to_owned(), "CurrentProject".to_owned())],
        dep_params: vec![("fetch_project".to_owned(), vec!["id".to_owned()])],
    };
    let diags = route_param_checks(&index(vec![rec]), "file:///router.py", &facts);
    let missing = with_code(&diags, "route/param-missing-arg");
    assert!(missing.is_empty(), "path param consumed via type alias dep; got {:?}", missing);
}

fn route_for_range(path: &str, path_start_col: u32) -> RouteRecord {
    let mut rec = route_with_params("file:///app.py", path, vec![], vec![], false, false);
    rec.id = RouteId("test".to_owned());
    rec.handler.range = Range { start: Position { line: 0, character: 0 }, end: Position { line: 0, character: 4 } };
    let width = path.encode_utf16().count() as u32;
    rec.path_range = Some(Range {
        start: Position { line: 2, character: path_start_col },
        end: Position { line: 2, character: path_start_col + width + 2 },
    });
    rec.path_quote_width = Some(1);
    rec
}

#[test]
fn param_segment_range_ascii_path() {
    let record = route_for_range("/items/{id}", 10);
    let r = param_segment_range(&record, "id");
    assert_eq!(r.start.character, 10 + 1 + 7, "ASCII: col_start should be 18");
    assert_eq!(r.end.character, 10 + 1 + 7 + 4, "ASCII: col_end = start + len({{id}})");
}

#[test]
fn param_segment_range_multibyte_before_param() {
    let path = "/café/{id}";
    let utf16_prefix = "/café/".encode_utf16().count() as u32;
    let record = route_for_range(path, 5);
    let r = param_segment_range(&record, "id");
    let expected_start = 5 + 1 + utf16_prefix;
    assert_eq!(r.start.character, expected_start, "é is 1 UTF-16 unit — col should be {expected_start}");
    assert_eq!(r.end.character, expected_start + 4, "{{id}} = 4 UTF-16 units");
}

#[test]
fn param_segment_range_emoji_before_param() {
    let path = "/🚀/{id}";
    let utf16_prefix = "/🚀/".encode_utf16().count() as u32;
    let record = route_for_range(path, 3);
    let r = param_segment_range(&record, "id");
    let expected_start = 3 + 1 + utf16_prefix;
    assert_eq!(r.start.character, expected_start, "🚀 = 2 UTF-16 units — col should be {expected_start}");
    assert_eq!(r.end.character, expected_start + 4, "{{id}} = 4 UTF-16 units");
}

#[test]
fn param_segment_range_without_literal_uses_handler_range() {
    let mut record = route_for_range("/items/{id}", 10);
    record.path_range = None;
    let r = param_segment_range(&record, "id");
    assert_eq!(r, record.handler.range);
}

#[test]
fn record_param_diags_exact_messages_and_order() {
    let rec = route_with_params("file:///a.py", "/books/{book_id}/{page}", vec![param("book_id", "str"), param("page", "int")],
        vec!["book_idd".to_owned(), "page".to_owned()], false, true);
    let diags = record_param_diags(&rec, &no_facts());
    assert_eq!(diags.len(), 2);
    assert_eq!(diags[0].code, Some(Code::Text("route/param-missing-arg".to_owned())));
    assert_eq!(diags[0].severity, Some(Severity::Warning));
    assert!(diags[0].message.contains("book_id"));
    assert_eq!(diags[1].code, Some(Code::Text("route/arg-missing-param".to_owned())));
    assert_eq!(diags[1].severity, Some(Severity::Hint));
    assert!(diags[1].message.contains("book_idd"));
}

#[test]
fn route_param_checks_skip_other_files_and_unresolved() {
    let other = route_with_params("file:///b.py", "/books/{book_id}", vec![param("book_id", "str")], vec![], false, true);
    let mut unresolved = route_with_params("file:///a.py", "/books/{book_id}", vec![param("book_id", "str")], vec![], false, true);
    unresolved.resolved_path = ResolvedPath::Unresolved;
    let diags = route_param_checks(&index(vec![other, unresolved]), "file:///a.py", &no_facts());
    assert!(diags.is_empty());
}
