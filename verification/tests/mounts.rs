use fastapi_lsp::mounts::{push_keyed, IncludeCall, LinkContext, MountFacts, PrefixValue, RouterMount};
use fastapi_lsp::routing::ResolvedPath;

fn lit(s: &str) -> PrefixValue {
    PrefixValue::Literal(s.to_owned())
}

fn make_ctx(routers: &[(&str, &str)], apps: &[&str], includes: &[(&str, &str, &str)]) -> LinkContext {
    let mut ctx = LinkContext { routers: vec![], apps: vec![], includes_by_target: vec![], middlewares_by_obj: vec![] };
    for &(name, prefix) in routers {
        push_keyed(
            &mut ctx.routers,
            name,
            (RouterMount { name: name.to_owned(), prefix: lit(prefix) }, "file:///app/router.py".to_owned()),
        );
    }
    for &app in apps {
        ctx.apps.push(app.to_owned());
    }
    for &(target, prefix, app_name) in includes {
        push_keyed(
            &mut ctx.includes_by_target,
            target,
            (IncludeCall { target: target.to_owned(), prefix: lit(prefix), app_name: app_name.to_owned() }, "file:///app/main.py".to_owned()),
        );
    }
    ctx
}

fn make_ctx_with_mw(routers: &[(&str, &str)], apps: &[&str], includes: &[(&str, &str, &str)], mw: &[(&str, &str)]) -> LinkContext {
    let mut ctx = make_ctx(routers, apps, includes);
    for &(app_name, class_name) in mw {
        push_keyed(&mut ctx.middlewares_by_obj, app_name, class_name.to_owned());
    }
    ctx
}

fn resolved(paths: &[ResolvedPath]) -> Vec<&str> {
    paths
        .iter()
        .filter_map(|p| if let ResolvedPath::Resolved(s) = p { Some(s.as_str()) } else { None })
        .collect()
}

#[test]
fn single_mount_resolves() {
    let ctx = make_ctx(&[("router", "/books")], &["app"], &[("router", "/v1", "app")]);
    let paths = ctx.resolve_route_paths("file:///app/router.py", "router", &lit("/{id}"));
    assert_eq!(paths.len(), 1);
    assert!(matches!(&paths[0], ResolvedPath::Resolved(p) if p == "/v1/books/{id}"));
}

#[test]
fn multiple_mounts_produce_multiple_records() {
    let ctx = make_ctx(&[("router", "/books")], &["app"], &[("router", "/v1", "app"), ("router", "/v2", "app")]);
    let paths = ctx.resolve_route_paths("file:///app/router.py", "router", &lit("/{id}"));
    assert_eq!(paths.len(), 2);
    let r = resolved(&paths);
    assert!(r.contains(&"/v1/books/{id}"));
    assert!(r.contains(&"/v2/books/{id}"));
}

#[test]
fn multi_mount_paths_contain_both_prefixes() {
    let ctx = make_ctx(&[("router", "")], &["app"], &[("router", "/v1", "app"), ("router", "/v2", "app")]);
    let paths = ctx.resolve_route_paths("file:///app/router.py", "router", &lit("/items"));
    assert_eq!(paths.len(), 2, "both mount points must produce a record");
    let r = resolved(&paths);
    assert!(r.contains(&"/v1/items"), "/v1 mount should resolve");
    assert!(r.contains(&"/v2/items"), "/v2 mount should resolve");
}

#[test]
fn trailing_slash_preserved() {
    let ctx = make_ctx(&[("router", "/books/")], &["app"], &[("router", "/api", "app")]);
    let paths = ctx.resolve_route_paths("file:///app/router.py", "router", &lit("/"));
    assert_eq!(paths.len(), 1);
    assert!(matches!(&paths[0], ResolvedPath::Resolved(p) if p == "/api/books/"));
}

#[test]
fn unincluded_router_is_unresolved() {
    let ctx = make_ctx(&[("router", "/books")], &["app"], &[]);
    let paths = ctx.resolve_route_paths("file:///app/router.py", "router", &lit("/{id}"));
    assert_eq!(paths.len(), 1);
    assert!(matches!(paths[0], ResolvedPath::Unresolved));
}

#[test]
fn nested_routers_join_all_prefixes() {
    let ctx = make_ctx(
        &[("items", "/items"), ("api", "/api")],
        &["app"],
        &[("items", "/v1", "api"), ("api", "", "app")],
    );
    let paths = ctx.resolve_route_paths("file:///app/router.py", "items", &lit("/{id}"));
    assert_eq!(resolved(&paths), vec!["/api/v1/items/{id}"]);
}

#[test]
fn unresolved_route_path_stays_unresolved() {
    let ctx = make_ctx(&[("router", "/books")], &["app"], &[("router", "/v1", "app")]);
    let paths = ctx.resolve_route_paths("file:///app/router.py", "router", &PrefixValue::Unresolved);
    assert_eq!(paths.len(), 1);
    assert!(matches!(paths[0], ResolvedPath::Unresolved));
}

#[test]
fn include_cycle_gives_unresolved_path() {
    let ctx = make_ctx(&[("a", "/a"), ("b", "/b")], &[], &[("a", "", "b"), ("b", "", "a")]);
    let paths = ctx.resolve_route_paths("file:///app/router.py", "a", &lit("/x"));
    assert_eq!(paths.len(), 1);
    assert!(matches!(paths[0], ResolvedPath::Unresolved));
}

#[test]
fn middleware_reversed_within_level() {
    let ctx = make_ctx_with_mw(&[], &["app"], &[], &[("app", "A"), ("app", "B")]);
    assert_eq!(ctx.middleware_chain("app"), vec!["B", "A"]);
}

#[test]
fn app_middleware_outermost_first() {
    let ctx = make_ctx_with_mw(&[("router", "/books")], &["app"], &[("router", "", "app")], &[("app", "AppMw"), ("router", "RouterMw")]);
    assert_eq!(ctx.middleware_chain("router"), vec!["AppMw", "RouterMw"]);
}

#[test]
fn middleware_chain_visits_all_include_sites() {
    let ctx = make_ctx_with_mw(
        &[("router", "/books")],
        &["app1", "app2"],
        &[("router", "", "app1"), ("router", "", "app2")],
        &[("app1", "M1"), ("app2", "M2")],
    );
    let chain = ctx.middleware_chain("router");
    assert!(chain.contains(&"M1".to_owned()), "M1 should appear");
    assert!(chain.contains(&"M2".to_owned()), "M2 should appear");
}

#[test]
fn middleware_chain_no_infinite_loop_on_cycle() {
    let mut ctx = make_ctx(&[("r", "/x")], &["app"], &[("r", "", "app")]);
    push_keyed(
        &mut ctx.includes_by_target,
        "app",
        (IncludeCall { app_name: "app".to_owned(), target: "r".to_owned(), prefix: lit("") }, "file:///app.py".to_owned()),
    );
    let chain = ctx.middleware_chain("r");
    drop(chain);
}

#[test]
fn from_files_indexes_targets_suffixes_and_aliases() {
    let files = vec![
        MountFacts {
            uri: "file:///app/main.py".to_owned(),
            apps: vec!["app".to_owned()],
            routers: vec![],
            includes: vec![
                IncludeCall { target: "books.router".to_owned(), prefix: lit("/books"), app_name: "app".to_owned() },
                IncludeCall { target: "projects_router".to_owned(), prefix: lit("/projects"), app_name: "app".to_owned() },
            ],
            import_alias_originals: vec![("projects_router".to_owned(), "router".to_owned())],
            middlewares: vec![("app".to_owned(), "CORSMiddleware".to_owned()), ("".to_owned(), "Ignored".to_owned())],
        },
        MountFacts {
            uri: "file:///app/books.py".to_owned(),
            apps: vec![],
            routers: vec![RouterMount { name: "router".to_owned(), prefix: lit("") }],
            includes: vec![],
            import_alias_originals: vec![],
            middlewares: vec![],
        },
    ];
    let ctx = LinkContext::from_files(&files);
    assert_eq!(ctx.apps, vec!["app".to_owned()]);
    let keys: Vec<&str> = ctx.includes_by_target.iter().map(|(k, _)| k.as_str()).collect();
    assert_eq!(keys, vec!["books.router", "router", "projects_router"]);
    let under_router = &ctx.includes_by_target[1].1;
    assert_eq!(under_router.len(), 2);
    assert_eq!(under_router[0].0.target, "books.router");
    assert_eq!(under_router[1].0.target, "projects_router");
    assert_eq!(ctx.middlewares_by_obj, vec![("app".to_owned(), vec!["CORSMiddleware".to_owned()])]);
    let paths = ctx.resolve_route_paths("file:///app/books.py", "router", &lit("/{id}"));
    assert_eq!(resolved(&paths), vec!["/books/{id}", "/projects/{id}"]);
    assert_eq!(ctx.middleware_chain("router"), vec!["CORSMiddleware"]);
}
