//! The diagnostics the server publishes: one constructor per diagnostic code, with its
//! severity, code, message, related locations and tags.
use vstd::prelude::*;
use crate::position::{Range, Location};
use crate::report::{Diagnostic, Severity, Code, RelatedInfo, Tag};
use crate::text::{str_chars, push_all, string_from_chars, join_with, join_chars, views};

verus! {

broadcast use vstd::string::group_string_axioms;

/// The `source` of every diagnostic.
pub open spec fn source_name() -> Seq<char> {
    "fastapi-lsp"@
}

/// `d` has the given range, severity, code and message, and the server as source.
pub open spec fn diag_is(d: Diagnostic, range: Range, sev: Severity, code: Seq<char>, msg: Seq<char>) -> bool {
    &&& d.range == range
    &&& d.severity == Some(sev)
    &&& (d.code matches Some(Code::Text(c)) && c@ == code)
    &&& (d.source matches Some(s) && s@ == source_name())
    &&& d.message@ == msg
}

/// The views of related locations: (file, range, message).
pub open spec fn related_views(r: Seq<RelatedInfo>) -> Seq<(Seq<char>, Range, Seq<char>)> {
    r.map_values(|x: RelatedInfo| (x.location.uri@, x.location.range, x.message@))
}

fn push_str(out: &mut Vec<char>, s: &str)
    ensures
        final(out)@ == old(out)@ + s@,
{
    let cs = str_chars(s);
    push_all(out, cs.as_slice());
}

/// `a + b + c` as a string.
fn concat3(a: &str, b: &str, c: &str) -> (r: String)
    ensures
        r@ == a@ + b@ + c@,
{
    let mut out: Vec<char> = Vec::new();
    push_str(&mut out, a);
    push_str(&mut out, b);
    push_str(&mut out, c);
    string_from_chars(out.as_slice())
}

fn make_diag(range: Range, sev: Severity, code: &str, message: String, related: Vec<RelatedInfo>, tags: Vec<Tag>) -> (d: Diagnostic)
    ensures
        diag_is(d, range, sev, code@, message@),
        d.related@ == related@,
        d.tags@ == tags@,
{
    Diagnostic {
        range,
        severity: Some(sev),
        code: Some(Code::Text(code.to_owned())),
        source: Some("fastapi-lsp".to_owned()),
        message,
        related,
        tags,
    }
}

fn one_related(loc: Location, message: &str) -> (r: Vec<RelatedInfo>)
    ensures
        related_views(r@) == seq![(loc.uri@, loc.range, message@)],
{
    let mut r: Vec<RelatedInfo> = Vec::new();
    r.push(RelatedInfo { location: loc, message: message.to_owned() });
    assert(related_views(r@) =~= seq![(loc.uri@, loc.range, message@)]);
    r
}

fn unnecessary() -> (r: Vec<Tag>)
    ensures
        r@ == seq![Tag::Unnecessary],
{
    let mut r: Vec<Tag> = Vec::new();
    r.push(Tag::Unnecessary);
    r
}

/// `di/cycle` (error) at `range`: a dependency cycle, with the other members of the cycle
/// as related locations. The document's URI is not part of the diagnostic.
pub fn di_cycle_diag(range: Range, message: &str, related: Vec<RelatedInfo>, _uri: String) -> (d: Diagnostic)
    ensures
        diag_is(d, range, Severity::Error, "di/cycle"@, message@),
        d.related@ == related@,
        d.tags@.len() == 0,
{
    make_diag(range, Severity::Error, "di/cycle", message.to_owned(), related, Vec::new())
}

/// `url/unknown-name` (warning): `url_for` names no route.
pub fn url_unknown_name_diag(name: &str, range: Range) -> (d: Diagnostic)
    ensures
        diag_is(d, range, Severity::Warning, "url/unknown-name"@, "Unknown route name: "@ + name@ + "."@),
        d.related@.len() == 0,
        d.tags@.len() == 0,
{
    make_diag(range, Severity::Warning, "url/unknown-name", concat3("Unknown route name: ", name, "."), Vec::new(), Vec::new())
}

/// The views of a list of names.
pub open spec fn name_views(v: Seq<&str>) -> Seq<Seq<char>> {
    v.map_values(|s: &str| s@)
}

/// The message of `url/param-mismatch`: the missing and the extra keyword arguments.
pub open spec fn param_mismatch_message(name: Seq<char>, missing: Seq<Seq<char>>, extra: Seq<Seq<char>>) -> Seq<char> {
    let parts = (if missing.len() > 0 {
        seq!["missing: "@ + join_with(missing, ", "@)]
    } else {
        Seq::empty()
    }) + (if extra.len() > 0 {
        seq!["extra: "@ + join_with(extra, ", "@)]
    } else {
        Seq::empty()
    });
    "Wrong url_for arguments for "@ + name + ": "@ + join_with(parts, "; "@) + "."@
}

fn joined(items: &[&str], sep: &str) -> (r: Vec<char>)
    ensures
        r@ == join_with(name_views(items@), sep@),
{
    let mut segs: Vec<Vec<char>> = Vec::new();
    let mut i: usize = 0;
    while i < items.len()
        invariant
            i <= items@.len(),
            views(segs@) == name_views(items@).take(i as int),
        decreases items@.len() - i,
    {
        let ghost before = segs@;
        segs.push(str_chars(items[i]));
        assert(views(segs@) =~= views(before).push(items@[i as int]@));
        i += 1;
        assert(name_views(items@).take(i as int) =~= name_views(items@).take(i - 1).push(items@[i - 1]@));
    }
    assert(name_views(items@).take(items@.len() as int) =~= name_views(items@));
    let sep_chars = str_chars(sep);
    join_chars(&segs, sep_chars.as_slice())
}

/// `url/param-mismatch` (warning): the keyword arguments of `url_for` do not match the
/// route's path parameters.
pub fn url_param_mismatch_diag(name: &str, missing: &[&str], extra: &[&str], range: Range) -> (d: Diagnostic)
    ensures
        diag_is(
            d,
            range,
            Severity::Warning,
            "url/param-mismatch"@,
            param_mismatch_message(name@, name_views(missing@), name_views(extra@)),
        ),
        d.related@.len() == 0,
        d.tags@.len() == 0,
{
    let mut parts: Vec<Vec<char>> = Vec::new();
    let ghost p0 = views(parts@);
    if missing.len() > 0 {
        let mut m = str_chars("missing: ");
        let j = joined(missing, ", ");
        push_all(&mut m, j.as_slice());
        parts.push(m);
    }
    if extra.len() > 0 {
        let mut x = str_chars("extra: ");
        let j = joined(extra, ", ");
        push_all(&mut x, j.as_slice());
        let ghost before = views(parts@);
        parts.push(x);
        assert(views(parts@) =~= before.push(x@));
    }
    let ghost expected = (if missing@.len() > 0 {
        seq!["missing: "@ + join_with(name_views(missing@), ", "@)]
    } else {
        Seq::empty()
    }) + (if extra@.len() > 0 {
        seq!["extra: "@ + join_with(name_views(extra@), ", "@)]
    } else {
        Seq::empty()
    });
    assert(views(parts@) =~= expected);
    let sep = str_chars("; ");
    let body = join_chars(&parts, sep.as_slice());
    let mut msg = str_chars("Wrong url_for arguments for ");
    push_str(&mut msg, name);
    push_str(&mut msg, ": ");
    push_all(&mut msg, body.as_slice());
    push_str(&mut msg, ".");
    make_diag(range, Severity::Warning, "url/param-mismatch", string_from_chars(msg.as_slice()), Vec::new(), Vec::new())
}

/// `model/unknown-response-model` (hint): the response model is not a known model.
pub fn unknown_response_model_diag(model_name: &str, range: Range) -> (d: Diagnostic)
    ensures
        diag_is(d, range, Severity::Hint, "model/unknown-response-model"@, "Unknown response model: "@ + model_name@ + "."@),
        d.related@.len() == 0,
        d.tags@.len() == 0,
{
    make_diag(
        range,
        Severity::Hint,
        "model/unknown-response-model",
        concat3("Unknown response model: ", model_name, "."),
        Vec::new(),
        Vec::new(),
    )
}

/// `route/param-missing-arg` (warning): a path parameter that nothing binds.
pub fn param_missing_arg_diag(param_name: &str, range: Range) -> (d: Diagnostic)
    ensures
        diag_is(d, range, Severity::Warning, "route/param-missing-arg"@, "Unbound path parameter: "@ + param_name@ + "."@),
        d.related@.len() == 0,
        d.tags@.len() == 0,
{
    make_diag(
        range,
        Severity::Warning,
        "route/param-missing-arg",
        concat3("Unbound path parameter: ", param_name, "."),
        Vec::new(),
        Vec::new(),
    )
}

/// `route/arg-missing-param` (hint): a handler parameter that is close to an unbound
/// path parameter.
pub fn arg_missing_param_diag(handler_param: &str, path_param: &str, range: Range) -> (d: Diagnostic)
    ensures
        diag_is(
            d,
            range,
            Severity::Hint,
            "route/arg-missing-param"@,
            "Handler parameter not in path: "@ + handler_param@ + ". Did you mean {"@ + path_param@ + "}?"@,
        ),
        d.related@.len() == 0,
        d.tags@.len() == 0,
{
    let mut msg = str_chars("Handler parameter not in path: ");
    push_str(&mut msg, handler_param);
    push_str(&mut msg, ". Did you mean {");
    push_str(&mut msg, path_param);
    push_str(&mut msg, "}?");
    make_diag(range, Severity::Hint, "route/arg-missing-param", string_from_chars(msg.as_slice()), Vec::new(), Vec::new())
}

/// `route/duplicate` (warning): the same method and path pattern as an earlier route.
pub fn route_duplicate_diag(range: Range, pattern: &str, related_loc: Location) -> (d: Diagnostic)
    ensures
        diag_is(d, range, Severity::Warning, "route/duplicate"@, "Duplicate route: "@ + pattern@ + "."@),
        related_views(d.related@) == seq![(related_loc.uri@, related_loc.range, "first registration here"@)],
        d.tags@.len() == 0,
{
    let rel = one_related(related_loc, "first registration here");
    make_diag(range, Severity::Warning, "route/duplicate", concat3("Duplicate route: ", pattern, "."), rel, Vec::new())
}

/// `route/shadowed` (warning): a literal route that an earlier placeholder route matches.
pub fn route_shadowed_diag(range: Range, literal_path: &str, shadowing_path: &str, related_loc: Location) -> (d: Diagnostic)
    ensures
        diag_is(
            d,
            range,
            Severity::Warning,
            "route/shadowed"@,
            "Shadowed route: "@ + literal_path@ + ". Shadowed by "@ + shadowing_path@ + "."@,
        ),
        related_views(d.related@) == seq![(related_loc.uri@, related_loc.range, "shadowing route registered here"@)],
        d.tags@.len() == 0,
{
    let mut msg = str_chars("Shadowed route: ");
    push_str(&mut msg, literal_path);
    push_str(&mut msg, ". Shadowed by ");
    push_str(&mut msg, shadowing_path);
    push_str(&mut msg, ".");
    let rel = one_related(related_loc, "shadowing route registered here");
    make_diag(range, Severity::Warning, "route/shadowed", string_from_chars(msg.as_slice()), rel, Vec::new())
}

/// `route/duplicate-name` (warning) on the later of two handlers that share a route name.
pub fn route_duplicate_name_diag(range: Range, name: &str, other_loc: Location) -> (d: Diagnostic)
    ensures
        diag_is(d, range, Severity::Warning, "route/duplicate-name"@, "Duplicate route name: "@ + name@ + "."@),
        related_views(d.related@) == seq![(other_loc.uri@, other_loc.range, "other handler with same name"@)],
        d.tags@.len() == 0,
{
    let rel = one_related(other_loc, "other handler with same name");
    make_diag(range, Severity::Warning, "route/duplicate-name", concat3("Duplicate route name: ", name, "."), rel, Vec::new())
}

/// `route/duplicate-name` (hint, unnecessary) on the earlier of two handlers that share a
/// route name.
pub fn route_duplicate_name_hint(range: Range, name: &str, other_loc: Location) -> (d: Diagnostic)
    ensures
        diag_is(d, range, Severity::Hint, "route/duplicate-name"@, "Route name '"@ + name@ + "' first used here."@),
        related_views(d.related@) == seq![(other_loc.uri@, other_loc.range, "re-used here"@)],
        d.tags@ == seq![Tag::Unnecessary],
{
    let rel = one_related(other_loc, "re-used here");
    make_diag(
        range,
        Severity::Hint,
        "route/duplicate-name",
        concat3("Route name '", name, "' first used here."),
        rel,
        unnecessary(),
    )
}

/// `route/router-not-included` (warning, unnecessary): a router that nothing includes.
pub fn router_not_included_diag(name: &str, range: Range) -> (d: Diagnostic)
    ensures
        diag_is(d, range, Severity::Warning, "route/router-not-included"@, "Router not included: "@ + name@ + "."@),
        d.related@.len() == 0,
        d.tags@ == seq![Tag::Unnecessary],
{
    make_diag(
        range,
        Severity::Warning,
        "route/router-not-included",
        concat3("Router not included: ", name, "."),
        Vec::new(),
        unnecessary(),
    )
}

/// `di/override-unused` (information, unnecessary): an override of a name that no
/// dependency has.
pub fn override_unused_diag(name: &str, range: Range) -> (d: Diagnostic)
    ensures
        diag_is(d, range, Severity::Information, "di/override-unused"@, "Unused dependency override: "@ + name@ + "."@),
        d.related@.len() == 0,
        d.tags@ == seq![Tag::Unnecessary],
{
    make_diag(
        range,
        Severity::Information,
        "di/override-unused",
        concat3("Unused dependency override: ", name, "."),
        Vec::new(),
        unnecessary(),
    )
}

/// `di/depends-called` (error): `Depends(f())` instead of `Depends(f)`.
pub fn depends_called_diag(range: Range) -> (d: Diagnostic)
    ensures
        diag_is(
            d,
            range,
            Severity::Error,
            "di/depends-called"@,
            "Dependency called with (): remove () to pass the callable."@,
        ),
        d.related@.len() == 0,
        d.tags@.len() == 0,
{
    make_diag(
        range,
        Severity::Error,
        "di/depends-called",
        "Dependency called with (): remove () to pass the callable.".to_owned(),
        Vec::new(),
        Vec::new(),
    )
}

/// `env/undefined-key` (information): an environment key that no env file defines.
pub fn undefined_key_diag(key: &str, range: Range) -> (d: Diagnostic)
    ensures
        diag_is(d, range, Severity::Information, "env/undefined-key"@, "Undefined env key: "@ + key@ + "."@),
        d.related@.len() == 0,
        d.tags@.len() == 0,
{
    make_diag(range, Severity::Information, "env/undefined-key", concat3("Undefined env key: ", key, "."), Vec::new(), Vec::new())
}

/// `settings/env-key-missing` (warning): a required settings field whose key no env file
/// declares.
pub fn settings_missing_env_diag(key: &str, range: Range) -> (d: Diagnostic)
    ensures
        diag_is(d, range, Severity::Warning, "settings/env-key-missing"@, "Required env key undeclared: "@ + key@ + "."@),
        d.related@.len() == 0,
        d.tags@.len() == 0,
{
    make_diag(
        range,
        Severity::Warning,
        "settings/env-key-missing",
        concat3("Required env key undeclared: ", key, "."),
        Vec::new(),
        Vec::new(),
    )
}

/// `oauth2/unknown-token-url` (warning): an OAuth2 URL that no route serves.
pub fn unknown_token_url_diag(path: &str, range: Range) -> (d: Diagnostic)
    ensures
        diag_is(d, range, Severity::Warning, "oauth2/unknown-token-url"@, "no route matches OAuth2 URL `"@ + path@ + "`"@),
        d.related@.len() == 0,
        d.tags@.len() == 0,
{
    make_diag(
        range,
        Severity::Warning,
        "oauth2/unknown-token-url",
        concat3("no route matches OAuth2 URL `", path, "`"),
        Vec::new(),
        Vec::new(),
    )
}

/// `test/unknown-path` (warning): a test-client call that no route serves.
pub fn test_unknown_path_diag(path: &str, range: Range) -> (d: Diagnostic)
    ensures
        diag_is(d, range, Severity::Warning, "test/unknown-path"@, "no route matches `"@ + path@ + "`"@),
        d.related@.len() == 0,
        d.tags@.len() == 0,
{
    make_diag(range, Severity::Warning, "test/unknown-path", concat3("no route matches `", path, "`"), Vec::new(), Vec::new())
}

/// The message of `tpl/missing-template`, with the suggested template when there is one.
pub open spec fn missing_template_message(path: Seq<char>, suggestion: Option<Seq<char>>) -> Seq<char> {
    match suggestion {
        Some(s) => "Template not found: "@ + path + ". Did you mean "@ + s + "?"@,
        None => "Template not found: "@ + path + "."@,
    }
}

/// `tpl/missing-template` (warning): a template that no template root holds.
pub fn missing_template_diag(path: &str, suggestion: Option<&str>, range: Range) -> (d: Diagnostic)
    ensures
        diag_is(
            d,
            range,
            Severity::Warning,
            "tpl/missing-template"@,
            missing_template_message(path@, match suggestion {
                Some(s) => Some(s@),
                None => None,
            }),
        ),
        d.related@.len() == 0,
        d.tags@.len() == 0,
{
    let message = match suggestion {
        Some(s) => {
            let mut msg = str_chars("Template not found: ");
            push_str(&mut msg, path);
            push_str(&mut msg, ". Did you mean ");
            push_str(&mut msg, s);
            push_str(&mut msg, "?");
            string_from_chars(msg.as_slice())
        },
        None => concat3("Template not found: ", path, "."),
    };
    make_diag(range, Severity::Warning, "tpl/missing-template", message, Vec::new(), Vec::new())
}

} // verus!
