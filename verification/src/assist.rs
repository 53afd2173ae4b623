//! All code actions offered for a range of a file: each family in turn.
use vstd::prelude::*;
use crate::position::Range;
use crate::routing::{RouteIndex, RouteRecord};
use crate::deps::DepRef;
use crate::analysis::{index_records, EnvLookup, TemplateRef};
use crate::checks::somes;
use crate::actions::{
    ActionView, AnnotatedParam, CodeAction, FileRoute, actions_view, convert_view, create_deps_spec, create_model_spec, env_actions_spec,
    import_model_spec, move_spec, needs_annotated, param_actions_spec, remove_call_view, template_actions_spec, import_line,
};
use crate::named_dep::{DepFile, named_dep_spec};
use crate::text::{string_views, views, string_from_chars};

verus! {

/// What the code actions of one file read of the workspace.
pub struct ActionContext {
    /// The file.
    pub uri: String,
    /// Its source, when known.
    pub source: Option<String>,
    /// The workspace root path.
    pub root: String,
    pub route_index: RouteIndex,
    /// The file's dependency references, annotated parameters, environment lookups,
    /// template references and route decorators.
    pub dep_refs: Vec<DepRef>,
    pub annotated_params: Vec<AnnotatedParam>,
    pub env_lookups: Vec<EnvLookup>,
    pub templates: Vec<TemplateRef>,
    pub routes: Vec<FileRoute>,
    /// The routers the file declares, the names it imports, and the module of each
    /// imported name.
    pub routers: Vec<String>,
    pub imported: Vec<String>,
    pub imports: Vec<(String, String)>,
    /// Dependency names proven in the workspace, and those with a function definition.
    pub proven: Vec<String>,
    pub defined: Vec<String>,
    /// Each defined dependency with its parameters.
    pub dep_params: Vec<(String, Vec<String>)>,
    /// The model index, the files that define models, the files whose source is known.
    pub model_index: Vec<(String, Vec<String>)>,
    pub model_files: Vec<String>,
    pub sources: Vec<(String, String)>,
    /// The `include_router` targets of the workspace.
    pub include_targets: Vec<String>,
    /// The workspace files with a known source, in URI order, for the workspace variant of
    /// the named-dependency extraction.
    pub dep_files: Vec<DepFile>,
    /// The template index's names and the first template root.
    pub template_keys: Vec<String>,
    pub template_root: Option<String>,
    /// `.env` keys, the ignored keys, the `.env` URI and the `.env.example` entries.
    pub env_keys: Vec<String>,
    pub env_ignore: Vec<String>,
    pub env_uri: Option<String>,
    pub env_example: Option<Vec<(String, String)>>,
    /// Client capabilities.
    pub can_create_files: bool,
    pub show_document: bool,
}

pub open spec fn src_view(c: ActionContext) -> Option<Seq<char>> {
    match c.source {
        Some(s) => Some(s@),
        None => None,
    }
}

pub open spec fn src_uris(c: ActionContext) -> Seq<Seq<char>> {
    c.sources@.map_values(|p: (String, String)| p.0@)
}

/// The code actions for `range` of the file, family by family: remove a `Depends` call,
/// environment keys, import a model, path parameters, move a shadowed route, convert a
/// dependency's style, extract a named dependency, create a model, create a dependency,
/// extract a router, and missing templates. The families that edit by line need the
/// source.
pub open spec fn code_actions_spec(c: ActionContext, range: Range) -> Seq<ActionView> {
    let recs = index_records(c.route_index@);
    let uri = c.uri@;
    let ins = import_line(src_view(c));
    somes(c.dep_refs@.map_values(|x: DepRef| remove_call_view(uri, x, string_views(c.proven@), range)))
        + env_actions_spec(c.env_lookups@, string_views(c.env_keys@), c.env_ignore@, crate::config::opt_view(c.env_uri), match c.env_example {
            Some(e) => Some(e@),
            None => None,
        }, c.show_document, range)
        + import_model_spec(recs, uri, c.model_index@, string_views(c.imported@), c.root@, ins, range)
        + param_actions_spec(recs, uri, c.dep_params@, range)
        + match src_view(c) {
            Some(s) => move_spec(recs, recs, uri, crate::pysource::incl_lines(s), range),
            None => Seq::empty(),
        }
        + somes(c.annotated_params@.map_values(|ap: AnnotatedParam| convert_view(uri, ap, needs_annotated(string_views(c.imported@)), ins, range)))
        + match src_view(c) {
            Some(s) => named_dep_spec(uri, c.annotated_params@, c.annotated_params@, crate::pysource::lines_of(s), string_views(c.defined@), c.routes@, c.dep_files@, src_uris(c), c.root@, range),
            None => Seq::empty(),
        }
        + create_model_spec(recs, uri, c.model_index@, string_views(c.imported@), c.imports@, c.root@, string_views(c.model_files@), c.sources@, c.can_create_files, range)
        + create_deps_spec(uri, c.dep_refs@, string_views(c.defined@), c.root@, src_uris(c), src_view(c), c.routes@, range)
        + match src_view(c) {
            Some(s) => match crate::extract::extract_router_spec(uri, recs, c.routes@, string_views(c.include_targets@), string_views(c.routers@), string_views(c.imported@), crate::pysource::lines_of(s), range) {
                Some(a) => seq![a],
                None => Seq::empty(),
            },
            None => Seq::empty(),
        }
        + template_actions_spec(c.templates@, uri, match src_view(c) {
            Some(s) => s,
            None => Seq::empty(),
        }, string_views(c.template_keys@), c.can_create_files, crate::config::opt_view(c.template_root), range)
}

/// The context's inputs are well formed: records' path columns fit, template ranges leave
/// room for the inner range, the source has fewer lines than a line number can count, and
/// each record's handler block is a valid run of its lines.
pub open spec fn context_ok(c: ActionContext) -> bool {
    let recs = index_records(c.route_index@);
    &&& forall|k: int| 0 <= k < recs.len() ==> crate::params::columns_fit(#[trigger] recs[k])
    &&& forall|j: int| 0 <= j < c.templates@.len() ==> (#[trigger] c.templates@[j]).range.start.character < u32::MAX
    &&& match c.source {
        Some(s) => crate::pysource::incl_lines(s@).len() <= u32::MAX
            && forall|k: int| 0 <= k < recs.len() ==> crate::pysource::block_fits(crate::pysource::incl_lines(s@), (#[trigger] recs[k]).handler.range),
        None => true,
    }
}

fn strings_of(lines: &Vec<Vec<char>>) -> (r: Vec<String>)
    ensures
        string_views(r@) == views(lines@),
{
    let mut out: Vec<String> = Vec::new();
    let mut i: usize = 0;
    while i < lines.len()
        invariant
            i <= lines@.len(),
            string_views(out@) == views(lines@.take(i as int)),
        decreases lines@.len() - i,
    {
        out.push(string_from_chars(lines[i].as_slice()));
        assert(views(lines@.take(i + 1)) =~= views(lines@.take(i as int)).push(lines@[i as int]@));
        assert(string_views(out@) =~= views(lines@.take(i + 1)));
        i += 1;
    }
    assert(lines@.take(lines@.len() as int) =~= lines@);
    out
}

fn source_uris(sources: &Vec<(String, String)>) -> (r: Vec<String>)
    ensures
        string_views(r@) == sources@.map_values(|p: (String, String)| p.0@),
{
    let mut out: Vec<String> = Vec::new();
    let mut i: usize = 0;
    while i < sources.len()
        invariant
            i <= sources@.len(),
            string_views(out@) == sources@.take(i as int).map_values(|p: (String, String)| p.0@),
        decreases sources@.len() - i,
    {
        out.push(sources[i].0.clone());
        assert(sources@.take(i + 1).map_values(|p: (String, String)| p.0@) =~= sources@.take(i as int).map_values(|p: (String, String)| p.0@).push(sources@[i as int].0@));
        assert(string_views(out@) =~= sources@.take(i + 1).map_values(|p: (String, String)| p.0@));
        i += 1;
    }
    assert(sources@.take(sources@.len() as int) =~= sources@);
    out
}

fn append_actions(out: &mut Vec<CodeAction>, more: Vec<CodeAction>)
    ensures
        actions_view(final(out)@) == actions_view(old(out)@) + actions_view(more@),
{
    let mut more = more;
    let ghost m = more@;
    out.append(&mut more);
    assert(actions_view(out@) =~= actions_view(old(out)@) + actions_view(m));
}

/// The code actions for `range` of the file (see `code_actions_spec`).
pub fn code_actions(c: &ActionContext, range: Range) -> (r: Vec<CodeAction>)
    requires
        context_ok(*c),
    ensures
        actions_view(r@) == code_actions_spec(*c, range),
{
    let ins: u32 = match &c.source {
        Some(s) => crate::pysource::import_insert_line(s.as_str()),
        None => 0,
    };
    assert(ins == import_line(src_view(*c)));
    let mut out = crate::actions::remove_call_actions(&c.uri, c.dep_refs.as_slice(), c.proven.as_slice(), range);
    append_actions(&mut out, crate::actions::env_actions(c.env_lookups.as_slice(), c.env_keys.as_slice(), c.env_ignore.as_slice(), &c.env_uri, &c.env_example, c.show_document, range));
    append_actions(&mut out, crate::actions::import_model_actions(&c.route_index, &c.uri, c.model_index.as_slice(), c.imported.as_slice(), c.root.as_str(), ins, range));
    append_actions(&mut out, crate::actions::param_actions(&c.route_index, &c.uri, c.dep_params.as_slice(), range));
    match &c.source {
        Some(s) => {
            let kept = crate::pysource::inclusive_lines(s.as_str());
            append_actions(&mut out, crate::actions::move_actions(&c.route_index, &c.uri, &kept, range));
        },
        None => {},
    }
    append_actions(&mut out, crate::actions::convert_actions(&c.uri, c.annotated_params.as_slice(), c.imported.as_slice(), ins, range));
    let uris = source_uris(&c.sources);
    let lines: Vec<String> = match &c.source {
        Some(s) => {
            let cl = crate::pysource::lines_chars(s.as_str());
            strings_of(&cl)
        },
        None => Vec::new(),
    };
    match &c.source {
        Some(_) => {
            append_actions(&mut out, crate::named_dep::named_dependency_actions(&c.uri, &c.annotated_params, &lines, &c.defined, &c.routes, &c.dep_files, &uris, c.root.as_str(), range));
        },
        None => {},
    }
    append_actions(&mut out, crate::actions::create_model_actions(&c.route_index, &c.uri, c.model_index.as_slice(), c.imported.as_slice(), c.imports.as_slice(), c.root.as_str(), c.model_files.as_slice(), c.sources.as_slice(), c.can_create_files, range));
    append_actions(&mut out, crate::actions::create_dependency_actions(&c.uri, c.dep_refs.as_slice(), c.defined.as_slice(), c.root.as_str(), uris.as_slice(), &c.source, c.routes.as_slice(), range));
    match &c.source {
        Some(_) => {
            match crate::extract::extract_router_action(&c.route_index, &c.uri, range, &c.routes, &c.include_targets, &c.routers, &c.imported, &lines) {
                Some(a) => {
                    crate::actions::push_action(&mut out, a);
                },
                None => {},
            }
        },
        None => {},
    }
    let empty = String::new();
    let tsrc: &str = match &c.source {
        Some(s) => s.as_str(),
        None => empty.as_str(),
    };
    append_actions(&mut out, crate::actions::template_actions(&c.uri, c.templates.as_slice(), tsrc, c.template_keys.as_slice(), c.can_create_files, &c.template_root, range));
    out
}

} // verus!
