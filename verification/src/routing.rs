//! Route records, URL path segmentation, and the path trie that matches concrete
//! request paths (as written in test-client calls) against route patterns.
use vstd::prelude::*;
use crate::text::{str_chars, split_chars, split_on, lemma_split_on_nonempty, string_from_chars, views, slice_chars, ends_with, is_suffix};
use crate::position::{Location, Position, Range};

verus! {

/// The HTTP method a route answers to (`Mount` for mounted sub-applications).
#[derive(Clone, Copy, Debug, PartialEq, Eq, Structural, Hash)]
pub enum Method {
    Get,
    Post,
    Put,
    Patch,
    Delete,
    Head,
    Options,
    Trace,
    Mount,
}

/// Identifier of a route (one per decorated handler and method).
#[derive(Clone, Debug, Hash)]
pub struct RouteId(pub String);

impl View for RouteId {
    type V = Seq<char>;

    open spec fn view(&self) -> Seq<char> {
        self.0@
    }
}

impl PartialEq for RouteId {
    fn eq(&self, other: &Self) -> (r: bool) {
        self.0 == other.0
    }
}

impl vstd::std_specs::cmp::PartialEqSpecImpl for RouteId {
    open spec fn obeys_eq_spec() -> bool {
        true
    }

    open spec fn eq_spec(&self, other: &Self) -> bool {
        self.0@ == other.0@
    }
}

impl RouteId {
    /// A copy of this identifier.
    pub fn duplicate(&self) -> (r: RouteId)
        ensures
            r@ == self@,
    {
        RouteId(self.0.clone())
    }
}

/// The full path of a route once its router's mount prefixes are known.
#[derive(Clone, Debug)]
pub enum ResolvedPath {
    Resolved(String),
    Unresolved,
}

/// A path parameter declared by a route pattern, with its converter (`str` when none).
#[derive(Clone, Debug)]
pub struct PathParam {
    pub name: String,
    pub converter: String,
}

/// One step of the chain that mounts a route: the router or app object and the
/// prefix it was included under (empty when none).
#[derive(Clone, Debug)]
pub struct ChainLink {
    pub object_name: String,
    pub prefix: String,
}

/// One route as registered: a handler reachable under `resolved_path` with `method`.
#[derive(Clone, Debug)]
pub struct RouteRecord {
    pub id: RouteId,
    /// Registration order across the workspace.
    pub ordinal: usize,
    /// The route name (`name=` or the handler's function name).
    pub name: String,
    pub method: Method,
    pub resolved_path: ResolvedPath,
    /// The path as written in the decorator.
    pub decorator_path: String,
    pub handler: Location,
    pub path_params: Vec<PathParam>,
    pub response_model: Option<String>,
    pub response_model_range: Option<Range>,
    pub return_annotation: Option<String>,
    /// Dependencies named by the decorator's `dependencies=[...]`.
    pub dependencies: Vec<String>,
    /// Range of the path string literal in the decorator.
    pub path_range: Option<Range>,
    /// Width of the path literal's opening quote (with prefix).
    pub path_quote_width: Option<u32>,
    pub handler_params: Vec<String>,
    pub handler_param_ranges: Vec<Range>,
    pub handler_has_splat_args: bool,
    pub handler_params_known: bool,
    /// Where a new handler parameter would be inserted, when known.
    pub params_insert_pos: Option<Position>,
    /// The include chain that mounts the route, outermost first.
    pub chain: Vec<ChainLink>,
    /// Middleware classes wrapping the route's app, outermost first.
    pub middleware: Vec<String>,
}

/// The part of `s` before the first `c` (all of `s` when there is none).
pub open spec fn before_char(s: Seq<char>, c: char) -> Seq<char> {
    split_on(s, c)[0]
}

/// The trie segments of a URL path: the query string is dropped, the path is split at
/// every `/`, and the empty piece in front of a leading `/` is removed. A trailing `/`
/// leaves an empty last segment.
pub open spec fn segments_of(path: Seq<char>) -> Seq<Seq<char>> {
    let pieces = split_on(before_char(path, '?'), '/');
    if pieces[0].len() == 0 {
        pieces.drop_first()
    } else {
        pieces
    }
}

/// Splits a URL path into trie segments (see `segments_of`).
pub fn path_segments(path: &str) -> (r: Vec<String>)
    ensures
        r@.map_values(|s: String| s@) == segments_of(path@),
{
    let cs = str_chars(path);
    let by_query = split_chars(&cs, '?');
    proof {
        lemma_split_on_nonempty(cs@, '?');
    }
    let head = &by_query[0];
    assert(head@ == before_char(path@, '?'));
    let pieces = split_chars(head.as_slice(), '/');
    proof {
        lemma_split_on_nonempty(head@, '/');
    }
    let ghost ps = views(pieces@);
    let start: usize = if pieces[0].len() == 0 { 1 } else { 0 };
    let ghost target = segments_of(path@);
    assert(target == ps.subrange(start as int, ps.len() as int));
    let mut out: Vec<String> = Vec::new();
    let mut i: usize = start;
    while i < pieces.len()
        invariant
            start <= i <= pieces@.len(),
            ps == views(pieces@),
            out@.map_values(|s: String| s@) == ps.subrange(start as int, i as int),
        decreases pieces@.len() - i,
    {
        let s = string_from_chars(pieces[i].as_slice());
        let ghost before = out@;
        out.push(s);
        assert(out@.map_values(|s: String| s@) == before.map_values(|s: String| s@).push(s@));
        i += 1;
        assert(ps.subrange(start as int, i as int) == ps.subrange(start as int, i - 1).push(ps[i - 1]));
    }
    out
}


/// What one segment of a route pattern matches.
pub enum PatSeg {
    /// Exactly this text.
    Lit(Seq<char>),
    /// Any one non-empty segment (`{name}`, `{name:int}`, ...).
    Param,
    /// One non-empty segment and everything after it (`{name:path}`).
    Tail,
}

/// The inside of a `{...}` segment.
pub open spec fn brace_inner(seg: Seq<char>) -> Seq<char> {
    seg.subrange(1, seg.len() - 1)
}

/// Whether a pattern segment is a placeholder: it starts with `{` and ends with `}`.
pub open spec fn is_braced(seg: Seq<char>) -> bool {
    seg.len() > 0 && seg[0] == '{' && seg.last() == '}'
}

/// The suffix that marks a multi-segment placeholder.
pub open spec fn path_suffix() -> Seq<char> {
    seq![':', 'p', 'a', 't', 'h']
}

/// How the trie files one pattern segment.
pub open spec fn classify(seg: Seq<char>) -> PatSeg {
    if is_braced(seg) {
        if crate::text::is_suffix(path_suffix(), brace_inner(seg)) {
            PatSeg::Tail
        } else {
            PatSeg::Param
        }
    } else {
        PatSeg::Lit(seg)
    }
}

/// The pattern of a sequence of route segments.
pub open spec fn pattern_of(segs: Seq<Seq<char>>) -> Seq<PatSeg> {
    segs.map_values(|s: Seq<char>| classify(s))
}

/// Whether the request segments `q` match the pattern `p`.
pub open spec fn matches(p: Seq<PatSeg>, q: Seq<Seq<char>>) -> bool
    decreases q.len(),
{
    if q.len() == 0 {
        p.len() == 0
    } else if p.len() == 0 {
        false
    } else {
        match p[0] {
            PatSeg::Lit(k) => k == q[0] && matches(p.drop_first(), q.drop_first()),
            PatSeg::Param => q[0].len() > 0 && matches(p.drop_first(), q.drop_first()),
            PatSeg::Tail => q[0].len() > 0 && p.len() == 1,
        }
    }
}

/// One route filed in a trie: its pattern and its identifier.
pub type Entry = (Seq<PatSeg>, Seq<char>);

/// A node of the path trie. Literal children are kept in insertion order, one per key.
#[derive(Debug)]
pub struct TrieNode {
    pub routes: Vec<RouteId>,
    pub literal: Vec<(String, TrieNode)>,
    pub param: Option<(String, Box<TrieNode>)>,
    pub path_param: Option<(String, Box<TrieNode>)>,
}

impl Default for TrieNode {
    fn default() -> (r: TrieNode)
        ensures
            wf_trie(r),
            entries(r) == Seq::<Entry>::empty(),
            r.routes@.len() == 0,
            r.literal@.len() == 0,
            r.param.is_none(),
            r.path_param.is_none(),
    {
        let r = TrieNode { routes: Vec::new(), literal: Vec::new(), param: None, path_param: None };
        assert(wf_children(r.literal@));
        assert(entries(r) =~= Seq::<Entry>::empty());
        r
    }
}

/// `es` with `p` put in front of every pattern.
pub open spec fn prefixed(p: PatSeg, es: Seq<Entry>) -> Seq<Entry> {
    es.map_values(|e: Entry| (seq![p] + e.0, e.1))
}

/// The routes stored at a node, as entries with an empty remaining pattern.
pub open spec fn here_entries(routes: Seq<RouteId>) -> Seq<Entry> {
    routes.map_values(|r: RouteId| (Seq::<PatSeg>::empty(), r@))
}

/// Every route filed under `node`, with its pattern relative to `node`: the routes at the
/// node, then those under each literal child in order, then under the placeholder child,
/// then under the multi-segment placeholder child.
pub open spec fn entries(node: TrieNode) -> Seq<Entry>
    decreases node,
{
    here_entries(node.routes@) + lit_entries(node.literal@) + opt_entries(PatSeg::Param, node.param)
        + opt_entries(PatSeg::Tail, node.path_param)
}

/// The entries under an optional placeholder child, each prefixed with `p`.
pub open spec fn opt_entries(p: PatSeg, o: Option<(String, Box<TrieNode>)>) -> Seq<Entry>
    decreases o,
{
    match o {
        Some(pc) => prefixed(p, entries(*pc.1)),
        None => Seq::empty(),
    }
}

/// The entries under a list of literal children, each prefixed with its key.
pub open spec fn lit_entries(cs: Seq<(String, TrieNode)>) -> Seq<Entry>
    decreases cs,
{
    if cs.len() == 0 {
        Seq::empty()
    } else {
        lit_entries(cs.drop_last()) + prefixed(PatSeg::Lit(cs.last().0@), entries(cs.last().1))
    }
}


/// Literal keys are distinct at every node.
pub open spec fn wf_trie(node: TrieNode) -> bool
    decreases node,
{
    &&& forall|i: int, j: int|
        0 <= i < j < node.literal@.len() ==> (#[trigger] node.literal@[i]).0@ != (#[trigger] node.literal@[j]).0@
    &&& wf_children(node.literal@)
    &&& match node.param {
        Some(pc) => wf_trie(*pc.1),
        None => true,
    }
    &&& match node.path_param {
        Some(pc) => wf_trie(*pc.1),
        None => true,
    }
}

/// Every child in the list is well formed.
pub open spec fn wf_children(cs: Seq<(String, TrieNode)>) -> bool
    decreases cs,
{
    cs.len() == 0 || (wf_children(cs.drop_last()) && wf_trie(cs.last().1))
}

/// The views of a list of segments.
pub open spec fn seg_views(segs: Seq<&str>) -> Seq<Seq<char>> {
    segs.map_values(|s: &str| s@)
}

/// `new` is `old` with `e` inserted at some position.
pub open spec fn inserted(new: Seq<Entry>, old: Seq<Entry>, e: Entry) -> bool {
    exists|i: int| 0 <= i <= old.len() && new == old.insert(i, e)
}

proof fn lemma_prefixed_insert(p: PatSeg, es: Seq<Entry>, i: int, e: Entry)
    requires
        0 <= i <= es.len(),
    ensures
        prefixed(p, es.insert(i, e)) == prefixed(p, es).insert(i, (seq![p] + e.0, e.1)),
{
    assert(prefixed(p, es.insert(i, e)) =~= prefixed(p, es).insert(i, (seq![p] + e.0, e.1)));
}

proof fn lemma_concat_insert_right(a: Seq<Entry>, b: Seq<Entry>, i: int, e: Entry)
    requires
        0 <= i <= b.len(),
    ensures
        a + b.insert(i, e) == (a + b).insert(a.len() + i, e),
{
    assert(a + b.insert(i, e) =~= (a + b).insert(a.len() + i, e));
}

proof fn lemma_concat_insert_left(a: Seq<Entry>, b: Seq<Entry>, i: int, e: Entry)
    requires
        0 <= i <= a.len(),
    ensures
        a.insert(i, e) + b == (a + b).insert(i, e),
{
    assert(a.insert(i, e) + b =~= (a + b).insert(i, e));
}

proof fn lemma_wf_children_index(cs: Seq<(String, TrieNode)>, j: int)
    requires
        wf_children(cs),
        0 <= j < cs.len(),
    ensures
        wf_trie(cs[j].1),
    decreases cs.len(),
{
    if j < cs.len() - 1 {
        lemma_wf_children_index(cs.drop_last(), j);
    }
}

proof fn lemma_wf_children_update(cs: Seq<(String, TrieNode)>, j: int, c: (String, TrieNode))
    requires
        wf_children(cs),
        0 <= j < cs.len(),
        wf_trie(c.1),
    ensures
        wf_children(cs.update(j, c)),
    decreases cs.len(),
{
    let cs2 = cs.update(j, c);
    if j < cs.len() - 1 {
        lemma_wf_children_update(cs.drop_last(), j, c);
        assert(cs2.drop_last() =~= cs.drop_last().update(j, c));
    } else {
        assert(cs2.drop_last() =~= cs.drop_last());
    }
}

proof fn lemma_wf_children_push(cs: Seq<(String, TrieNode)>, c: (String, TrieNode))
    requires
        wf_children(cs),
        wf_trie(c.1),
    ensures
        wf_children(cs.push(c)),
{
    assert(cs.push(c).drop_last() =~= cs);
}

/// Replacing one literal child by a child with one more entry inserts that entry,
/// under the child's key, into the list's entries.
proof fn lemma_lit_update(cs: Seq<(String, TrieNode)>, j: int, c2: TrieNode, i2: int, e2: Entry)
    requires
        0 <= j < cs.len(),
        0 <= i2 <= entries(cs[j].1).len(),
        entries(c2) == entries(cs[j].1).insert(i2, e2),
    ensures
        ({
            let off = lit_entries(cs.take(j)).len() + i2;
            &&& 0 <= off <= lit_entries(cs).len()
            &&& lit_entries(cs.update(j, (cs[j].0, c2))) == lit_entries(cs).insert(
                off,
                (seq![PatSeg::Lit(cs[j].0@)] + e2.0, e2.1),
            )
        }),
    decreases cs.len(),
{
    let cs2 = cs.update(j, (cs[j].0, c2));
    let pe = (seq![PatSeg::Lit(cs[j].0@)] + e2.0, e2.1);
    let lk = PatSeg::Lit(cs[j].0@);
    if j == cs.len() - 1 {
        assert(cs2.drop_last() =~= cs.drop_last());
        assert(cs.take(j) =~= cs.drop_last());
        lemma_prefixed_insert(lk, entries(cs[j].1), i2, e2);
        lemma_concat_insert_right(lit_entries(cs.drop_last()), prefixed(lk, entries(cs[j].1)), i2, pe);
    } else {
        lemma_lit_update(cs.drop_last(), j, c2, i2, e2);
        assert(cs2.drop_last() =~= cs.drop_last().update(j, (cs[j].0, c2)));
        assert(cs.drop_last().take(j) =~= cs.take(j));
        assert(cs2.last() == cs.last());
        let off = lit_entries(cs.take(j)).len() + i2;
        lemma_concat_insert_left(
            lit_entries(cs.drop_last()),
            prefixed(PatSeg::Lit(cs.last().0@), entries(cs.last().1)),
            off,
            pe,
        );
    }
}


/// How a pattern segment is filed, with the placeholder's name where it has one.
pub enum SegKind {
    Literal,
    Param(String),
    Tail(String),
}

/// Files one pattern segment: a `{...}` segment whose inside ends with `:path` is a
/// multi-segment placeholder named by what precedes `:path`; any other `{...}` segment is a
/// one-segment placeholder named by what precedes its first `:`; the rest are literal.
pub fn classify_segment(seg: &str) -> (r: SegKind)
    ensures
        match r {
            SegKind::Literal => classify(seg@) == PatSeg::Lit(seg@),
            SegKind::Param(name) => classify(seg@) == PatSeg::Param && name@ == before_char(
                brace_inner(seg@),
                ':',
            ),
            SegKind::Tail(name) => classify(seg@) == PatSeg::Tail && name@ == brace_inner(seg@).take(
                brace_inner(seg@).len() - 5,
            ),
        },
{
    let cs = str_chars(seg);
    let n = cs.len();
    if n == 0 || cs[0] != '{' || cs[n - 1] != '}' {
        return SegKind::Literal;
    }
    let inner = slice_chars(&cs, 1, n - 1);
    let suffix: Vec<char> = vec![':', 'p', 'a', 't', 'h'];
    assert(suffix@ == path_suffix());
    if ends_with(&inner, &suffix) {
        let name = slice_chars(&inner, 0, inner.len() - 5);
        SegKind::Tail(string_from_chars(&name))
    } else {
        let parts = split_chars(&inner, ':');
        proof {
            lemma_split_on_nonempty(inner@, ':');
        }
        SegKind::Param(string_from_chars(&parts[0]))
    }
}

proof fn lemma_pattern_step(segs: Seq<Seq<char>>, k: int)
    requires
        0 <= k < segs.len(),
    ensures
        pattern_of(segs.skip(k)) == seq![classify(segs[k])] + pattern_of(segs.skip(k + 1)),
{
    assert(pattern_of(segs.skip(k)) =~= seq![classify(segs[k])] + pattern_of(segs.skip(k + 1)));
}

/// Files `segs[k..]` under `node` with route `id`.
fn insert_from(node: &mut TrieNode, segs: &[&str], k: usize, id: RouteId)
    requires
        wf_trie(*old(node)),
        k <= segs@.len(),
    ensures
        wf_trie(*final(node)),
        inserted(
            entries(*final(node)),
            entries(*old(node)),
            (pattern_of(seg_views(segs@).skip(k as int)), id@),
        ),
    decreases segs@.len() - k, 1nat,
{
    let ghost e = (pattern_of(seg_views(segs@).skip(k as int)), id@);
    let ghost old_node = *node;
    let ghost hr = here_entries(node.routes@);
    let ghost lr = lit_entries(node.literal@);
    let ghost pr = opt_entries(PatSeg::Param, node.param);
    let ghost tr = opt_entries(PatSeg::Tail, node.path_param);
    if k == segs.len() {
        assert(seg_views(segs@).skip(k as int) =~= Seq::<Seq<char>>::empty());
        assert(pattern_of(seg_views(segs@).skip(k as int)) =~= Seq::<PatSeg>::empty());
        node.routes.push(id);
        assert(here_entries(node.routes@) =~= hr.insert(hr.len() as int, e));
        proof {
            lemma_concat_insert_left(hr, lr + pr + tr, hr.len() as int, e);
            assert(entries(*node) =~= hr.insert(hr.len() as int, e) + (lr + pr + tr));
            assert(entries(old_node) =~= hr + (lr + pr + tr));
        }
        return;
    }
    let seg = segs[k];
    proof {
        lemma_pattern_step(seg_views(segs@), k as int);
    }
    assert(seg_views(segs@)[k as int] == seg@);
    let ghost e1 = (pattern_of(seg_views(segs@).skip(k + 1)), id@);
    let kind = classify_segment(seg);
    match kind {
        SegKind::Tail(name) => {
            assert(match old_node.path_param {
                Some(pc) => wf_trie(*pc.1),
                None => true,
            });
            let (pname, bchild) = match node.path_param.take() {
                Some(pc) => pc,
                None => (name, Box::new(TrieNode::default())),
            };
            let mut child: TrieNode = *bchild;
            assert(prefixed(PatSeg::Tail, entries(child)) =~= tr);
            assert(wf_trie(child));
            let ghost c0 = child;
            insert_from(&mut child, segs, k + 1, id);
            let ghost i1 = choose|i1: int| 0 <= i1 <= entries(c0).len() && entries(child) == entries(c0).insert(i1, e1);
            node.path_param = Some((pname, Box::new(child)));
            proof {
                lemma_prefixed_insert(PatSeg::Tail, entries(c0), i1, e1);
                assert(opt_entries(PatSeg::Tail, node.path_param) == tr.insert(i1, e));
                lemma_concat_insert_right(hr + lr + pr, tr, i1, e);
                assert(entries(*node) == (hr + lr + pr + tr).insert((hr + lr + pr).len() + i1, e));
            }
        },
        SegKind::Param(name) => {
            assert(match old_node.param {
                Some(pc) => wf_trie(*pc.1),
                None => true,
            });
            let (pname, bchild) = match node.param.take() {
                Some(pc) => pc,
                None => (name, Box::new(TrieNode::default())),
            };
            let mut child: TrieNode = *bchild;
            assert(prefixed(PatSeg::Param, entries(child)) =~= pr);
            assert(wf_trie(child));
            let ghost c0 = child;
            insert_from(&mut child, segs, k + 1, id);
            let ghost i1 = choose|i1: int| 0 <= i1 <= entries(c0).len() && entries(child) == entries(c0).insert(i1, e1);
            node.param = Some((pname, Box::new(child)));
            proof {
                lemma_prefixed_insert(PatSeg::Param, entries(c0), i1, e1);
                assert(opt_entries(PatSeg::Param, node.param) == pr.insert(i1, e));
                lemma_concat_insert_right(hr + lr, pr, i1, e);
                lemma_concat_insert_left(hr + lr + pr, tr, (hr + lr).len() + i1, e);
                assert(entries(*node) == (hr + lr + pr + tr).insert((hr + lr).len() + i1, e));
            }
        },
        SegKind::Literal => {
            insert_literal(node, segs, k, id);
        },
    }
}


/// Files `segs[k..]` under `node`, where `segs[k]` is a literal segment.
fn insert_literal(node: &mut TrieNode, segs: &[&str], k: usize, id: RouteId)
    requires
        wf_trie(*old(node)),
        k < segs@.len(),
        classify(segs@[k as int]@) == PatSeg::Lit(segs@[k as int]@),
    ensures
        wf_trie(*final(node)),
        inserted(
            entries(*final(node)),
            entries(*old(node)),
            (pattern_of(seg_views(segs@).skip(k as int)), id@),
        ),
    decreases segs@.len() - k, 0nat,
{
    let ghost e = (pattern_of(seg_views(segs@).skip(k as int)), id@);
    let ghost e1 = (pattern_of(seg_views(segs@).skip(k + 1)), id@);
    let ghost old_node = *node;
    let ghost hr = here_entries(node.routes@);
    let ghost lr = lit_entries(node.literal@);
    let ghost pr = opt_entries(PatSeg::Param, node.param);
    let ghost tr = opt_entries(PatSeg::Tail, node.path_param);
    let ghost cs = node.literal@;
    proof {
        lemma_pattern_step(seg_views(segs@), k as int);
        assert(seg_views(segs@)[k as int] == segs@[k as int]@);
    }
    let seg = segs[k];
    let key: String = seg.to_owned();
    let n = node.literal.len();
    let mut j: usize = 0;
    while j < n
        invariant
            j <= n,
            n == node.literal@.len(),
            *node == old_node,
            key@ == seg@,
            forall|i: int| 0 <= i < j ==> (#[trigger] node.literal@[i]).0@ != seg@,
        ensures
            j <= n,
            *node == old_node,
            forall|i: int| 0 <= i < j ==> (#[trigger] node.literal@[i]).0@ != seg@,
            j < n ==> node.literal@[j as int].0@ == seg@,
        decreases n - j,
    {
        if node.literal[j].0 == key {
            break;
        }
        j += 1;
    }
    if j < n {
        let (kk, mut child) = node.literal.remove(j);
        proof {
            lemma_wf_children_index(cs, j as int);
        }
        let ghost c0 = child;
        insert_from(&mut child, segs, k + 1, id);
        let ghost i1 = choose|i1: int| 0 <= i1 <= entries(c0).len() && entries(child) == entries(c0).insert(i1, e1);
        node.literal.insert(j, (kk, child));
        proof {
            assert(node.literal@ =~= cs.update(j as int, (cs[j as int].0, child)));
            lemma_lit_update(cs, j as int, child, i1, e1);
            lemma_wf_children_update(cs, j as int, (cs[j as int].0, child));
            let off = lit_entries(cs.take(j as int)).len() + i1;
            assert(lit_entries(node.literal@) == lr.insert(off, e));
            lemma_concat_insert_right(hr, lr, off, e);
            lemma_concat_insert_left(hr + lr, pr + tr, hr.len() + off, e);
            assert(entries(*node) =~= (hr + lr).insert(hr.len() + off, e) + (pr + tr));
            assert(entries(old_node) =~= (hr + lr) + (pr + tr));
            assert(forall|a: int, b: int|
                0 <= a < b < node.literal@.len() ==> (#[trigger] node.literal@[a]).0@ != (#[trigger] node.literal@[b]).0@);
        }
    } else {
        let mut child = TrieNode::default();
        let ghost c0 = child;
        assert(wf_trie(child));
        assert(entries(c0) =~= Seq::<Entry>::empty());
        insert_from(&mut child, segs, k + 1, id);
        assert(entries(child) =~= seq![e1]);
        node.literal.push((key, child));
        proof {
            assert(node.literal@ =~= cs.push((key, child)));
            assert(cs.push((key, child)).drop_last() =~= cs);
            lemma_wf_children_push(cs, (key, child));
            assert(prefixed(PatSeg::Lit(seg@), seq![e1]) =~= seq![e]);
            assert(lit_entries(node.literal@) =~= lr.insert(lr.len() as int, e));
            lemma_concat_insert_right(hr, lr, lr.len() as int, e);
            lemma_concat_insert_left(hr + lr, pr + tr, (hr.len() + lr.len()) as int, e);
            assert(entries(*node) =~= (hr + lr).insert((hr.len() + lr.len()) as int, e) + (pr + tr));
            assert(entries(old_node) =~= (hr + lr) + (pr + tr));
        }
    }
}

/// Files a route under the pattern `segments` (as produced by `path_segments`).
pub fn trie_insert(node: &mut TrieNode, segments: &[&str], id: RouteId)
    requires
        wf_trie(*old(node)),
    ensures
        wf_trie(*final(node)),
        inserted(entries(*final(node)), entries(*old(node)), (pattern_of(seg_views(segments@)), id@)),
{
    assert(seg_views(segments@).skip(0) =~= seg_views(segments@));
    insert_from(node, segments, 0, id);
}


/// The identifiers of the entries whose pattern matches `q`, in entry order.
pub open spec fn match_ids(es: Seq<Entry>, q: Seq<Seq<char>>) -> Seq<Seq<char>> {
    es.filter(|e: Entry| matches(e.0, q)).map_values(|e: Entry| e.1)
}

/// The views of a list of route identifiers.
pub open spec fn id_views(ids: Seq<RouteId>) -> Seq<Seq<char>> {
    ids.map_values(|x: RouteId| x@)
}

proof fn lemma_match_ids_push(es: Seq<Entry>, e: Entry, q: Seq<Seq<char>>)
    ensures
        match_ids(es.push(e), q) == if matches(e.0, q) {
            match_ids(es, q).push(e.1)
        } else {
            match_ids(es, q)
        },
{
    let pred = |x: Entry| matches(x.0, q);
    assert(es.push(e).filter(pred) == if pred(e) { es.filter(pred).push(e) } else { es.filter(pred) }) by {
        es.lemma_filter_push(e, pred);
    }
    if pred(e) {
        assert(es.filter(pred).push(e).map_values(|x: Entry| x.1) =~= es.filter(pred).map_values(|x: Entry| x.1).push(e.1));
    }
}

proof fn lemma_match_ids_add(a: Seq<Entry>, b: Seq<Entry>, q: Seq<Seq<char>>)
    ensures
        match_ids(a + b, q) == match_ids(a, q) + match_ids(b, q),
    decreases b.len(),
{
    if b.len() == 0 {
        assert(a + b =~= a);
        assert(match_ids(b, q) =~= Seq::<Seq<char>>::empty());
        assert(match_ids(a, q) + match_ids(b, q) =~= match_ids(a, q));
    } else {
        lemma_match_ids_add(a, b.drop_last(), q);
        assert(a + b =~= (a + b.drop_last()).push(b.last()));
        assert(b =~= b.drop_last().push(b.last()));
        lemma_match_ids_push(a + b.drop_last(), b.last(), q);
        lemma_match_ids_push(b.drop_last(), b.last(), q);
        if matches(b.last().0, q) {
            assert(match_ids(a, q) + match_ids(b.drop_last(), q).push(b.last().1) =~= (match_ids(a, q)
                + match_ids(b.drop_last(), q)).push(b.last().1));
        }
    }
}

proof fn lemma_match_here(routes: Seq<RouteId>, q: Seq<Seq<char>>)
    ensures
        match_ids(here_entries(routes), q) == if q.len() == 0 {
            id_views(routes)
        } else {
            Seq::<Seq<char>>::empty()
        },
    decreases routes.len(),
{
    if routes.len() == 0 {
        assert(here_entries(routes) =~= Seq::<Entry>::empty());
        assert(match_ids(here_entries(routes), q) =~= Seq::<Seq<char>>::empty());
        assert(id_views(routes) =~= Seq::<Seq<char>>::empty());
    } else {
        let r = routes.drop_last();
        lemma_match_here(r, q);
        assert(here_entries(routes) =~= here_entries(r).push((Seq::<PatSeg>::empty(), routes.last()@)));
        lemma_match_ids_push(here_entries(r), (Seq::<PatSeg>::empty(), routes.last()@), q);
        assert(id_views(routes) =~= id_views(r).push(routes.last()@));
    }
}

/// Whether a pattern that starts with `p` can match a request whose first segment is `s`,
/// given that the rest of the pattern matches the rest of the request (`Lit`, `Param`)
/// or is empty (`Tail`).
pub open spec fn head_ok(p: PatSeg, s: Seq<char>) -> bool {
    match p {
        PatSeg::Lit(k) => k == s,
        PatSeg::Param => s.len() > 0,
        PatSeg::Tail => s.len() > 0,
    }
}

/// The request that the rest of a pattern starting with `p` must match.
pub open spec fn rest_query(p: PatSeg, q: Seq<Seq<char>>) -> Seq<Seq<char>> {
    match p {
        PatSeg::Tail => Seq::empty(),
        _ => q.drop_first(),
    }
}

proof fn lemma_matches_cons(p: PatSeg, rest: Seq<PatSeg>, q: Seq<Seq<char>>)
    ensures
        matches(seq![p] + rest, q) == (q.len() > 0 && head_ok(p, q[0]) && matches(rest, rest_query(p, q))),
{
    let pat = seq![p] + rest;
    assert(pat.drop_first() =~= rest);
    if q.len() > 0 {
        match p {
            PatSeg::Tail => {
                assert(matches(rest, Seq::<Seq<char>>::empty()) == (rest.len() == 0));
            },
            _ => {},
        }
    }
}

proof fn lemma_match_prefixed(p: PatSeg, es: Seq<Entry>, q: Seq<Seq<char>>)
    ensures
        match_ids(prefixed(p, es), q) == if q.len() > 0 && head_ok(p, q[0]) {
            match_ids(es, rest_query(p, q))
        } else {
            Seq::<Seq<char>>::empty()
        },
    decreases es.len(),
{
    if es.len() == 0 {
        assert(prefixed(p, es) =~= Seq::<Entry>::empty());
        assert(match_ids(prefixed(p, es), q) =~= Seq::<Seq<char>>::empty());
        assert(match_ids(es, rest_query(p, q)) =~= Seq::<Seq<char>>::empty());
    } else {
        let d = es.drop_last();
        let l = es.last();
        lemma_match_prefixed(p, d, q);
        assert(prefixed(p, es) =~= prefixed(p, d).push((seq![p] + l.0, l.1)));
        assert(es =~= d.push(l));
        lemma_match_ids_push(prefixed(p, d), (seq![p] + l.0, l.1), q);
        lemma_match_ids_push(d, l, rest_query(p, q));
        lemma_matches_cons(p, l.0, q);
    }
}

/// With distinct keys, only the child whose key is the first request segment contributes.
proof fn lemma_match_lit_found(cs: Seq<(String, TrieNode)>, q: Seq<Seq<char>>, j: int)
    requires
        q.len() > 0,
        0 <= j < cs.len(),
        cs[j].0@ == q[0],
        forall|a: int, b: int| 0 <= a < b < cs.len() ==> (#[trigger] cs[a]).0@ != (#[trigger] cs[b]).0@,
    ensures
        match_ids(lit_entries(cs), q) == match_ids(entries(cs[j].1), q.drop_first()),
    decreases cs.len(),
{
    let d = cs.drop_last();
    let l = cs.last();
    lemma_match_ids_add(lit_entries(d), prefixed(PatSeg::Lit(l.0@), entries(l.1)), q);
    lemma_match_prefixed(PatSeg::Lit(l.0@), entries(l.1), q);
    if j == cs.len() - 1 {
        assert forall|i: int| 0 <= i < d.len() implies (#[trigger] d[i]).0@ != q[0] by {
            assert(cs[i] == d[i]);
        }
        lemma_match_lit_none(d, q);
        assert(match_ids(lit_entries(d), q) + match_ids(entries(cs[j].1), q.drop_first()) =~= match_ids(entries(cs[j].1), q.drop_first()));
    } else {
        assert forall|a: int, b: int| 0 <= a < b < d.len() implies (#[trigger] d[a]).0@ != (#[trigger] d[b]).0@ by {
            assert(cs[a] == d[a] && cs[b] == d[b]);
        }
        assert(cs[j] == d[j]);
        lemma_match_lit_found(d, q, j);
        assert(l.0@ != q[0]);
        assert(match_ids(lit_entries(d), q) + Seq::<Seq<char>>::empty() =~= match_ids(lit_entries(d), q));
    }
}

/// When no key is the first request segment (or the request is empty), no literal child
/// contributes.
proof fn lemma_match_lit_none(cs: Seq<(String, TrieNode)>, q: Seq<Seq<char>>)
    requires
        q.len() > 0 ==> forall|i: int| 0 <= i < cs.len() ==> (#[trigger] cs[i]).0@ != q[0],
    ensures
        match_ids(lit_entries(cs), q) == Seq::<Seq<char>>::empty(),
    decreases cs.len(),
{
    if cs.len() == 0 {
        assert(match_ids(lit_entries(cs), q) =~= Seq::<Seq<char>>::empty());
    } else {
        let d = cs.drop_last();
        let l = cs.last();
        assert forall|i: int| 0 <= i < d.len() && q.len() > 0 implies (#[trigger] d[i]).0@ != q[0] by {
            assert(cs[i] == d[i]);
        }
        lemma_match_lit_none(d, q);
        lemma_match_ids_add(lit_entries(d), prefixed(PatSeg::Lit(l.0@), entries(l.1)), q);
        lemma_match_prefixed(PatSeg::Lit(l.0@), entries(l.1), q);
        assert(Seq::<Seq<char>>::empty() + Seq::<Seq<char>>::empty() =~= Seq::<Seq<char>>::empty());
    }
}

proof fn lemma_match_opt(p: PatSeg, o: Option<(String, Box<TrieNode>)>, q: Seq<Seq<char>>)
    ensures
        match_ids(opt_entries(p, o), q) == match o {
            Some(pc) => if q.len() > 0 && head_ok(p, q[0]) {
                match_ids(entries(*pc.1), rest_query(p, q))
            } else {
                Seq::<Seq<char>>::empty()
            },
            None => Seq::<Seq<char>>::empty(),
        },
{
    match o {
        Some(pc) => {
            lemma_match_prefixed(p, entries(*pc.1), q);
        },
        None => {
            assert(match_ids(opt_entries(p, o), q) =~= Seq::<Seq<char>>::empty());
        },
    }
}

/// The entries of a node, split into the routes at the node and the rest.
proof fn lemma_entries_split(node: TrieNode, q: Seq<Seq<char>>)
    ensures
        match_ids(entries(node), q) == match_ids(here_entries(node.routes@), q) + match_ids(
            lit_entries(node.literal@),
            q,
        ) + match_ids(opt_entries(PatSeg::Param, node.param), q) + match_ids(
            opt_entries(PatSeg::Tail, node.path_param),
            q,
        ),
{
    let h = here_entries(node.routes@);
    let l = lit_entries(node.literal@);
    let p = opt_entries(PatSeg::Param, node.param);
    let t = opt_entries(PatSeg::Tail, node.path_param);
    lemma_match_ids_add(h + l + p, t, q);
    lemma_match_ids_add(h + l, p, q);
    lemma_match_ids_add(h, l, q);
}

/// The routes filed exactly at `node` are the ones an empty request matches.
proof fn lemma_match_empty(node: TrieNode)
    ensures
        match_ids(entries(node), Seq::<Seq<char>>::empty()) == id_views(node.routes@),
{
    let q = Seq::<Seq<char>>::empty();
    lemma_entries_split(node, q);
    lemma_match_here(node.routes@, q);
    lemma_match_lit_none(node.literal@, q);
    lemma_match_opt(PatSeg::Param, node.param, q);
    lemma_match_opt(PatSeg::Tail, node.path_param, q);
    assert(id_views(node.routes@) + Seq::<Seq<char>>::empty() + Seq::<Seq<char>>::empty() + Seq::<Seq<char>>::empty() =~= id_views(node.routes@));
}


/// Copies of a list of route identifiers.
fn copy_ids(ids: &Vec<RouteId>) -> (r: Vec<RouteId>)
    ensures
        id_views(r@) == id_views(ids@),
{
    let mut r: Vec<RouteId> = Vec::new();
    let mut i: usize = 0;
    while i < ids.len()
        invariant
            i <= ids@.len(),
            id_views(r@) == id_views(ids@).take(i as int),
        decreases ids@.len() - i,
    {
        let x = ids[i].duplicate();
        let ghost before = r@;
        r.push(x);
        assert(id_views(r@) =~= id_views(before).push(x@));
        i += 1;
        assert(id_views(ids@).take(i as int) =~= id_views(ids@).take(i - 1).push(ids@[i - 1]@));
    }
    assert(id_views(ids@).take(ids@.len() as int) =~= id_views(ids@));
    r
}

proof fn lemma_wf_parts(node: TrieNode)
    requires
        wf_trie(node),
    ensures
        forall|j: int| 0 <= j < node.literal@.len() ==> wf_trie(#[trigger] node.literal@[j].1),
        match node.param {
            Some(pc) => wf_trie(*pc.1),
            None => true,
        },
        match node.path_param {
            Some(pc) => wf_trie(*pc.1),
            None => true,
        },
{
    assert forall|j: int| 0 <= j < node.literal@.len() implies wf_trie(#[trigger] node.literal@[j].1) by {
        lemma_wf_children_index(node.literal@, j);
    }
}

/// The routes filed under `node` whose pattern matches `segs[k..]`.
fn lookup_from(node: &TrieNode, segs: &[&str], k: usize) -> (r: Vec<RouteId>)
    requires
        wf_trie(*node),
        k <= segs@.len(),
    ensures
        id_views(r@) == match_ids(entries(*node), seg_views(segs@).skip(k as int)),
    decreases segs@.len() - k,
{
    let ghost q = seg_views(segs@).skip(k as int);
    proof {
        lemma_entries_split(*node, q);
        lemma_wf_parts(*node);
    }
    if k == segs.len() {
        assert(q =~= Seq::<Seq<char>>::empty());
        proof {
            lemma_match_empty(*node);
        }
        return copy_ids(&node.routes);
    }
    let seg = segs[k];
    assert(q[0] == seg@);
    assert(q.drop_first() =~= seg_views(segs@).skip(k + 1));
    proof {
        lemma_match_here(node.routes@, q);
        lemma_match_opt(PatSeg::Param, node.param, q);
        lemma_match_opt(PatSeg::Tail, node.path_param, q);
    }
    let key: String = seg.to_owned();
    let n = node.literal.len();
    let mut j: usize = 0;
    while j < n
        invariant
            j <= n,
            n == node.literal@.len(),
            key@ == seg@,
            forall|i: int| 0 <= i < j ==> (#[trigger] node.literal@[i]).0@ != seg@,
        ensures
            j <= n,
            forall|i: int| 0 <= i < j ==> (#[trigger] node.literal@[i]).0@ != seg@,
            j < n ==> node.literal@[j as int].0@ == seg@,
        decreases n - j,
    {
        if node.literal[j].0 == key {
            break;
        }
        j += 1;
    }
    let mut out: Vec<RouteId> = if j < n {
        proof {
            lemma_match_lit_found(node.literal@, q, j as int);
        }
        lookup_from(&node.literal[j].1, segs, k + 1)
    } else {
        proof {
            lemma_match_lit_none(node.literal@, q);
        }
        Vec::new()
    };
    assert(id_views(out@) == match_ids(lit_entries(node.literal@), q));
    let ghost lit_part = id_views(out@);
    if !seg.is_empty() {
        match &node.param {
            Some(pc) => {
                let mut more = lookup_from(&pc.1, segs, k + 1);
                let ghost a = out@;
                out.append(&mut more);
                assert(id_views(out@) =~= id_views(a) + match_ids(entries(*pc.1), q.drop_first()));
            },
            None => {},
        }
        let ghost with_param = id_views(out@);
        match &node.path_param {
            Some(pc) => {
                proof {
                    lemma_match_empty(*pc.1);
                }
                let mut more = copy_ids(&pc.1.routes);
                let ghost a = out@;
                out.append(&mut more);
                assert(id_views(out@) =~= id_views(a) + id_views(pc.1.routes@));
            },
            None => {},
        }
        assert(id_views(out@) =~= Seq::<Seq<char>>::empty() + lit_part + match_ids(opt_entries(PatSeg::Param, node.param), q)
            + match_ids(opt_entries(PatSeg::Tail, node.path_param), q));
    } else {
        assert(id_views(out@) =~= Seq::<Seq<char>>::empty() + lit_part + Seq::<Seq<char>>::empty()
            + Seq::<Seq<char>>::empty());
    }
    out
}

/// The routes whose pattern matches the request `segments`: each placeholder matches one
/// non-empty segment, a multi-segment placeholder matches a non-empty segment and all that
/// follow it, and other segments match themselves. The routes come in the order of
/// `entries`.
pub fn trie_lookup(node: &TrieNode, segments: &[&str]) -> (r: Vec<RouteId>)
    requires
        wf_trie(*node),
    ensures
        id_views(r@) == match_ids(entries(*node), seg_views(segments@)),
{
    assert(seg_views(segments@).skip(0) =~= seg_views(segments@));
    lookup_from(node, segments, 0)
}


/// Routes by identifier; an identifier may have several records (one per mount point).
/// Lookups by identifier use the first entry that carries it.
pub type RouteIndex = Vec<(RouteId, Vec<RouteRecord>)>;

/// A path trie over all resolved routes.
#[derive(Debug, Default)]
pub struct PathTrie {
    pub root: TrieNode,
}

/// The trie entries of the records of one route, in order: one per resolved record.
pub open spec fn record_entries(id: Seq<char>, recs: Seq<RouteRecord>) -> Seq<Entry>
    decreases recs.len(),
{
    if recs.len() == 0 {
        Seq::empty()
    } else {
        record_entries(id, recs.drop_last()) + match recs.last().resolved_path {
            ResolvedPath::Resolved(p) => seq![(pattern_of(segments_of(p@)), id)],
            ResolvedPath::Unresolved => Seq::empty(),
        }
    }
}

/// The trie entries of a whole route index.
pub open spec fn index_entries(ix: Seq<(RouteId, Vec<RouteRecord>)>) -> Seq<Entry>
    decreases ix.len(),
{
    if ix.len() == 0 {
        Seq::empty()
    } else {
        index_entries(ix.drop_last()) + record_entries(ix.last().0@, ix.last().1@)
    }
}

/// Borrowed views of a list of strings.
fn as_strs(v: &Vec<String>) -> (r: Vec<&str>)
    ensures
        seg_views(r@) == v@.map_values(|s: String| s@),
{
    let mut r: Vec<&str> = Vec::new();
    let mut i: usize = 0;
    while i < v.len()
        invariant
            i <= v@.len(),
            seg_views(r@) == v@.map_values(|s: String| s@).take(i as int),
        decreases v@.len() - i,
    {
        let ghost before = r@;
        r.push(v[i].as_str());
        assert(seg_views(r@) =~= seg_views(before).push(v@[i as int]@));
        i += 1;
        assert(v@.map_values(|s: String| s@).take(i as int) =~= v@.map_values(|s: String| s@).take(i - 1).push(v@[i - 1]@));
    }
    assert(v@.map_values(|s: String| s@).take(v@.len() as int) =~= v@.map_values(|s: String| s@));
    r
}

/// Builds the path trie of all resolved routes: every resolved record of every route is
/// filed under its path's segments, with the route's identifier.
pub fn build_path_trie(route_index: &RouteIndex) -> (t: PathTrie)
    ensures
        wf_trie(t.root),
        entries(t.root).to_multiset() == index_entries(route_index@).to_multiset(),
{
    let mut root = TrieNode::default();
    let mut i: usize = 0;
    while i < route_index.len()
        invariant
            i <= route_index@.len(),
            wf_trie(root),
            entries(root).to_multiset() == index_entries(route_index@.take(i as int)).to_multiset(),
        decreases route_index@.len() - i,
    {
        let id = &route_index[i].0;
        let recs = &route_index[i].1;
        let ghost base = index_entries(route_index@.take(i as int));
        let mut j: usize = 0;
        assert(record_entries(id@, recs@.take(0)) =~= Seq::<Entry>::empty());
        assert(base + Seq::<Entry>::empty() =~= base);
        while j < recs.len()
            invariant
                i < route_index@.len(),
                id == &route_index@[i as int].0,
                recs == &route_index@[i as int].1,
                j <= recs@.len(),
                wf_trie(root),
                entries(root).to_multiset() == (base + record_entries(id@, recs@.take(j as int))).to_multiset(),
            decreases recs@.len() - j,
        {
            let ghost prev = record_entries(id@, recs@.take(j as int));
            assert(recs@.take(j + 1).drop_last() =~= recs@.take(j as int));
            match &recs[j].resolved_path {
                ResolvedPath::Resolved(path) => {
                    let segs = path_segments(path.as_str());
                    let refs = as_strs(&segs);
                    let ghost e = (pattern_of(segments_of(path@)), id@);
                    let ghost before = entries(root);
                    trie_insert(&mut root, refs.as_slice(), id.duplicate());
                    proof {
                        let k = choose|k: int| 0 <= k <= before.len() && entries(root) == before.insert(k, e);
                        vstd::seq_lib::to_multiset_insert(before, k, e);
                        vstd::seq_lib::to_multiset_build(base + prev, e);
                        assert(record_entries(id@, recs@.take(j + 1)) =~= prev + seq![e]);
                        assert((base + prev).push(e) =~= base + record_entries(id@, recs@.take(j + 1)));
                    }
                },
                ResolvedPath::Unresolved => {
                    assert(record_entries(id@, recs@.take(j + 1)) =~= prev + Seq::<Entry>::empty());
                    assert(base + record_entries(id@, recs@.take(j + 1)) =~= base + prev);
                },
            }
            j += 1;
        }
        proof {
            assert(recs@.take(recs@.len() as int) =~= recs@);
            assert(route_index@.take(i + 1).drop_last() =~= route_index@.take(i as int));
            assert(index_entries(route_index@.take(i + 1)) == base + record_entries(id@, recs@));
        }
        i += 1;
    }
    assert(route_index@.take(route_index@.len() as int) =~= route_index@);
    PathTrie { root }
}


/// The records of the first index entry whose identifier is `id`.
pub open spec fn index_get(ix: Seq<(RouteId, Vec<RouteRecord>)>, id: Seq<char>) -> Option<Seq<RouteRecord>>
    decreases ix.len(),
{
    if ix.len() == 0 {
        None
    } else if ix[0].0@ == id {
        Some(ix[0].1@)
    } else {
        index_get(ix.drop_first(), id)
    }
}

/// Whether route `id` is known and its first record answers to `method`.
pub open spec fn has_method(ix: Seq<(RouteId, Vec<RouteRecord>)>, id: Seq<char>, method: Method) -> bool {
    match index_get(ix, id) {
        Some(recs) => recs.len() > 0 && recs[0].method == method,
        None => false,
    }
}

/// The method filter applied to a list of identifiers.
pub open spec fn with_method(ids: Seq<Seq<char>>, ix: Seq<(RouteId, Vec<RouteRecord>)>, method: Method) -> Seq<Seq<char>> {
    ids.filter(|x: Seq<char>| has_method(ix, x, method))
}

/// The records of route `id` (see `index_get`).
pub fn index_lookup<'a>(route_index: &'a RouteIndex, id: &RouteId) -> (r: Option<&'a Vec<RouteRecord>>)
    ensures
        match r {
            Some(v) => index_get(route_index@, id@) == Some(v@),
            None => index_get(route_index@, id@) is None,
        },
{
    let mut i: usize = 0;
    assert(route_index@.skip(0) =~= route_index@);
    while i < route_index.len()
        invariant
            i <= route_index@.len(),
            index_get(route_index@, id@) == index_get(route_index@.skip(i as int), id@),
        decreases route_index@.len() - i,
    {
        assert(route_index@.skip(i as int).drop_first() =~= route_index@.skip(i + 1));
        if route_index[i].0 == *id {
            return Some(&route_index[i].1);
        }
        i += 1;
    }
    None
}

fn route_has_method(route_index: &RouteIndex, id: &RouteId, method: Method) -> (r: bool)
    ensures
        r == has_method(route_index@, id@, method),
{
    let mut i: usize = 0;
    assert(route_index@.skip(0) =~= route_index@);
    while i < route_index.len()
        invariant
            i <= route_index@.len(),
            index_get(route_index@, id@) == index_get(route_index@.skip(i as int), id@),
        decreases route_index@.len() - i,
    {
        assert(route_index@.skip(i as int).drop_first() =~= route_index@.skip(i + 1));
        if route_index[i].0 == *id {
            let recs = &route_index[i].1;
            return recs.len() > 0 && recs[0].method == method;
        }
        i += 1;
    }
    false
}

/// Keeps the routes whose first record answers to `method`, in order.
pub fn filter_by_method(ids: Vec<RouteId>, route_index: &RouteIndex, method: Method) -> (r: Vec<RouteId>)
    ensures
        id_views(r@) == with_method(id_views(ids@), route_index@, method),
{
    let ghost pred = |x: Seq<char>| has_method(route_index@, x, method);
    let mut r: Vec<RouteId> = Vec::new();
    let mut i: usize = 0;
    while i < ids.len()
        invariant
            i <= ids@.len(),
            pred == (|x: Seq<char>| has_method(route_index@, x, method)),
            id_views(r@) == id_views(ids@).take(i as int).filter(pred),
        decreases ids@.len() - i,
    {
        let ghost prev = id_views(ids@).take(i as int);
        assert(id_views(ids@).take(i + 1) =~= prev.push(ids@[i as int]@));
        proof {
            prev.lemma_filter_push(ids@[i as int]@, pred);
        }
        if route_has_method(route_index, &ids[i], method) {
            let ghost before = r@;
            r.push(ids[i].duplicate());
            assert(id_views(r@) =~= id_views(before).push(ids@[i as int]@));
        }
        i += 1;
    }
    assert(id_views(ids@).take(ids@.len() as int) =~= id_views(ids@));
    r
}

/// `s` without its trailing `c` characters (`str::trim_end_matches` with a char).
pub open spec fn trim_trailing(s: Seq<char>, c: char) -> Seq<char>
    decreases s.len(),
{
    if s.len() > 0 && s.last() == c {
        trim_trailing(s.drop_last(), c)
    } else {
        s
    }
}

/// The path tried when a call matches no route: the query string is dropped, then a
/// trailing `/` is removed (all of them), or one is added.
pub open spec fn toggled_slash(path: Seq<char>) -> Seq<char> {
    let p = before_char(path, '?');
    if p.len() > 0 && p.last() == '/' {
        trim_trailing(p, '/')
    } else {
        p.push('/')
    }
}

/// The routes that a call to `path` with `method` reaches in the trie.
pub open spec fn routed(trie: PathTrie, ix: Seq<(RouteId, Vec<RouteRecord>)>, path: Seq<char>, method: Method) -> Seq<Seq<char>> {
    with_method(match_ids(entries(trie.root), segments_of(path)), ix, method)
}

fn trim_trailing_chars(s: &[char], c: char) -> (r: Vec<char>)
    ensures
        r@ == trim_trailing(s@, c),
{
    let mut n = s.len();
    assert(s@.take(n as int) =~= s@);
    while n > 0 && s[n - 1] == c
        invariant
            n <= s@.len(),
            trim_trailing(s@, c) == trim_trailing(s@.take(n as int), c),
        decreases n,
    {
        assert(s@.take(n as int).drop_last() =~= s@.take(n - 1));
        n -= 1;
    }
    crate::text::slice_chars(s, 0, n)
}

/// Routes matching a client call: the exact path first; when that finds nothing, the same
/// path with its trailing slash toggled (`toggled_slash`).
pub fn match_call(trie: &PathTrie, route_index: &RouteIndex, path: &str, method: Method) -> (r: Vec<RouteId>)
    requires
        wf_trie(trie.root),
    ensures
        id_views(r@) == if routed(*trie, route_index@, path@, method).len() > 0 {
            routed(*trie, route_index@, path@, method)
        } else {
            routed(*trie, route_index@, toggled_slash(path@), method)
        },
{
    let segs = path_segments(path);
    let refs = as_strs(&segs);
    let ids = filter_by_method(trie_lookup(&trie.root, refs.as_slice()), route_index, method);
    if ids.len() > 0 {
        return ids;
    }
    let cs = str_chars(path);
    let by_query = split_chars(&cs, '?');
    proof {
        lemma_split_on_nonempty(cs@, '?');
    }
    let head = &by_query[0];
    let alt_chars: Vec<char> = if head.len() > 0 && head[head.len() - 1] == '/' {
        trim_trailing_chars(head.as_slice(), '/')
    } else {
        let mut a = crate::text::slice_chars(head.as_slice(), 0, head.len());
        a.push('/');
        assert(a@ == head@.push('/'));
        a
    };
    assert(alt_chars@ == toggled_slash(path@));
    let alt = string_from_chars(&alt_chars);
    let alt_segs = path_segments(alt.as_str());
    let alt_refs = as_strs(&alt_segs);
    filter_by_method(trie_lookup(&trie.root, alt_refs.as_slice()), route_index, method)
}


/// Number of `/`-separated pieces of a path without its trailing slashes.
pub open spec fn route_depth(path: Seq<char>) -> nat {
    split_on(trim_trailing(path, '/'), '/').len()
}

/// Whether an index entry is hit by a prefix call: its first record answers to `method`,
/// is resolved to a path that starts with `prefix`, and (when a depth is given) has that
/// many pieces.
pub open spec fn prefix_hit(
    e: (RouteId, Vec<RouteRecord>),
    prefix: Seq<char>,
    method: Method,
    depth: Option<usize>,
) -> bool {
    &&& e.1@.len() > 0
    &&& e.1@[0].method == method
    &&& match e.1@[0].resolved_path {
        ResolvedPath::Resolved(p) => crate::text::is_prefix(prefix, p@) && match depth {
            Some(d) => route_depth(p@) == d,
            None => true,
        },
        ResolvedPath::Unresolved => false,
    }
}

/// The entries of the index hit by a prefix call, by identifier, in index order.
pub open spec fn prefix_hits(
    ix: Seq<(RouteId, Vec<RouteRecord>)>,
    prefix: Seq<char>,
    method: Method,
    depth: Option<usize>,
) -> Seq<Seq<char>> {
    ix.filter(|e: (RouteId, Vec<RouteRecord>)| prefix_hit(e, prefix, method, depth)).map_values(
        |e: (RouteId, Vec<RouteRecord>)| e.0@,
    )
}

fn entry_hit(e: &(RouteId, Vec<RouteRecord>), prefix: &[char], method: Method, depth: Option<usize>) -> (r: bool)
    ensures
        r == prefix_hit(*e, prefix@, method, depth),
{
    if e.1.len() == 0 || e.1[0].method != method {
        return false;
    }
    match &e.1[0].resolved_path {
        ResolvedPath::Resolved(p) => {
            let pc = str_chars(p.as_str());
            if !crate::text::starts_with(&pc, prefix) {
                return false;
            }
            match depth {
                Some(d) => {
                    let trimmed = trim_trailing_chars(&pc, '/');
                    let pieces = split_chars(&trimmed, '/');
                    pieces.len() == d
                },
                None => true,
            }
        },
        ResolvedPath::Unresolved => false,
    }
}

/// Routes hit by a call whose path is only known up to a prefix (an f-string with
/// interpolations): see `prefix_hit`. An empty prefix hits nothing.
pub fn match_prefix(route_index: &RouteIndex, prefix: &str, method: Method, path_depth: Option<usize>) -> (r: Vec<RouteId>)
    ensures
        id_views(r@) == if prefix@.len() == 0 {
            Seq::<Seq<char>>::empty()
        } else {
            prefix_hits(route_index@, prefix@, method, path_depth)
        },
{
    let mut r: Vec<RouteId> = Vec::new();
    if prefix.is_empty() {
        return r;
    }
    let pre = str_chars(prefix);
    let ghost pred = |e: (RouteId, Vec<RouteRecord>)| prefix_hit(e, prefix@, method, path_depth);
    let mut i: usize = 0;
    while i < route_index.len()
        invariant
            i <= route_index@.len(),
            pre@ == prefix@,
            pred == (|e: (RouteId, Vec<RouteRecord>)| prefix_hit(e, prefix@, method, path_depth)),
            id_views(r@) == route_index@.take(i as int).filter(pred).map_values(
                |e: (RouteId, Vec<RouteRecord>)| e.0@,
            ),
        decreases route_index@.len() - i,
    {
        let ghost prev = route_index@.take(i as int);
        let ghost cur = route_index@[i as int];
        assert(route_index@.take(i + 1) =~= prev.push(cur));
        proof {
            prev.lemma_filter_push(cur, pred);
        }
        if entry_hit(&route_index[i], &pre, method, path_depth) {
            let ghost before = r@;
            r.push(route_index[i].0.duplicate());
            assert(id_views(r@) =~= id_views(before).push(cur.0@));
            assert(prev.filter(pred).push(cur).map_values(|e: (RouteId, Vec<RouteRecord>)| e.0@)
                =~= prev.filter(pred).map_values(|e: (RouteId, Vec<RouteRecord>)| e.0@).push(cur.0@));
        }
        i += 1;
    }
    assert(route_index@.take(route_index@.len() as int) =~= route_index@);
    r
}

/// `q` is a concrete path of the pattern segments `segs`: as many segments, each
/// placeholder (other than a `:path` one) filled with a non-empty segment, every other
/// segment as written.
pub open spec fn concrete_of(segs: Seq<Seq<char>>, q: Seq<Seq<char>>) -> bool {
    &&& q.len() == segs.len()
    &&& forall|i: int| 0 <= i < segs.len() ==> if is_braced(#[trigger] segs[i]) {
        q[i].len() > 0 && !crate::text::is_suffix(path_suffix(), brace_inner(segs[i]))
    } else {
        q[i] == segs[i]
    }
}

proof fn lemma_concrete_matches(segs: Seq<Seq<char>>, q: Seq<Seq<char>>)
    requires
        concrete_of(segs, q),
    ensures
        matches(pattern_of(segs), q),
    decreases q.len(),
{
    if q.len() > 0 {
        let (s2, q2) = (segs.drop_first(), q.drop_first());
        assert forall|i: int| 0 <= i < s2.len() implies (if is_braced(#[trigger] s2[i]) {
            q2[i].len() > 0 && !crate::text::is_suffix(path_suffix(), brace_inner(s2[i]))
        } else {
            q2[i] == s2[i]
        }) by {
            assert(s2[i] == segs[i + 1] && q2[i] == q[i + 1]);
        }
        lemma_concrete_matches(s2, q2);
        assert(pattern_of(segs).drop_first() =~= pattern_of(s2));
        assert(pattern_of(segs)[0] == classify(segs[0]));
        assert(is_braced(segs[0]) ==> q[0].len() > 0);
    } else {
        assert(pattern_of(segs).len() == 0);
    }
}

proof fn lemma_inserted_split(old: Seq<Entry>, new: Seq<Entry>, e: Entry, q: Seq<Seq<char>>) -> (i: int)
    requires
        inserted(new, old, e),
    ensures
        0 <= i <= old.len(),
        match_ids(old, q) == match_ids(old.take(i), q) + match_ids(old.skip(i), q),
        match_ids(new, q) == match_ids(old.take(i), q) + match_ids(seq![e], q) + match_ids(old.skip(i), q),
{
    let i = choose|i: int| 0 <= i <= old.len() && new == old.insert(i, e);
    assert(old =~= old.take(i) + old.skip(i));
    assert(new =~= old.take(i) + seq![e] + old.skip(i));
    lemma_match_ids_add(old.take(i), old.skip(i), q);
    lemma_match_ids_add(old.take(i) + seq![e], old.skip(i), q);
    lemma_match_ids_add(old.take(i), seq![e], q);
    i
}

/// Law: filing a route makes every concrete path of its pattern find it.
pub proof fn inserted_route_is_found(old: Seq<Entry>, new: Seq<Entry>, segs: Seq<Seq<char>>, id: Seq<char>, q: Seq<Seq<char>>)
    requires
        inserted(new, old, (pattern_of(segs), id)),
        concrete_of(segs, q),
    ensures
        match_ids(new, q).contains(id),
{
    let e = (pattern_of(segs), id);
    let i = lemma_inserted_split(old, new, e, q);
    lemma_concrete_matches(segs, q);
    lemma_match_ids_push(Seq::<Entry>::empty(), e, q);
    assert(seq![e] =~= Seq::<Entry>::empty().push(e));
    assert(match_ids(Seq::<Entry>::empty(), q) =~= Seq::<Seq<char>>::empty());
    let a = match_ids(old.take(i), q);
    assert(match_ids(new, q)[a.len() as int] == id);
}

/// Law: filing a route never loses a match: whatever a path found before, it still finds.
pub proof fn insert_keeps_matches(old: Seq<Entry>, new: Seq<Entry>, e: Entry, q: Seq<Seq<char>>, x: Seq<char>)
    requires
        inserted(new, old, e),
        match_ids(old, q).contains(x),
    ensures
        match_ids(new, q).contains(x),
{
    let i = lemma_inserted_split(old, new, e, q);
    let a = match_ids(old.take(i), q);
    let m = match_ids(seq![e], q);
    let b = match_ids(old.skip(i), q);
    let j = choose|j: int| 0 <= j < match_ids(old, q).len() && match_ids(old, q)[j] == x;
    if j < a.len() {
        assert(match_ids(new, q)[j] == x);
    } else {
        assert(b[j - a.len()] == x);
        assert(match_ids(new, q)[j + m.len()] == x);
    }
}

} // verus!
