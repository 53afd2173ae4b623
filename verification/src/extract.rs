//! The "Extract router with prefix" refactoring.
use vstd::prelude::*;
use vstd::utf8::encode_utf8;
use crate::position::{Range, Position};
use crate::routing::{RouteRecord, RouteIndex, ResolvedPath};
use crate::checks::{first_match, lemma_first_match_step, lemma_first_match_none, lemma_first_match_bound, derefs, path_of};
use crate::analysis::{after_last_dot, index_records, all_refs};
use crate::actions::{ActionKind, ActionView, CodeAction, DocChange, TextEdit, FileRoute, APPEND_LINE, at, one_doc, touches, edits_view, edit_view, changes_view, action_view};
use crate::hovers::id_handler;
use crate::joining::common_literal_prefix;
use crate::pysource::{decorator_before, is_decorator, lines_of};
use crate::text::{str_chars, string_from_chars, push_all, string_views, views, is_prefix, split_on};

verus! {

broadcast use vstd::string::group_string_axioms;

/// The UTF-8 length of a string.
pub open spec fn blen(s: Seq<char>) -> nat {
    encode_utf8(s).len()
}

proof fn lemma_blen_step(s: Seq<char>, j: int)
    requires
        0 <= j < s.len(),
    ensures
        blen(s.take(j + 1)) == blen(s.take(j)) + crate::text::utf8_width(s[j]),
        blen(s.take(j)) < blen(s.take(j + 1)),
{
    crate::text::lemma_encode_utf8_push(s.take(j), s[j]);
    crate::text::lemma_encode_scalar_len(s[j]);
    assert(s.take(j + 1) == s.take(j).push(s[j]));
}

proof fn lemma_blen_strict(s: Seq<char>, a: int, b: int)
    requires
        0 <= a < b <= s.len(),
    ensures
        blen(s.take(a)) < blen(s.take(b)),
    decreases b - a,
{
    lemma_blen_step(s, b - 1);
    if a < b - 1 {
        lemma_blen_strict(s, a, b - 1);
    }
}

/// The character index where byte offset `k` of `s` falls, when it is a character boundary.
pub open spec fn boundary(s: Seq<char>, k: int) -> Option<int> {
    if exists|j: int| 0 <= j <= s.len() && blen(s.take(j)) == k {
        Some(choose|j: int| 0 <= j <= s.len() && blen(s.take(j)) == k)
    } else {
        None
    }
}

/// `s` from byte offset `k` on (`str::get(k..)`).
pub open spec fn byte_suffix(s: Seq<char>, k: int) -> Option<Seq<char>> {
    match boundary(s, k) {
        Some(j) => Some(s.skip(j)),
        None => None,
    }
}

fn suffix_from_byte(s: &[char], k: u128) -> (r: Option<Vec<char>>)
    ensures
        match r {
            Some(x) => byte_suffix(s@, k as int) == Some(x@),
            None => byte_suffix(s@, k as int) is None,
        },
{
    let mut n: u128 = 0;
    let mut j: usize = 0;
    assert(s@.take(0) =~= Seq::<char>::empty());
    assert(encode_utf8(Seq::<char>::empty()) == Seq::<u8>::empty());
    while j < s.len() && n < k
        invariant
            j <= s@.len(),
            n == blen(s@.take(j as int)),
            n <= 4 * j,
            forall|m: int| 0 <= m < j ==> blen(s@.take(m)) < k,
        decreases s@.len() - j,
    {
        proof {
            lemma_blen_step(s@, j as int);
        }
        let c = s[j];
        let v = c as u32;
        let w: u128 = if v <= 0x7F { 1 } else if v <= 0x7FF { 2 } else if v <= 0xFFFF { 3 } else { 4 };
        assert(n + w == blen(s@.take(j + 1)));
        if w > k - n {
            proof {
                assert forall|x: int| 0 <= x <= s@.len() implies blen(#[trigger] s@.take(x)) != k by {
                    if x <= j {
                    } else {
                        if x > j + 1 {
                            lemma_blen_strict(s@, j + 1, x);
                        }
                    }
                }
            }
            return None;
        }
        n = n + w;
        j += 1;
    }
    if n == k {
        proof {
            let jj = j as int;
            assert(0 <= jj <= s@.len() && blen(s@.take(jj)) == k);
            let c = choose|x: int| 0 <= x <= s@.len() && blen(s@.take(x)) == k;
            if c < jj {
                lemma_blen_strict(s@, c, jj);
            } else if jj < c {
                lemma_blen_strict(s@, jj, c);
            }
        }
        Some(crate::text::slice_chars(s, j, s.len()))
    } else {
        proof {
            assert forall|x: int| 0 <= x <= s@.len() implies blen(#[trigger] s@.take(x)) != k by {
                if x < j {
                } else if x == j {
                } else {
                    lemma_blen_strict(s@, j as int, x);
                    if j < s@.len() {
                        assert(n >= k);
                    }
                }
            }
        }
        None
    }
}

/// The object that the route decorator of handler `h` registers on: its last entry.
pub open spec fn obj_of(routes: Seq<FileRoute>, h: Seq<char>) -> Option<Seq<char>>
    decreases routes.len(),
{
    if routes.len() == 0 {
        None
    } else if routes.last().handler_name@ == h {
        Some(routes.last().object_name@)
    } else {
        obj_of(routes.drop_last(), h)
    }
}

/// Some `include_router` of the workspace includes object `name`: by its target, or by
/// the last dotted part of a dotted target.
pub open spec fn included(targets: Seq<Seq<char>>, name: Seq<char>) -> bool {
    exists|i: int|
        0 <= i < targets.len() && (targets[i] == name || (after_last_dot(#[trigger] targets[i]) != targets[i] && after_last_dot(targets[i]) == name))
}

/// A route that may move into an extracted router: handled in the file, registered on an
/// object no `include_router` includes, resolved, with a literal path.
pub open spec fn candidate(r: RouteRecord, uri: Seq<char>, routes: Seq<FileRoute>, targets: Seq<Seq<char>>) -> bool {
    let h = id_handler(r.id@);
    &&& r.handler.uri@ == uri
    &&& !included(targets, match obj_of(routes, h) {
        Some(o) => o,
        None => h,
    })
    &&& r.resolved_path is Resolved
    &&& r.path_range is Some
}

/// The candidates among `recs`, in order.
pub open spec fn candidates(recs: Seq<RouteRecord>, uri: Seq<char>, routes: Seq<FileRoute>, targets: Seq<Seq<char>>) -> Seq<RouteRecord>
    decreases recs.len(),
{
    if recs.len() == 0 {
        Seq::empty()
    } else {
        candidates(recs.drop_last(), uri, routes, targets) + if candidate(recs.last(), uri, routes, targets) {
            seq![recs.last()]
        } else {
            Seq::empty()
        }
    }
}

/// The route's handler is under the cursor.
pub open spec fn at_handler(r: RouteRecord, range: Range) -> bool {
    touches(range, r.handler.range.start, r.handler.range.end)
}

/// The records whose route name maps to object `o`, in order.
pub open spec fn same_obj(cs: Seq<RouteRecord>, routes: Seq<FileRoute>, o: Seq<char>) -> Seq<RouteRecord>
    decreases cs.len(),
{
    if cs.len() == 0 {
        Seq::empty()
    } else {
        same_obj(cs.drop_last(), routes, o) + if obj_of(routes, cs.last().name@) == Some(o) {
            seq![cs.last()]
        } else {
            Seq::empty()
        }
    }
}

/// The resolved paths of the records.
pub open spec fn paths_of(s: Seq<RouteRecord>) -> Seq<Seq<char>> {
    s.map_values(|r: RouteRecord| path_of(r))
}

/// The path is the prefix, or continues with `/` right after the prefix's bytes.
pub open spec fn under(p: Seq<char>, prefix: Seq<char>) -> bool {
    p == prefix || (byte_suffix(p, blen(prefix) as int) matches Some(rest) && is_prefix(seq!['/'], rest))
}

/// The records whose path lies under the prefix, in order.
pub open spec fn group_of(so: Seq<RouteRecord>, prefix: Seq<char>) -> Seq<RouteRecord>
    decreases so.len(),
{
    if so.len() == 0 {
        Seq::empty()
    } else {
        group_of(so.drop_last(), prefix) + if under(path_of(so.last()), prefix) {
            seq![so.last()]
        } else {
            Seq::empty()
        }
    }
}

/// The index of the first record on the lowest handler line.
pub open spec fn first_lowest(g: Seq<RouteRecord>) -> int
    decreases g.len(),
{
    if g.len() <= 1 {
        0
    } else {
        let p = first_lowest(g.drop_last());
        if g.last().handler.range.start.line < g[p].handler.range.start.line {
            g.len() - 1
        } else {
            p
        }
    }
}

/// `s` with `x` placed after every record whose handler line is not lower.
pub open spec fn insert_by_line(s: Seq<RouteRecord>, x: RouteRecord) -> Seq<RouteRecord>
    decreases s.len(),
{
    if s.len() == 0 || s.last().handler.range.start.line >= x.handler.range.start.line {
        s.push(x)
    } else {
        insert_by_line(s.drop_last(), x).push(s.last())
    }
}

/// The records stably sorted by handler line, highest first.
pub open spec fn bottom_up_records(s: Seq<RouteRecord>) -> Seq<RouteRecord>
    decreases s.len(),
{
    if s.len() == 0 {
        s
    } else {
        insert_by_line(bottom_up_records(s.drop_last()), s.last())
    }
}

/// The last `/`-segment of the prefix that is not empty and has no `{` (`sub` when none).
pub open spec fn last_literal(segs: Seq<Seq<char>>) -> Seq<char>
    decreases segs.len(),
{
    if segs.len() == 0 {
        "sub"@
    } else if segs.last().len() > 0 && !segs.last().contains('{') {
        segs.last()
    } else {
        last_literal(segs.drop_last())
    }
}

/// The name of the new router: `router`, or `<segment>_router` when the file already
/// declares a `router`.
pub open spec fn router_name(prefix: Seq<char>, routers: Seq<Seq<char>>) -> Seq<char> {
    if routers.contains("router"@) {
        last_literal(split_on(prefix, '/')) + "_router"@
    } else {
        "router"@
    }
}

/// The decorator line of a route's path: the path's own line when it is a decorator line,
/// else the last decorator line above it.
pub open spec fn deco_for_path(ls: Seq<Seq<char>>, pr: Range) -> Option<int> {
    let p = pr.start.line as int;
    if p < ls.len() && is_decorator(ls[p]) {
        Some(p)
    } else {
        decorator_before(ls, p)
    }
}

/// The range of `obj` in a decorator line `@obj.method(...)` (byte columns).
pub open spec fn obj_range_in(line: Seq<char>, obj: Seq<char>, ln: u32) -> Option<Range> {
    match first_match(line, |c: char| c == '@') {
        None => None,
        Some(i) => {
            let after = line.skip(i + 1);
            if is_prefix(obj, after) && is_prefix(seq!['.'], after.skip(obj.len() as int)) {
                let a = blen(line.take(i)) + 1;
                Some(Range {
                    start: Position { line: ln, character: a as u32 },
                    end: Position { line: ln, character: (a + blen(obj)) as u32 },
                })
            } else {
                None
            }
        }
    }
}

/// The two edits of one moved route: its path without the prefix, and the router's name
/// in place of the object in its decorator; none when the decorator is not found.
pub open spec fn route_edits(r: RouteRecord, prefix: Seq<char>, ls: Seq<Seq<char>>, obj: Seq<char>, rn: Seq<char>) -> Option<Seq<(Range, Seq<char>)>> {
    let stripped = match byte_suffix(path_of(r), blen(prefix) as int) {
        Some(x) => x,
        None => Seq::empty(),
    };
    match r.path_range {
        None => None,
        Some(pr) => match deco_for_path(ls, pr) {
            None => None,
            Some(dl) => if dl >= ls.len() {
                None
            } else {
                match obj_range_in(ls[dl], obj, dl as u32) {
                    None => None,
                    Some(orng) => Some(seq![(pr, "\""@ + stripped + "\""@), (orng, rn)]),
                }
            },
        },
    }
}

/// The route edits of the sorted group, skipping a path range already edited; none when
/// a decorator is not found.
pub open spec fn group_edits(s: Seq<RouteRecord>, prefix: Seq<char>, ls: Seq<Seq<char>>, obj: Seq<char>, rn: Seq<char>) -> Option<(Seq<(Range, Seq<char>)>, Seq<Range>)>
    decreases s.len(),
{
    if s.len() == 0 {
        Some((Seq::empty(), Seq::empty()))
    } else {
        match group_edits(s.drop_last(), prefix, ls, obj, rn) {
            None => None,
            Some((es, seen)) => match s.last().path_range {
                None => None,
                Some(pr) => if seen.contains(pr) {
                    Some((es, seen))
                } else {
                    match route_edits(s.last(), prefix, ls, obj, rn) {
                        None => None,
                        Some(two) => Some((es + two, seen.push(pr))),
                    }
                },
            },
        }
    }
}

/// "Extract router with prefix `P`" for a route under the cursor: among the candidate
/// routes of the file (at least two), those on the same object as the one under the
/// cursor (at least two) share the literal prefix `P`; the routes under `P` (at least two)
/// move to a new router declared above the first of them (importing `APIRouter` when
/// needed) and included at the end of the file; each loses the prefix from its path and
/// is registered on the new router.
pub open spec fn extract_router_spec(
    uri: Seq<char>,
    recs: Seq<RouteRecord>,
    routes: Seq<FileRoute>,
    targets: Seq<Seq<char>>,
    routers: Seq<Seq<char>>,
    imported: Seq<Seq<char>>,
    ls: Seq<Seq<char>>,
    range: Range,
) -> Option<ActionView> {
    let cs = candidates(recs, uri, routes, targets);
    if cs.len() < 2 {
        None
    } else {
        match first_match(cs, |r: RouteRecord| at_handler(r, range)) {
            None => None,
            Some(ci) => match obj_of(routes, cs[ci].name@) {
                None => None,
                Some(co) => {
                    let so = same_obj(cs, routes, co);
                    let prefix = common_literal_prefix(paths_of(so));
                    if so.len() < 2 || prefix.len() == 0 {
                        None
                    } else {
                        let g = group_of(so, prefix);
                        let rn = router_name(prefix, routers);
                        if g.len() < 2 {
                            None
                        } else {
                            match decorator_before(ls, g[first_lowest(g)].handler.range.start.line as int) {
                                None => None,
                                Some(fd) => match group_edits(bottom_up_records(g), prefix, ls, co, rn) {
                                    None => None,
                                    Some((pe, _)) => Some(
                                        (
                                            "Extract router with prefix `"@ + prefix + "`"@,
                                            ActionKind::RefactorExtract,
                                            None,
                                            one_doc(
                                                uri,
                                                seq![(at(APPEND_LINE, 0), "\n"@ + co + ".include_router("@ + rn + ")\n"@)] + pe + seq![
                                                    (
                                                        at(fd as u32, 0),
                                                        (if imported.contains("APIRouter"@) || imported.contains("*"@) {
                                                            Seq::empty()
                                                        } else {
                                                            "from fastapi import APIRouter\n"@
                                                        }) + rn + " = APIRouter(prefix=\""@ + prefix + "\")\n\n"@,
                                                    ),
                                                ],
                                            ),
                                            None,
                                            false,
                                        ),
                                    ),
                                },
                            }
                        }
                    }
                },
            },
        }
    }
}


fn obj_lookup<'a>(routes: &'a [FileRoute], h: &[char]) -> (r: Option<&'a String>)
    ensures
        match r {
            Some(o) => obj_of(routes@, h@) == Some(o@),
            None => obj_of(routes@, h@) is None,
        },
{
    let mut i = routes.len();
    assert(routes@.take(i as int) =~= routes@);
    while i > 0
        invariant
            i <= routes@.len(),
            obj_of(routes@, h@) == obj_of(routes@.take(i as int), h@),
        decreases i,
    {
        assert(routes@.take(i as int).drop_last() =~= routes@.take(i - 1));
        assert(routes@.take(i as int).last() == routes@[i - 1]);
        let hn = str_chars(routes[i - 1].handler_name.as_str());
        if crate::text::chars_eq(hn.as_slice(), h) {
            return Some(&routes[i - 1].object_name);
        }
        i -= 1;
    }
    None
}

fn is_included(targets: &[String], name: &[char]) -> (b: bool)
    ensures
        b == included(string_views(targets@), name@),
{
    let ghost tv = string_views(targets@);
    let mut i: usize = 0;
    while i < targets.len()
        invariant
            i <= targets@.len(),
            tv == string_views(targets@),
            forall|j: int| 0 <= j < i ==> !(tv[j] == name@ || (after_last_dot(#[trigger] tv[j]) != tv[j] && after_last_dot(tv[j]) == name@)),
        decreases targets@.len() - i,
    {
        let t = str_chars(targets[i].as_str());
        let d = crate::analysis::bare_name(targets[i].as_str());
        let dc = str_chars(d.as_str());
        assert(tv[i as int] == t@);
        if crate::text::chars_eq(t.as_slice(), name) || (!crate::text::chars_eq(dc.as_slice(), t.as_slice()) && crate::text::chars_eq(dc.as_slice(), name)) {
            return true;
        }
        i += 1;
    }
    false
}

fn is_candidate(r: &RouteRecord, uri: &String, routes: &[FileRoute], targets: &[String]) -> (b: bool)
    ensures
        b == candidate(*r, uri@, routes@, string_views(targets@)),
{
    if r.handler.uri != *uri {
        return false;
    }
    let h = crate::hovers::id_handler_chars(r.id.0.as_str());
    let inc = match obj_lookup(routes, h.as_slice()) {
        Some(o) => {
            let oc = str_chars(o.as_str());
            is_included(targets, oc.as_slice())
        },
        None => is_included(targets, h.as_slice()),
    };
    let resolved = match &r.resolved_path {
        ResolvedPath::Resolved(_) => true,
        ResolvedPath::Unresolved => false,
    };
    !inc && resolved && r.path_range.is_some()
}

fn chars_bytes(cs: &[char], upto: usize) -> (n: u128)
    requires
        upto <= cs@.len(),
    ensures
        n == blen(cs@.take(upto as int)),
        n <= 4 * upto,
{
    let mut n: u128 = 0;
    let mut j: usize = 0;
    assert(cs@.take(0) =~= Seq::<char>::empty());
    assert(encode_utf8(Seq::<char>::empty()) == Seq::<u8>::empty());
    while j < upto
        invariant
            j <= upto <= cs@.len(),
            n == blen(cs@.take(j as int)),
            n <= 4 * j,
        decreases upto - j,
    {
        proof {
            lemma_blen_step(cs@, j as int);
        }
        let v = cs[j] as u32;
        let w: u128 = if v <= 0x7F { 1 } else if v <= 0x7FF { 2 } else if v <= 0xFFFF { 3 } else { 4 };
        n = n + w;
        j += 1;
    }
    n
}

fn line_decorator(line: &[char]) -> (b: bool)
    ensures
        b == is_decorator(line@),
{
    let t = crate::pysource::trim_start_chars(line);
    let at_sign: Vec<char> = vec!['@'];
    assert(at_sign@ =~= seq!['@']);
    crate::text::starts_with(&t, &at_sign)
}

fn object_range(line: &[char], obj: &[char], ln: u32) -> (r: Option<Range>)
    ensures
        r == obj_range_in(line@, obj@, ln),
{
    let ghost p = |c: char| c == '@';
    let mut i: usize = 0;
    while i < line.len()
        invariant
            i <= line@.len(),
            p == (|c: char| c == '@'),
            forall|j: int| 0 <= j < i ==> !p(#[trigger] line@[j]),
        ensures
            i <= line@.len(),
            forall|j: int| 0 <= j < i ==> !p(#[trigger] line@[j]),
            i < line@.len() ==> p(line@[i as int]),
        decreases line@.len() - i,
    {
        if line[i] == '@' {
            break;
        }
        i += 1;
    }
    if i == line.len() {
        proof {
            lemma_first_match_none(line@, p);
        }
        return None;
    }
    proof {
        lemma_first_match_step(line@, p, i as int);
    }
    let after = crate::text::slice_chars(line, i + 1, line.len());
    assert(after@ =~= line@.skip(i + 1));
    if !crate::text::starts_with(after.as_slice(), obj) {
        return None;
    }
    let rest = crate::text::slice_chars(after.as_slice(), obj.len(), after.len());
    assert(rest@ =~= after@.skip(obj@.len() as int));
    let dot: Vec<char> = vec!['.'];
    assert(dot@ =~= seq!['.']);
    if !crate::text::starts_with(rest.as_slice(), dot.as_slice()) {
        return None;
    }
    let a = chars_bytes(line, i) + 1;
    let ob = chars_bytes(obj, obj.len());
    assert(obj@.take(obj@.len() as int) =~= obj@);
    let e = a + ob;
    Some(Range { start: Position { line: ln, character: a as u32 }, end: Position { line: ln, character: e as u32 } })
}

fn edits_of_route(r: &RouteRecord, prefix: &Vec<char>, lines: &Vec<Vec<char>>, obj: &Vec<char>, rn: &Vec<char>) -> (res: Option<Vec<TextEdit>>)
    ensures
        match res {
            Some(es) => route_edits(*r, prefix@, views(lines@), obj@, rn@) == Some(edits_view(es@)),
            None => route_edits(*r, prefix@, views(lines@), obj@, rn@) is None,
        },
{
    let ghost ls = views(lines@);
    let pr = match r.path_range {
        Some(x) => x,
        None => {
            return None;
        },
    };
    let pc: Vec<char> = match &r.resolved_path {
        ResolvedPath::Resolved(p) => str_chars(p.as_str()),
        ResolvedPath::Unresolved => Vec::new(),
    };
    assert(pc@ == path_of(*r));
    let pb = chars_bytes(prefix.as_slice(), prefix.len());
    assert(prefix@.take(prefix@.len() as int) =~= prefix@);
    let stripped: Vec<char> = match suffix_from_byte(pc.as_slice(), pb) {
        Some(x) => x,
        None => Vec::new(),
    };
    let pl = pr.start.line as usize;
    let dl_opt: Option<usize> = if pl < lines.len() && line_decorator(lines[pl].as_slice()) {
        Some(pl)
    } else {
        crate::actions::decorator_line_before(lines, pl)
    };
    assert(pl < lines@.len() ==> ls[pl as int] == lines@[pl as int]@);
    let dl = match dl_opt {
        Some(d) => d,
        None => {
            return None;
        },
    };
    if dl >= lines.len() {
        return None;
    }
    assert(ls[dl as int] == lines@[dl as int]@);
    let orng = match object_range(lines[dl].as_slice(), obj.as_slice(), dl as u32) {
        Some(o) => o,
        None => {
            return None;
        },
    };
    let mut quoted: Vec<char> = vec!['"'];
    push_all(&mut quoted, stripped.as_slice());
    quoted.push('"');
    assert(quoted@ =~= "\""@ + stripped@ + "\""@) by {
        reveal_strlit("\"");
    }
    let e1 = TextEdit { range: pr, new_text: string_from_chars(quoted.as_slice()) };
    let e2 = TextEdit { range: orng, new_text: string_from_chars(rn.as_slice()) };
    let out = vec![e1, e2];
    assert(edits_view(out@) =~= seq![(pr, "\""@ + stripped@ + "\""@), (orng, rn@)]);
    Some(out)
}

fn candidate_list<'a>(all: &Vec<&'a RouteRecord>, uri: &String, routes: &[FileRoute], targets: &[String]) -> (r: Vec<&'a RouteRecord>)
    ensures
        derefs(r@) == candidates(derefs(all@), uri@, routes@, string_views(targets@)),
{
    let ghost recs = derefs(all@);
    let ghost tv = string_views(targets@);
    let mut out: Vec<&'a RouteRecord> = Vec::new();
    let mut i: usize = 0;
    while i < all.len()
        invariant
            i <= all@.len(),
            recs == derefs(all@),
            tv == string_views(targets@),
            derefs(out@) == candidates(recs.take(i as int), uri@, routes@, tv),
        decreases all@.len() - i,
    {
        let rec: &RouteRecord = all[i];
        assert(recs[i as int] == *rec);
        assert(recs.take(i + 1).drop_last() =~= recs.take(i as int));
        assert(recs.take(i + 1).last() == *rec);
        let ghost before = derefs(out@);
        if is_candidate(rec, uri, routes, targets) {
            out.push(rec);
        }
        assert(derefs(out@) =~= before + if candidate(*rec, uri@, routes@, tv) { seq![*rec] } else { Seq::empty() });
        i += 1;
    }
    assert(recs.take(all@.len() as int) =~= recs);
    out
}

fn cursor_index(cs: &Vec<&RouteRecord>, range: Range) -> (r: Option<usize>)
    ensures
        match r {
            Some(k) => first_match(derefs(cs@), |x: RouteRecord| at_handler(x, range)) == Some(k as int),
            None => first_match(derefs(cs@), |x: RouteRecord| at_handler(x, range)) is None,
        },
{
    let ghost recs = derefs(cs@);
    let ghost p = |x: RouteRecord| at_handler(x, range);
    let mut i: usize = 0;
    while i < cs.len()
        invariant
            i <= cs@.len(),
            recs == derefs(cs@),
            p == (|x: RouteRecord| at_handler(x, range)),
            forall|j: int| 0 <= j < i ==> !p(#[trigger] recs[j]),
        decreases cs@.len() - i,
    {
        proof {
            lemma_first_match_step(recs, p, i as int);
        }
        assert(recs[i as int] == *cs@[i as int]);
        if crate::actions::touching(range, cs[i].handler.range.start, cs[i].handler.range.end) {
            return Some(i);
        }
        i += 1;
    }
    proof {
        lemma_first_match_none(recs, p);
    }
    None
}

fn same_obj_list<'a>(cs: &Vec<&'a RouteRecord>, routes: &[FileRoute], o: &String) -> (r: Vec<&'a RouteRecord>)
    ensures
        derefs(r@) == same_obj(derefs(cs@), routes@, o@),
{
    let ghost recs = derefs(cs@);
    let mut out: Vec<&'a RouteRecord> = Vec::new();
    let mut i: usize = 0;
    while i < cs.len()
        invariant
            i <= cs@.len(),
            recs == derefs(cs@),
            derefs(out@) == same_obj(recs.take(i as int), routes@, o@),
        decreases cs@.len() - i,
    {
        let rec: &RouteRecord = cs[i];
        assert(recs[i as int] == *rec);
        assert(recs.take(i + 1).drop_last() =~= recs.take(i as int));
        assert(recs.take(i + 1).last() == *rec);
        let ghost before = derefs(out@);
        let nm = str_chars(rec.name.as_str());
        let hit = match obj_lookup(routes, nm.as_slice()) {
            Some(x) => *x == *o,
            None => false,
        };
        if hit {
            out.push(rec);
        }
        assert(derefs(out@) =~= before + if obj_of(routes@, rec.name@) == Some(o@) { seq![*rec] } else { Seq::empty() });
        i += 1;
    }
    assert(recs.take(cs@.len() as int) =~= recs);
    out
}

fn record_path(r: &RouteRecord) -> (p: Vec<char>)
    ensures
        p@ == path_of(*r),
{
    match &r.resolved_path {
        ResolvedPath::Resolved(p) => str_chars(p.as_str()),
        ResolvedPath::Unresolved => Vec::new(),
    }
}

fn is_under(p: &[char], prefix: &[char]) -> (b: bool)
    ensures
        b == under(p@, prefix@),
{
    if crate::text::chars_eq(p, prefix) {
        return true;
    }
    let pb = chars_bytes(prefix, prefix.len());
    assert(prefix@.take(prefix@.len() as int) =~= prefix@);
    match suffix_from_byte(p, pb) {
        Some(rest) => {
            let slash: Vec<char> = vec!['/'];
            assert(slash@ =~= seq!['/']);
            crate::text::starts_with(rest.as_slice(), slash.as_slice())
        },
        None => false,
    }
}

fn group_list<'a>(so: &Vec<&'a RouteRecord>, prefix: &[char]) -> (r: Vec<&'a RouteRecord>)
    ensures
        derefs(r@) == group_of(derefs(so@), prefix@),
{
    let ghost recs = derefs(so@);
    let mut out: Vec<&'a RouteRecord> = Vec::new();
    let mut i: usize = 0;
    while i < so.len()
        invariant
            i <= so@.len(),
            recs == derefs(so@),
            derefs(out@) == group_of(recs.take(i as int), prefix@),
        decreases so@.len() - i,
    {
        let rec: &RouteRecord = so[i];
        assert(recs[i as int] == *rec);
        assert(recs.take(i + 1).drop_last() =~= recs.take(i as int));
        assert(recs.take(i + 1).last() == *rec);
        let ghost before = derefs(out@);
        let pc = record_path(rec);
        if is_under(pc.as_slice(), prefix) {
            out.push(rec);
        }
        assert(derefs(out@) =~= before + if under(path_of(*rec), prefix@) { seq![*rec] } else { Seq::empty() });
        i += 1;
    }
    assert(recs.take(so@.len() as int) =~= recs);
    out
}

fn path_strs<'a>(so: &Vec<&'a RouteRecord>) -> (r: Vec<&'a str>)
    ensures
        r@.map_values(|p: &str| p@) == paths_of(derefs(so@)),
{
    let mut out: Vec<&'a str> = Vec::new();
    let mut i: usize = 0;
    while i < so.len()
        invariant
            i <= so@.len(),
            out@.len() == i,
            forall|j: int| 0 <= j < i ==> (#[trigger] out@[j])@ == path_of(*so@[j]),
        decreases so@.len() - i,
    {
        let rec: &'a RouteRecord = so[i];
        let p: &'a str = match &rec.resolved_path {
            ResolvedPath::Resolved(x) => x.as_str(),
            ResolvedPath::Unresolved => {
                proof {
                    reveal_strlit("");
                }
                ""
            },
        };
        assert(p@ == path_of(*rec));
        out.push(p);
        i += 1;
    }
    assert(out@.map_values(|p: &str| p@) =~= paths_of(derefs(so@)));
    out
}

fn last_literal_of(prefix: &[char]) -> (r: Vec<char>)
    ensures
        r@ == last_literal(split_on(prefix@, '/')),
{
    let parts = crate::text::split_chars(prefix, '/');
    let ghost segs = views(parts@);
    let mut i = parts.len();
    assert(segs.take(i as int) =~= segs);
    while i > 0
        invariant
            i <= parts@.len(),
            segs == views(parts@),
            segs == split_on(prefix@, '/'),
            segs.len() == parts@.len(),
            last_literal(segs) == last_literal(segs.take(i as int)),
        decreases i,
    {
        assert(segs.take(i as int).drop_last() =~= segs.take(i - 1));
        assert(segs.take(i as int).last() == parts@[i - 1]@);
        let seg = &parts[i - 1];
        assert(segs[i - 1] == seg@);
        if seg.len() > 0 && !crate::text::has_char(seg.as_slice(), '{') {
            let out = crate::text::slice_chars(seg.as_slice(), 0, seg.len());
            assert(out@ =~= seg@);
            assert(segs.take(i as int).last() == seg@);
            assert(segs.take(i as int).len() > 0);
            assert(last_literal(segs.take(i as int)) == seg@);
            return out;
        }
        i -= 1;
    }
    let r = str_chars("sub");
    r
}

fn router_name_of(prefix: &[char], routers: &[String]) -> (r: Vec<char>)
    ensures
        r@ == router_name(prefix@, string_views(routers@)),
{
    let plain = str_chars("router");
    if crate::text::contains_str(routers, "router") {
        let mut out = last_literal_of(prefix);
        let suffix = str_chars("_router");
        push_all(&mut out, suffix.as_slice());
        out
    } else {
        plain
    }
}

fn lowest_index(g: &Vec<&RouteRecord>) -> (k: usize)
    requires
        g@.len() >= 1,
    ensures
        k as int == first_lowest(derefs(g@)),
        k < g@.len(),
{
    let ghost recs = derefs(g@);
    let mut p: usize = 0;
    let mut i: usize = 1;
    assert(recs.take(1).len() == 1);
    while i < g.len()
        invariant
            1 <= i <= g@.len(),
            recs == derefs(g@),
            p < i,
            p as int == first_lowest(recs.take(i as int)),
        decreases g@.len() - i,
    {
        let ghost t = recs.take(i + 1);
        assert(t.drop_last() =~= recs.take(i as int));
        assert(t.last() == *g@[i as int]);
        assert(t[p as int] == *g@[p as int]);
        if g[i].handler.range.start.line < g[p].handler.range.start.line {
            p = i;
        }
        i += 1;
    }
    assert(recs.take(g@.len() as int) =~= recs);
    p
}

proof fn lemma_insert_by_line(s: Seq<RouteRecord>, x: RouteRecord, k: int)
    requires
        0 <= k <= s.len(),
        k == 0 || s[k - 1].handler.range.start.line >= x.handler.range.start.line,
        forall|j: int| k <= j < s.len() ==> (#[trigger] s[j]).handler.range.start.line < x.handler.range.start.line,
    ensures
        insert_by_line(s, x) == s.take(k).push(x) + s.skip(k),
    decreases s.len() - k,
{
    if s.len() == k {
        assert(s.take(k) =~= s);
        assert(s.skip(k) =~= Seq::<RouteRecord>::empty());
        assert(s.take(k).push(x) + s.skip(k) =~= s.push(x));
    } else {
        let d = s.drop_last();
        assert(forall|j: int| k <= j < d.len() ==> d[j] == s[j]);
        lemma_insert_by_line(d, x, k);
        assert(d.take(k) =~= s.take(k));
        assert((d.take(k).push(x) + d.skip(k)).push(s.last()) =~= s.take(k).push(x) + s.skip(k));
    }
}

fn sort_bottom_up<'a>(g: &Vec<&'a RouteRecord>) -> (r: Vec<&'a RouteRecord>)
    ensures
        derefs(r@) == bottom_up_records(derefs(g@)),
{
    let ghost recs = derefs(g@);
    let mut out: Vec<&'a RouteRecord> = Vec::new();
    let mut i: usize = 0;
    while i < g.len()
        invariant
            i <= g@.len(),
            recs == derefs(g@),
            derefs(out@) == bottom_up_records(recs.take(i as int)),
        decreases g@.len() - i,
    {
        let x: &'a RouteRecord = g[i];
        assert(recs.take(i + 1).drop_last() =~= recs.take(i as int));
        assert(recs.take(i + 1).last() == *x);
        let ghost cur = derefs(out@);
        let mut k = out.len();
        while k > 0 && out[k - 1].handler.range.start.line < x.handler.range.start.line
            invariant
                k <= out@.len(),
                cur == derefs(out@),
                forall|j: int| k <= j < out@.len() ==> (#[trigger] cur[j]).handler.range.start.line < x.handler.range.start.line,
            decreases k,
        {
            k -= 1;
        }
        proof {
            lemma_insert_by_line(cur, *x, k as int);
        }
        out.insert(k, x);
        assert(derefs(out@) =~= cur.take(k as int).push(*x) + cur.skip(k as int));
        i += 1;
    }
    assert(recs.take(g@.len() as int) =~= recs);
    out
}

fn range_seen(seen: &Vec<Range>, pr: Range) -> (b: bool)
    ensures
        b == seen@.contains(pr),
{
    let mut i: usize = 0;
    while i < seen.len()
        invariant
            i <= seen@.len(),
            forall|j: int| 0 <= j < i ==> seen@[j] != pr,
        decreases seen@.len() - i,
    {
        if seen[i] == pr {
            assert(seen@[i as int] == pr);
            return true;
        }
        i += 1;
    }
    false
}

proof fn lemma_group_edits_none(s: Seq<RouteRecord>, prefix: Seq<char>, ls: Seq<Seq<char>>, obj: Seq<char>, rn: Seq<char>, k: int)
    requires
        0 <= k <= s.len(),
        group_edits(s.take(k), prefix, ls, obj, rn) is None,
    ensures
        group_edits(s, prefix, ls, obj, rn) is None,
    decreases s.len() - k,
{
    if k < s.len() {
        assert(s.take(k + 1).drop_last() =~= s.take(k));
        lemma_group_edits_none(s, prefix, ls, obj, rn, k + 1);
    } else {
        assert(s.take(k) =~= s);
    }
}

fn edits_of_group(s: &Vec<&RouteRecord>, prefix: &Vec<char>, lines: &Vec<Vec<char>>, obj: &Vec<char>, rn: &Vec<char>) -> (res: Option<Vec<TextEdit>>)
    ensures
        match res {
            Some(es) => group_edits(derefs(s@), prefix@, views(lines@), obj@, rn@) matches Some((x, _)) && x == edits_view(es@),
            None => group_edits(derefs(s@), prefix@, views(lines@), obj@, rn@) is None,
        },
{
    let ghost recs = derefs(s@);
    let ghost ls = views(lines@);
    let mut es: Vec<TextEdit> = Vec::new();
    let mut seen: Vec<Range> = Vec::new();
    let mut i: usize = 0;
    while i < s.len()
        invariant
            i <= s@.len(),
            recs == derefs(s@),
            ls == views(lines@),
            group_edits(recs.take(i as int), prefix@, ls, obj@, rn@) == Some((edits_view(es@), seen@)),
        decreases s@.len() - i,
    {
        let rec: &RouteRecord = s[i];
        assert(recs.take(i + 1).drop_last() =~= recs.take(i as int));
        assert(recs.take(i + 1).last() == *rec);
        let pr = match rec.path_range {
            Some(x) => x,
            None => {
                assert(group_edits(recs.take(i + 1), prefix@, ls, obj@, rn@) is None);
                proof {
                    lemma_group_edits_none(recs, prefix@, ls, obj@, rn@, i + 1);
                }
                return None;
            },
        };
        if !range_seen(&seen, pr) {
            match edits_of_route(rec, prefix, lines, obj, rn) {
                Some(two) => {
                    let ghost old_raw = es@;
                    let mut two = two;
                    let ghost tw = two@;
                    es.append(&mut two);
                    assert(es@ =~= old_raw + tw);
                    assert(edits_view(es@) =~= edits_view(old_raw) + edits_view(tw));
                    seen.push(pr);
                },
                None => {
                                        assert(group_edits(recs.take(i + 1), prefix@, ls, obj@, rn@) is None);
                    assert(group_edits(recs, prefix@, ls, obj@, rn@) is None) by {
                        lemma_group_edits_none(recs, prefix@, ls, obj@, rn@, i + 1);
                    }
                    return None;
                },
            }
        }
        i += 1;
    }
    assert(recs.take(s@.len() as int) =~= recs);
    Some(es)
}

pub(crate) fn char_lines(lines: &Vec<String>) -> (r: Vec<Vec<char>>)
    ensures
        views(r@) == string_views(lines@),
{
    let mut out: Vec<Vec<char>> = Vec::new();
    let mut i: usize = 0;
    while i < lines.len()
        invariant
            i <= lines@.len(),
            views(out@) == string_views(lines@.take(i as int)),
        decreases lines@.len() - i,
    {
        let cs = str_chars(lines[i].as_str());
        out.push(cs);
        assert(string_views(lines@.take(i + 1)) =~= string_views(lines@.take(i as int)).push(lines@[i as int]@));
        assert(views(out@) =~= string_views(lines@.take(i + 1)));
        i += 1;
    }
    assert(lines@.take(lines@.len() as int) =~= lines@);
    out
}

fn push_text(out: &mut Vec<char>, s: &str)
    ensures
        final(out)@ == old(out)@ + s@,
{
    let cs = str_chars(s);
    push_all(out, cs.as_slice());
}

/// The "Extract router with prefix" action for the cursor `range` in file `uri` (see
/// `extract_router_spec`): `routes` are the route decorators of the file, `targets` the
/// `include_router` targets of the workspace, `routers` the routers and `imported` the
/// names the file declares and imports, `lines` its source lines.
pub fn extract_router_action(
    route_index: &RouteIndex,
    uri: &String,
    range: Range,
    routes: &Vec<FileRoute>,
    targets: &Vec<String>,
    routers: &Vec<String>,
    imported: &Vec<String>,
    lines: &Vec<String>,
) -> (r: Option<CodeAction>)
    ensures
        match r {
            Some(a) => extract_router_spec(uri@, index_records(route_index@), routes@, string_views(targets@), string_views(routers@), string_views(imported@), string_views(lines@), range) == Some(action_view(a)),
            None => extract_router_spec(uri@, index_records(route_index@), routes@, string_views(targets@), string_views(routers@), string_views(imported@), string_views(lines@), range) is None,
        },
{
    let cl = char_lines(lines);
    let all = all_refs(route_index);
    let cs = candidate_list(&all, uri, routes.as_slice(), targets.as_slice());
    if cs.len() < 2 {
        return None;
    }
    let ci = match cursor_index(&cs, range) {
        Some(k) => k,
        None => {
            return None;
        },
    };
    proof {
        lemma_first_match_bound(derefs(cs@), |x: RouteRecord| at_handler(x, range));
    }
    assert(derefs(cs@)[ci as int] == *cs@[ci as int]);
    let cname = str_chars(cs[ci].name.as_str());
    let co: &String = match obj_lookup(routes.as_slice(), cname.as_slice()) {
        Some(o) => o,
        None => {
            return None;
        },
    };
    let co_chars = str_chars(co.as_str());
    let so = same_obj_list(&cs, routes.as_slice(), co);
    let paths = path_strs(&so);
    let prefix_s = crate::joining::longest_common_literal_path_prefix(paths.as_slice());
    let prefix = str_chars(prefix_s.as_str());
    if so.len() < 2 || prefix.len() == 0 {
        return None;
    }
    let g = group_list(&so, prefix.as_slice());
    let rn = router_name_of(prefix.as_slice(), routers.as_slice());
    if g.len() < 2 {
        return None;
    }
    let lo = lowest_index(&g);
    assert(derefs(g@)[lo as int] == *g@[lo as int]);
    let hl = g[lo].handler.range.start.line;
    let fd = match crate::actions::decorator_line_before(&cl, hl as usize) {
        Some(d) => d,
        None => {
            return None;
        },
    };
    let sorted = sort_bottom_up(&g);
    let pe = match edits_of_group(&sorted, &prefix, &cl, &co_chars, &rn) {
        Some(x) => x,
        None => {
            return None;
        },
    };
    let mut t1: Vec<char> = Vec::new();
    push_text(&mut t1, "\n");
    push_all(&mut t1, co_chars.as_slice());
    push_text(&mut t1, ".include_router(");
    push_all(&mut t1, rn.as_slice());
    push_text(&mut t1, ")\n");
    let has_import = crate::text::contains_str(imported.as_slice(), "APIRouter") || crate::text::contains_str(imported.as_slice(), "*");
    let mut t2: Vec<char> = Vec::new();
    if !has_import {
        push_text(&mut t2, "from fastapi import APIRouter\n");
    }
    assert(t2@ == (if string_views(imported@).contains("APIRouter"@) || string_views(imported@).contains("*"@) {
        Seq::<char>::empty()
    } else {
        "from fastapi import APIRouter\n"@
    }));
    push_all(&mut t2, rn.as_slice());
    push_text(&mut t2, " = APIRouter(prefix=\"");
    push_all(&mut t2, prefix.as_slice());
    push_text(&mut t2, "\")\n\n");
    let mut edits: Vec<TextEdit> = Vec::new();
    edits.push(TextEdit { range: crate::actions::at_pos(APPEND_LINE, 0), new_text: string_from_chars(t1.as_slice()) });
    let ghost e0 = edits@;
    let mut pe = pe;
    let ghost pv = pe@;
    edits.append(&mut pe);
    assert(edits@ =~= e0 + pv);
    edits.push(TextEdit { range: crate::actions::at_pos(fd as u32, 0), new_text: string_from_chars(t2.as_slice()) });
    let ghost ev = edits_view(edits@);
    let mut changes: Vec<DocChange> = Vec::new();
    changes.push(DocChange::Edit { uri: uri.clone(), edits });
    let a = CodeAction {
        title: crate::actions::cat3("Extract router with prefix `", prefix_s.as_str(), "`"),
        kind: ActionKind::RefactorExtract,
        diagnostic: None,
        changes,
        command: None,
        is_preferred: false,
    };
    proof {
        let recs = index_records(route_index@);
        let gs = derefs(g@);
        assert(gs[first_lowest(gs)].handler.range.start.line == hl);
        assert(ev =~= seq![(at(APPEND_LINE, 0), t1@)] + edits_view(pv) + seq![(at(fd as u32, 0), t2@)]);
        assert(changes_view(changes@) =~= one_doc(uri@, ev));
    }
    Some(a)
}

/// Law: moving a route under a router with prefix `P` keeps its URL. When the path starts
/// with `P`, the path the route keeps (the text after `P`'s bytes) exists, and `P`
/// followed by it is the path again; the route is under `P` exactly when that rest is
/// empty or starts with `/`.
pub proof fn extracted_route_keeps_its_url(p: Seq<char>, prefix: Seq<char>)
    requires
        is_prefix(prefix, p),
    ensures
        byte_suffix(p, blen(prefix) as int) == Some(p.skip(prefix.len() as int)),
        prefix + p.skip(prefix.len() as int) == p,
        under(p, prefix) <==> (p.skip(prefix.len() as int).len() == 0 || p.skip(prefix.len() as int)[0] == '/'),
{
    let n = prefix.len() as int;
    assert(p.take(n) =~= prefix);
    assert(0 <= n <= p.len() && blen(p.take(n)) == blen(prefix));
    let c = choose|x: int| 0 <= x <= p.len() && blen(p.take(x)) == blen(prefix);
    if c < n {
        lemma_blen_strict(p, c, n);
    } else if n < c {
        lemma_blen_strict(p, n, c);
    }
    assert(prefix + p.skip(n) =~= p);
    let rest = p.skip(n);
    if rest.len() == 0 {
        assert(p =~= prefix);
    } else {
        assert(is_prefix(seq!['/'], rest) <==> rest[0] == '/') by {
            if rest[0] == '/' {
                assert(rest.take(1) =~= seq!['/']);
            }
            if is_prefix(seq!['/'], rest) {
                assert(rest.take(1)[0] == seq!['/'][0]);
            }
        }
        assert(p != prefix) by {
            assert(p.len() > prefix.len());
        }
    }
}

} // verus!
