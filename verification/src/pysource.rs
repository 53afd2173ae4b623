//! Line-level edits of Python source: where imports go, decorator lines, handler blocks.
use vstd::prelude::*;
use crate::text::string_views;
use crate::text::{str_chars, split_chars, split_on, lemma_split_on_nonempty, views, is_prefix, contains_seq,
    starts_with, contains_chars, string_from_chars, push_all, is_suffix};
use crate::position::{Position, Range};
use vstd::string::StringSliceAdditionalSpecFns;
use crate::routing::RouteRecord;

verus! {

broadcast use vstd::string::group_string_axioms;

/// Unicode white space (`char::is_whitespace`: the White_Space property).
pub open spec fn is_ws(c: char) -> bool {
    let v = c as u32;
    (0x9 <= v && v <= 0xD) || v == 0x20 || v == 0x85 || v == 0xA0 || v == 0x1680 || (0x2000 <= v && v
        <= 0x200A) || v == 0x2028 || v == 0x2029 || v == 0x202F || v == 0x205F || v == 0x3000
}

pub(crate) fn char_is_ws(c: char) -> (r: bool)
    ensures
        r == is_ws(c),
{
    let v = c as u32;
    (0x9 <= v && v <= 0xD) || v == 0x20 || v == 0x85 || v == 0xA0 || v == 0x1680 || (0x2000 <= v && v
        <= 0x200A) || v == 0x2028 || v == 0x2029 || v == 0x202F || v == 0x205F || v == 0x3000
}

/// `s` without leading white space.
pub open spec fn trim_start(s: Seq<char>) -> Seq<char>
    decreases s.len(),
{
    if s.len() > 0 && is_ws(s[0]) {
        trim_start(s.drop_first())
    } else {
        s
    }
}

/// `s` without trailing white space.
pub open spec fn trim_end(s: Seq<char>) -> Seq<char>
    decreases s.len(),
{
    if s.len() > 0 && is_ws(s.last()) {
        trim_end(s.drop_last())
    } else {
        s
    }
}

/// `s` without leading and trailing white space (`str::trim`).
pub open spec fn trim(s: Seq<char>) -> Seq<char> {
    trim_end(trim_start(s))
}

/// `str::trim_start`.
pub fn trim_start_chars(s: &[char]) -> (r: Vec<char>)
    ensures
        r@ == trim_start(s@),
{
    let mut i: usize = 0;
    assert(s@.skip(0) =~= s@);
    while i < s.len() && char_is_ws(s[i])
        invariant
            i <= s@.len(),
            trim_start(s@) == trim_start(s@.skip(i as int)),
        decreases s@.len() - i,
    {
        assert(s@.skip(i as int).drop_first() =~= s@.skip(i + 1));
        i += 1;
    }
    let r = crate::text::slice_chars(s, i, s.len());
    assert(r@ =~= s@.skip(i as int));
    r
}

/// `str::trim`.
pub fn trim_chars(s: &[char]) -> (r: Vec<char>)
    ensures
        r@ == trim(s@),
{
    let t = trim_start_chars(s);
    let mut n = t.len();
    assert(t@.take(n as int) =~= t@);
    while n > 0 && char_is_ws(t[n - 1])
        invariant
            n <= t@.len(),
            trim_end(t@) == trim_end(t@.take(n as int)),
        decreases n,
    {
        assert(t@.take(n as int).drop_last() =~= t@.take(n - 1));
        n -= 1;
    }
    crate::text::slice_chars(&t, 0, n)
}

/// The lines of `s` (`str::lines`): pieces between `\n`, without a last empty piece, and
/// with one `\r` removed from the end of each piece that a `\n` ended.
pub open spec fn lines_of(s: Seq<char>) -> Seq<Seq<char>> {
    let pieces = split_on(s, '\n');
    let body = if pieces.last().len() == 0 {
        pieces.drop_last()
    } else {
        pieces
    };
    body.map(
        |k: int, l: Seq<char>|
            if k < pieces.len() - 1 && l.len() > 0 && l.last() == '\r' {
                l.drop_last()
            } else {
                l
            },
    )
}

/// Splits text into lines (see `lines_of`).
pub fn lines_chars(s: &str) -> (r: Vec<Vec<char>>)
    ensures
        views(r@) == lines_of(s@),
{
    let cs = str_chars(s);
    let pieces = split_chars(&cs, '\n');
    proof {
        lemma_split_on_nonempty(s@, '\n');
    }
    let ghost ps = views(pieces@);
    let np = pieces.len();
    let n = if pieces[np - 1].len() == 0 { np - 1 } else { np };
    let ghost body = if ps.last().len() == 0 { ps.drop_last() } else { ps };
    assert(body.len() == n);
    let mut out: Vec<Vec<char>> = Vec::new();
    let mut k: usize = 0;
    while k < n
        invariant
            k <= n <= np,
            np == pieces@.len(),
            ps == views(pieces@),
            body.len() == n,
            forall|j: int| 0 <= j < n ==> body[j] == ps[j],
            views(out@) == lines_of(s@).take(k as int),
            ps == split_on(s@, '\n'),
            body == (if ps.last().len() == 0 { ps.drop_last() } else { ps }),
        decreases n - k,
    {
        let p = &pieces[k];
        let line: Vec<char> = if k + 1 < np && p.len() > 0 && p[p.len() - 1] == '\r' {
            crate::text::slice_chars(p.as_slice(), 0, p.len() - 1)
        } else {
            crate::text::slice_chars(p.as_slice(), 0, p.len())
        };
        let ghost before = out@;
        out.push(line);
        proof {
            assert(lines_of(s@)[k as int] == line@);
            assert(views(out@) =~= views(before).push(line@));
            assert(lines_of(s@).take(k + 1) =~= lines_of(s@).take(k as int).push(line@));
        }
        k += 1;
    }
    assert(lines_of(s@).take(n as int) =~= lines_of(s@));
    out
}

/// A line that is blank or a comment once trimmed.
pub open spec fn blank_or_comment(line: Seq<char>) -> bool {
    trim(line).len() == 0 || is_prefix(seq!['#'], trim(line))
}

/// The first line at or after `i` that is neither blank nor a comment (`lines.len()` if none).
pub open spec fn skip_blank(lines: Seq<Seq<char>>, i: int) -> int
    decreases lines.len() - i,
{
    if 0 <= i < lines.len() && blank_or_comment(lines[i]) {
        skip_blank(lines, i + 1)
    } else {
        i
    }
}

/// `"""`.
pub open spec fn dq3() -> Seq<char> {
    seq!['"', '"', '"']
}

/// `'''`.
pub open spec fn sq3() -> Seq<char> {
    seq!['\'', '\'', '\'']
}

/// The triple quote that opens a (possibly `r`- or `u`-prefixed) string at the start of
/// `t`, if one does.
pub open spec fn docstring_delim(t: Seq<char>) -> Option<Seq<char>> {
    if is_prefix(dq3(), t) || is_prefix(seq!['r'] + dq3(), t) || is_prefix(seq!['u'] + dq3(), t) {
        Some(dq3())
    } else if is_prefix(sq3(), t) || is_prefix(seq!['r'] + sq3(), t) || is_prefix(seq!['u'] + sq3(), t) {
        Some(sq3())
    } else {
        None
    }
}

/// The first line after `i` that contains `delim`, plus one (`lines.len()` if none).
pub open spec fn past_closing(lines: Seq<Seq<char>>, i: int, delim: Seq<char>) -> int
    decreases lines.len() - i,
{
    if i >= lines.len() {
        lines.len() as int
    } else if contains_seq(lines[i], delim) {
        i + 1
    } else {
        past_closing(lines, i + 1, delim)
    }
}

/// Where the text after the opening triple quote of `t` starts.
pub open spec fn after_open(t: Seq<char>, delim: Seq<char>) -> Seq<char> {
    t.skip(if t[0] == delim[0] { 3int } else { 4int })
}

/// The first line after a module docstring that starts at line `i` (or `i` itself when
/// line `i` opens none): the docstring ends on the line that holds its closing quotes.
pub open spec fn skip_docstring(lines: Seq<Seq<char>>, i: int) -> int {
    if 0 <= i < lines.len() {
        match docstring_delim(trim(lines[i])) {
            Some(d) => if contains_seq(after_open(trim(lines[i]), d), d) {
                i + 1
            } else {
                past_closing(lines, i + 1, d)
            },
            None => i,
        }
    } else {
        i
    }
}

/// `from __future__ import`.
pub open spec fn future_import() -> Seq<char> {
    "from __future__ import"@
}

/// The first line at or after `i` that is not blank, a comment, or a `__future__` import.
pub open spec fn skip_future(lines: Seq<Seq<char>>, i: int) -> int
    decreases lines.len() - i,
{
    if 0 <= i < lines.len() && (blank_or_comment(lines[i]) || is_prefix(future_import(), trim(lines[i]))) {
        skip_future(lines, i + 1)
    } else {
        i
    }
}

/// The line before which a new import can go: after leading blank and comment lines, the
/// module docstring, and the `__future__` imports.
pub open spec fn import_line_of(source: Seq<char>) -> int {
    let lines = lines_of(source);
    skip_future(lines, skip_docstring(lines, skip_blank(lines, 0)))
}

fn is_blank_or_comment(line: &[char]) -> (r: bool)
    ensures
        r == blank_or_comment(line@),
{
    let t = trim_chars(line);
    let hash: Vec<char> = vec!['#'];
    assert(hash@ =~= seq!['#']);
    t.len() == 0 || starts_with(&t, &hash)
}

fn is_future_skippable(line: &[char]) -> (r: bool)
    ensures
        r == (blank_or_comment(line@) || is_prefix(future_import(), trim(line@))),
{
    let t = trim_chars(line);
    let hash: Vec<char> = vec!['#'];
    assert(hash@ =~= seq!['#']);
    let fut = str_chars("from __future__ import");
    assert(fut@ == future_import());
    t.len() == 0 || starts_with(&t, &hash) || starts_with(&t, &fut)
}

/// Returns the index of the line before which a new `import` statement can go (see
/// `import_line_of`).
pub fn import_insert_line(source: &str) -> (r: u32)
    ensures
        r == import_line_of(source@) as u32,
{
    let lines = lines_chars(source);
    let ghost ls = views(lines@);
    let n = lines.len();
    let mut i: usize = 0;
    assert(skip_blank(ls, 0) == skip_blank(ls, i as int));
    while i < n && is_blank_or_comment(lines[i].as_slice())
        invariant
            i <= n,
            n == lines@.len(),
            ls == views(lines@),
            skip_blank(ls, 0) == skip_blank(ls, i as int),
        decreases n - i,
    {
        i += 1;
    }
    assert(skip_blank(ls, 0) == i);
    if i < n {
        let t = trim_chars(lines[i].as_slice());
        let dq: Vec<char> = vec!['"', '"', '"'];
        let rdq: Vec<char> = vec!['r', '"', '"', '"'];
        let udq: Vec<char> = vec!['u', '"', '"', '"'];
        let sq: Vec<char> = vec!['\'', '\'', '\''];
        let rsq: Vec<char> = vec!['r', '\'', '\'', '\''];
        let usq: Vec<char> = vec!['u', '\'', '\'', '\''];
        assert(rdq@ == seq!['r'] + dq3());
        assert(udq@ == seq!['u'] + dq3());
        assert(rsq@ == seq!['r'] + sq3());
        assert(usq@ == seq!['u'] + sq3());
        let delim: Option<Vec<char>> = if starts_with(&t, &dq) || starts_with(&t, &rdq) || starts_with(&t, &udq) {
            Some(dq)
        } else if starts_with(&t, &sq) || starts_with(&t, &rsq) || starts_with(&t, &usq) {
            Some(sq)
        } else {
            None
        };
        match delim {
            Some(d) => {
                let skip: usize = if t[0] == d[0] { 3 } else { 4 };
                let rest = crate::text::slice_chars(&t, skip, t.len());
                assert(rest@ == after_open(t@, d@));
                if contains_chars(&rest, &d) {
                    i += 1;
                } else {
                    i += 1;
                    while i < n && !contains_chars(lines[i].as_slice(), &d)
                        invariant
                            i <= n,
                            n == lines@.len(),
                            ls == views(lines@),
                            past_closing(ls, skip_blank(ls, 0) + 1, d@) == past_closing(ls, i as int, d@),
                        decreases n - i,
                    {
                        i += 1;
                    }
                    if i < n {
                        i += 1;
                    }
                }
            },
            None => {},
        }
    }
    assert(skip_docstring(ls, skip_blank(ls, 0)) == i);
    while i < n && is_future_skippable(lines[i].as_slice())
        invariant
            i <= n,
            n == lines@.len(),
            ls == views(lines@),
            skip_future(ls, skip_docstring(ls, skip_blank(ls, 0))) == skip_future(ls, i as int),
        decreases n - i,
    {
        i += 1;
    }
    i as u32
}


/// The views of a list of lines.
pub open spec fn line_views(lines: Seq<&str>) -> Seq<Seq<char>> {
    lines.map_values(|l: &str| l@)
}

/// A line that starts a decorator or a comment once trimmed.
pub open spec fn decorator_or_comment(line: Seq<char>) -> bool {
    is_prefix(seq!['@'], trim(line)) || is_prefix(seq!['#'], trim(line))
}

/// The first line of the block that ends with the `def` at line `d`: the decorators and
/// comments directly above it are part of it.
pub open spec fn block_start(lines: Seq<Seq<char>>, d: int) -> int
    decreases d,
{
    if 0 < d <= lines.len() && decorator_or_comment(lines[d - 1]) {
        block_start(lines, d - 1)
    } else {
        d
    }
}

/// The handler block of `r` (from `block_start` to the range's end line) is a valid run of
/// lines: it starts at most one line past its end, when that end is a line of the text.
pub open spec fn block_fits(lines: Seq<Seq<char>>, r: Range) -> bool {
    r.end.line < lines.len() ==> block_start(lines, r.start.line as int) <= r.end.line + 1
}

/// The lines `from..=to` joined as they are.
pub open spec fn joined_lines(lines: Seq<Seq<char>>, from: int, to: int) -> Seq<char>
    decreases to + 1 - from,
{
    if to < from {
        Seq::empty()
    } else {
        joined_lines(lines, from, to - 1) + lines[to]
    }
}

/// The handler block (its decorators and comments, the `def` line, the body up to the end
/// of the handler's range) of a source split with its line terminators kept: its first
/// line, the position just after it, and its text. `None` when the range ends past the
/// last line.
pub fn extract_handler_block(lines: &[&str], handler_range: Range) -> (r: Option<(usize, Position, String)>)
    requires
        lines@.len() <= u32::MAX,
        block_fits(line_views(lines@), handler_range),
    ensures
        handler_range.end.line >= lines@.len() ==> r is None,
        handler_range.end.line < lines@.len() ==> (r matches Some((bs, end_pos, text)) && {
            let ls = line_views(lines@);
            let e = handler_range.end.line as int;
            &&& bs == block_start(ls, handler_range.start.line as int)
            &&& text@ == joined_lines(ls, bs as int, e)
            &&& end_pos == if e + 1 < lines@.len() {
                Position { line: (e + 1) as u32, character: 0 }
            } else {
                Position { line: e as u32, character: (lines@[e].spec_bytes().len() as usize) as u32 }
            }
        }),
{
    let def_line = handler_range.start.line as usize;
    let end_line = handler_range.end.line as usize;
    if end_line >= lines.len() {
        return None;
    }
    let ghost ls = line_views(lines@);
    let mut block_start_line = def_line;
    assert(block_start(ls, def_line as int) == block_start(ls, block_start_line as int));
    while block_start_line > 0 && is_decorator_or_comment(lines[block_start_line - 1])
        invariant
            block_start_line <= def_line <= lines@.len(),
            ls == line_views(lines@),
            block_start(ls, def_line as int) == block_start(ls, block_start_line as int),
        decreases block_start_line,
    {
        block_start_line -= 1;
    }
    let mut text: Vec<char> = Vec::new();
    let mut k: usize = block_start_line;
    assert(text@ =~= joined_lines(ls, block_start_line as int, block_start_line - 1));
    while k <= end_line
        invariant
            block_start_line <= k <= end_line + 1,
            end_line < lines@.len(),
            ls == line_views(lines@),
            text@ == joined_lines(ls, block_start_line as int, k - 1),
        decreases end_line + 1 - k,
    {
        let piece = str_chars(lines[k]);
        push_all(&mut text, piece.as_slice());
        k += 1;
    }
    let block_end = if end_line + 1 < lines.len() {
        Position { line: end_line as u32 + 1, character: 0 }
    } else {
        Position { line: end_line as u32, character: lines[end_line].len() as u32 }
    };
    let out = string_from_chars(text.as_slice());
    assert(block_start_line == block_start(ls, def_line as int));
    assert(out@ == joined_lines(ls, block_start_line as int, end_line as int));
    Some((block_start_line, block_end, out))
}

fn is_decorator_or_comment(line: &str) -> (r: bool)
    ensures
        r == decorator_or_comment(line@),
{
    let cs = str_chars(line);
    let t = trim_chars(cs.as_slice());
    let at: Vec<char> = vec!['@'];
    let hash: Vec<char> = vec!['#'];
    assert(at@ =~= seq!['@']);
    assert(hash@ =~= seq!['#']);
    starts_with(&t, &at) || starts_with(&t, &hash)
}

/// A line that starts a decorator once its indentation is removed.
pub open spec fn is_decorator(line: Seq<char>) -> bool {
    is_prefix(seq!['@'], trim_start(line))
}

/// The last decorator line before line `d`.
pub open spec fn decorator_before(lines: Seq<Seq<char>>, d: int) -> Option<int>
    decreases d,
{
    if d <= 0 {
        None
    } else if d - 1 < lines.len() && is_decorator(lines[d - 1]) {
        Some(d - 1)
    } else {
        decorator_before(lines, d - 1)
    }
}

fn line_is_decorator(line: &str) -> (r: bool)
    ensures
        r == is_decorator(line@),
{
    let cs = str_chars(line);
    let t = trim_start_chars(cs.as_slice());
    let at: Vec<char> = vec!['@'];
    assert(at@ =~= seq!['@']);
    starts_with(&t, &at)
}

fn last_decorator_before(lines: &[&str], d: usize) -> (r: Option<usize>)
    ensures
        match r {
            Some(i) => decorator_before(line_views(lines@), d as int) == Some(i as int),
            None => decorator_before(line_views(lines@), d as int) is None,
        },
{
    let ghost ls = line_views(lines@);
    let mut i = d;
    while i > 0
        invariant
            i <= d,
            ls == line_views(lines@),
            decorator_before(ls, d as int) == decorator_before(ls, i as int),
        decreases i,
    {
        if i - 1 < lines.len() && line_is_decorator(lines[i - 1]) {
            return Some(i - 1);
        }
        i -= 1;
    }
    None
}

/// The last decorator line (`@...` once indented) above the handler's `def` line.
pub fn find_decorator_line(lines: &[&str], record: &RouteRecord) -> (r: Option<usize>)
    ensures
        match r {
            Some(i) => decorator_before(line_views(lines@), record.handler.range.start.line as int) == Some(i as int),
            None => decorator_before(line_views(lines@), record.handler.range.start.line as int) is None,
        },
{
    last_decorator_before(lines, record.handler.range.start.line as usize)
}

/// The decorator line that holds a route's path string: the path's own line when it is a
/// decorator line, else the last decorator line above it.
pub fn find_decorator_line_for_path(lines: &[&str], path_range: Range) -> (r: Option<usize>)
    ensures
        ({
            let p = path_range.start.line as int;
            let ls = line_views(lines@);
            if p < ls.len() && is_decorator(ls[p]) {
                r == Some(p as usize)
            } else {
                match r {
                    Some(i) => decorator_before(ls, p) == Some(i as int),
                    None => decorator_before(ls, p) is None,
                }
            }
        }),
{
    let path_line = path_range.start.line as usize;
    if path_line < lines.len() && line_is_decorator(lines[path_line]) {
        return Some(path_line);
    }
    last_decorator_before(lines, path_line)
}


/// The lines of `s` with their terminators kept (`str::split_inclusive('\\n')`): every
/// piece before a `\\n` with it, then the rest when it is not empty.
pub open spec fn incl_lines(s: Seq<char>) -> Seq<Seq<char>> {
    let ps = split_on(s, '\n');
    let body = ps.drop_last().map_values(|p: Seq<char>| p.push('\n'));
    if ps.last().len() == 0 {
        body
    } else {
        body.push(ps.last())
    }
}

/// Splits text into lines, terminators kept (see `incl_lines`).
pub fn inclusive_lines(s: &str) -> (r: Vec<String>)
    ensures
        string_views(r@) == incl_lines(s@),
{
    let cs = str_chars(s);
    let pieces = split_chars(&cs, '\n');
    proof {
        lemma_split_on_nonempty(s@, '\n');
    }
    let ghost ps = views(pieces@);
    let n = pieces.len();
    let mut out: Vec<String> = Vec::new();
    let mut k: usize = 0;
    while k + 1 < n
        invariant
            k + 1 <= n,
            n == pieces@.len(),
            ps == views(pieces@),
            ps == split_on(s@, '\n'),
            string_views(out@) == ps.drop_last().take(k as int).map_values(|p: Seq<char>| p.push('\n')),
        decreases n - k,
    {
        let mut line = crate::text::slice_chars(pieces[k].as_slice(), 0, pieces[k].len());
        line.push('\n');
        let ghost before = string_views(out@);
        out.push(string_from_chars(line.as_slice()));
        proof {
            assert(ps[k as int] == pieces@[k as int]@);
            assert(line@ =~= ps[k as int].push('\n'));
            assert(string_views(out@) =~= before.push(line@));
            assert(ps.drop_last().take(k + 1) =~= ps.drop_last().take(k as int).push(ps[k as int]));
            assert(ps.drop_last().take(k + 1).map_values(|p: Seq<char>| p.push('\n')) =~= ps.drop_last().take(k as int).map_values(|p: Seq<char>| p.push('\n')).push(ps[k as int].push('\n')));
        }
        k += 1;
    }
    assert(ps.drop_last().take(k as int) =~= ps.drop_last());
    if pieces[n - 1].len() > 0 {
        let ghost before = string_views(out@);
        out.push(string_from_chars(pieces[n - 1].as_slice()));
        assert(ps[n - 1] == pieces@[n - 1]@);
        assert(string_views(out@) =~= before.push(ps.last()));
    }
    out
}

/// The lines as string slices.
pub fn str_refs<'a>(lines: &'a Vec<String>) -> (r: Vec<&'a str>)
    ensures
        line_views(r@) == string_views(lines@),
        r@.len() == lines@.len(),
{
    let mut out: Vec<&str> = Vec::new();
    let mut i: usize = 0;
    while i < lines.len()
        invariant
            i <= lines@.len(),
            line_views(out@) == string_views(lines@).take(i as int),
            out@.len() == i,
        decreases lines@.len() - i,
    {
        let ghost before = line_views(out@);
        out.push(lines[i].as_str());
        assert(line_views(out@) =~= before.push(lines@[i as int]@));
        assert(string_views(lines@).take(i + 1) =~= string_views(lines@).take(i as int).push(lines@[i as int]@));
        i += 1;
    }
    assert(string_views(lines@).take(lines@.len() as int) =~= string_views(lines@));
    out
}

} // verus!
