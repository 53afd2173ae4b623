//! Conversions between byte offsets in a document and LSP positions, in the position
//! encoding negotiated with the client (UTF-8 bytes or UTF-16 code units per line).
use vstd::prelude::*;
use vstd::utf8::{valid_utf8, decode_utf8, encode_utf8, is_char_boundary};
use vstd::string::StringSliceAdditionalSpecFns;
use crate::position::Position;
use crate::text::{str_chars, utf8_width, lemma_encode_utf8_push};

verus! {

broadcast use vstd::string::group_string_axioms;

/// The unit in which an LSP position counts characters within a line.
#[derive(Debug, Clone, Copy, PartialEq, Eq, Structural)]
pub enum Encoding {
    Utf8,
    Utf16,
}

impl Encoding {
    /// The encoding named by a client: `utf-8` selects bytes; anything else UTF-16.
    pub fn from_str(s: &str) -> (r: Encoding)
        ensures
            r == (if s@ == "utf-8"@ {
                Encoding::Utf8
            } else {
                Encoding::Utf16
            }),
    {
        let cs = str_chars(s);
        let name = str_chars("utf-8");
        if crate::text::chars_eq(cs.as_slice(), name.as_slice()) {
            Encoding::Utf8
        } else {
            Encoding::Utf16
        }
    }
}

/// Calls `std::str::from_utf8`, which succeeds exactly on valid UTF-8 and then views the
/// same bytes as text.
#[verifier::external_body]
fn utf8_text(bytes: &[u8]) -> (r: Option<&str>)
    ensures
        r is Some <==> valid_utf8(bytes@),
        r matches Some(s) ==> s.spec_bytes() == bytes@,
{
    std::str::from_utf8(bytes).ok()
}

/// Number of newline bytes in `s`.
pub open spec fn count_nl(s: Seq<u8>) -> nat
    decreases s.len(),
{
    if s.len() == 0 {
        0
    } else {
        count_nl(s.drop_last()) + if s.last() == 10u8 {
            1nat
        } else {
            0nat
        }
    }
}

/// Where the last line of `s` starts: just after its last newline, or 0.
pub open spec fn last_line_start(s: Seq<u8>) -> nat
    decreases s.len(),
{
    if s.len() == 0 {
        0
    } else if s.last() == 10u8 {
        s.len()
    } else {
        last_line_start(s.drop_last())
    }
}

/// UTF-16 code units of a character.
pub open spec fn u16_width(c: char) -> nat {
    if (c as u32) >= 0x10000 {
        2
    } else {
        1
    }
}

/// UTF-16 code units of a character sequence.
pub open spec fn utf16_len(cs: Seq<char>) -> nat
    decreases cs.len(),
{
    if cs.len() == 0 {
        0
    } else {
        utf16_len(cs.drop_last()) + u16_width(cs.last())
    }
}

/// UTF-16 code units of some bytes read as UTF-8 text (none when they are not UTF-8).
pub open spec fn utf16_units(bytes: Seq<u8>) -> nat {
    if valid_utf8(bytes) {
        utf16_len(decode_utf8(bytes))
    } else {
        0
    }
}

/// The position of byte `offset` (clamped to the end): the newlines before it give the
/// line; the bytes (UTF-8) or UTF-16 units (UTF-16) since the line start give the column.
pub open spec fn position_at(src: Seq<u8>, offset: int, enc: Encoding) -> (nat, nat) {
    let slice = src.take(if offset < src.len() { offset } else { src.len() as int });
    let after = slice.skip(last_line_start(slice) as int);
    (count_nl(slice), match enc {
        Encoding::Utf8 => after.len(),
        Encoding::Utf16 => utf16_units(after),
    })
}

pub proof fn lemma_count_nl_bound(s: Seq<u8>)
    ensures
        count_nl(s) <= s.len(),
        last_line_start(s) <= s.len(),
    decreases s.len(),
{
    if s.len() > 0 {
        lemma_count_nl_bound(s.drop_last());
    }
}

proof fn lemma_utf16_le_utf8(cs: Seq<char>)
    ensures
        utf16_len(cs) <= encode_utf8(cs).len(),
    decreases cs.len(),
{
    if cs.len() > 0 {
        lemma_utf16_le_utf8(cs.drop_last());
        lemma_encode_utf8_push(cs.drop_last(), cs.last());
        crate::text::lemma_encode_scalar_len(cs.last());
        assert(cs.drop_last().push(cs.last()) =~= cs);
    }
}

fn utf16_count(s: &str) -> (n: usize)
    requires
        s.spec_bytes().len() <= u32::MAX,
    ensures
        n == utf16_len(s@),
        n <= s.spec_bytes().len(),
{
    let cs = str_chars(s);
    let mut n: usize = 0;
    let mut i: usize = 0;
    while i < cs.len()
        invariant
            i <= cs@.len(),
            cs@ == s@,
            encode_utf8(cs@).len() <= u32::MAX,
            n == utf16_len(cs@.take(i as int)),
            n <= encode_utf8(cs@.take(i as int)).len(),
        decreases cs@.len() - i,
    {
        assert(cs@.take(i + 1).drop_last() =~= cs@.take(i as int));
        proof {
            lemma_utf16_le_utf8(cs@.take(i + 1));
            crate::text::lemma_encode_utf8_len_mono(cs@, i + 1);
        }
        if (cs[i] as u32) >= 0x10000 {
            n += 2;
        } else {
            n += 1;
        }
        i += 1;
    }
    assert(cs@.take(cs@.len() as int) =~= cs@);
    proof {
        lemma_utf16_le_utf8(cs@);
    }
    n
}

proof fn lemma_chars_le_bytes(cs: Seq<char>)
    ensures
        cs.len() <= encode_utf8(cs).len(),
    decreases cs.len(),
{
    if cs.len() > 0 {
        lemma_chars_le_bytes(cs.drop_last());
        lemma_encode_utf8_push(cs.drop_last(), cs.last());
        assert(cs.drop_last().push(cs.last()) =~= cs);
    }
}

/// Converts a byte offset to a position (see `position_at`).
pub fn offset_to_position(src: &[u8], offset: usize, enc: Encoding) -> (p: Position)
    requires
        src@.len() <= u32::MAX,
    ensures
        (p.line as nat, p.character as nat) == position_at(src@, offset as int, enc),
{
    let end = if offset < src.len() { offset } else { src.len() };
    let ghost slice = src@.take(end as int);
    let mut line: u32 = 0;
    let mut last_newline: usize = 0;
    let mut i: usize = 0;
    while i < end
        invariant
            i <= end <= src@.len() <= u32::MAX,
            slice == src@.take(end as int),
            line == count_nl(slice.take(i as int)),
            last_newline == last_line_start(slice.take(i as int)),
            line <= i,
        decreases end - i,
    {
        assert(slice.take(i + 1).drop_last() =~= slice.take(i as int));
        proof {
            lemma_count_nl_bound(slice.take(i as int));
        }
        if src[i] == 10u8 {
            line += 1;
            last_newline = i + 1;
        }
        i += 1;
    }
    assert(slice.take(end as int) =~= slice);
    proof {
        lemma_count_nl_bound(slice);
    }
    let mut after: Vec<u8> = Vec::new();
    let mut k: usize = last_newline;
    while k < end
        invariant
            last_newline <= k <= end <= src@.len(),
            slice == src@.take(end as int),
            after@ == slice.subrange(last_newline as int, k as int),
        decreases end - k,
    {
        after.push(src[k]);
        k += 1;
        assert(after@ =~= slice.subrange(last_newline as int, k as int));
    }
    assert(after@ =~= slice.skip(last_newline as int));
    let character: u32 = match enc {
        Encoding::Utf8 => (end - last_newline) as u32,
        Encoding::Utf16 => match utf8_text(after.as_slice()) {
            Some(s) => {
                proof {
                    vstd::utf8::encode_utf8_decode_utf8(s@);
                    assert(after@.len() <= src@.len());
                }
                utf16_count(s) as u32
            },
            None => 0,
        },
    };
    Position { line, character }
}


/// The largest character boundary of `bytes` at or before `i`.
pub open spec fn snap_back(bytes: Seq<u8>, i: int) -> int
    decreases i,
{
    if i <= 0 || is_char_boundary(bytes, i) {
        i
    } else {
        snap_back(bytes, i - 1)
    }
}

/// The byte offset, in `cs` encoded as UTF-8, of the first character before which at
/// least `units` UTF-16 code units lie (the end when there is none).
pub open spec fn utf16_to_byte(cs: Seq<char>, units: int) -> nat
    decreases cs.len(),
{
    if cs.len() == 0 || units <= 0 {
        0
    } else {
        utf8_width(cs[0]) + utf16_to_byte(cs.drop_first(), units - u16_width(cs[0]))
    }
}

/// The byte offset that column `character` designates in `line` (the text from a line
/// start to the end of the document). UTF-8: that many bytes, clamped to the text and
/// moved back to a character boundary when the text is UTF-8. UTF-16: the first character
/// reached after that many code units (0 when the text is not UTF-8).
pub open spec fn byte_in_line(line: Seq<u8>, character: nat, enc: Encoding) -> nat {
    let clamped = if character < line.len() { character } else { line.len() };
    match enc {
        Encoding::Utf8 => if valid_utf8(line) {
            snap_back(line, clamped as int) as nat
        } else {
            clamped
        },
        Encoding::Utf16 => if valid_utf8(line) {
            utf16_to_byte(decode_utf8(line), character as int)
        } else {
            0
        },
    }
}

proof fn lemma_snap_back_range(bytes: Seq<u8>, i: int)
    requires
        0 <= i,
    ensures
        0 <= snap_back(bytes, i) <= i,
    decreases i,
{
    if i > 0 && !is_char_boundary(bytes, i) {
        lemma_snap_back_range(bytes, i - 1);
    }
}

proof fn lemma_utf16_to_byte_le(cs: Seq<char>, units: int)
    ensures
        utf16_to_byte(cs, units) <= encode_utf8(cs).len(),
    decreases cs.len(),
{
    if cs.len() > 0 && units > 0 {
        lemma_utf16_to_byte_le(cs.drop_first(), units - u16_width(cs[0]));
        lemma_encode_first(cs);
    }
}

proof fn lemma_encode_first(cs: Seq<char>)
    requires
        cs.len() > 0,
    ensures
        encode_utf8(cs).len() == utf8_width(cs[0]) + encode_utf8(cs.drop_first()).len(),
{
    crate::text::lemma_encode_scalar_len(cs[0]);
}

/// Converts a column in the given encoding to a byte offset within `line_bytes` (see
/// `byte_in_line`).
pub fn char_to_byte(line_bytes: &[u8], character: u32, enc: Encoding) -> (r: usize)
    requires
        line_bytes@.len() <= u32::MAX,
    ensures
        r == byte_in_line(line_bytes@, character as nat, enc),
        r <= line_bytes@.len(),
{
    let n = line_bytes.len();
    let clamped: usize = if (character as usize) < n { character as usize } else { n };
    match enc {
        Encoding::Utf8 => match utf8_text(line_bytes) {
            Some(s) => {
                let mut i = clamped;
                assert(s.spec_bytes() == line_bytes@);
                assert(snap_back(line_bytes@, clamped as int) == snap_back(line_bytes@, i as int));
                while i > 0 && !s.is_char_boundary(i)
                    invariant
                        i <= clamped,
                        s.spec_bytes() == line_bytes@,
                        snap_back(line_bytes@, clamped as int) == snap_back(line_bytes@, i as int),
                    decreases i,
                {
                    i -= 1;
                }
                i
            },
            None => clamped,
        },
        Encoding::Utf16 => match utf8_text(line_bytes) {
            Some(s) => {
                let cs = str_chars(s);
                proof {
                    vstd::utf8::encode_utf8_decode_utf8(s@);
                    lemma_utf16_to_byte_le(cs@, character as int);
                }
                let mut units: u64 = 0;
                let mut pos: usize = 0;
                let mut k: usize = 0;
                assert(cs@.skip(0) =~= cs@);
                assert(decode_utf8(line_bytes@) == cs@);
                while k < cs.len()
                    invariant
                        k <= cs@.len(),
                        cs@ == s@,
                        valid_utf8(line_bytes@),
                        enc == Encoding::Utf16,
                        decode_utf8(line_bytes@) == cs@,
                        pos <= line_bytes@.len(),
                        encode_utf8(cs@).len() == line_bytes@.len() <= u32::MAX,
                        pos == encode_utf8(cs@.take(k as int)).len(),
                        units <= pos,
                        utf16_to_byte(cs@, character as int) == pos + utf16_to_byte(cs@.skip(k as int), character - units),
                    decreases cs@.len() - k,
                {
                    if units >= character as u64 {
                        assert(utf16_to_byte(cs@.skip(k as int), character - units) == 0);
                        return pos;
                    }
                    let c = cs[k];
                    proof {
                        lemma_encode_utf8_push(cs@.take(k as int), c);
                        crate::text::lemma_encode_scalar_len(c);
                        assert(cs@.take(k + 1) =~= cs@.take(k as int).push(c));
                        crate::text::lemma_encode_utf8_len_mono(cs@, k + 1);
                        assert(cs@.skip(k as int).drop_first() =~= cs@.skip(k + 1));
                        assert(cs@.skip(k as int)[0] == c);
                    }
                    let v = c as u32;
                    let w8: usize = if v <= 0x7F { 1 } else if v <= 0x7FF { 2 } else if v <= 0xFFFF { 3 } else { 4 };
                    let w16: u64 = if v >= 0x10000 { 2 } else { 1 };
                    units = units + w16;
                    pos = pos + w8;
                    k += 1;
                }
                assert(cs@.take(cs@.len() as int) =~= cs@);
                pos
            },
            None => 0,
        },
    }
}


/// `st` is where line `k` of `src` starts: just after its `k`-th newline (0 for the
/// first line).
pub open spec fn is_line_start(src: Seq<u8>, st: int, k: nat) -> bool {
    &&& 0 <= st <= src.len()
    &&& count_nl(src.take(st)) == k
    &&& (st == 0 || src[st - 1] == 10u8)
}

pub proof fn lemma_count_nl_mono(src: Seq<u8>, a: int, b: int)
    requires
        0 <= a <= b <= src.len(),
    ensures
        count_nl(src.take(a)) <= count_nl(src.take(b)),
        b > 0 && src[b - 1] == 10u8 && a < b ==> count_nl(src.take(a)) < count_nl(src.take(b)),
    decreases b - a,
{
    if a < b {
        lemma_count_nl_mono(src, a, b - 1);
        assert(src.take(b).drop_last() =~= src.take(b - 1));
    }
}

/// Each line has at most one start.
pub proof fn lemma_line_start_unique(src: Seq<u8>, a: int, b: int, k: nat)
    requires
        is_line_start(src, a, k),
        is_line_start(src, b, k),
    ensures
        a == b,
{
    if a < b {
        lemma_count_nl_mono(src, a, b);
    } else if b < a {
        lemma_count_nl_mono(src, b, a);
    }
}

pub proof fn lemma_last_line_start(s: Seq<u8>)
    ensures
        is_line_start(s, last_line_start(s) as int, count_nl(s)),
    decreases s.len(),
{
    if s.len() > 0 {
        lemma_last_line_start(s.drop_last());
        lemma_count_nl_bound(s.drop_last());
        assert(s.take(s.len() as int) =~= s);
        if s.last() != 10u8 {
            let st = last_line_start(s.drop_last()) as int;
            assert(s.take(st) =~= s.drop_last().take(st));
            assert(st > 0 ==> s[st - 1] == s.drop_last()[st - 1]);
        }
    } else {
        assert(s.take(0) =~= s);
    }
}

fn copy_from(src: &[u8], start: usize) -> (r: Vec<u8>)
    requires
        start <= src@.len(),
    ensures
        r@ == src@.skip(start as int),
{
    let mut r: Vec<u8> = Vec::new();
    let mut k: usize = start;
    while k < src.len()
        invariant
            start <= k <= src@.len(),
            r@ == src@.subrange(start as int, k as int),
        decreases src@.len() - k,
    {
        r.push(src[k]);
        k += 1;
        assert(r@ =~= src@.subrange(start as int, k as int));
    }
    assert(r@ =~= src@.skip(start as int));
    r
}

/// Converts a position to a byte offset: the start of line `pos.line` plus the bytes that
/// column `pos.character` designates there (see `byte_in_line`); the end of the document
/// when it has fewer lines.
pub fn position_to_offset(src: &[u8], pos: Position, enc: Encoding) -> (r: usize)
    requires
        src@.len() <= u32::MAX,
    ensures
        count_nl(src@) >= pos.line ==> exists|st: int|
            is_line_start(src@, st, pos.line as nat) && r == st + byte_in_line(
                src@.skip(st),
                pos.character as nat,
                enc,
            ),
        count_nl(src@) < pos.line ==> r == src@.len(),
{
    let mut line: u32 = 0;
    let mut line_start: usize = 0;
    let mut i: usize = 0;
    while i < src.len()
        invariant
            i <= src@.len() <= u32::MAX,
            line == count_nl(src@.take(i as int)),
            line_start == last_line_start(src@.take(i as int)),
            line <= pos.line,
        decreases src@.len() - i,
    {
        if line == pos.line {
            proof {
                lemma_last_line_start(src@.take(i as int));
                lemma_count_nl_bound(src@.take(i as int));
                let st = line_start as int;
                assert(src@.take(i as int).take(st) =~= src@.take(st));
                assert(st > 0 ==> src@.take(i as int)[st - 1] == src@[st - 1]);
                assert(src@.take(src@.len() as int) =~= src@);
                lemma_count_nl_mono(src@, i as int, src@.len() as int);
                assert(is_line_start(src@, st, pos.line as nat));
            }
            let rest = copy_from(src, line_start);
            let c = char_to_byte(rest.as_slice(), pos.character, enc);
            assert(is_line_start(src@, line_start as int, pos.line as nat) && line_start + c == line_start + byte_in_line(
                src@.skip(line_start as int),
                pos.character as nat,
                enc,
            ));
            return line_start + c;
        }
        assert(src@.take(i + 1).drop_last() =~= src@.take(i as int));
        proof {
            lemma_count_nl_bound(src@.take(i as int));
        }
        if src[i] == 10u8 {
            line += 1;
            line_start = i + 1;
        }
        i += 1;
    }
    assert(src@.take(src@.len() as int) =~= src@);
    if line == pos.line {
        proof {
            lemma_last_line_start(src@);
            lemma_count_nl_bound(src@);
        }
        let rest = copy_from(src, line_start);
        let c = char_to_byte(rest.as_slice(), pos.character, enc);
        assert(is_line_start(src@, line_start as int, pos.line as nat) && line_start + c == line_start + byte_in_line(
            src@.skip(line_start as int),
            pos.character as nat,
            enc,
        ));
        return line_start + c;
    }
    src.len()
}

/// Law: a byte offset survives the round trip through a UTF-8 position. For an offset
/// within the text that lies on a character boundary of its line, the position of the
/// offset names a line that the text has, its line starts where the offset's line starts
/// (and nowhere else), and that start plus the column's bytes is the offset again: so
/// `position_to_offset` of `offset_to_position` gives the offset back.
pub proof fn utf8_offset_round_trip(src: Seq<u8>, o: int)
    requires
        0 <= o <= src.len(),
        valid_utf8(src.skip(last_line_start(src.take(o)) as int)) ==> is_char_boundary(
            src.skip(last_line_start(src.take(o)) as int),
            o - last_line_start(src.take(o)),
        ),
    ensures
        ({
            let p = position_at(src, o, Encoding::Utf8);
            let st = last_line_start(src.take(o)) as int;
            &&& count_nl(src) >= p.0
            &&& is_line_start(src, st, p.0)
            &&& forall|st2: int| #[trigger] is_line_start(src, st2, p.0) ==> st2 == st
            &&& st + byte_in_line(src.skip(st), p.1, Encoding::Utf8) == o
        }),
{
    let slice = src.take(o);
    assert(src.take(if o < src.len() { o } else { src.len() as int }) =~= slice);
    let st = last_line_start(slice) as int;
    lemma_last_line_start(slice);
    assert(slice.take(st) =~= src.take(st));
    assert(st > 0 ==> slice[st - 1] == src[st - 1]);
    assert(is_line_start(src, st, count_nl(slice)));
    lemma_count_nl_mono(src, o, src.len() as int);
    assert(src.take(src.len() as int) =~= src);
    assert forall|st2: int| #[trigger] is_line_start(src, st2, count_nl(slice)) implies st2 == st by {
        lemma_line_start_unique(src, st, st2, count_nl(slice));
    }
    let after = slice.skip(st);
    assert(after.len() == o - st);
    let line = src.skip(st);
    assert(line.len() == src.len() - st);
}

proof fn lemma_utf16_len_first(cs: Seq<char>)
    requires
        cs.len() > 0,
    ensures
        utf16_len(cs) == u16_width(cs[0]) + utf16_len(cs.drop_first()),
    decreases cs.len(),
{
    if cs.len() > 1 {
        lemma_utf16_len_first(cs.drop_last());
        assert(cs.drop_last()[0] == cs[0]);
        assert(cs.drop_last().drop_first() =~= cs.drop_first().drop_last());
        assert(cs.drop_first().last() == cs.last());
        assert(utf16_len(cs.drop_first()) == utf16_len(cs.drop_first().drop_last()) + u16_width(cs.drop_first().last()));
        assert(utf16_len(cs) == utf16_len(cs.drop_last()) + u16_width(cs.last()));
    } else {
        assert(cs.last() == cs[0]);
        assert(utf16_len(cs.drop_last()) == 0);
        assert(utf16_len(cs.drop_first()) == 0);
        assert(utf16_len(cs) == utf16_len(cs.drop_last()) + u16_width(cs.last()));
    }
}

/// Counting `utf16_len(a)` code units into `a + b` ends exactly where `a` ends.
proof fn lemma_utf16_to_byte_prefix(a: Seq<char>, b: Seq<char>)
    ensures
        utf16_to_byte(a + b, utf16_len(a) as int) == encode_utf8(a).len(),
    decreases a.len(),
{
    if a.len() == 0 {
        assert(a + b =~= b);
    } else {
        lemma_utf16_len_first(a);
        lemma_encode_first(a);
        assert((a + b)[0] == a[0]);
        assert((a + b).drop_first() =~= a.drop_first() + b);
        lemma_utf16_to_byte_prefix(a.drop_first(), b);
    }
}

/// Law: a byte offset survives the round trip through a UTF-16 position. For an offset
/// within the text whose line is UTF-8 text and that lies on a character boundary of its
/// line, the position of the offset names a line that the text has, its line starts where
/// the offset's line starts (and nowhere else), and that start plus the bytes that the
/// column's code units designate is the offset again: so `position_to_offset` of
/// `offset_to_position` gives the offset back.
pub proof fn utf16_offset_round_trip(src: Seq<u8>, o: int)
    requires
        0 <= o <= src.len(),
        valid_utf8(src.skip(last_line_start(src.take(o)) as int)),
        is_char_boundary(
            src.skip(last_line_start(src.take(o)) as int),
            o - last_line_start(src.take(o)),
        ),
    ensures
        ({
            let p = position_at(src, o, Encoding::Utf16);
            let st = last_line_start(src.take(o)) as int;
            &&& count_nl(src) >= p.0
            &&& is_line_start(src, st, p.0)
            &&& forall|st2: int| #[trigger] is_line_start(src, st2, p.0) ==> st2 == st
            &&& st + byte_in_line(src.skip(st), p.1, Encoding::Utf16) == o
        }),
{
    utf8_offset_round_trip(src, o);
    let slice = src.take(o);
    assert(src.take(if o < src.len() { o } else { src.len() as int }) =~= slice);
    let st = last_line_start(slice) as int;
    lemma_last_line_start(slice);
    let line = src.skip(st);
    let k = o - st;
    let after = slice.skip(st);
    assert(after =~= line.subrange(0, k));
    vstd::utf8::valid_utf8_split(line, k);
    vstd::utf8::decode_utf8_split(line, k);
    let a = decode_utf8(after);
    let b = decode_utf8(line.subrange(k, line.len() as int));
    vstd::utf8::decode_utf8_encode_utf8(after);
    lemma_utf16_to_byte_prefix(a, b);
    assert(decode_utf8(line) == a + b);
    assert(utf16_units(after) == utf16_len(a));
    assert(encode_utf8(a).len() == k);
}

} // verus!
