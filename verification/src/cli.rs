//! Command-line arguments of the `check` and `routes` subcommands, and the diagnostic
//! codes that `--only` / `--ignore` accept.
use vstd::prelude::*;
use crate::text::{join_with, push_all, str_chars, chars_eq, string_from_chars, string_views};
use crate::config::CheckDefaults;

verus! {

broadcast use vstd::string::group_string_axioms;

/// All diagnostic codes emitted by this server (single source of truth for
/// `--only` / `--ignore` validation).
pub const KNOWN_CODES: [&'static str; 17] = [
    "di/cycle",
    "di/depends-called",
    "di/override-unused",
    "route/duplicate",
    "route/shadowed",
    "route/duplicate-name",
    "route/param-missing-arg",
    "route/arg-missing-param",
    "route/router-not-included",
    "url/unknown-name",
    "url/param-mismatch",
    "model/unknown-response-model",
    "env/undefined-key",
    "tpl/missing-template",
    "test/unknown-path",
    "oauth2/unknown-token-url",
    "settings/env-key-missing",
];

/// The known codes as character sequences.
pub open spec fn known_codes() -> Seq<Seq<char>> {
    KNOWN_CODES@.map_values(|c: &str| c@)
}

/// Output format of `check` and `routes`.
#[derive(Debug, Clone, Copy, PartialEq, Eq)]
pub enum OutputFormat {
    Text,
    Json,
}

/// A validated diagnostic code string.
#[derive(Debug)]
pub struct DiagCode(pub String);

pub open spec fn unknown_prefix() -> Seq<char> {
    "unknown diagnostic code '"@
}

pub open spec fn valid_list_prefix() -> Seq<char> {
    "'; valid codes are: "@
}

pub open spec fn comma_space() -> Seq<char> {
    ", "@
}

/// The error for a code that is not known: it names the code and lists the valid ones.
pub open spec fn unknown_code_message(s: Seq<char>) -> Seq<char> {
    unknown_prefix() + s + valid_list_prefix() + join_with(known_codes(), comma_space())
}

fn is_known(s: &[char]) -> (r: bool)
    ensures
        r == known_codes().contains(s@),
{
    let mut i: usize = 0;
    while i < 17
        invariant
            i <= 17,
            forall|k: int| 0 <= k < i ==> known_codes()[k] != s@,
        decreases 17 - i,
    {
        let c = str_chars(KNOWN_CODES[i]);
        assert(c@ == known_codes()[i as int]);
        if chars_eq(c.as_slice(), s) {
            return true;
        }
        i += 1;
    }
    false
}

/// `KNOWN_CODES` joined with `, `.
fn known_codes_list() -> (r: Vec<char>)
    ensures
        r@ == join_with(known_codes(), comma_space()),
{
    let sep = str_chars(", ");
    let mut out: Vec<char> = Vec::new();
    let mut i: usize = 0;
    while i < 17
        invariant
            i <= 17,
            sep@ == comma_space(),
            out@ == join_with(known_codes().take(i as int), comma_space()),
        decreases 17 - i,
    {
        assert(known_codes().take(i + 1).drop_last() == known_codes().take(i as int));
        if i > 0 {
            push_all(&mut out, sep.as_slice());
        }
        let c = str_chars(KNOWN_CODES[i]);
        push_all(&mut out, c.as_slice());
        i += 1;
    }
    assert(known_codes().take(17) == known_codes());
    out
}

impl DiagCode {
    /// Validates a diagnostic code: `Ok` exactly for the codes in `KNOWN_CODES`; otherwise an
    /// error message naming the code and listing the valid ones.
    pub fn parse_code(s: &str) -> (r: Result<DiagCode, String>)
        ensures
            r is Ok <==> known_codes().contains(s@),
            r matches Ok(c) ==> c.0@ == s@,
            r matches Err(m) ==> m@ == unknown_code_message(s@),
    {
        let cs = str_chars(s);
        if is_known(cs.as_slice()) {
            Ok(DiagCode(string_from_chars(cs.as_slice())))
        } else {
            let mut msg = str_chars("unknown diagnostic code '");
            push_all(&mut msg, cs.as_slice());
            let mid = str_chars("'; valid codes are: ");
            push_all(&mut msg, mid.as_slice());
            let list = known_codes_list();
            push_all(&mut msg, list.as_slice());
            Err(string_from_chars(msg.as_slice()))
        }
    }
}

impl std::str::FromStr for DiagCode {
    type Err = String;

    fn from_str(s: &str) -> Result<Self, Self::Err> {
        DiagCode::parse_code(s)
    }
}

/// Arguments of `routes`.
pub struct RoutesArgs {
    /// Path to analyse (file or directory; directory is treated as workspace root).
    pub path: String,
    /// Output format.
    pub format: OutputFormat,
}

/// Arguments of `check`.
pub struct CheckArgs {
    /// Path to analyse (file or directory; directory is treated as workspace root).
    pub path: String,
    /// Output format.
    pub format: OutputFormat,
    /// Run only these diagnostic codes; mutually exclusive with `ignore`.
    pub only: Vec<DiagCode>,
    /// Skip these diagnostic codes; mutually exclusive with `only`.
    pub ignore: Vec<DiagCode>,
    /// Apply deterministic quick fixes in-place.
    pub fix: bool,
}

impl CheckArgs {
    /// `--only` and `--ignore` may not both be given.
    pub fn filters_conflict(&self) -> (r: bool)
        ensures
            r == (self.only@.len() > 0 && self.ignore@.len() > 0),
    {
        self.only.len() > 0 && self.ignore.len() > 0
    }

    /// The code filters in force, as (only, ignore): those given on the command line; when
    /// neither `--only` nor `--ignore` is given, the `[check]` defaults of the configuration.
    pub fn code_filters(&self, defaults: &CheckDefaults) -> (r: (Vec<String>, Vec<String>))
        ensures
            self.only@.len() == 0 && self.ignore@.len() == 0 ==> string_views(r.0@) == string_views(defaults.only@)
                && string_views(r.1@) == string_views(defaults.ignore@),
            self.only@.len() > 0 || self.ignore@.len() > 0 ==> string_views(r.0@) == code_views(self.only@)
                && string_views(r.1@) == code_views(self.ignore@),
    {
        if self.only.len() == 0 && self.ignore.len() == 0 {
            (copy_strings(&defaults.only), copy_strings(&defaults.ignore))
        } else {
            (code_strings(&self.only), code_strings(&self.ignore))
        }
    }
}

/// The texts of some diagnostic codes.
pub open spec fn code_views(v: Seq<DiagCode>) -> Seq<Seq<char>> {
    v.map_values(|c: DiagCode| c.0@)
}

fn copy_strings(v: &Vec<String>) -> (r: Vec<String>)
    ensures
        string_views(r@) == string_views(v@),
{
    let mut r: Vec<String> = Vec::new();
    let mut i: usize = 0;
    while i < v.len()
        invariant
            i <= v@.len(),
            string_views(r@) == string_views(v@).take(i as int),
        decreases v@.len() - i,
    {
        let ghost before = r@;
        let c = v[i].clone();
        r.push(c);
        assert(r@ == before.push(c));
        assert(string_views(r@) =~= string_views(before).push(v@[i as int]@));
        assert(string_views(v@).take(i + 1) =~= string_views(v@).take(i as int).push(v@[i as int]@));
        i += 1;
    }
    assert(string_views(v@).take(v@.len() as int) =~= string_views(v@));
    r
}

fn code_strings(v: &Vec<DiagCode>) -> (r: Vec<String>)
    ensures
        string_views(r@) == code_views(v@),
{
    let mut r: Vec<String> = Vec::new();
    let mut i: usize = 0;
    while i < v.len()
        invariant
            i <= v@.len(),
            string_views(r@) == code_views(v@).take(i as int),
        decreases v@.len() - i,
    {
        let ghost before = r@;
        let c = v[i].0.clone();
        r.push(c);
        assert(r@ == before.push(c));
        assert(string_views(r@) =~= string_views(before).push(v@[i as int].0@));
        assert(code_views(v@).take(i + 1) =~= code_views(v@).take(i as int).push(v@[i as int].0@));
        i += 1;
    }
    assert(code_views(v@).take(v@.len() as int) =~= code_views(v@));
    r
}

} // verus!
