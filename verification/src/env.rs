//! Environment keys: which ones are never reported as undefined.
use vstd::prelude::*;
use crate::text::{str_chars, chars_eq};

verus! {

broadcast use vstd::string::group_string_axioms;

/// Built-in environment keys (operating system, CI services, containers, Python) that are
/// never reported as undefined.
pub const OS_CI_ALLOWLIST: [&'static str; 36] = [
    "HOME",
    "PATH",
    "USER",
    "PORT",
    "HOSTNAME",
    "PWD",
    "SHELL",
    "TERM",
    "TMPDIR",
    "LANG",
    "LC_ALL",
    "TZ",
    "CI",
    "GITHUB_ACTIONS",
    "GITHUB_TOKEN",
    "GITHUB_SHA",
    "GITHUB_REF",
    "GITHUB_RUN_ID",
    "GITHUB_RUN_NUMBER",
    "GITHUB_WORKSPACE",
    "GITHUB_ACTOR",
    "GITHUB_REPOSITORY",
    "GITHUB_EVENT_NAME",
    "GITLAB_CI",
    "CI_JOB_TOKEN",
    "CI_COMMIT_SHA",
    "CI_PROJECT_ID",
    "CIRCLECI",
    "CIRCLE_SHA1",
    "CIRCLE_BRANCH",
    "TRAVIS",
    "TRAVIS_COMMIT",
    "TRAVIS_BRANCH",
    "DOCKER_HOST",
    "PYTHONPATH",
    "DJANGO_SETTINGS_MODULE",
];

/// The allowlist as character sequences.
pub open spec fn allowlist() -> Seq<Seq<char>> {
    OS_CI_ALLOWLIST@.map_values(|k: &str| k@)
}

/// The Unicode uppercase of a string, as `str::to_uppercase` computes it.
pub uninterp spec fn str_to_uppercase(s: Seq<char>) -> Seq<char>;

/// Calls `str::to_uppercase`; its result is named `str_to_uppercase` of the argument.
#[verifier::external_body]
pub(crate) fn to_uppercase(s: &str) -> (r: String)
    ensures
        r@ == str_to_uppercase(s@),
{
    s.to_uppercase()
}

fn in_allowlist(key: &[char]) -> (r: bool)
    ensures
        r == allowlist().contains(key@),
{
    let mut i: usize = 0;
    while i < 36
        invariant
            i <= 36,
            forall|k: int| 0 <= k < i ==> allowlist()[k] != key@,
        decreases 36 - i,
    {
        let c = str_chars(OS_CI_ALLOWLIST[i]);
        assert(c@ == allowlist()[i as int]);
        if chars_eq(c.as_slice(), key) {
            return true;
        }
        i += 1;
    }
    false
}

/// Whether an already uppercased key is ignored: it is in the allowlist, or equal to
/// one of the (already uppercased) user-ignored keys.
pub fn is_upper_key_ignored(key_upper: &str, ignore_upper: &[String]) -> (r: bool)
    ensures
        r == (allowlist().contains(key_upper@) || exists|i: int|
            0 <= i < ignore_upper@.len() && (#[trigger] ignore_upper@[i])@ == key_upper@),
{
    let kc = str_chars(key_upper);
    if in_allowlist(kc.as_slice()) {
        return true;
    }
    let k: String = key_upper.to_owned();
    let mut i: usize = 0;
    while i < ignore_upper.len()
        invariant
            i <= ignore_upper@.len(),
            k@ == key_upper@,
            forall|j: int| 0 <= j < i ==> (#[trigger] ignore_upper@[j])@ != key_upper@,
        decreases ignore_upper@.len() - i,
    {
        if ignore_upper[i] == k {
            return true;
        }
        i += 1;
    }
    false
}

/// An environment key is never reported as undefined: its uppercase is in the allowlist
/// or is the uppercase of a key the user ignores.
pub open spec fn env_key_ignored(key: Seq<char>, user_ignore: Seq<String>) -> bool {
    allowlist().contains(str_to_uppercase(key)) || exists|i: int|
        0 <= i < user_ignore.len() && str_to_uppercase((#[trigger] user_ignore[i])@) == str_to_uppercase(key)
}

/// Whether an environment key is never reported as undefined (see `env_key_ignored`).
pub fn is_env_key_ignored(key: &str, user_ignore: &[String]) -> (r: bool)
    ensures
        r == env_key_ignored(key@, user_ignore@),
{
    let key_upper = to_uppercase(key);
    let mut ignore_upper: Vec<String> = Vec::new();
    let mut i: usize = 0;
    while i < user_ignore.len()
        invariant
            i <= user_ignore@.len(),
            ignore_upper@.len() == i,
            forall|j: int| 0 <= j < i ==> (#[trigger] ignore_upper@[j])@ == str_to_uppercase(user_ignore@[j]@),
        decreases user_ignore@.len() - i,
    {
        ignore_upper.push(to_uppercase(user_ignore[i].as_str()));
        i += 1;
    }
    let r = is_upper_key_ignored(key_upper.as_str(), ignore_upper.as_slice());
    proof {
        if exists|i: int| 0 <= i < ignore_upper@.len() && (#[trigger] ignore_upper@[i])@ == key_upper@ {
            let j = choose|j: int| 0 <= j < ignore_upper@.len() && (#[trigger] ignore_upper@[j])@ == key_upper@;
            assert(str_to_uppercase(user_ignore@[j]@) == str_to_uppercase(key@));
        }
        if exists|i: int|
            0 <= i < user_ignore@.len() && str_to_uppercase((#[trigger] user_ignore@[i])@) == str_to_uppercase(key@) {
            let j = choose|j: int|
                0 <= j < user_ignore@.len() && str_to_uppercase((#[trigger] user_ignore@[j])@) == str_to_uppercase(key@);
            assert(ignore_upper@[j]@ == key_upper@);
        }
    }
    r
}

} // verus!
