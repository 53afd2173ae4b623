//! The env keys declared by the env files that settings classes read.
use vstd::prelude::*;
use crate::text::{contains_str, str_chars, string_from_chars, string_views, slice_chars};

verus! {

broadcast use vstd::string::group_string_axioms;

/// The text after the last `/` of `s` (all of `s` when it has none).
pub open spec fn after_last_slash(s: Seq<char>) -> Seq<char>
    decreases s.len(),
{
    if s.len() == 0 {
        s
    } else if s.last() == '/' {
        Seq::empty()
    } else {
        after_last_slash(s.drop_last()).push(s.last())
    }
}

/// The keys of the env files (document, keys) whose last path segment is one of `names`.
pub open spec fn named_file_keys(files: Seq<(String, Vec<String>)>, names: Seq<Option<Seq<char>>>) -> Set<Seq<char>> {
    Set::new(|k: Seq<char>| exists|i: int| 0 <= i < files.len()
        && names.contains(Some(after_last_slash(files[i].0@)))
        && #[trigger] string_views(files[i].1@).contains(k))
}

/// Calls `std::path::Path::file_name` on `p` (read as a path) and keeps the name when it is
/// UTF-8. A file name is the last normal component of the path: never empty, and never
/// holding `/`, a separator on every platform. Which text counts as a component depends on
/// the platform's path syntax, so nothing more is stated.
#[verifier::external_body]
fn path_file_name(p: &str) -> (r: Option<String>)
    ensures
        r matches Some(n) ==> n@.len() > 0 && !n@.contains('/'),
{
    match std::path::Path::new(p).file_name() {
        Some(n) => match n.to_str() {
            Some(t) => Some(t.to_owned()),
            None => None,
        },
        None => None,
    }
}

fn last_segment(s: &str) -> (r: String)
    ensures
        r@ == after_last_slash(s@),
{
    let cs = str_chars(s);
    let mut start: usize = cs.len();
    assert(cs@.take(start as int) =~= cs@);
    assert(cs@.subrange(start as int, cs@.len() as int) =~= Seq::<char>::empty());
    assert(after_last_slash(s@) =~= after_last_slash(cs@.take(start as int)) + cs@.subrange(start as int, cs@.len() as int));
    while start > 0 && cs[start - 1] != '/'
        invariant
            start <= cs@.len(),
            cs@ == s@,
            after_last_slash(s@) == after_last_slash(cs@.take(start as int)) + cs@.subrange(start as int, cs@.len() as int),
        decreases start,
    {
        let ghost t = cs@.take(start as int);
        assert(t.drop_last() =~= cs@.take(start - 1));
        assert(cs@.subrange(start - 1, cs@.len() as int) =~= seq![t.last()] + cs@.subrange(start as int, cs@.len() as int));
        assert(after_last_slash(t) == after_last_slash(t.drop_last()).push(t.last()));
        assert(after_last_slash(t.drop_last()).push(t.last()) + cs@.subrange(start as int, cs@.len() as int)
            =~= after_last_slash(t.drop_last()) + (seq![t.last()] + cs@.subrange(start as int, cs@.len() as int)));
        start -= 1;
    }
    proof {
        let t = cs@.take(start as int);
        if start > 0 {
            assert(t.last() == '/');
        }
        assert(after_last_slash(t) =~= Seq::<char>::empty());
        assert(Seq::<char>::empty() + cs@.subrange(start as int, cs@.len() as int) =~= cs@.subrange(start as int, cs@.len() as int));
    }
    let tail = slice_chars(cs.as_slice(), start, cs.len());
    string_from_chars(tail.as_slice())
}

fn names_contain(names: &Vec<Option<String>>, x: &String) -> (b: bool)
    ensures
        b == names@.map_values(|n: Option<String>| match n {
            Some(s) => Some(s@),
            None => None::<Seq<char>>,
        }).contains(Some(x@)),
{
    let ghost nv = names@.map_values(|n: Option<String>| match n {
        Some(s) => Some(s@),
        None => None::<Seq<char>>,
    });
    let mut i: usize = 0;
    while i < names.len()
        invariant
            i <= names@.len(),
            nv == names@.map_values(|n: Option<String>| match n {
                Some(s) => Some(s@),
                None => None::<Seq<char>>,
            }),
            forall|j: int| 0 <= j < i ==> #[trigger] nv[j] != Some(x@),
        decreases names@.len() - i,
    {
        match &names[i] {
            Some(n) => {
                if *n == *x {
                    assert(nv[i as int] == Some(x@));
                    return true;
                }
            },
            None => {},
        }
        i += 1;
    }
    false
}

pub open spec fn name_views(names: Seq<Option<String>>) -> Seq<Option<Seq<char>>> {
    names.map_values(|n: Option<String>| match n {
        Some(s) => Some(s@),
        None => None::<Seq<char>>,
    })
}

/// The keys, each once, of the env files (document, keys) whose last path segment is one of
/// the given file names.
pub fn keys_of_named_files(files: &Vec<(String, Vec<String>)>, names: &Vec<Option<String>>) -> (r: Vec<String>)
    ensures
        string_views(r@).no_duplicates(),
        string_views(r@).to_set() == named_file_keys(files@, name_views(names@)),
{
    let mut out: Vec<String> = Vec::new();
    let mut i: usize = 0;
    while i < files.len()
        invariant
            i <= files@.len(),
            string_views(out@).no_duplicates(),
            forall|k: Seq<char>| string_views(out@).contains(k) <==> #[trigger] named_file_keys(files@.take(i as int), name_views(names@)).contains(k),
        decreases files@.len() - i,
    {
        let f = &files[i];
        let base = last_segment(f.0.as_str());
        let hit = names_contain(names, &base);
        let ghost before = string_views(out@);
        let mut j: usize = 0;
        if hit {
            while j < f.1.len()
                invariant
                    i < files@.len(),
                    f == files@[i as int],
                    j <= f.1@.len(),
                    string_views(out@).no_duplicates(),
                    forall|k: Seq<char>| #[trigger] string_views(out@).contains(k) <==> (before.contains(k) || string_views(f.1@).take(j as int).contains(k)),
                decreases f.1@.len() - j,
            {
                let k = &f.1[j];
                let ghost prev = string_views(out@);
                assert forall|x: Seq<char>| prev.contains(x) <==> (before.contains(x) || string_views(f.1@).take(j as int).contains(x)) by {
                    assert(string_views(out@).contains(x) <==> (before.contains(x) || string_views(f.1@).take(j as int).contains(x)));
                }
                if !contains_str(out.as_slice(), k.as_str()) {
                    out.push(k.clone());
                    assert(string_views(out@) =~= prev.push(k@));
                    assert(string_views(out@).no_duplicates()) by {
                        assert forall|a: int, b: int| 0 <= a < b < string_views(out@).len() implies #[trigger] string_views(out@)[a] != #[trigger] string_views(out@)[b] by {
                            if b == prev.len() {
                                assert(prev[a] == string_views(out@)[a]);
                            }
                        }
                    }
                }
                assert forall|x: Seq<char>| #[trigger] string_views(out@).contains(x) <==> (before.contains(x) || string_views(f.1@).take(j + 1).contains(x)) by {
                    assert(string_views(f.1@).take(j + 1) =~= string_views(f.1@).take(j as int).push(k@));
                    if string_views(out@).contains(x) && !prev.contains(x) {
                        let q = choose|q: int| 0 <= q < string_views(out@).len() && #[trigger] string_views(out@)[q] == x;
                        assert(q == prev.len());
                    }
                    if prev.contains(x) {
                        let q = choose|q: int| 0 <= q < prev.len() && #[trigger] prev[q] == x;
                        assert(string_views(out@)[q] == x);
                    }
                    if x == k@ {
                        assert(string_views(f.1@).take(j + 1)[j as int] == x);
                    }
                    if x == k@ && !prev.contains(x) {
                        assert(string_views(out@)[prev.len() as int] == x);
                    }
                    if string_views(f.1@).take(j as int).contains(x) {
                        let q = choose|q: int| 0 <= q < j && #[trigger] string_views(f.1@).take(j as int)[q] == x;
                        assert(string_views(f.1@).take(j + 1)[q] == x);
                    }
                    if string_views(f.1@).take(j + 1).contains(x) && !string_views(f.1@).take(j as int).contains(x) {
                        let q = choose|q: int| 0 <= q < j + 1 && #[trigger] string_views(f.1@).take(j + 1)[q] == x;
                        if q < j {
                            assert(string_views(f.1@).take(j as int)[q] == x);
                        }
                    }
                }
                j += 1;
            }
            assert(string_views(f.1@).take(f.1@.len() as int) =~= string_views(f.1@));
        }
        proof {
            let nv = name_views(names@);
            let fs = files@.take(i + 1);
            assert forall|k: Seq<char>| #[trigger] named_file_keys(fs, nv).contains(k) <==> (named_file_keys(files@.take(i as int), nv).contains(k) || (hit && string_views(f.1@).contains(k))) by {
                if named_file_keys(fs, nv).contains(k) {
                    let q = choose|q: int| 0 <= q < fs.len() && nv.contains(Some(after_last_slash(fs[q].0@))) && #[trigger] string_views(fs[q].1@).contains(k);
                    if q < i {
                        assert(files@.take(i as int)[q] == fs[q]);
                    } else {
                        assert(fs[q] == *f);
                    }
                }
                if named_file_keys(files@.take(i as int), nv).contains(k) {
                    let q = choose|q: int| 0 <= q < i && nv.contains(Some(after_last_slash(files@.take(i as int)[q].0@))) && #[trigger] string_views(files@.take(i as int)[q].1@).contains(k);
                    assert(fs[q] == files@.take(i as int)[q]);
                }
                if hit && string_views(f.1@).contains(k) {
                    assert(fs[i as int] == *f);
                }
            }
        }
        i += 1;
    }
    assert(files@.take(files@.len() as int) =~= files@);
    assert(string_views(out@).to_set() =~= named_file_keys(files@, name_views(names@)));
    out
}

/// The env keys declared by the env files that settings classes read: the keys, each once,
/// of the env files (document, keys) whose last path segment is the file name of one of
/// `settings_env_files`, each such name as `std::path::Path::file_name` gives it.
pub fn build_env_file_keys(files: &Vec<(String, Vec<String>)>, settings_env_files: &Vec<String>) -> (r: Vec<String>)
    ensures
        string_views(r@).no_duplicates(),
        exists|names: Seq<Option<Seq<char>>>| {
            &&& names.len() == settings_env_files@.len()
            &&& forall|i: int| 0 <= i < names.len() ==> (#[trigger] names[i] matches Some(n) ==> n.len() > 0 && !n.contains('/'))
            &&& string_views(r@).to_set() == named_file_keys(files@, names)
        },
{
    let mut names: Vec<Option<String>> = Vec::new();
    let mut i: usize = 0;
    while i < settings_env_files.len()
        invariant
            i <= settings_env_files@.len(),
            names@.len() == i,
            forall|q: int| 0 <= q < i ==> (#[trigger] name_views(names@)[q] matches Some(n) ==> n.len() > 0 && !n.contains('/')),
        decreases settings_env_files@.len() - i,
    {
        let n = path_file_name(settings_env_files[i].as_str());
        let ghost before = names@;
        names.push(n);
        assert(names@ == before.push(n));
        assert forall|q: int| 0 <= q < i + 1 implies (#[trigger] name_views(names@)[q] matches Some(m) ==> m.len() > 0 && !m.contains('/')) by {
            if q < i {
                assert(name_views(names@)[q] == name_views(before)[q]);
            }
        }
        i += 1;
    }
    let r = keys_of_named_files(files, &names);
    assert(name_views(names@).len() == settings_env_files@.len());
    r
}

} // verus!
