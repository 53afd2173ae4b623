//! Workspace-wide lookups built from every file's facts: the proven dependency names,
//! each dependency's parameters, and the model index.
use vstd::prelude::*;
use crate::lenses::ModelFact;
use crate::mounts::{entries_of, push_keyed, pushed};
use crate::text::string_views;

verus! {

broadcast use vstd::string::group_string_axioms;

/// A dependency function definition as the caches read it.
pub struct DepDefFacts {
    pub name: String,
    /// The function body yields.
    pub has_yield: bool,
    pub param_names: Vec<String>,
}

/// What the caches read of one file: its dependency definitions, its `Depends(...)`
/// references (name, and whether the reference calls it), and the functions named in its
/// `Annotated[..., Depends(f)]` type aliases.
pub struct CacheFile {
    pub dep_defs: Vec<DepDefFacts>,
    pub dep_refs: Vec<(String, bool)>,
    pub alias_fns: Vec<String>,
}

/// Name `n` is proven a dependency by file `f`: a yielding definition, a reference that
/// passes it uncalled, or a type alias that names it (the last two not for an empty name).
pub open spec fn proven_in(f: CacheFile, n: Seq<char>) -> bool {
    ||| exists|i: int| 0 <= i < f.dep_defs@.len() && (#[trigger] f.dep_defs@[i]).has_yield && f.dep_defs@[i].name@ == n
    ||| (n.len() > 0 && exists|i: int| 0 <= i < f.dep_refs@.len() && !(#[trigger] f.dep_refs@[i]).1 && f.dep_refs@[i].0@ == n)
    ||| (n.len() > 0 && exists|i: int| 0 <= i < f.alias_fns@.len() && (#[trigger] f.alias_fns@[i])@ == n)
}

pub open spec fn proven_name(fs: Seq<CacheFile>, n: Seq<char>) -> bool {
    exists|i: int| 0 <= i < fs.len() && proven_in(#[trigger] fs[i], n)
}

/// The definitions of all files, in order.
pub open spec fn all_defs(fs: Seq<CacheFile>) -> Seq<DepDefFacts>
    decreases fs.len(),
{
    if fs.len() == 0 {
        Seq::empty()
    } else {
        all_defs(fs.drop_last()) + fs.last().dep_defs@
    }
}

/// The parameters of the first definition named `n`.
pub open spec fn first_params(defs: Seq<DepDefFacts>, n: Seq<char>) -> Option<Seq<Seq<char>>>
    decreases defs.len(),
{
    if defs.len() == 0 {
        None
    } else {
        match first_params(defs.drop_last(), n) {
            Some(p) => Some(p),
            None => if defs.last().name@ == n {
                Some(string_views(defs.last().param_names@))
            } else {
                None
            },
        }
    }
}

/// The entry of key `n` in a list with one entry per key.
pub open spec fn params_of(m: Seq<(String, Vec<String>)>, n: Seq<char>) -> Option<Seq<Seq<char>>> {
    match entries_of(m, n) {
        Some(v) => Some(string_views(v)),
        None => None,
    }
}

fn copy_strings(v: &Vec<String>) -> (r: Vec<String>)
    ensures
        string_views(r@) == string_views(v@),
{
    let mut out: Vec<String> = Vec::new();
    let mut i: usize = 0;
    while i < v.len()
        invariant
            i <= v@.len(),
            string_views(out@) == string_views(v@.take(i as int)),
        decreases v@.len() - i,
    {
        out.push(v[i].clone());
        assert(string_views(v@.take(i + 1)) =~= string_views(v@.take(i as int)).push(v@[i as int]@));
        assert(string_views(out@) =~= string_views(v@.take(i + 1)));
        i += 1;
    }
    assert(v@.take(v@.len() as int) =~= v@);
    out
}

fn add_name(out: &mut Vec<String>, n: &String)
    requires
        string_views(old(out)@).no_duplicates(),
    ensures
        string_views(final(out)@).no_duplicates(),
        forall|x: Seq<char>| string_views(final(out)@).contains(x) <==> (string_views(old(out)@).contains(x) || x == n@),
{
    if !crate::text::contains_str(out.as_slice(), n.as_str()) {
        let ghost before = string_views(out@);
        out.push(n.clone());
        assert(string_views(out@) =~= before.push(n@));
        assert forall|x: Seq<char>| string_views(out@).contains(x) <==> (before.contains(x) || x == n@) by {
            if x == n@ {
                assert(string_views(out@)[before.len() as int] == x);
            }
            if before.contains(x) {
                let j = choose|j: int| 0 <= j < before.len() && before[j] == x;
                assert(string_views(out@)[j] == x);
            }
            if string_views(out@).contains(x) {
                let j = choose|j: int| 0 <= j < string_views(out@).len() && string_views(out@)[j] == x;
                if j < before.len() {
                    assert(before[j] == x);
                }
            }
        }
    }
}

fn lookup_entry(m: &Vec<(String, Vec<String>)>, n: &String) -> (b: bool)
    ensures
        b == (entries_of(m@, n@) is Some),
{
    let mut i: usize = 0;
    assert(m@.skip(0) =~= m@);
    while i < m.len()
        invariant
            i <= m@.len(),
            entries_of(m@, n@) == entries_of(m@.skip(i as int), n@),
        decreases m@.len() - i,
    {
        assert(m@.skip(i as int)[0] == m@[i as int]);
        assert(m@.skip(i as int).drop_first() =~= m@.skip(i + 1));
        if m[i].0 == *n {
            return true;
        }
        i += 1;
    }
    false
}

proof fn lemma_entries_push_new(m: Seq<(String, Vec<String>)>, k: String, v: Vec<String>, n: Seq<char>)
    requires
        entries_of(m, k@) is None,
    ensures
        entries_of(m.push((k, v)), n) == if n == k@ { Some(v@) } else { entries_of(m, n) },
    decreases m.len(),
{
    if m.len() > 0 {
        assert(m.push((k, v))[0] == m[0]);
        if m[0].0@ != n {
            assert(m[0].0@ != k@);
            assert(entries_of(m, k@) == entries_of(m.drop_first(), k@));
            lemma_entries_push_new(m.drop_first(), k, v, n);
            assert(m.push((k, v)).drop_first() =~= m.drop_first().push((k, v)));
            assert(entries_of(m.push((k, v)), n) == entries_of(m.push((k, v)).drop_first(), n));
            assert(entries_of(m, n) == entries_of(m.drop_first(), n));
        } else {
            assert(m[0].0@ != k@);
        }
    } else {
        assert(m.push((k, v))[0] == (k, v));
        assert(m.push((k, v)).drop_first() =~= Seq::<(String, Vec<String>)>::empty());
    }
}

/// The proven dependency names (each once) and the parameters of each defined dependency
/// (those of its first definition), from all files.
pub fn build_dep_caches(files: &Vec<CacheFile>) -> (r: (Vec<String>, Vec<(String, Vec<String>)>))
    ensures
        string_views(r.0@).no_duplicates(),
        forall|n: Seq<char>| #[trigger] string_views(r.0@).contains(n) <==> proven_name(files@, n),
        forall|n: Seq<char>| #[trigger] params_of(r.1@, n) == first_params(all_defs(files@), n),
{
    let mut proven: Vec<String> = Vec::new();
    let mut params: Vec<(String, Vec<String>)> = Vec::new();
    let mut i: usize = 0;
    while i < files.len()
        invariant
            i <= files@.len(),
            string_views(proven@).no_duplicates(),
            forall|n: Seq<char>| #[trigger] string_views(proven@).contains(n) <==> proven_name(files@.take(i as int), n),
            forall|n: Seq<char>| #[trigger] params_of(params@, n) == first_params(all_defs(files@.take(i as int)), n),
        decreases files@.len() - i,
    {
        let f = &files[i];
        assert(files@.take(i + 1).drop_last() =~= files@.take(i as int));
        assert(files@.take(i + 1).last() == *f);
        let ghost p0 = string_views(proven@);
        let ghost d0 = all_defs(files@.take(i as int));
        let mut k: usize = 0;
        while k < f.dep_defs.len()
            invariant
                k <= f.dep_defs@.len(),
                string_views(proven@).no_duplicates(),
                forall|n: Seq<char>| #[trigger] string_views(proven@).contains(n) <==> (p0.contains(n)
                    || exists|t: int| 0 <= t < k && (#[trigger] f.dep_defs@[t]).has_yield && f.dep_defs@[t].name@ == n),
                forall|n: Seq<char>| #[trigger] params_of(params@, n) == first_params(d0 + f.dep_defs@.take(k as int), n),
            decreases f.dep_defs@.len() - k,
        {
            let d = &f.dep_defs[k];
            assert((d0 + f.dep_defs@.take(k + 1)).drop_last() =~= d0 + f.dep_defs@.take(k as int));
            assert((d0 + f.dep_defs@.take(k + 1)).last() == *d);
            if d.has_yield {
                add_name(&mut proven, &d.name);
            }
            if !lookup_entry(&params, &d.name) {
                let ghost m0 = params@;
                let pv = copy_strings(&d.param_names);
                params.push((d.name.clone(), pv));
                proof {
                    assert forall|n: Seq<char>| #[trigger] params_of(params@, n) == first_params(d0 + f.dep_defs@.take(k + 1), n) by {
                        lemma_entries_push_new(m0, d.name, pv, n);
                        assert(params_of(m0, n) == first_params(d0 + f.dep_defs@.take(k as int), n));
                    }
                }
            } else {
                assert forall|n: Seq<char>| #[trigger] params_of(params@, n) == first_params(d0 + f.dep_defs@.take(k + 1), n) by {
                    if n == d.name@ {
                        assert(params_of(params@, n) == first_params(d0 + f.dep_defs@.take(k as int), n));
                    }
                }
            }
            k += 1;
        }
        assert(f.dep_defs@.take(f.dep_defs@.len() as int) =~= f.dep_defs@);
        let ghost p1 = string_views(proven@);
        let mut k: usize = 0;
        while k < f.dep_refs.len()
            invariant
                k <= f.dep_refs@.len(),
                string_views(proven@).no_duplicates(),
                forall|n: Seq<char>| #[trigger] string_views(proven@).contains(n) <==> (p1.contains(n)
                    || (n.len() > 0 && exists|t: int| 0 <= t < k && !(#[trigger] f.dep_refs@[t]).1 && f.dep_refs@[t].0@ == n)),
            decreases f.dep_refs@.len() - k,
        {
            let r = &f.dep_refs[k];
            if !r.1 && r.0.as_str().unicode_len() > 0 {
                add_name(&mut proven, &r.0);
            }
            k += 1;
        }
        let ghost p2 = string_views(proven@);
        let mut k: usize = 0;
        while k < f.alias_fns.len()
            invariant
                k <= f.alias_fns@.len(),
                string_views(proven@).no_duplicates(),
                forall|n: Seq<char>| #[trigger] string_views(proven@).contains(n) <==> (p2.contains(n)
                    || (n.len() > 0 && exists|t: int| 0 <= t < k && (#[trigger] f.alias_fns@[t])@ == n)),
            decreases f.alias_fns@.len() - k,
        {
            if f.alias_fns[k].as_str().unicode_len() > 0 {
                add_name(&mut proven, &f.alias_fns[k]);
            }
            k += 1;
        }
        proof {
            assert(all_defs(files@.take(i + 1)) == d0 + f.dep_defs@);
            assert forall|n: Seq<char>| #[trigger] string_views(proven@).contains(n) <==> proven_name(files@.take(i + 1), n) by {
                let fs1 = files@.take(i + 1);
                if proven_name(fs1, n) {
                    let w = choose|w: int| 0 <= w < fs1.len() && proven_in(#[trigger] fs1[w], n);
                    if w < i {
                        assert(files@.take(i as int)[w] == fs1[w]);
                        assert(proven_name(files@.take(i as int), n));
                    } else {
                        assert(fs1[w] == *f);
                    }
                }
                if p0.contains(n) {
                    let w = choose|w: int| 0 <= w < i && proven_in(#[trigger] files@.take(i as int)[w], n);
                    assert(fs1[w] == files@.take(i as int)[w]);
                }
                if string_views(proven@).contains(n) && !p0.contains(n) {
                    assert(proven_in(fs1[i as int], n));
                }
            }
        }
        i += 1;
    }
    assert(files@.take(files@.len() as int) =~= files@);
    (proven, params)
}

/// The models of each file, with the file's URI.
pub struct ModelFile {
    pub uri: String,
    pub models: Vec<ModelFact>,
}

/// The (name, file) pairs of all models, in file order.
pub open spec fn model_pairs(fs: Seq<ModelFile>) -> Seq<(Seq<char>, Seq<char>)>
    decreases fs.len(),
{
    if fs.len() == 0 {
        Seq::empty()
    } else {
        model_pairs(fs.drop_last()) + fs.last().models@.map_values(|m: ModelFact| (m.name@, fs.last().uri@))
    }
}

/// The files defining a model named `n`, in order; none when there are none.
pub open spec fn model_files(ps: Seq<(Seq<char>, Seq<char>)>, n: Seq<char>) -> Option<Seq<Seq<char>>>
    decreases ps.len(),
{
    if ps.len() == 0 {
        None
    } else if ps.last().0 == n {
        match model_files(ps.drop_last(), n) {
            Some(v) => Some(v.push(ps.last().1)),
            None => Some(seq![ps.last().1]),
        }
    } else {
        model_files(ps.drop_last(), n)
    }
}

/// The model index: each model name with the files that define it, in file order.
pub fn build_model_index(files: &Vec<ModelFile>) -> (r: Vec<(String, Vec<String>)>)
    ensures
        forall|n: Seq<char>| #[trigger] params_of(r@, n) == model_files(model_pairs(files@), n),
{
    let mut m: Vec<(String, Vec<String>)> = Vec::new();
    let mut i: usize = 0;
    while i < files.len()
        invariant
            i <= files@.len(),
            forall|n: Seq<char>| #[trigger] params_of(m@, n) == model_files(model_pairs(files@.take(i as int)), n),
        decreases files@.len() - i,
    {
        let f = &files[i];
        assert(files@.take(i + 1).drop_last() =~= files@.take(i as int));
        assert(files@.take(i + 1).last() == *f);
        let ghost base = model_pairs(files@.take(i as int));
        let ghost mp = f.models@.map_values(|x: ModelFact| (x.name@, f.uri@));
        let mut k: usize = 0;
        while k < f.models.len()
            invariant
                k <= f.models@.len(),
                mp == f.models@.map_values(|x: ModelFact| (x.name@, f.uri@)),
                forall|n: Seq<char>| #[trigger] params_of(m@, n) == model_files(base + mp.take(k as int), n),
            decreases f.models@.len() - k,
        {
            let ghost m0 = m@;
            let ghost cur = base + mp.take(k as int);
            push_keyed(&mut m, f.models[k].name.as_str(), f.uri.clone());
            proof {
                assert(base + mp.take(k + 1) =~= cur.push((f.models@[k as int].name@, f.uri@)));
                assert((base + mp.take(k + 1)).drop_last() =~= cur);
                assert forall|n: Seq<char>| #[trigger] params_of(m@, n) == model_files(base + mp.take(k + 1), n) by {
                    assert(entries_of(m@, n) == pushed(m0, f.models@[k as int].name@, f.uri, n));
                    assert(params_of(m0, n) == model_files(cur, n));
                    match entries_of(m0, n) {
                        Some(vs) => {
                            assert(string_views(vs.push(f.uri)) =~= string_views(vs).push(f.uri@));
                        },
                        None => {
                            assert(string_views(seq![f.uri]) =~= seq![f.uri@]);
                        },
                    }
                }
            }
            k += 1;
        }
        assert(mp.take(mp.len() as int) =~= mp);
        i += 1;
    }
    assert(files@.take(files@.len() as int) =~= files@);
    m
}

} // verus!
