//! The env index: every env variable that the env files define or a settings class field
//! reads, with its value and where it is defined.
use vstd::prelude::*;
use crate::position::{Location, Range};
use crate::hovers::EnvEntry;
use crate::goto::{env_get, lv};
use crate::settings::{class_index, collect_settings_fields, find_class, out_views, walk_fields, FieldView, SettingsClass};
use crate::testrefs::{has_key, locs_of};
use crate::analysis::SettingsField;
use crate::text::{contains_str, string_views};

verus! {

broadcast use vstd::string::group_string_axioms;

pub open spec fn loc_views(v: Seq<Location>) -> Seq<(Seq<char>, Range)> {
    v.map_values(|l: Location| lv(l))
}

/// The value of the first env-file entry for `k`.
pub open spec fn dot_value(d: Seq<(String, EnvEntry)>, k: Seq<char>) -> Option<Seq<char>>
    decreases d.len(),
{
    if d.len() == 0 {
        None
    } else {
        match dot_value(d.drop_last(), k) {
            Some(v) => Some(v),
            None => if d.last().0@ == k {
                Some(d.last().1.value@)
            } else {
                None
            },
        }
    }
}

/// The locations of all env-file entries for `k`, in order.
pub open spec fn dot_locs(d: Seq<(String, EnvEntry)>, k: Seq<char>) -> Seq<(Seq<char>, Range)>
    decreases d.len(),
{
    if d.len() == 0 {
        Seq::empty()
    } else {
        dot_locs(d.drop_last(), k) + if d.last().0@ == k {
            loc_views(d.last().1.locations@)
        } else {
            Seq::empty()
        }
    }
}

/// `base` followed by each of `extra` that is not there yet.
pub open spec fn add_new_locs(base: Seq<(Seq<char>, Range)>, extra: Seq<(Seq<char>, Range)>) -> Seq<(Seq<char>, Range)>
    decreases extra.len(),
{
    if extra.len() == 0 {
        base
    } else {
        let b = add_new_locs(base, extra.drop_last());
        if b.contains(extra.last()) {
            b
        } else {
            b.push(extra.last())
        }
    }
}

/// The (env key, location) of each field that reads an env key.
pub open spec fn field_sites(fvs: Seq<FieldView>) -> Seq<(Seq<char>, (Seq<char>, Range))>
    decreases fvs.len(),
{
    if fvs.len() == 0 {
        Seq::empty()
    } else {
        field_sites(fvs.drop_last()) + match fvs.last().1 {
            Some(k) => seq![(k, (fvs.last().0, fvs.last().3))],
            None => Seq::empty(),
        }
    }
}

/// The env-key sites of the settings classes: for each class name in order of first
/// declaration, the fields of the class and of the classes it inherits from
/// (`walk_fields`).
pub open spec fn class_sites(classes: Seq<SettingsClass>, n: int) -> Seq<(Seq<char>, (Seq<char>, Range))>
    decreases n,
{
    if n <= 0 {
        Seq::empty()
    } else {
        class_sites(classes, n - 1) + if class_index(classes, classes[n - 1].class_name@) == Some(n - 1) {
            field_sites(walk_fields(classes, classes[n - 1].class_name@, Seq::empty(), classes.len() + 1).0)
        } else {
            Seq::empty()
        }
    }
}

pub open spec fn dot_has(d: Seq<(String, EnvEntry)>, k: Seq<char>) -> bool {
    exists|i: int| 0 <= i < d.len() && #[trigger] d[i].0@ == k
}

/// The entry of env key `k`: the value of its first env-file entry ("" when only settings
/// fields read it), and the locations of its env-file entries followed by those of the
/// settings fields that read it, each location once.
pub open spec fn entry_view(d: Seq<(String, EnvEntry)>, s: Seq<(Seq<char>, (Seq<char>, Range))>, k: Seq<char>) -> (Seq<char>, Seq<(Seq<char>, Range)>) {
    (match dot_value(d, k) {
        Some(v) => v,
        None => Seq::empty(),
    }, add_new_locs(dot_locs(d, k), locs_of(s, k)))
}

pub open spec fn ev(e: EnvEntry) -> (Seq<char>, Seq<(Seq<char>, Range)>) {
    (e.value@, loc_views(e.locations@))
}

fn push_field_sites(out: &mut Vec<(String, Location)>, fields: &Vec<(String, SettingsField)>)
    ensures
        final(out)@.map_values(|p: (String, Location)| (p.0@, lv(p.1))) == old(out)@.map_values(|p: (String, Location)| (p.0@, lv(p.1))) + field_sites(out_views(fields@)),
{
    let ghost base = old(out)@.map_values(|p: (String, Location)| (p.0@, lv(p.1)));
    let mut i: usize = 0;
    while i < fields.len()
        invariant
            i <= fields@.len(),
            out@.map_values(|p: (String, Location)| (p.0@, lv(p.1))) == base + field_sites(out_views(fields@).take(i as int)),
        decreases fields@.len() - i,
    {
        let ghost fv = out_views(fields@);
        assert(fv.take(i + 1).drop_last() =~= fv.take(i as int));
        assert(fv.take(i + 1).last() == fv[i as int]);
        let ghost before = out@.map_values(|p: (String, Location)| (p.0@, lv(p.1)));
        let (uri, f) = (&fields[i].0, &fields[i].1);
        match &f.env_key {
            Some(k) => {
                out.push((k.clone(), Location { uri: uri.clone(), range: f.range }));
                assert(out@.map_values(|p: (String, Location)| (p.0@, lv(p.1))) =~= before + seq![(k@, (uri@, f.range))]);
            },
            None => {
                assert(before =~= before + Seq::<(Seq<char>, (Seq<char>, Range))>::empty());
            },
        }
        i += 1;
    }
    assert(out_views(fields@).take(fields@.len() as int) =~= out_views(fields@));
}

fn settings_sites(classes: &Vec<SettingsClass>) -> (r: Vec<(String, Location)>)
    ensures
        r@.map_values(|p: (String, Location)| (p.0@, lv(p.1))) == class_sites(classes@, classes@.len() as int),
{
    let mut out: Vec<(String, Location)> = Vec::new();
    let mut i: usize = 0;
    while i < classes.len()
        invariant
            i <= classes@.len(),
            out@.map_values(|p: (String, Location)| (p.0@, lv(p.1))) == class_sites(classes@, i as int),
        decreases classes@.len() - i,
    {
        let name = &classes[i].class_name;
        let ghost before = out@.map_values(|p: (String, Location)| (p.0@, lv(p.1)));
        match find_class(classes, name) {
            Some(k) => {
                if k == i {
                    let fields = collect_settings_fields(name, classes);
                    push_field_sites(&mut out, &fields);
                } else {
                    assert(before =~= before + Seq::<(Seq<char>, (Seq<char>, Range))>::empty());
                }
            },
            None => {
                assert(before =~= before + Seq::<(Seq<char>, (Seq<char>, Range))>::empty());
            },
        }
        i += 1;
    }
    out
}

pub open spec fn pair_views(v: Seq<(String, Location)>) -> Seq<(Seq<char>, (Seq<char>, Range))> {
    v.map_values(|p: (String, Location)| (p.0@, lv(p.1)))
}

/// Every key that an env-file entry or a site holds, each once.
fn all_keys(d: &Vec<(String, EnvEntry)>, sites: &Vec<(String, Location)>) -> (r: Vec<String>)
    ensures
        string_views(r@).no_duplicates(),
        forall|k: Seq<char>| #[trigger] string_views(r@).contains(k) <==> (dot_has(d@, k) || has_key(pair_views(sites@), k)),
{
    let mut out: Vec<String> = Vec::new();
    let mut i: usize = 0;
    while i < d.len()
        invariant
            i <= d@.len(),
            string_views(out@).no_duplicates(),
            forall|k: Seq<char>| #[trigger] string_views(out@).contains(k) <==> dot_has(d@.take(i as int), k),
        decreases d@.len() - i,
    {
        push_new(&mut out, &d[i].0);
        assert forall|k: Seq<char>| #[trigger] dot_has(d@.take(i + 1), k) <==> (dot_has(d@.take(i as int), k) || k == d@[i as int].0@) by {
            if dot_has(d@.take(i + 1), k) {
                let j = choose|j: int| 0 <= j < i + 1 && #[trigger] d@.take(i + 1)[j].0@ == k;
                if j < i {
                    assert(d@.take(i as int)[j].0@ == k);
                }
            }
            if dot_has(d@.take(i as int), k) {
                let j = choose|j: int| 0 <= j < i && #[trigger] d@.take(i as int)[j].0@ == k;
                assert(d@.take(i + 1)[j].0@ == k);
            }
            if k == d@[i as int].0@ {
                assert(d@.take(i + 1)[i as int].0@ == k);
            }
        }
        i += 1;
    }
    assert(d@.take(d@.len() as int) =~= d@);
    let ghost pv = pair_views(sites@);
    let mut j: usize = 0;
    while j < sites.len()
        invariant
            j <= sites@.len(),
            pv == pair_views(sites@),
            string_views(out@).no_duplicates(),
            forall|k: Seq<char>| #[trigger] string_views(out@).contains(k) <==> (dot_has(d@, k) || has_key(pv.take(j as int), k)),
        decreases sites@.len() - j,
    {
        push_new(&mut out, &sites[j].0);
        assert forall|k: Seq<char>| #[trigger] has_key(pv.take(j + 1), k) <==> (has_key(pv.take(j as int), k) || k == pv[j as int].0) by {
            if has_key(pv.take(j + 1), k) {
                let q = choose|q: int| 0 <= q < pv.take(j + 1).len() && #[trigger] pv.take(j + 1)[q].0 == k;
                if q < j {
                    assert(pv.take(j as int)[q].0 == k);
                }
            }
            if has_key(pv.take(j as int), k) {
                let q = choose|q: int| 0 <= q < pv.take(j as int).len() && #[trigger] pv.take(j as int)[q].0 == k;
                assert(pv.take(j + 1)[q].0 == k);
            }
            if k == pv[j as int].0 {
                assert(pv.take(j + 1)[j as int].0 == k);
            }
        }
        j += 1;
    }
    assert(pv.take(sites@.len() as int) =~= pv);
    out
}

fn push_new(out: &mut Vec<String>, k: &String)
    requires
        string_views(old(out)@).no_duplicates(),
    ensures
        string_views(final(out)@).no_duplicates(),
        forall|x: Seq<char>| #[trigger] string_views(final(out)@).contains(x) <==> (string_views(old(out)@).contains(x) || x == k@),
{
    let ghost prev = string_views(out@);
    if !contains_str(out.as_slice(), k.as_str()) {
        out.push(k.clone());
        assert(string_views(out@) =~= prev.push(k@));
        assert forall|a: int, b: int| 0 <= a < b < string_views(out@).len() implies #[trigger] string_views(out@)[a] != #[trigger] string_views(out@)[b] by {
            if b == prev.len() {
                assert(prev[a] == string_views(out@)[a]);
            }
        }
        assert forall|x: Seq<char>| #[trigger] string_views(out@).contains(x) <==> (prev.contains(x) || x == k@) by {
            if string_views(out@).contains(x) {
                let q = choose|q: int| 0 <= q < string_views(out@).len() && #[trigger] string_views(out@)[q] == x;
                if q < prev.len() {
                    assert(prev[q] == x);
                }
            }
            if prev.contains(x) {
                let q = choose|q: int| 0 <= q < prev.len() && #[trigger] prev[q] == x;
                assert(string_views(out@)[q] == x);
            }
            if x == k@ {
                assert(string_views(out@)[prev.len() as int] == x);
            }
        }
    }
}

fn copy_locs(out: &mut Vec<Location>, v: &Vec<Location>)
    ensures
        loc_views(final(out)@) == loc_views(old(out)@) + loc_views(v@),
{
    let ghost base = loc_views(out@);
    let mut i: usize = 0;
    while i < v.len()
        invariant
            i <= v@.len(),
            loc_views(out@) == base + loc_views(v@).take(i as int),
        decreases v@.len() - i,
    {
        let ghost before = loc_views(out@);
        out.push(Location { uri: v[i].uri.clone(), range: v[i].range });
        assert(loc_views(out@) =~= before.push(lv(v@[i as int])));
        assert(loc_views(v@).take(i + 1) =~= loc_views(v@).take(i as int).push(lv(v@[i as int])));
        i += 1;
    }
    assert(loc_views(v@).take(v@.len() as int) =~= loc_views(v@));
}

fn has_loc(v: &Vec<Location>, l: &Location) -> (b: bool)
    ensures
        b == loc_views(v@).contains(lv(*l)),
{
    let mut i: usize = 0;
    while i < v.len()
        invariant
            i <= v@.len(),
            forall|j: int| 0 <= j < i ==> #[trigger] loc_views(v@)[j] != lv(*l),
        decreases v@.len() - i,
    {
        if v[i].uri == l.uri && v[i].range == l.range {
            assert(loc_views(v@)[i as int] == lv(*l));
            return true;
        }
        i += 1;
    }
    false
}

/// The entry of one key (see `entry_view`).
fn entry_for(d: &Vec<(String, EnvEntry)>, sites: &Vec<(String, Location)>, k: &String) -> (r: EnvEntry)
    ensures
        ev(r) == entry_view(d@, pair_views(sites@), k@),
{
    let mut value: Option<String> = None;
    let mut locs: Vec<Location> = Vec::new();
    let mut i: usize = 0;
    while i < d.len()
        invariant
            i <= d@.len(),
            match value {
                Some(v) => dot_value(d@.take(i as int), k@) == Some(v@),
                None => dot_value(d@.take(i as int), k@) is None,
            },
            loc_views(locs@) == dot_locs(d@.take(i as int), k@),
        decreases d@.len() - i,
    {
        assert(d@.take(i + 1).drop_last() =~= d@.take(i as int));
        assert(d@.take(i + 1).last() == d@[i as int]);
        let ghost before = loc_views(locs@);
        if d[i].0 == *k {
            if value.is_none() {
                value = Some(d[i].1.value.clone());
            }
            copy_locs(&mut locs, &d[i].1.locations);
        } else {
            assert(before =~= before + Seq::<(Seq<char>, Range)>::empty());
        }
        i += 1;
    }
    assert(d@.take(d@.len() as int) =~= d@);
    let ghost pv = pair_views(sites@);
    let ghost base = loc_views(locs@);
    let mut j: usize = 0;
    while j < sites.len()
        invariant
            j <= sites@.len(),
            pv == pair_views(sites@),
            loc_views(locs@) == add_new_locs(base, locs_of(pv.take(j as int), k@)),
        decreases sites@.len() - j,
    {
        assert(pv.take(j + 1).drop_last() =~= pv.take(j as int));
        assert(pv.take(j + 1).last() == pv[j as int]);
        if sites[j].0 == *k {
            let l = &sites[j].1;
            let ghost extra = locs_of(pv.take(j + 1), k@);
            assert(extra =~= locs_of(pv.take(j as int), k@).push(lv(*l)));
            assert(extra.drop_last() =~= locs_of(pv.take(j as int), k@));
            if !has_loc(&locs, l) {
                let ghost before = loc_views(locs@);
                locs.push(Location { uri: l.uri.clone(), range: l.range });
                assert(loc_views(locs@) =~= before.push(lv(*l)));
            }
        } else {
            assert(locs_of(pv.take(j + 1), k@) =~= locs_of(pv.take(j as int), k@));
        }
        j += 1;
    }
    assert(pv.take(sites@.len() as int) =~= pv);
    let v = match value {
        Some(v) => v,
        None => String::new(),
    };
    EnvEntry { value: v, locations: locs }
}

proof fn lemma_env_get_push(r: Seq<(String, EnvEntry)>, e: (String, EnvEntry), x: Seq<char>)
    ensures
        env_get(r.push(e), x) == if exists|k: int| 0 <= k < r.len() && #[trigger] r[k].0@ == x {
            env_get(r, x)
        } else if e.0@ == x {
            Some(e.1)
        } else {
            None
        },
    decreases r.len(),
{
    if r.len() == 0 {
        assert(r.push(e)[0] == e);
        assert(r.push(e).drop_first().len() == 0);
        assert(env_get(r.push(e).drop_first(), x) is None);
    } else {
        assert(r.push(e).drop_first() =~= r.drop_first().push(e));
        assert(r.push(e)[0] == r[0]);
        lemma_env_get_push(r.drop_first(), e, x);
        if r[0].0@ != x {
            assert((exists|k: int| 0 <= k < r.len() && #[trigger] r[k].0@ == x) == (exists|k: int| 0 <= k < r.drop_first().len() && #[trigger] r.drop_first()[k].0@ == x)) by {
                if exists|k: int| 0 <= k < r.len() && #[trigger] r[k].0@ == x {
                    let k = choose|k: int| 0 <= k < r.len() && #[trigger] r[k].0@ == x;
                    assert(r.drop_first()[k - 1].0@ == x);
                }
                if exists|k: int| 0 <= k < r.drop_first().len() && #[trigger] r.drop_first()[k].0@ == x {
                    let k = choose|k: int| 0 <= k < r.drop_first().len() && #[trigger] r.drop_first()[k].0@ == x;
                    assert(r[k + 1].0@ == x);
                }
            }
        } else {
            assert(r[0].0@ == x);
        }
    }
}

/// The env index: one entry per env key that an env-file entry of `env_entries` defines or
/// a settings class field reads (`class_sites`), keys in order of first appearance, each
/// entry as `entry_view` gives it. `env_entries` holds the entries of the env files in the
/// order the files are read.
pub fn build_env_index(env_entries: &Vec<(String, EnvEntry)>, classes: &Vec<SettingsClass>) -> (r: Vec<(String, EnvEntry)>)
    ensures
        forall|k: Seq<char>| #[trigger] env_get(r@, k) is Some <==> (dot_has(env_entries@, k) || has_key(class_sites(classes@, classes@.len() as int), k)),
        forall|k: Seq<char>| #[trigger] env_get(r@, k) matches Some(e) ==> ev(e) == entry_view(env_entries@, class_sites(classes@, classes@.len() as int), k),
{
    let sites = settings_sites(classes);
    let keys = all_keys(env_entries, &sites);
    let ghost kv = string_views(keys@);
    let ghost s = pair_views(sites@);
    let mut out: Vec<(String, EnvEntry)> = Vec::new();
    let mut j: usize = 0;
    while j < keys.len()
        invariant
            j <= keys@.len(),
            kv == string_views(keys@),
            kv.no_duplicates(),
            s == pair_views(sites@),
            out@.map_values(|p: (String, EnvEntry)| p.0@) == kv.take(j as int),
            forall|x: Seq<char>| #[trigger] env_get(out@, x) is Some <==> kv.take(j as int).contains(x),
            forall|x: Seq<char>| #[trigger] env_get(out@, x) matches Some(e) ==> ev(e) == entry_view(env_entries@, s, x),
        decreases keys@.len() - j,
    {
        let k = &keys[j];
        let e = entry_for(env_entries, &sites, k);
        let kc = k.clone();
        assert(kc@ == kv[j as int]);
        let entry = (kc, e);
        let ghost old_out = out@;
        out.push(entry);
        proof {
            assert(out@ == old_out.push(entry));
            assert(out@.map_values(|p: (String, EnvEntry)| p.0@) =~= old_out.map_values(|p: (String, EnvEntry)| p.0@).push(kv[j as int]));
            assert(kv.take(j + 1) =~= kv.take(j as int).push(kv[j as int]));
            assert forall|x: Seq<char>| (exists|q: int| 0 <= q < old_out.len() && #[trigger] old_out[q].0@ == x) <==> kv.take(j as int).contains(x) by {
                if exists|q: int| 0 <= q < old_out.len() && #[trigger] old_out[q].0@ == x {
                    let q = choose|q: int| 0 <= q < old_out.len() && #[trigger] old_out[q].0@ == x;
                    assert(old_out.map_values(|p: (String, EnvEntry)| p.0@)[q] == x);
                }
                if kv.take(j as int).contains(x) {
                    let q = choose|q: int| 0 <= q < j && #[trigger] kv.take(j as int)[q] == x;
                    assert(old_out.map_values(|p: (String, EnvEntry)| p.0@)[q] == x);
                }
            }
            assert forall|x: Seq<char>| #[trigger] env_get(out@, x) is Some <==> kv.take(j + 1).contains(x) by {
                lemma_env_get_push(old_out, entry, x);
                if kv.take(j + 1).contains(x) && !kv.take(j as int).contains(x) {
                    let q = choose|q: int| 0 <= q < j + 1 && #[trigger] kv.take(j + 1)[q] == x;
                    if q < j {
                        assert(kv.take(j as int)[q] == x);
                    }
                }
                if kv.take(j as int).contains(x) {
                    let q = choose|q: int| 0 <= q < j && #[trigger] kv.take(j as int)[q] == x;
                    assert(kv.take(j + 1)[q] == x);
                }
                if x == kv[j as int] {
                    assert(kv.take(j + 1)[j as int] == x);
                }
            }
            assert forall|x: Seq<char>| #[trigger] env_get(out@, x) is Some implies ev(env_get(out@, x)->0) == entry_view(env_entries@, s, x) by {
                lemma_env_get_push(old_out, entry, x);
            }
        }
        j += 1;
    }
    assert(kv.take(keys@.len() as int) =~= kv);
    out
}

} // verus!
