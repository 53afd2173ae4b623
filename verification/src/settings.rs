//! The fields of a settings class and of the settings classes it inherits from.
use vstd::prelude::*;
use crate::analysis::SettingsField;
use crate::position::Range;
use crate::text::string_views;

verus! {

broadcast use vstd::string::group_string_axioms;

/// A settings class declaration: its name, its file, its fields and the names of its
/// superclasses, in declaration order.
#[derive(Clone, Debug)]
pub struct SettingsClass {
    pub class_name: String,
    pub uri: String,
    pub fields: Vec<SettingsField>,
    pub superclass_names: Vec<String>,
}

/// A field as the walk reports it: the class's file, the env key, whether it has a
/// default, its range.
pub type FieldView = (Seq<char>, Option<Seq<char>>, bool, Range);

pub open spec fn field_view(uri: Seq<char>, f: SettingsField) -> FieldView {
    (uri, match f.env_key {
        Some(k) => Some(k@),
        None => None,
    }, f.has_default, f.range)
}

/// The index of the first class named `name`.
pub open spec fn class_index(m: Seq<SettingsClass>, name: Seq<char>) -> Option<int>
    decreases m.len(),
{
    if m.len() == 0 {
        None
    } else {
        match class_index(m.drop_last(), name) {
            Some(k) => Some(k),
            None => if m.last().class_name@ == name {
                Some(m.len() - 1)
            } else {
                None
            },
        }
    }
}

/// A class's own fields, each with the class's file.
pub open spec fn own_fields(c: SettingsClass) -> Seq<FieldView> {
    c.fields@.map_values(|f: SettingsField| field_view(c.uri@, f))
}

/// The walk from class `name` with the classes `vis` already visited: nothing for a
/// visited name; otherwise the name is marked visited, and for a known class its own
/// fields come first, then those reached from each superclass in turn. `fuel` bounds the
/// depth; one more than the number of classes is enough (`settings_walk_depth_suffices`).
pub open spec fn walk_fields(m: Seq<SettingsClass>, name: Seq<char>, vis: Seq<Seq<char>>, fuel: nat) -> (Seq<FieldView>, Seq<Seq<char>>)
    decreases fuel, 0nat,
{
    if fuel == 0 || vis.contains(name) {
        (Seq::empty(), vis)
    } else {
        let vis1 = vis.push(name);
        match class_index(m, name) {
            None => (Seq::empty(), vis1),
            Some(k) => {
                let r = walk_list(m, string_views(m[k].superclass_names@), vis1, (fuel - 1) as nat);
                (own_fields(m[k]) + r.0, r.1)
            },
        }
    }
}

/// The walk over the superclasses `ps` in turn, each starting from what the previous ones
/// visited.
pub open spec fn walk_list(m: Seq<SettingsClass>, ps: Seq<Seq<char>>, vis: Seq<Seq<char>>, fuel: nat) -> (Seq<FieldView>, Seq<Seq<char>>)
    decreases fuel, ps.len(),
{
    if ps.len() == 0 {
        (Seq::empty(), vis)
    } else {
        let a = walk_fields(m, ps[0], vis, fuel);
        let b = walk_list(m, ps.drop_first(), a.1, fuel);
        (a.0 + b.0, b.1)
    }
}

pub open spec fn out_views(v: Seq<(String, SettingsField)>) -> Seq<FieldView> {
    v.map_values(|p: (String, SettingsField)| field_view(p.0@, p.1))
}

pub(crate) fn find_class(m: &Vec<SettingsClass>, name: &String) -> (r: Option<usize>)
    ensures
        match r {
            Some(k) => k < m@.len() && class_index(m@, name@) == Some(k as int),
            None => class_index(m@, name@) is None,
        },
{
    let mut res: Option<usize> = None;
    let mut i: usize = 0;
    while i < m.len()
        invariant
            i <= m@.len(),
            match res {
                Some(k) => k < i && class_index(m@.take(i as int), name@) == Some(k as int),
                None => class_index(m@.take(i as int), name@) is None,
            },
        decreases m@.len() - i,
    {
        assert(m@.take(i + 1).drop_last() =~= m@.take(i as int));
        assert(m@.take(i + 1).last() == m@[i as int]);
        if res.is_none() && m[i].class_name == *name {
            res = Some(i);
        }
        i += 1;
    }
    assert(m@.take(m@.len() as int) =~= m@);
    res
}

fn push_own(out: &mut Vec<(String, SettingsField)>, c: &SettingsClass)
    ensures
        out_views(final(out)@) == out_views(old(out)@) + own_fields(*c),
{
    let mut i: usize = 0;
    while i < c.fields.len()
        invariant
            i <= c.fields@.len(),
            out_views(out@) == out_views(old(out)@) + c.fields@.take(i as int).map_values(|f: SettingsField| field_view(c.uri@, f)),
        decreases c.fields@.len() - i,
    {
        let f = &c.fields[i];
        let key = match &f.env_key {
            Some(k) => Some(k.clone()),
            None => None,
        };
        let ghost before = out_views(out@);
        out.push((c.uri.clone(), SettingsField { env_key: key, has_default: f.has_default, range: f.range }));
        assert(out_views(out@) =~= before.push(field_view(c.uri@, c.fields@[i as int])));
        assert(c.fields@.take(i + 1).map_values(|f: SettingsField| field_view(c.uri@, f)) =~= c.fields@.take(i as int).map_values(|f: SettingsField| field_view(c.uri@, f)).push(field_view(c.uri@, c.fields@[i as int])));
        i += 1;
    }
    assert(c.fields@.take(c.fields@.len() as int) =~= c.fields@);
}

fn visited_has(vis: &Vec<String>, name: &String) -> (b: bool)
    ensures
        b == string_views(vis@).contains(name@),
{
    crate::text::contains_str(vis.as_slice(), name.as_str())
}

fn walk_class(m: &Vec<SettingsClass>, name: &String, vis: &mut Vec<String>, out: &mut Vec<(String, SettingsField)>, fuel: u128)
    ensures
        ({
            let r = walk_fields(m@, name@, string_views(old(vis)@), fuel as nat);
            &&& out_views(final(out)@) == out_views(old(out)@) + r.0
            &&& string_views(final(vis)@) == r.1
        }),
    decreases fuel, 0nat,
{
    if fuel == 0 || visited_has(vis, name) {
        return;
    }
    let ghost v0 = string_views(vis@);
    vis.push(name.clone());
    assert(string_views(vis@) =~= v0.push(name@));
    match find_class(m, name) {
        None => {
            assert(out_views(out@) =~= out_views(old(out)@) + Seq::<FieldView>::empty());
        },
        Some(k) => {
            let c = &m[k];
            push_own(out, c);
            walk_parents(m, &c.superclass_names, 0, vis, out, fuel - 1);
            assert(string_views(c.superclass_names@).skip(0) =~= string_views(c.superclass_names@));
            assert(out_views(out@) =~= out_views(old(out)@) + (own_fields(m@[k as int]) + walk_list(m@, string_views(c.superclass_names@), v0.push(name@), (fuel - 1) as nat).0));
        },
    }
}

fn walk_parents(m: &Vec<SettingsClass>, ps: &Vec<String>, start: usize, vis: &mut Vec<String>, out: &mut Vec<(String, SettingsField)>, fuel: u128)
    requires
        start <= ps@.len(),
    ensures
        ({
            let r = walk_list(m@, string_views(ps@).skip(start as int), string_views(old(vis)@), fuel as nat);
            &&& out_views(final(out)@) == out_views(old(out)@) + r.0
            &&& string_views(final(vis)@) == r.1
        }),
    decreases fuel, ps@.len() - start,
{
    let ghost rest = string_views(ps@).skip(start as int);
    if start == ps.len() {
        assert(rest.len() == 0);
        assert(out_views(out@) =~= out_views(old(out)@) + Seq::<FieldView>::empty());
        return;
    }
    assert(rest[0] == ps@[start as int]@);
    assert(rest.drop_first() =~= string_views(ps@).skip(start + 1));
    let ghost o0 = out_views(out@);
    walk_class(m, &ps[start], vis, out, fuel);
    walk_parents(m, ps, start + 1, vis, out, fuel);
    assert(out_views(out@) =~= o0 + (walk_fields(m@, rest[0], string_views(old(vis)@), fuel as nat).0
        + walk_list(m@, rest.drop_first(), walk_fields(m@, rest[0], string_views(old(vis)@), fuel as nat).1, fuel as nat).0));
}

/// The fields of settings class `class_name` and of the settings classes it inherits
/// from, each class visited once (see `walk_fields`), each field with its class's file.
pub fn collect_settings_fields(class_name: &String, classes: &Vec<SettingsClass>) -> (r: Vec<(String, SettingsField)>)
    ensures
        out_views(r@) == walk_fields(classes@, class_name@, Seq::empty(), classes@.len() + 1).0,
{
    let mut vis: Vec<String> = Vec::new();
    let mut out: Vec<(String, SettingsField)> = Vec::new();
    assert(string_views(vis@) =~= Seq::<Seq<char>>::empty());
    let fuel: u128 = (classes.len() as u128) + 1;
    walk_class(classes, class_name, &mut vis, &mut out, fuel);
    assert(out_views(out@) =~= Seq::<FieldView>::empty() + walk_fields(classes@, class_name@, Seq::empty(), classes@.len() + 1).0);
    out
}

proof fn lemma_class_index(m: Seq<SettingsClass>, name: Seq<char>)
    ensures
        class_index(m, name) matches Some(k) ==> 0 <= k < m.len() && m[k].class_name@ == name,
    decreases m.len(),
{
    if m.len() > 0 {
        lemma_class_index(m.drop_last(), name);
    }
}

proof fn lemma_push_contains(vis: Seq<Seq<char>>, name: Seq<char>)
    ensures
        forall|x: Seq<char>| #[trigger] vis.push(name).contains(x) <==> (vis.contains(x) || x == name),
{
    let vis1 = vis.push(name);
    assert forall|x: Seq<char>| #[trigger] vis1.contains(x) <==> (vis.contains(x) || x == name) by {
        if vis.contains(x) {
            let j = choose|j: int| 0 <= j < vis.len() && vis[j] == x;
            assert(vis1[j] == x);
        }
        if x == name {
            assert(vis1[vis.len() as int] == x);
        }
        if vis1.contains(x) {
            let j = choose|j: int| 0 <= j < vis1.len() && vis1[j] == x;
            if j < vis.len() {
                assert(vis[j] == x);
            }
        }
    }
}

proof fn lemma_walk_keeps_visited(m: Seq<SettingsClass>, name: Seq<char>, vis: Seq<Seq<char>>, fuel: nat)
    ensures
        forall|x: Seq<char>| vis.contains(x) ==> #[trigger] walk_fields(m, name, vis, fuel).1.contains(x),
    decreases fuel, 0nat,
{
    if fuel > 0 && !vis.contains(name) {
        let vis1 = vis.push(name);
        lemma_push_contains(vis, name);
        lemma_class_index(m, name);
        match class_index(m, name) {
            None => {},
            Some(k) => {
                let ps = string_views(m[k].superclass_names@);
                lemma_list_keeps_visited(m, ps, vis1, (fuel - 1) as nat);
                assert forall|x: Seq<char>| vis.contains(x) implies #[trigger] walk_fields(m, name, vis, fuel).1.contains(x) by {
                    assert(vis1.contains(x));
                    assert(walk_list(m, ps, vis1, (fuel - 1) as nat).1.contains(x));
                }
            },
        }
    }
}

proof fn lemma_list_keeps_visited(m: Seq<SettingsClass>, ps: Seq<Seq<char>>, vis: Seq<Seq<char>>, fuel: nat)
    ensures
        forall|x: Seq<char>| vis.contains(x) ==> #[trigger] walk_list(m, ps, vis, fuel).1.contains(x),
    decreases fuel, ps.len(),
{
    if ps.len() > 0 {
        let a = walk_fields(m, ps[0], vis, fuel);
        lemma_walk_keeps_visited(m, ps[0], vis, fuel);
        lemma_list_keeps_visited(m, ps.drop_first(), a.1, fuel);
        assert forall|x: Seq<char>| vis.contains(x) implies #[trigger] walk_list(m, ps, vis, fuel).1.contains(x) by {
            assert(a.1.contains(x));
            assert(walk_list(m, ps.drop_first(), a.1, fuel).1.contains(x));
        }
    }
}

spec fn unvisited(m: Seq<SettingsClass>, vis: Seq<Seq<char>>) -> Set<Seq<char>> {
    m.map_values(|c: SettingsClass| c.class_name@).to_set().difference(vis.to_set())
}

proof fn lemma_unvisited_finite(m: Seq<SettingsClass>, vis: Seq<Seq<char>>)
    ensures
        unvisited(m, vis).finite(),
        unvisited(m, vis).len() <= m.len(),
{
    let names = m.map_values(|c: SettingsClass| c.class_name@);
    vstd::seq_lib::seq_to_set_is_finite(names);
    names.lemma_cardinality_of_set();
    vstd::set_lib::lemma_len_subset(unvisited(m, vis), names.to_set());
}

proof fn lemma_unvisited_shrinks(m: Seq<SettingsClass>, vis: Seq<Seq<char>>, more: Seq<Seq<char>>)
    requires
        forall|x: Seq<char>| vis.contains(x) ==> #[trigger] more.contains(x),
    ensures
        unvisited(m, more).len() <= unvisited(m, vis).len(),
{
    lemma_unvisited_finite(m, vis);
    assert(unvisited(m, more).subset_of(unvisited(m, vis)));
    vstd::set_lib::lemma_len_subset(unvisited(m, more), unvisited(m, vis));
}

proof fn lemma_walk_fuel(m: Seq<SettingsClass>, name: Seq<char>, vis: Seq<Seq<char>>, f: nat, g: nat)
    requires
        f >= unvisited(m, vis).len() + 1,
        g >= unvisited(m, vis).len() + 1,
    ensures
        walk_fields(m, name, vis, f) == walk_fields(m, name, vis, g),
    decreases f, 0nat,
{
    if !vis.contains(name) {
        lemma_class_index(m, name);
        match class_index(m, name) {
            None => {},
            Some(k) => {
                let vis1 = vis.push(name);
                let names = m.map_values(|c: SettingsClass| c.class_name@);
                assert(names[k] == name);
                assert(names.to_set().contains(name));
                assert(unvisited(m, vis).contains(name));
                lemma_push_contains(vis, name);
                assert(unvisited(m, vis1) =~= unvisited(m, vis).remove(name));
                lemma_unvisited_finite(m, vis);
                lemma_list_fuel(m, string_views(m[k].superclass_names@), vis1, (f - 1) as nat, (g - 1) as nat);
            },
        }
    }
}

proof fn lemma_list_fuel(m: Seq<SettingsClass>, ps: Seq<Seq<char>>, vis: Seq<Seq<char>>, f: nat, g: nat)
    requires
        f >= unvisited(m, vis).len() + 1,
        g >= unvisited(m, vis).len() + 1,
    ensures
        walk_list(m, ps, vis, f) == walk_list(m, ps, vis, g),
    decreases f, ps.len(),
{
    if ps.len() > 0 {
        lemma_walk_fuel(m, ps[0], vis, f, g);
        let a = walk_fields(m, ps[0], vis, f);
        lemma_walk_keeps_visited(m, ps[0], vis, f);
        lemma_unvisited_shrinks(m, vis, a.1);
        lemma_list_fuel(m, ps.drop_first(), a.1, f, g);
    }
}

/// Law: the depth that `collect_settings_fields` allows its walk is enough. Each level of
/// the walk enters a class that it had not entered before, so any larger bound gives the
/// same fields.
pub proof fn settings_walk_depth_suffices(classes: Seq<SettingsClass>, name: Seq<char>, fuel: nat)
    requires
        fuel >= classes.len() + 1,
    ensures
        walk_fields(classes, name, Seq::empty(), fuel) == walk_fields(classes, name, Seq::empty(), classes.len() + 1),
{
    lemma_unvisited_finite(classes, Seq::empty());
    lemma_walk_fuel(classes, name, Seq::empty(), fuel, classes.len() + 1);
}

proof fn lemma_walk_distinct(m: Seq<SettingsClass>, name: Seq<char>, vis: Seq<Seq<char>>, fuel: nat)
    requires
        vis.no_duplicates(),
    ensures
        walk_fields(m, name, vis, fuel).1.no_duplicates(),
    decreases fuel, 0nat,
{
    if fuel > 0 && !vis.contains(name) {
        let vis1 = vis.push(name);
        assert(vis1.no_duplicates()) by {
            assert forall|i: int, j: int| 0 <= i < vis1.len() && 0 <= j < vis1.len() && i != j implies vis1[i] != vis1[j] by {
                if i == vis.len() {
                    assert(vis[j] == vis1[j]);
                } else if j == vis.len() {
                    assert(vis[i] == vis1[i]);
                }
            }
        }
        match class_index(m, name) {
            None => {},
            Some(k) => {
                lemma_list_distinct(m, string_views(m[k].superclass_names@), vis1, (fuel - 1) as nat);
            },
        }
    }
}

proof fn lemma_list_distinct(m: Seq<SettingsClass>, ps: Seq<Seq<char>>, vis: Seq<Seq<char>>, fuel: nat)
    requires
        vis.no_duplicates(),
    ensures
        walk_list(m, ps, vis, fuel).1.no_duplicates(),
    decreases fuel, ps.len(),
{
    if ps.len() > 0 {
        lemma_walk_distinct(m, ps[0], vis, fuel);
        lemma_list_distinct(m, ps.drop_first(), walk_fields(m, ps[0], vis, fuel).1, fuel);
    }
}

/// Law: the walk enters each class name at most once: the names it has entered contain no
/// name twice, even where a class is reached along several inheritance paths or around a
/// cycle (a class's own fields are added only as the walk enters it).
pub proof fn settings_walk_enters_each_class_once(classes: Seq<SettingsClass>, name: Seq<char>)
    ensures
        walk_fields(classes, name, Seq::empty(), classes.len() + 1).1.no_duplicates(),
{
    lemma_walk_distinct(classes, name, Seq::empty(), classes.len() + 1);
}

} // verus!
