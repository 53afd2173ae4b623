//! The graph of `Depends()` functions: nodes identified by where they are defined, edges
//! from a function to the dependencies it declares, name resolution, and cycles.
use vstd::prelude::*;
use crate::position::{Range, Location};
use crate::graph::{adj, wf_graph, edge, reversed_of, on_cycle, is_component, same_scc, cycle_components,
    cycle_components_spec, is_cycle_group, lemma_component_rep, lemma_on_cycle_scc};

verus! {

/// A dependency function, identified by the file and range of its definition.
#[derive(Clone, Debug, Hash)]
pub struct NodeId {
    pub uri: String,
    pub range: Range,
}

impl View for NodeId {
    type V = (Seq<char>, Range);

    open spec fn view(&self) -> (Seq<char>, Range) {
        (self.uri@, self.range)
    }
}

impl NodeId {
    /// A copy of this node identifier.
    pub fn duplicate(&self) -> (r: NodeId)
        ensures
            r@ == self@,
    {
        NodeId { uri: self.uri.clone(), range: self.range }
    }

    /// Whether two identifiers name the same definition.
    pub fn same(&self, other: &NodeId) -> (r: bool)
        ensures
            r == (self@ == other@),
    {
        self.uri == other.uri && self.range == other.range
    }
}

/// The dependency graph. Node `i` is `nodes[i]`; `uses[i]` lists the nodes that node `i`
/// depends on, `used_by[i]` those that depend on it, and `override_sites[i]` where it is
/// overridden.
#[derive(Debug)]
pub struct DepGraph {
    pub nodes: Vec<NodeId>,
    pub uses: Vec<Vec<usize>>,
    pub used_by: Vec<Vec<usize>>,
    pub override_sites: Vec<Vec<Location>>,
}

/// The views of a list of locations.
pub open spec fn loc_views(ls: Seq<Location>) -> Seq<(Seq<char>, Range)> {
    ls.map_values(|l: Location| (l.uri@, l.range))
}

/// The views of the override sites of every node.
pub open spec fn site_views(o: Seq<Vec<Location>>) -> Seq<Seq<(Seq<char>, Range)>> {
    o.map_values(|l: Vec<Location>| loc_views(l@))
}

/// The views of a list of node identifiers.
pub open spec fn node_views(ns: Seq<NodeId>) -> Seq<(Seq<char>, Range)> {
    ns.map_values(|n: NodeId| n@)
}

impl DepGraph {
    /// The graph is well formed: one adjacency list per node in each direction, every
    /// edge between nodes of the graph, `used_by` the reverse of `uses`, no edge listed
    /// twice, and no node listed twice.
    pub open spec fn wf(&self) -> bool {
        &&& self.uses@.len() == self.nodes@.len()
        &&& self.used_by@.len() == self.nodes@.len()
        &&& self.override_sites@.len() == self.nodes@.len()
        &&& wf_graph(adj(self.uses@))
        &&& wf_graph(adj(self.used_by@))
        &&& reversed_of(adj(self.used_by@), adj(self.uses@))
        &&& forall|i: int| 0 <= i < self.uses@.len() ==> (#[trigger] self.uses@[i])@.no_duplicates()
        &&& forall|i: int| 0 <= i < self.used_by@.len() ==> (#[trigger] self.used_by@[i])@.no_duplicates()
        &&& node_views(self.nodes@).no_duplicates()
    }

    /// An empty graph.
    pub fn new() -> (g: DepGraph)
        ensures
            g.wf(),
            g.nodes@.len() == 0,
    {
        let g = DepGraph { nodes: Vec::new(), uses: Vec::new(), used_by: Vec::new(), override_sites: Vec::new() };
        assert(node_views(g.nodes@) =~= Seq::<(Seq<char>, Range)>::empty());
        g
    }

    /// The index of `node`, adding it (without edges) when it is not in the graph yet.
    pub fn intern(&mut self, node: &NodeId) -> (i: usize)
        requires
            old(self).wf(),
            old(self).nodes@.len() < usize::MAX,
        ensures
            final(self).wf(),
            i < final(self).nodes@.len(),
            final(self).nodes@[i as int]@ == node@,
            old(self).nodes@.len() <= final(self).nodes@.len() <= old(self).nodes@.len() + 1,
            node_views(final(self).nodes@) == if node_views(old(self).nodes@).contains(node@) {
                node_views(old(self).nodes@)
            } else {
                node_views(old(self).nodes@).push(node@)
            },
            final(self).nodes@.len() == old(self).nodes@.len() ==> i < old(self).nodes@.len(),
            forall|k: int| 0 <= k < old(self).nodes@.len() ==> final(self).nodes@[k]@ == old(self).nodes@[k]@,
            adj(final(self).uses@) == adj(old(self).uses@) + Seq::new(
                (final(self).nodes@.len() - old(self).nodes@.len()) as nat,
                |k: int| Seq::<usize>::empty(),
            ),
            site_views(final(self).override_sites@) == site_views(old(self).override_sites@) + Seq::new(
                (final(self).nodes@.len() - old(self).nodes@.len()) as nat,
                |k: int| Seq::<(Seq<char>, Range)>::empty(),
            ),
    {
        let n = self.nodes.len();
        let mut i: usize = 0;
        while i < n
            invariant
                i <= n,
                n == self.nodes@.len(),
                self.wf(),
                forall|k: int| 0 <= k < i ==> self.nodes@[k]@ != node@,
            decreases n - i,
        {
            if self.nodes[i].same(node) {
                assert(node_views(self.nodes@)[i as int] == node@);
                assert(adj(self.uses@) =~= adj(self.uses@) + Seq::new(0, |k: int| Seq::<usize>::empty()));
                assert(site_views(self.override_sites@) =~= site_views(self.override_sites@) + Seq::new(
                    0,
                    |k: int| Seq::<(Seq<char>, Range)>::empty(),
                ));
                return i;
            }
            i += 1;
        }
        assert(!node_views(self.nodes@).contains(node@)) by {
            if node_views(self.nodes@).contains(node@) {
                let k = choose|k: int| 0 <= k < n && node_views(self.nodes@)[k] == node@;
                assert(self.nodes@[k]@ == node@);
            }
        }
        let ghost g0 = adj(self.uses@);
        let ghost r0 = adj(self.used_by@);
        let ghost nv0 = node_views(self.nodes@);
        let ghost s0 = site_views(self.override_sites@);
        self.nodes.push(node.duplicate());
        self.uses.push(Vec::new());
        self.used_by.push(Vec::new());
        self.override_sites.push(Vec::new());
        proof {
            let g1 = adj(self.uses@);
            let r1 = adj(self.used_by@);
            assert(g1 =~= g0.push(Seq::<usize>::empty()));
            assert(r1 =~= r0.push(Seq::<usize>::empty()));
            assert(node_views(self.nodes@) =~= nv0.push(node@));
            assert forall|a: int, b: int| edge(r1, a, b) <==> edge(g1, b, a) by {
                if edge(r1, a, b) {
                    let k = choose|k: int| 0 <= k < r1[a].len() && #[trigger] r1[a][k] as int == b;
                    assert(a < n);
                    assert(r0[a][k] as int == b);
                    assert(edge(r0, a, b));
                    assert(b < n);
                    assert(edge(g0, b, a));
                    let k2 = choose|k2: int| 0 <= k2 < g0[b].len() && #[trigger] g0[b][k2] as int == a;
                    assert(g1[b][k2] as int == a);
                }
                if edge(g1, b, a) {
                    let k = choose|k: int| 0 <= k < g1[b].len() && #[trigger] g1[b][k] as int == a;
                    assert(b < n);
                    assert(g0[b][k] as int == a);
                    assert(edge(g0, b, a));
                    assert(edge(r0, a, b));
                    let k2 = choose|k2: int| 0 <= k2 < r0[a].len() && #[trigger] r0[a][k2] as int == b;
                    assert(r1[a][k2] as int == b);
                }
            }
            assert(adj(self.uses@) =~= g0 + Seq::new(1, |k: int| Seq::<usize>::empty()));
            assert(loc_views(self.override_sites@[n as int]@) =~= Seq::<(Seq<char>, Range)>::empty());
            assert(site_views(self.override_sites@) =~= s0 + Seq::new(1, |k: int| Seq::<(Seq<char>, Range)>::empty()));
        }
        n
    }
}


fn list_contains(l: &Vec<usize>, x: usize) -> (r: bool)
    ensures
        r == l@.contains(x),
{
    let mut i: usize = 0;
    while i < l.len()
        invariant
            i <= l@.len(),
            forall|k: int| 0 <= k < i ==> l@[k] != x,
        decreases l@.len() - i,
    {
        if l[i] == x {
            return true;
        }
        i += 1;
    }
    false
}

/// `l` with `x` appended unless it is already there.
pub open spec fn push_new(l: Seq<usize>, x: usize) -> Seq<usize> {
    if l.contains(x) {
        l
    } else {
        l.push(x)
    }
}

impl DepGraph {
    /// Records that node `caller` depends on node `callee` (once, however often it is
    /// recorded), in both directions.
    pub fn add_use(&mut self, caller: usize, callee: usize)
        requires
            old(self).wf(),
            caller < old(self).nodes@.len(),
            callee < old(self).nodes@.len(),
        ensures
            final(self).wf(),
            final(self).nodes@ == old(self).nodes@,
            final(self).override_sites@ == old(self).override_sites@,
            adj(final(self).uses@) == adj(old(self).uses@).update(
                caller as int,
                push_new(old(self).uses@[caller as int]@, callee),
            ),
            adj(final(self).used_by@) == adj(old(self).used_by@).update(
                callee as int,
                push_new(old(self).used_by@[callee as int]@, caller),
            ),
            forall|a: int, b: int|
                edge(adj(final(self).uses@), a, b) <==> (edge(adj(old(self).uses@), a, b) || (a == caller
                    && b == callee)),
    {
        let ghost g0 = adj(self.uses@);
        let ghost r0 = adj(self.used_by@);
        let present = list_contains(&self.uses[caller], callee);
        let present_back = list_contains(&self.used_by[callee], caller);
        proof {
            if present {
                let k = choose|k: int| 0 <= k < g0[caller as int].len() && g0[caller as int][k] == callee;
                assert(g0[caller as int][k] as int == callee as int);
                assert(edge(g0, caller as int, callee as int));
                assert(edge(r0, callee as int, caller as int));
                let k2 = choose|k2: int| 0 <= k2 < r0[callee as int].len() && #[trigger] r0[callee as int][k2] as int == caller;
                assert(self.used_by@[callee as int]@[k2] == caller);
            }
            if present_back {
                let k = choose|k: int| 0 <= k < r0[callee as int].len() && r0[callee as int][k] == caller;
                assert(r0[callee as int][k] as int == caller as int);
                assert(edge(r0, callee as int, caller as int));
                assert(edge(g0, caller as int, callee as int));
                let k2 = choose|k2: int| 0 <= k2 < g0[caller as int].len() && #[trigger] g0[caller as int][k2] as int == callee;
                assert(self.uses@[caller as int]@[k2] == callee);
            }
        }
        assert(present == present_back);
        if !present {
            self.uses[caller].push(callee);
            self.used_by[callee].push(caller);
        }
        proof {
            let g1 = adj(self.uses@);
            let r1 = adj(self.used_by@);
            assert(g1 =~= g0.update(caller as int, push_new(g0[caller as int], callee)));
            assert(r1 =~= r0.update(callee as int, push_new(r0[callee as int], caller)));
            assert forall|a: int, b: int|
                edge(g1, a, b) <==> (edge(g0, a, b) || (a == caller && b == callee)) by {
                if edge(g1, a, b) {
                    let k = choose|k: int| 0 <= k < g1[a].len() && #[trigger] g1[a][k] as int == b;
                    if !(a == caller && b == callee) {
                        assert(k < g0[a].len());
                        assert(g0[a][k] as int == b);
                    }
                }
                if edge(g0, a, b) {
                    let k = choose|k: int| 0 <= k < g0[a].len() && #[trigger] g0[a][k] as int == b;
                    assert(g1[a][k] as int == b);
                }
                if a == caller && b == callee && !present {
                    assert(g1[a][g0[a].len() as int] as int == b);
                }
            }
            assert forall|a: int, b: int|
                edge(r1, a, b) <==> (edge(r0, a, b) || (a == callee && b == caller)) by {
                if edge(r1, a, b) {
                    let k = choose|k: int| 0 <= k < r1[a].len() && #[trigger] r1[a][k] as int == b;
                    if !(a == callee && b == caller) {
                        assert(k < r0[a].len());
                        assert(r0[a][k] as int == b);
                    }
                }
                if edge(r0, a, b) {
                    let k = choose|k: int| 0 <= k < r0[a].len() && #[trigger] r0[a][k] as int == b;
                    assert(r1[a][k] as int == b);
                }
                if a == callee && b == caller && !present {
                    assert(r1[a][r0[a].len() as int] as int == b);
                }
            }
            assert forall|u: int, i: int| 0 <= u < g1.len() && 0 <= i < g1[u].len() implies (#[trigger] g1[u][i]) < g1.len() by {
                if !(u == caller && i == g0[u].len()) {
                    assert(g1[u][i] == g0[u][i]);
                }
            }
            assert forall|u: int, i: int| 0 <= u < r1.len() && 0 <= i < r1[u].len() implies (#[trigger] r1[u][i]) < r1.len() by {
                if !(u == callee && i == r0[u].len()) {
                    assert(r1[u][i] == r0[u][i]);
                }
            }
            assert forall|i: int| 0 <= i < self.uses@.len() implies (#[trigger] self.uses@[i])@.no_duplicates() by {
                assert(self.uses@[i]@ == g1[i]);
            }
            assert forall|i: int| 0 <= i < self.used_by@.len() implies (#[trigger] self.used_by@[i])@.no_duplicates() by {
                assert(self.used_by@[i]@ == r1[i]);
            }
        }
    }
}


fn copy_list(l: &Vec<usize>) -> (r: Vec<usize>)
    ensures
        r@ == l@,
{
    let mut r: Vec<usize> = Vec::new();
    let mut i: usize = 0;
    while i < l.len()
        invariant
            i <= l@.len(),
            r@ == l@.take(i as int),
        decreases l@.len() - i,
    {
        r.push(l[i]);
        i += 1;
        assert(r@ =~= l@.take(i as int));
    }
    assert(l@.take(l@.len() as int) =~= l@);
    r
}

/// For every node, the strongly connected component it belongs to when that component
/// contains a cycle (a node depending on itself, directly or through others), and
/// `None` for nodes on no cycle.
pub fn build_cycle_map(dep_graph: &DepGraph) -> (r: Vec<Option<Vec<usize>>>)
    requires
        dep_graph.wf(),
    ensures
        r@.len() == dep_graph.nodes@.len(),
        forall|v: int|
            0 <= v < r@.len() ==> ((#[trigger] r@[v]) is Some <==> on_cycle(adj(dep_graph.uses@), v)),
        forall|v: int|
            0 <= v < r@.len() ==> (#[trigger] r@[v] matches Some(c) ==> is_component(adj(dep_graph.uses@), c@, v)),
        forall|v: int, w: usize| 0 <= v < r@.len() ==> #[trigger] member_shares_list(r@, v, w),
        forall|v: int| 0 <= v < r@.len() ==> (#[trigger] r@[v] matches Some(c) ==> (crate::graph::simple_cycle(adj(dep_graph.uses@), c@)
            ==> crate::graph::in_cycle_order(adj(dep_graph.uses@), c@))),
{
    let ghost g = adj(dep_graph.uses@);
    let raw = cycle_components(&dep_graph.uses);
    let ghost rs = raw@.map_values(|x: Vec<usize>| x@);
    assert(cycle_components_spec(g, rs));
    let mut groups: Vec<Vec<usize>> = Vec::new();
    let mut q: usize = 0;
    assert(g.len() == dep_graph.uses.len());
    while q < raw.len()
        invariant
            q <= raw@.len(),
            g == adj(dep_graph.uses@),
            wf_graph(g),
            g.len() <= usize::MAX,
            rs == raw@.map_values(|x: Vec<usize>| x@),
            cycle_components_spec(g, rs),
            groups@.len() == q,
            forall|k: int| 0 <= k < q ==> is_cycle_group(g, #[trigger] groups@[k]@),
            forall|k: int, x: usize| 0 <= k < q ==> (#[trigger] groups@[k]@.contains(x) <==> rs[k].contains(x)),
            forall|k: int| 0 <= k < q ==> (crate::graph::simple_cycle(g, #[trigger] groups@[k]@) ==> crate::graph::in_cycle_order(g, groups@[k]@)),
        decreases raw@.len() - q,
    {
        assert(rs[q as int] == raw@[q as int]@);
        assert(is_cycle_group(g, rs[q as int]));
        let o = crate::graph::order_cycle(&dep_graph.uses, &raw[q]);
        proof {
            let sg = rs[q as int];
            let og = o@;
            assert forall|x: int| 0 <= x < g.len() implies (og.contains(x as usize) <==> same_scc(g, og[0] as int, x)) by {
                assert(og.contains(x as usize) <==> sg.contains(x as usize));
            }
            assert forall|i: int| 0 <= i < og.len() implies (#[trigger] og[i]) < g.len() by {
                assert(og.contains(og[i]));
                assert(sg.contains(og[i]));
                let j = choose|j: int| 0 <= j < sg.len() && sg[j] == og[i];
            }
            assert(is_cycle_group(g, og));
            if crate::graph::simple_cycle(g, og) {
                assert(crate::graph::simple_cycle(g, sg)) by {
                    assert forall|u: usize, w1: usize, w2: usize|
                        #![trigger sg.contains(u), edge(g, u as int, w1 as int), edge(g, u as int, w2 as int)]
                        sg.contains(u) && sg.contains(w1) && sg.contains(w2) && edge(g, u as int, w1 as int) && edge(g, u as int, w2 as int) implies w1 == w2 by {
                        assert(og.contains(u) && og.contains(w1) && og.contains(w2));
                    }
                }
            }
        }
        groups.push(o);
        q += 1;
    }
    let ghost gs = groups@.map_values(|x: Vec<usize>| x@);
    proof {
        assert forall|k: int| 0 <= k < gs.len() implies #[trigger] is_cycle_group(g, gs[k]) by {
            assert(gs[k] == groups@[k]@);
        }
        assert forall|k1: int, k2: int, x: usize| 0 <= k1 < k2 < gs.len() implies !(#[trigger] gs[k1].contains(x) && #[trigger] gs[k2].contains(x)) by {
            assert(gs[k1] == groups@[k1]@ && gs[k2] == groups@[k2]@);
            assert(groups@[k1]@.contains(x) <==> rs[k1].contains(x));
            assert(groups@[k2]@.contains(x) <==> rs[k2].contains(x));
        }
        assert forall|v: int| 0 <= v < g.len() && on_cycle(g, v) implies exists|k: int| 0 <= k < gs.len() && #[trigger] gs[k].contains(v as usize) by {
            let k = choose|k: int| 0 <= k < rs.len() && #[trigger] rs[k].contains(v as usize);
            assert(groups@[k]@.contains(v as usize));
            assert(gs[k] == groups@[k]@);
        }
    }
    assert(cycle_components_spec(g, gs));
    let n = dep_graph.nodes.len();
    let mut map: Vec<Option<Vec<usize>>> = Vec::new();
    let mut v: usize = 0;
    while v < n
        invariant
            v <= n,
            n == dep_graph.nodes@.len(),
            n == g.len(),
            g == adj(dep_graph.uses@),
            gs == groups@.map_values(|x: Vec<usize>| x@),
            cycle_components_spec(g, gs),
            map@.len() == v,
            forall|w: int| 0 <= w < v ==> ((#[trigger] map@[w]) is Some <==> on_cycle(g, w)),
            forall|w: int| 0 <= w < v ==> (#[trigger] map@[w] matches Some(c) ==> is_component(g, c@, w)),
            forall|w: int| 0 <= w < v ==> (#[trigger] map@[w] matches Some(c) ==> exists|k: int| 0 <= k < gs.len() && c@ == gs[k] && #[trigger] gs[k].contains(w as usize)),
            forall|k: int| 0 <= k < gs.len() ==> (crate::graph::simple_cycle(g, #[trigger] gs[k]) ==> crate::graph::in_cycle_order(g, gs[k])),
            forall|w: int| 0 <= w < v ==> (#[trigger] map@[w] matches Some(c) ==> (crate::graph::simple_cycle(g, c@) ==> crate::graph::in_cycle_order(g, c@))),
        decreases n - v,
    {
        let mut found: Option<Vec<usize>> = None;
        let mut k: usize = 0;
        while k < groups.len()
            invariant_except_break
                found is None,
            invariant
                k <= groups@.len(),
                v < n,
                n == g.len(),
                gs == groups@.map_values(|x: Vec<usize>| x@),
                cycle_components_spec(g, gs),
                forall|k2: int| 0 <= k2 < k ==> !(#[trigger] gs[k2]).contains(v),
            ensures
                found is None ==> forall|k2: int| 0 <= k2 < gs.len() ==> !(#[trigger] gs[k2]).contains(v),
                found matches Some(c) ==> is_component(g, c@, v as int) && on_cycle(g, v as int),
                found matches Some(c) ==> exists|k2: int| 0 <= k2 < gs.len() && c@ == gs[k2] && #[trigger] gs[k2].contains(v),
            decreases groups@.len() - k,
        {
            if list_contains(&groups[k], v) {
                proof {
                    assert(gs[k as int] == groups@[k as int]@);
                    assert(is_cycle_group(g, gs[k as int]));
                    lemma_component_rep(g, gs[k as int], gs[k as int][0] as int, v);
                    let rep = gs[k as int][0] as int;
                    assert(gs[k as int].contains(v));
                    assert(same_scc(g, rep, v as int));
                    lemma_on_cycle_scc(g, rep, v as int);
                }
                found = Some(copy_list(&groups[k]));
                break;
            }
            k += 1;
        }
        proof {
            if found is None {
                if on_cycle(g, v as int) {
                    let k2 = choose|k2: int| 0 <= k2 < gs.len() && #[trigger] gs[k2].contains(v as usize);
                    assert(false);
                }
            }
        }
        map.push(found);
        v += 1;
    }
    proof {
        assert forall|a: int, w: usize| 0 <= a < map@.len() implies #[trigger] member_shares_list(map@, a, w) by {
          if map@[a] is Some && map@[a]->0@.contains(w) {
            let c = map@[a]->0;
            let k = choose|k: int| 0 <= k < gs.len() && c@ == gs[k] && #[trigger] gs[k].contains(a as usize);
            assert(is_cycle_group(g, gs[k]));
            assert(is_component(g, c@, a));
            let wi = choose|i: int| 0 <= i < c@.len() && c@[i] == w;
            assert(c@[wi] < g.len());
            assert(same_scc(g, a, w as int));
            crate::graph::lemma_on_cycle_scc(g, a, w as int);
            assert(map@[w as int] is Some);
            let c2 = map@[w as int]->0;
            let k2 = choose|k2: int| 0 <= k2 < gs.len() && c2@ == gs[k2] && #[trigger] gs[k2].contains(w);
            if k < k2 {
                assert(!(gs[k].contains(w) && gs[k2].contains(w)));
            } else if k2 < k {
                assert(!(gs[k2].contains(w) && gs[k].contains(w)));
            }
          }
        }
    }
    map
}

/// Every member of node `v`'s cycle maps to the very same list.
pub open spec fn member_shares_list(r: Seq<Option<Vec<usize>>>, v: int, w: usize) -> bool {
    match r[v] {
        Some(c) => c@.contains(w) ==> (w < r.len() && match r[w as int] {
            Some(c2) => c2@ == c@,
            None => false,
        }),
        None => true,
    }
}


/// A dependency function defined in a file.
#[derive(Clone, Debug)]
pub struct DepDef {
    pub name: String,
    pub node_id: NodeId,
}

/// Definitions by name; each name has one entry, listing its definitions in the order
/// they were found.
pub type DefIndex = Vec<(String, Vec<NodeId>)>;

/// The definitions listed under `name` (none when the name has no entry).
pub open spec fn def_views(ix: Seq<(String, Vec<NodeId>)>, name: Seq<char>) -> Seq<(Seq<char>, Range)>
    decreases ix.len(),
{
    if ix.len() == 0 {
        Seq::empty()
    } else if ix[0].0@ == name {
        node_views(ix[0].1@)
    } else {
        def_views(ix.drop_first(), name)
    }
}

/// Name resolution among the definitions `cands` of a name, seen from file `uri`: the
/// definition in that file when there is exactly one there, else the only definition in
/// the workspace when there is exactly one, else nothing.
pub open spec fn resolved(cands: Seq<(Seq<char>, Range)>, uri: Seq<char>) -> Option<(Seq<char>, Range)> {
    let local = cands.filter(|n: (Seq<char>, Range)| n.0 == uri);
    if local.len() == 1 {
        Some(local[0])
    } else if cands.len() == 1 {
        Some(cands[0])
    } else {
        None
    }
}

/// The view of an optional node identifier.
pub open spec fn opt_view(o: Option<NodeId>) -> Option<(Seq<char>, Range)> {
    match o {
        Some(n) => Some(n@),
        None => None,
    }
}

fn find_defs<'a>(ix: &'a DefIndex, name: &str) -> (r: Option<&'a Vec<NodeId>>)
    ensures
        match r {
            Some(l) => node_views(l@) == def_views(ix@, name@),
            None => def_views(ix@, name@) == Seq::<(Seq<char>, Range)>::empty(),
        },
{
    let key: String = name.to_owned();
    let mut i: usize = 0;
    assert(ix@.skip(0) =~= ix@);
    while i < ix.len()
        invariant
            i <= ix@.len(),
            key@ == name@,
            def_views(ix@, name@) == def_views(ix@.skip(i as int), name@),
        decreases ix@.len() - i,
    {
        assert(ix@.skip(i as int).drop_first() =~= ix@.skip(i + 1));
        if ix[i].0 == key {
            return Some(&ix[i].1);
        }
        i += 1;
    }
    None
}

/// Resolves a dependency name used in file `file_uri` (see `resolved`).
pub fn resolve_def(name: &str, file_uri: &str, def_index: &DefIndex) -> (r: Option<NodeId>)
    ensures
        opt_view(r) == resolved(def_views(def_index@, name@), file_uri@),
{
    let cands = match find_defs(def_index, name) {
        Some(c) => c,
        None => {
            proof {
                let e = Seq::<(Seq<char>, Range)>::empty();
                assert(e.filter(|n: (Seq<char>, Range)| n.0 == file_uri@) =~= e);
            }
            return None;
        },
    };
    let ghost cv = node_views(cands@);
    let ghost pred = |n: (Seq<char>, Range)| n.0 == file_uri@;
    let uri_s: String = file_uri.to_owned();
    let mut local_count: usize = 0;
    let mut first_local: usize = 0;
    let mut i: usize = 0;
    while i < cands.len()
        invariant
            i <= cands@.len(),
            cv == node_views(cands@),
            uri_s@ == file_uri@,
            pred == (|n: (Seq<char>, Range)| n.0 == file_uri@),
            local_count == cv.take(i as int).filter(pred).len(),
            local_count > 0 ==> first_local < i && cv.take(i as int).filter(pred)[0] == cv[first_local as int],
            local_count <= i,
        decreases cands@.len() - i,
    {
        assert(cv.take(i + 1) =~= cv.take(i as int).push(cv[i as int]));
        proof {
            cv.take(i as int).lemma_filter_push(cv[i as int], pred);
        }
        if cands[i].uri == uri_s {
            if local_count == 0 {
                first_local = i;
            }
            local_count += 1;
        }
        i += 1;
    }
    assert(cv.take(cv.len() as int) =~= cv);
    if local_count == 1 {
        Some(cands[first_local].duplicate())
    } else if cands.len() == 1 {
        Some(cands[0].duplicate())
    } else {
        None
    }
}


/// A use of a dependency (`Depends(name)`), inside the function `containing_func` when
/// it is not at module scope; `caller_node_id` is that function when it is known exactly.
#[derive(Clone, Debug)]
pub struct DepRef {
    pub name: String,
    pub caller_node_id: Option<NodeId>,
    pub containing_func: Option<String>,
    /// Where the name stands.
    pub range: Range,
    /// The reference is a call (`Depends(name())`).
    pub is_called: bool,
    /// For a call, the range of the call expression `name()`.
    pub callee_range: Option<Range>,
}

/// A `dependency_overrides[name]` assignment.
#[derive(Clone, Debug)]
pub struct OverrideSite {
    pub name: String,
    pub range: Range,
}

/// The dependency facts of one file.
#[derive(Clone, Debug)]
pub struct FileDeps {
    pub uri: String,
    pub dep_defs: Vec<DepDef>,
    pub dep_refs: Vec<DepRef>,
    pub override_sites: Vec<OverrideSite>,
}

/// The definitions named `name` among `defs`, in order.
pub open spec fn file_defs_named(defs: Seq<DepDef>, name: Seq<char>) -> Seq<(Seq<char>, Range)> {
    defs.filter(|d: DepDef| d.name@ == name).map_values(|d: DepDef| d.node_id@)
}

/// The definitions named `name` in all files, in file order.
pub open spec fn defs_named(files: Seq<FileDeps>, name: Seq<char>) -> Seq<(Seq<char>, Range)>
    decreases files.len(),
{
    if files.len() == 0 {
        Seq::empty()
    } else {
        defs_named(files.drop_last(), name) + file_defs_named(files.last().dep_defs@, name)
    }
}

/// No two entries of the index share a name.
pub open spec fn keys_distinct(ix: Seq<(String, Vec<NodeId>)>) -> bool {
    forall|a: int, b: int| 0 <= a < b < ix.len() ==> (#[trigger] ix[a]).0@ != (#[trigger] ix[b]).0@
}

proof fn lemma_def_views_absent(ix: Seq<(String, Vec<NodeId>)>, name: Seq<char>)
    requires
        forall|a: int| 0 <= a < ix.len() ==> (#[trigger] ix[a]).0@ != name,
    ensures
        def_views(ix, name) == Seq::<(Seq<char>, Range)>::empty(),
    decreases ix.len(),
{
    if ix.len() > 0 {
        assert forall|a: int| 0 <= a < ix.drop_first().len() implies (#[trigger] ix.drop_first()[a]).0@ != name by {
            assert(ix.drop_first()[a] == ix[a + 1]);
        }
        lemma_def_views_absent(ix.drop_first(), name);
    }
}

proof fn lemma_def_views_update(ix: Seq<(String, Vec<NodeId>)>, k: int, l: Vec<NodeId>, name: Seq<char>)
    requires
        keys_distinct(ix),
        0 <= k < ix.len(),
    ensures
        def_views(ix.update(k, (ix[k].0, l)), name) == if ix[k].0@ == name {
            node_views(l@)
        } else {
            def_views(ix, name)
        },
    decreases ix.len(),
{
    let ix2 = ix.update(k, (ix[k].0, l));
    if k == 0 {
        if ix[0].0@ != name {
            assert(ix2.drop_first() =~= ix.drop_first());
        }
    } else {
        assert(ix2.drop_first() =~= ix.drop_first().update(k - 1, (ix[k].0, l)));
        assert(keys_distinct(ix.drop_first())) by {
            assert forall|a: int, b: int| 0 <= a < b < ix.drop_first().len() implies (#[trigger] ix.drop_first()[a]).0@ != (#[trigger] ix.drop_first()[b]).0@ by {
                assert(ix.drop_first()[a] == ix[a + 1] && ix.drop_first()[b] == ix[b + 1]);
            }
        }
        lemma_def_views_update(ix.drop_first(), k - 1, l, name);
        assert(ix.drop_first()[k - 1] == ix[k]);
        if ix[0].0@ == name {
            assert(ix[0].0@ != ix[k].0@);
        }
    }
}

proof fn lemma_def_views_push(ix: Seq<(String, Vec<NodeId>)>, e: (String, Vec<NodeId>), name: Seq<char>)
    requires
        forall|a: int| 0 <= a < ix.len() ==> (#[trigger] ix[a]).0@ != e.0@,
    ensures
        def_views(ix.push(e), name) == if e.0@ == name {
            node_views(e.1@)
        } else {
            def_views(ix, name)
        },
    decreases ix.len(),
{
    if ix.len() == 0 {
        assert(ix.push(e).drop_first() =~= ix);
    } else {
        assert(ix.push(e).drop_first() =~= ix.drop_first().push(e));
        assert forall|a: int| 0 <= a < ix.drop_first().len() implies (#[trigger] ix.drop_first()[a]).0@ != e.0@ by {
            assert(ix.drop_first()[a] == ix[a + 1]);
        }
        lemma_def_views_push(ix.drop_first(), e, name);
    }
}

/// Indexes every definition of every file by name, in file order.
pub fn build_def_index(files: &[FileDeps]) -> (ix: DefIndex)
    ensures
        keys_distinct(ix@),
        forall|name: Seq<char>| #[trigger] def_views(ix@, name) == defs_named(files@, name),
{
    let mut ix: DefIndex = Vec::new();
    let mut i: usize = 0;
    while i < files.len()
        invariant
            i <= files@.len(),
            keys_distinct(ix@),
            forall|name: Seq<char>| #[trigger] def_views(ix@, name) == defs_named(files@.take(i as int), name),
        decreases files@.len() - i,
    {
        let defs = &files[i].dep_defs;
        let ghost base = ix@;
        let mut j: usize = 0;
        assert forall|name: Seq<char>| #[trigger] def_views(ix@, name) == defs_named(files@.take(i as int), name) + file_defs_named(defs@.take(0), name) by {
            assert(file_defs_named(defs@.take(0), name) =~= Seq::<(Seq<char>, Range)>::empty());
            assert(defs_named(files@.take(i as int), name) + Seq::<(Seq<char>, Range)>::empty() =~= defs_named(files@.take(i as int), name));
        }
        while j < defs.len()
            invariant
                i < files@.len(),
                defs == &files@[i as int].dep_defs,
                j <= defs@.len(),
                keys_distinct(ix@),
                forall|name: Seq<char>| #[trigger] def_views(ix@, name) == defs_named(files@.take(i as int), name)
                    + file_defs_named(defs@.take(j as int), name),
            decreases defs@.len() - j,
        {
            let d = &defs[j];
            let ghost v = d.node_id@;
            let ghost x = d.name@;
            proof {
                let pred = |dd: DepDef| dd.name@ == x;
                assert(defs@.take(j + 1) =~= defs@.take(j as int).push(defs@[j as int]));
                assert forall|name: Seq<char>| #[trigger] file_defs_named(defs@.take(j + 1), name) == file_defs_named(defs@.take(j as int), name) + if x == name {
                    seq![v]
                } else {
                    Seq::<(Seq<char>, Range)>::empty()
                } by {
                    let p2 = |dd: DepDef| dd.name@ == name;
                    defs@.take(j as int).lemma_filter_push(defs@[j as int], p2);
                    if x == name {
                        assert(defs@.take(j as int).filter(p2).push(defs@[j as int]).map_values(|dd: DepDef| dd.node_id@)
                            =~= defs@.take(j as int).filter(p2).map_values(|dd: DepDef| dd.node_id@).push(v));
                    } else {
                        assert(file_defs_named(defs@.take(j as int), name) + Seq::<(Seq<char>, Range)>::empty() =~= file_defs_named(defs@.take(j as int), name));
                    }
                }
            }
            let key: String = d.name.clone();
            let n = ix.len();
            let mut k: usize = 0;
            while k < n
                invariant
                    k <= n,
                    n == ix@.len(),
                    key@ == x,
                    forall|a: int| 0 <= a < k ==> (#[trigger] ix@[a]).0@ != x,
                ensures
                    k <= n,
                    forall|a: int| 0 <= a < k ==> (#[trigger] ix@[a]).0@ != x,
                    k < n ==> ix@[k as int].0@ == x,
                decreases n - k,
            {
                if ix[k].0 == key {
                    break;
                }
                k += 1;
            }
            let ghost old_ix = ix@;
            if k < n {
                let ghost l0 = ix@[k as int].1;
                ix[k].1.push(d.node_id.duplicate());
                proof {
                    let l1 = ix@[k as int].1;
                    assert(ix@ =~= old_ix.update(k as int, (old_ix[k as int].0, l1)));
                    assert(node_views(l1@) =~= node_views(l0@).push(v));
                    assert forall|name: Seq<char>| #[trigger] def_views(ix@, name) == defs_named(files@.take(i as int), name)
                        + file_defs_named(defs@.take(j + 1), name) by {
                        lemma_def_views_update(old_ix, k as int, l1, name);
                        if x == name {
                            assert(def_views(old_ix, name) == node_views(l0@)) by {
                                lemma_def_views_update(old_ix, k as int, l0, name);
                                assert(old_ix.update(k as int, (old_ix[k as int].0, l0)) =~= old_ix);
                            }
                            assert(defs_named(files@.take(i as int), name) + file_defs_named(defs@.take(j as int), name).push(v)
                                =~= (defs_named(files@.take(i as int), name) + file_defs_named(defs@.take(j as int), name)).push(v));
                        } else {
                            assert(file_defs_named(defs@.take(j as int), name) + Seq::<(Seq<char>, Range)>::empty() =~= file_defs_named(defs@.take(j as int), name));
                        }
                    }
                    assert forall|a: int, b: int| 0 <= a < b < ix@.len() implies (#[trigger] ix@[a]).0@ != (#[trigger] ix@[b]).0@ by {
                        assert(ix@[a].0 == old_ix[a].0 && ix@[b].0 == old_ix[b].0);
                    }
                }
            } else {
                let mut l: Vec<NodeId> = Vec::new();
                l.push(d.node_id.duplicate());
                ix.push((key, l));
                proof {
                    assert(node_views(l@) =~= seq![v]);
                    assert forall|name: Seq<char>| #[trigger] def_views(ix@, name) == defs_named(files@.take(i as int), name)
                        + file_defs_named(defs@.take(j + 1), name) by {
                        lemma_def_views_push(old_ix, (key, l), name);
                        if x == name {
                            lemma_def_views_absent(old_ix, name);
                            assert(defs_named(files@.take(i as int), name) + file_defs_named(defs@.take(j as int), name) =~= Seq::<(Seq<char>, Range)>::empty());
                            assert(defs_named(files@.take(i as int), name) + file_defs_named(defs@.take(j + 1), name)
                                =~= (defs_named(files@.take(i as int), name) + file_defs_named(defs@.take(j as int), name)) + seq![v]);
                        } else {
                            assert(file_defs_named(defs@.take(j as int), name) + Seq::<(Seq<char>, Range)>::empty() =~= file_defs_named(defs@.take(j as int), name));
                        }
                    }
                }
            }
            j += 1;
        }
        proof {
            assert(defs@.take(defs@.len() as int) =~= defs@);
            assert(files@.take(i + 1).drop_last() =~= files@.take(i as int));
            assert forall|name: Seq<char>| #[trigger] def_views(ix@, name) == defs_named(files@.take(i + 1), name) by {
                assert(files@.take(i + 1).last() == files@[i as int]);
            }
        }
        i += 1;
    }
    assert(files@.take(files@.len() as int) =~= files@);
    ix
}


/// The first definition named `name` in a file, if any.
pub open spec fn first_def_named(defs: Seq<DepDef>, name: Seq<char>) -> Option<(Seq<char>, Range)> {
    let m = file_defs_named(defs, name);
    if m.len() > 0 {
        Some(m[0])
    } else {
        None
    }
}

/// The function that a dependency use belongs to: the exact node when the use carries
/// one, else the first definition in the same file named like the containing function.
pub open spec fn caller_of(f: FileDeps, r: DepRef) -> Option<(Seq<char>, Range)> {
    match r.caller_node_id {
        Some(id) => Some(id@),
        None => match r.containing_func {
            Some(fname) => first_def_named(f.dep_defs@, fname@),
            None => None,
        },
    }
}

/// The edge (caller, callee) that a dependency use in file `f` contributes: none for an
/// empty name, an unresolvable name, or a use whose caller is unknown.
pub open spec fn ref_edge(files: Seq<FileDeps>, f: FileDeps, r: DepRef) -> Option<((Seq<char>, Range), (Seq<char>, Range))> {
    if r.name@.len() == 0 {
        None
    } else {
        match (caller_of(f, r), resolved(defs_named(files, r.name@), f.uri@)) {
            (Some(a), Some(b)) => Some((a, b)),
            _ => None,
        }
    }
}

/// Position (`i2`, `j2`) comes before position (`i`, `j`) in the dependency uses of `files`.
pub open spec fn use_before(files: Seq<FileDeps>, i: int, j: int, i2: int, j2: int) -> bool {
    &&& 0 <= i2 < files.len()
    &&& 0 <= j2 < files[i2].dep_refs@.len()
    &&& (i2 < i || (i2 == i && j2 < j))
}

/// Some dependency use before (`i`, `j`) contributes the edge (`a`, `b`).
pub open spec fn edge_seen(files: Seq<FileDeps>, i: int, j: int, a: (Seq<char>, Range), b: (Seq<char>, Range)) -> bool {
    exists|i2: int, j2: int|
        #[trigger] use_before(files, i, j, i2, j2) && ref_edge(files, files[i2], files[i2].dep_refs@[j2]) == Some((a, b))
}

/// Some dependency use in `files` contributes the edge (`a`, `b`).
pub open spec fn is_dep_edge(files: Seq<FileDeps>, a: (Seq<char>, Range), b: (Seq<char>, Range)) -> bool {
    edge_seen(files, files.len() as int, 0, a, b)
}

/// The graph with nodes `nv` and adjacency `g` has an edge from the node `a` to the node `b`.
pub open spec fn has_edge(nv: Seq<(Seq<char>, Range)>, g: Seq<Seq<usize>>, a: (Seq<char>, Range), b: (Seq<char>, Range)) -> bool {
    exists|x: int, y: int| 0 <= x < nv.len() && 0 <= y < nv.len() && #[trigger] nv[x] == a && #[trigger] nv[y] == b && edge(g, x, y)
}

proof fn lemma_seen_step(files: Seq<FileDeps>, i: int, j: int, a: (Seq<char>, Range), b: (Seq<char>, Range))
    requires
        0 <= i < files.len(),
        0 <= j < files[i].dep_refs@.len(),
    ensures
        edge_seen(files, i, j + 1, a, b) <==> (edge_seen(files, i, j, a, b) || ref_edge(files, files[i], files[i].dep_refs@[j]) == Some((a, b))),
{
    if edge_seen(files, i, j + 1, a, b) {
        let (i2, j2) = choose|i2: int, j2: int|
            #[trigger] use_before(files, i, j + 1, i2, j2) && ref_edge(files, files[i2], files[i2].dep_refs@[j2]) == Some((a, b));
        if !(i2 == i && j2 == j) {
            assert(use_before(files, i, j, i2, j2));
        }
    }
    if edge_seen(files, i, j, a, b) {
        let (i2, j2) = choose|i2: int, j2: int|
            #[trigger] use_before(files, i, j, i2, j2) && ref_edge(files, files[i2], files[i2].dep_refs@[j2]) == Some((a, b));
        assert(use_before(files, i, j + 1, i2, j2));
    }
    if ref_edge(files, files[i], files[i].dep_refs@[j]) == Some((a, b)) {
        assert(use_before(files, i, j + 1, i, j));
    }
}

proof fn lemma_seen_next(files: Seq<FileDeps>, i: int, a: (Seq<char>, Range), b: (Seq<char>, Range))
    requires
        0 <= i < files.len(),
    ensures
        edge_seen(files, i + 1, 0, a, b) <==> edge_seen(files, i, files[i].dep_refs@.len() as int, a, b),
{
    if edge_seen(files, i + 1, 0, a, b) {
        let (i2, j2) = choose|i2: int, j2: int|
            #[trigger] use_before(files, i + 1, 0, i2, j2) && ref_edge(files, files[i2], files[i2].dep_refs@[j2]) == Some((a, b));
        assert(use_before(files, i, files[i].dep_refs@.len() as int, i2, j2));
    }
    if edge_seen(files, i, files[i].dep_refs@.len() as int, a, b) {
        let (i2, j2) = choose|i2: int, j2: int|
            #[trigger] use_before(files, i, files[i].dep_refs@.len() as int, i2, j2) && ref_edge(files, files[i2], files[i2].dep_refs@[j2]) == Some((a, b));
        assert(use_before(files, i + 1, 0, i2, j2));
    }
}

/// Appending nodes (and possibly one edge between nodes `xa` and `xb`) changes the edges
/// by at most that one edge.
proof fn lemma_has_edge_grow(
    nv0: Seq<(Seq<char>, Range)>,
    g0: Seq<Seq<usize>>,
    nv1: Seq<(Seq<char>, Range)>,
    g1: Seq<Seq<usize>>,
    added: bool,
    xa: int,
    xb: int,
)
    requires
        g0.len() == nv0.len(),
        wf_graph(g0),
        nv0.len() <= nv1.len(),
        forall|k: int| 0 <= k < nv0.len() ==> nv1[k] == nv0[k],
        nv1.no_duplicates(),
        0 <= xa < nv1.len(),
        0 <= xb < nv1.len(),
        forall|x: int, y: int| edge(g1, x, y) <==> (edge(g0, x, y) || (added && x == xa && y == xb)),
    ensures
        forall|a: (Seq<char>, Range), b: (Seq<char>, Range)|
            has_edge(nv1, g1, a, b) <==> (has_edge(nv0, g0, a, b) || (added && a == nv1[xa] && b == nv1[xb])),
{
    assert forall|a: (Seq<char>, Range), b: (Seq<char>, Range)|
        has_edge(nv1, g1, a, b) <==> (has_edge(nv0, g0, a, b) || (added && a == nv1[xa] && b == nv1[xb])) by {
        if has_edge(nv1, g1, a, b) {
            let (x, y) = choose|x: int, y: int| 0 <= x < nv1.len() && 0 <= y < nv1.len() && #[trigger] nv1[x] == a && #[trigger] nv1[y] == b && edge(g1, x, y);
            if edge(g0, x, y) {
                assert(nv0[x] == a && nv0[y] == b);
            }
        }
        if has_edge(nv0, g0, a, b) {
            let (x, y) = choose|x: int, y: int| 0 <= x < nv0.len() && 0 <= y < nv0.len() && #[trigger] nv0[x] == a && #[trigger] nv0[y] == b && edge(g0, x, y);
            assert(nv1[x] == a && nv1[y] == b);
            assert(edge(g1, x, y));
        }
        if added && a == nv1[xa] && b == nv1[xb] {
            assert(edge(g1, xa, xb));
        }
    }
}

/// After appending nodes with empty adjacency lists, the edges are those of before.
proof fn lemma_edges_extend(g0: Seq<Seq<usize>>, g1: Seq<Seq<usize>>, d: nat)
    requires
        wf_graph(g0),
        g1 == g0 + Seq::new(d, |k: int| Seq::<usize>::empty()),
    ensures
        forall|x: int, y: int| edge(g1, x, y) <==> edge(g0, x, y),
{
    assert forall|x: int, y: int| edge(g1, x, y) <==> edge(g0, x, y) by {
        if edge(g1, x, y) {
            let k = choose|k: int| 0 <= k < g1[x].len() && #[trigger] g1[x][k] as int == y;
            assert(x < g0.len());
            assert(g0[x][k] < g0.len());
        }
        if edge(g0, x, y) {
            let k = choose|k: int| 0 <= k < g0[x].len() && #[trigger] g0[x][k] as int == y;
            assert(g1[x][k] as int == y);
        }
    }
}

fn ref_caller(f: &FileDeps, r: &DepRef) -> (c: Option<NodeId>)
    ensures
        opt_view(c) == caller_of(*f, *r),
{
    match &r.caller_node_id {
        Some(id) => Some(id.duplicate()),
        None => match &r.containing_func {
            Some(fname) => {
                let defs = &f.dep_defs;
                let ghost pred = |d: DepDef| d.name@ == fname@;
                let mut k: usize = 0;
                while k < defs.len()
                    invariant
                        k <= defs@.len(),
                        defs == &f.dep_defs,
                        r.caller_node_id is None,
                        r.containing_func == Some(*fname),
                        pred == (|d: DepDef| d.name@ == fname@),
                        defs@.take(k as int).filter(pred).len() == 0,
                    decreases defs@.len() - k,
                {
                    assert(defs@.take(k + 1) =~= defs@.take(k as int).push(defs@[k as int]));
                    proof {
                        defs@.take(k as int).lemma_filter_push(defs@[k as int], pred);
                    }
                    if defs[k].name == *fname {
                        proof {
                            assert(defs@ =~= defs@.take(k + 1) + defs@.skip(k + 1));
                            Seq::filter_distributes_over_add(defs@.take(k + 1), defs@.skip(k + 1), pred);
                            assert(defs@.take(k + 1).filter(pred) =~= seq![defs@[k as int]]);
                            assert(defs@.filter(pred)[0] == defs@[k as int]);
                            assert(defs@.filter(pred).len() > 0);
                            assert(file_defs_named(defs@, fname@).len() > 0);
                            assert(file_defs_named(defs@, fname@)[0] == defs@[k as int].node_id@);
                            assert(first_def_named(f.dep_defs@, fname@) == Some(defs@[k as int].node_id@));
                        }
                        return Some(defs[k].node_id.duplicate());
                    }
                    k += 1;
                }
                assert(defs@.take(defs@.len() as int) =~= defs@);
                None
            },
            None => None,
        },
    }
}


/// Number of dependency uses in `files`.
pub open spec fn uses_count(files: Seq<FileDeps>) -> nat
    decreases files.len(),
{
    if files.len() == 0 {
        0
    } else {
        uses_count(files.drop_last()) + files.last().dep_refs@.len()
    }
}

/// Number of override sites in `files`.
pub open spec fn sites_count(files: Seq<FileDeps>) -> nat
    decreases files.len(),
{
    if files.len() == 0 {
        0
    } else {
        sites_count(files.drop_last()) + files.last().override_sites@.len()
    }
}

/// The override sites among `sites` of file `f` whose name resolves to node `v`, as
/// locations.
pub open spec fn file_overrides(files: Seq<FileDeps>, f: FileDeps, sites: Seq<OverrideSite>, v: (Seq<char>, Range)) -> Seq<(Seq<char>, Range)> {
    sites.filter(|s: OverrideSite| resolved(defs_named(files, s.name@), f.uri@) == Some(v)).map_values(
        |s: OverrideSite| (f.uri@, s.range),
    )
}

/// The override sites in the files `fs` that resolve to node `v`, in file order.
pub open spec fn overrides_of(files: Seq<FileDeps>, fs: Seq<FileDeps>, v: (Seq<char>, Range)) -> Seq<(Seq<char>, Range)>
    decreases fs.len(),
{
    if fs.len() == 0 {
        Seq::empty()
    } else {
        overrides_of(files, fs.drop_last(), v) + file_overrides(files, fs.last(), fs.last().override_sites@, v)
    }
}

proof fn lemma_uses_count_prefix(files: Seq<FileDeps>, i: int)
    requires
        0 <= i < files.len(),
    ensures
        uses_count(files.take(i + 1)) == uses_count(files.take(i)) + files[i].dep_refs@.len(),
        uses_count(files.take(i + 1)) <= uses_count(files),
        sites_count(files.take(i + 1)) == sites_count(files.take(i)) + files[i].override_sites@.len(),
        sites_count(files.take(i + 1)) <= sites_count(files),
    decreases files.len(),
{
    assert(files.take(i + 1).drop_last() =~= files.take(i));
    if i + 1 < files.len() {
        lemma_uses_count_prefix(files.drop_last(), i);
        assert(files.drop_last().take(i + 1) =~= files.take(i + 1));
        assert(files.drop_last().take(i) =~= files.take(i));
    } else {
        assert(files.take(i + 1) =~= files);
    }
}

proof fn lemma_file_overrides_step(files: Seq<FileDeps>, f: FileDeps, sites: Seq<OverrideSite>, j: int, v: (Seq<char>, Range))
    requires
        0 <= j < sites.len(),
    ensures
        file_overrides(files, f, sites.take(j + 1), v) == file_overrides(files, f, sites.take(j), v) + if resolved(
            defs_named(files, sites[j].name@),
            f.uri@,
        ) == Some(v) {
            seq![(f.uri@, sites[j].range)]
        } else {
            Seq::<(Seq<char>, Range)>::empty()
        },
{
    let pred = |s: OverrideSite| resolved(defs_named(files, s.name@), f.uri@) == Some(v);
    assert(sites.take(j + 1) =~= sites.take(j).push(sites[j]));
    sites.take(j).lemma_filter_push(sites[j], pred);
    if pred(sites[j]) {
        assert(sites.take(j).filter(pred).push(sites[j]).map_values(|s: OverrideSite| (f.uri@, s.range))
            =~= sites.take(j).filter(pred).map_values(|s: OverrideSite| (f.uri@, s.range)).push((f.uri@, sites[j].range)));
    } else {
        assert(file_overrides(files, f, sites.take(j), v) + Seq::<(Seq<char>, Range)>::empty() =~= file_overrides(files, f, sites.take(j), v));
    }
}

/// Builds the dependency graph of a workspace: an edge from each function to every
/// dependency it uses (see `ref_edge`), each edge once, and the override sites of every
/// dependency (see `overrides_of`).
pub fn build_dep_graph(files: &[FileDeps]) -> (g: DepGraph)
    requires
        2 * uses_count(files@) + sites_count(files@) < usize::MAX,
    ensures
        g.wf(),
        forall|a: (Seq<char>, Range), b: (Seq<char>, Range)|
            is_dep_edge(files@, a, b) <==> has_edge(node_views(g.nodes@), adj(g.uses@), a, b),
        forall|x: int|
            0 <= x < g.nodes@.len() ==> #[trigger] site_views(g.override_sites@)[x] == overrides_of(
                files@,
                files@,
                g.nodes@[x]@,
            ),
        forall|v: (Seq<char>, Range)|
            #[trigger] overrides_of(files@, files@, v).len() > 0 ==> node_views(g.nodes@).contains(v),
{
    let ix = build_def_index(files);
    let mut g = DepGraph::new();
    let mut i: usize = 0;
    assert(files@.take(0) =~= Seq::<FileDeps>::empty());
    while i < files.len()
        invariant
            i <= files@.len(),
            2 * uses_count(files@) + sites_count(files@) < usize::MAX,
            forall|name: Seq<char>| #[trigger] def_views(ix@, name) == defs_named(files@, name),
            g.wf(),
            g.nodes@.len() <= 2 * uses_count(files@.take(i as int)),
            uses_count(files@.take(i as int)) <= uses_count(files@),
            forall|a: (Seq<char>, Range), b: (Seq<char>, Range)|
                edge_seen(files@, i as int, 0, a, b) <==> has_edge(node_views(g.nodes@), adj(g.uses@), a, b),
            forall|x: int| 0 <= x < g.nodes@.len() ==> (#[trigger] site_views(g.override_sites@)[x]).len() == 0,
        decreases files@.len() - i,
    {
        let f = &files[i];
        proof {
            lemma_uses_count_prefix(files@, i as int);
        }
        let mut j: usize = 0;
        while j < f.dep_refs.len()
            invariant
                i < files@.len(),
                f == &files@[i as int],
                j <= f.dep_refs@.len(),
                2 * uses_count(files@) + sites_count(files@) < usize::MAX,
                uses_count(files@.take(i as int)) + f.dep_refs@.len() <= uses_count(files@),
                forall|name: Seq<char>| #[trigger] def_views(ix@, name) == defs_named(files@, name),
                g.wf(),
                g.nodes@.len() <= 2 * (uses_count(files@.take(i as int)) + j),
                forall|a: (Seq<char>, Range), b: (Seq<char>, Range)|
                    edge_seen(files@, i as int, j as int, a, b) <==> has_edge(node_views(g.nodes@), adj(g.uses@), a, b),
                forall|x: int| 0 <= x < g.nodes@.len() ==> (#[trigger] site_views(g.override_sites@)[x]).len() == 0,
            decreases f.dep_refs@.len() - j,
        {
            let r = &f.dep_refs[j];
            let ghost re = ref_edge(files@, *f, *r);
            let ghost nv0 = node_views(g.nodes@);
            let ghost g0 = adj(g.uses@);
            let ghost sv0 = site_views(g.override_sites@);
            proof {
                assert forall|a: (Seq<char>, Range), b: (Seq<char>, Range)|
                    edge_seen(files@, i as int, j + 1, a, b) <==> (edge_seen(files@, i as int, j as int, a, b) || re == Some((a, b))) by {
                    lemma_seen_step(files@, i as int, j as int, a, b);
                }
            }
            if !r.name.as_str().is_empty() {
                match resolve_def(r.name.as_str(), f.uri.as_str(), &ix) {
                    Some(callee) => match ref_caller(f, r) {
                        Some(caller) => {
                            let xa = g.intern(&caller);
                            let ghost g_mid = adj(g.uses@);
                            let ghost nv_mid = node_views(g.nodes@);
                            proof {
                                lemma_edges_extend(g0, g_mid, (g.nodes@.len() - nv0.len()) as nat);
                            }
                            let xb = g.intern(&callee);
                            let ghost g_mid2 = adj(g.uses@);
                            proof {
                                lemma_edges_extend(g_mid, g_mid2, (g.nodes@.len() - nv_mid.len()) as nat);
                            }
                            g.add_use(xa, xb);
                            proof {
                                assert(re == Some((caller@, callee@)));
                                lemma_has_edge_grow(nv0, g0, node_views(g.nodes@), adj(g.uses@), true, xa as int, xb as int);
                                assert(node_views(g.nodes@)[xa as int] == caller@);
                                assert(node_views(g.nodes@)[xb as int] == callee@);
                                assert forall|x: int| 0 <= x < g.nodes@.len() implies (#[trigger] site_views(g.override_sites@)[x]).len() == 0 by {
                                    if x < nv0.len() {
                                        assert(site_views(g.override_sites@)[x] == sv0[x]);
                                    }
                                }
                            }
                        },
                        None => {
                            assert(re is None);
                        },
                    },
                    None => {
                        assert(re is None);
                    },
                }
            } else {
                assert(re is None);
            }
            proof {
                assert forall|a: (Seq<char>, Range), b: (Seq<char>, Range)|
                    edge_seen(files@, i as int, j + 1, a, b) <==> has_edge(node_views(g.nodes@), adj(g.uses@), a, b) by {
                    lemma_seen_step(files@, i as int, j as int, a, b);
                    if re is None {
                        assert(node_views(g.nodes@) == nv0 && adj(g.uses@) == g0);
                    }
                }
            }
            j += 1;
        }
        proof {
            assert forall|a: (Seq<char>, Range), b: (Seq<char>, Range)|
                edge_seen(files@, i + 1, 0, a, b) <==> has_edge(node_views(g.nodes@), adj(g.uses@), a, b) by {
                lemma_seen_next(files@, i as int, a, b);
            }
        }
        i += 1;
    }
    assert(files@.take(files@.len() as int) =~= files@);
    let ghost nv1 = node_views(g.nodes@);
    let ghost g1 = adj(g.uses@);
    record_override_sites(files, &ix, &mut g);
    g
}


/// Records every override site under the node its name resolves to.
fn record_override_sites(files: &[FileDeps], ix: &DefIndex, g: &mut DepGraph)
    requires
        old(g).wf(),
        2 * uses_count(files@) + sites_count(files@) < usize::MAX,
        old(g).nodes@.len() <= 2 * uses_count(files@),
        forall|name: Seq<char>| #[trigger] def_views(ix@, name) == defs_named(files@, name),
        forall|x: int| 0 <= x < old(g).nodes@.len() ==> (#[trigger] site_views(old(g).override_sites@)[x]).len() == 0,
    ensures
        final(g).wf(),
        forall|a: (Seq<char>, Range), b: (Seq<char>, Range)|
            has_edge(node_views(final(g).nodes@), adj(final(g).uses@), a, b) <==> has_edge(
                node_views(old(g).nodes@),
                adj(old(g).uses@),
                a,
                b,
            ),
        forall|x: int|
            0 <= x < final(g).nodes@.len() ==> #[trigger] site_views(final(g).override_sites@)[x] == overrides_of(
                files@,
                files@,
                final(g).nodes@[x]@,
            ),
        forall|v: (Seq<char>, Range)|
            #[trigger] overrides_of(files@, files@, v).len() > 0 ==> node_views(final(g).nodes@).contains(v),
{
    let ghost nv_start = node_views(g.nodes@);
    let ghost g_start = adj(g.uses@);
    let mut i: usize = 0;
    assert(files@.take(0) =~= Seq::<FileDeps>::empty());
    while i < files.len()
        invariant
            i <= files@.len(),
            2 * uses_count(files@) + sites_count(files@) < usize::MAX,
            forall|name: Seq<char>| #[trigger] def_views(ix@, name) == defs_named(files@, name),
            g.wf(),
            g.nodes@.len() <= 2 * uses_count(files@) + sites_count(files@.take(i as int)),
            sites_count(files@.take(i as int)) <= sites_count(files@),
            forall|a: (Seq<char>, Range), b: (Seq<char>, Range)|
                has_edge(node_views(g.nodes@), adj(g.uses@), a, b) <==> has_edge(nv_start, g_start, a, b),
            forall|x: int|
                0 <= x < g.nodes@.len() ==> #[trigger] site_views(g.override_sites@)[x] == overrides_of(
                    files@,
                    files@.take(i as int),
                    g.nodes@[x]@,
                ),
            forall|v: (Seq<char>, Range)|
                #[trigger] overrides_of(files@, files@.take(i as int), v).len() > 0 ==> node_views(g.nodes@).contains(v),
        decreases files@.len() - i,
    {
        let f = &files[i];
        proof {
            lemma_uses_count_prefix(files@, i as int);
            assert(files@.take(i + 1).drop_last() =~= files@.take(i as int));
            assert(files@.take(i + 1).last() == *f);
        }
        let ghost before = files@.take(i as int);
        let sites = &f.override_sites;
        let mut j: usize = 0;
        proof {
            assert forall|v: (Seq<char>, Range)|
                #[trigger] file_overrides(files@, *f, sites@.take(0), v) == Seq::<(Seq<char>, Range)>::empty() by {
                assert(sites@.take(0) =~= Seq::<OverrideSite>::empty());
                assert(file_overrides(files@, *f, sites@.take(0), v) =~= Seq::<(Seq<char>, Range)>::empty());
            }
            assert forall|v: (Seq<char>, Range)|
                overrides_of(files@, before, v) + #[trigger] file_overrides(files@, *f, sites@.take(0), v) == overrides_of(files@, before, v) by {
                assert(overrides_of(files@, before, v) + Seq::<(Seq<char>, Range)>::empty() =~= overrides_of(files@, before, v));
            }
        }
        while j < sites.len()
            invariant
                i < files@.len(),
                f == &files@[i as int],
                sites == &f.override_sites,
                before == files@.take(i as int),
                j <= sites@.len(),
                2 * uses_count(files@) + sites_count(files@) < usize::MAX,
                sites_count(files@.take(i as int)) + sites@.len() <= sites_count(files@),
                forall|name: Seq<char>| #[trigger] def_views(ix@, name) == defs_named(files@, name),
                g.wf(),
                g.nodes@.len() <= 2 * uses_count(files@) + sites_count(files@.take(i as int)) + j,
                forall|a: (Seq<char>, Range), b: (Seq<char>, Range)|
                    has_edge(node_views(g.nodes@), adj(g.uses@), a, b) <==> has_edge(nv_start, g_start, a, b),
                forall|x: int|
                    0 <= x < g.nodes@.len() ==> #[trigger] site_views(g.override_sites@)[x] == overrides_of(files@, before, g.nodes@[x]@)
                        + file_overrides(files@, *f, sites@.take(j as int), g.nodes@[x]@),
                forall|v: (Seq<char>, Range)|
                    (overrides_of(files@, before, v) + #[trigger] file_overrides(files@, *f, sites@.take(j as int), v)).len() > 0
                        ==> node_views(g.nodes@).contains(v),
            decreases sites@.len() - j,
        {
            let site = &sites[j];
            let ghost nv0 = node_views(g.nodes@);
            let ghost g0 = adj(g.uses@);
            let ghost sv0 = site_views(g.override_sites@);
            let ghost n0 = g.nodes@.len();
            proof {
                assert forall|v: (Seq<char>, Range)| #[trigger] file_overrides(files@, *f, sites@.take(j + 1), v)
                    == file_overrides(files@, *f, sites@.take(j as int), v) + if resolved(defs_named(files@, site.name@), f.uri@) == Some(v) {
                        seq![(f.uri@, site.range)]
                    } else {
                        Seq::<(Seq<char>, Range)>::empty()
                    } by {
                    lemma_file_overrides_step(files@, *f, sites@, j as int, v);
                }
            }
            match resolve_def(site.name.as_str(), f.uri.as_str(), ix) {
                Some(node) => {
                    let x = g.intern(&node);
                    proof {
                        lemma_edges_extend(g0, adj(g.uses@), (g.nodes@.len() - n0) as nat);
                        lemma_has_edge_grow(nv0, g0, node_views(g.nodes@), adj(g.uses@), false, 0, 0);
                    }
                    let ghost sv1 = site_views(g.override_sites@);
                    let loc = Location { uri: f.uri.clone(), range: site.range };
                    g.override_sites[x].push(loc);
                    proof {
                        let nv = node_views(g.nodes@);
                        assert(nv[x as int] == node@);
                        assert forall|y: int| 0 <= y < g.nodes@.len() implies #[trigger] site_views(g.override_sites@)[y] == overrides_of(files@, before, g.nodes@[y]@)
                            + file_overrides(files@, *f, sites@.take(j + 1), g.nodes@[y]@) by {
                            let w = g.nodes@[y]@;
                            if y == x {
                                assert(site_views(g.override_sites@)[y] =~= sv1[y].push((f.uri@, site.range)));
                                if y < n0 {
                                    assert(sv1[y] == sv0[y]);
                                } else {
                                    assert(sv1[y] =~= Seq::<(Seq<char>, Range)>::empty());
                                    if (overrides_of(files@, before, w) + file_overrides(files@, *f, sites@.take(j as int), w)).len() > 0 {
                                        assert(nv0.contains(w));
                                        let z = choose|z: int| 0 <= z < nv0.len() && nv0[z] == w;
                                        assert(nv[z] == w);
                                        assert(false);
                                    }
                                    assert(overrides_of(files@, before, w) + file_overrides(files@, *f, sites@.take(j as int), w) =~= Seq::<(Seq<char>, Range)>::empty());
                                }
                                assert((overrides_of(files@, before, w) + file_overrides(files@, *f, sites@.take(j as int), w)).push((f.uri@, site.range))
                                    =~= overrides_of(files@, before, w) + (file_overrides(files@, *f, sites@.take(j as int), w) + seq![(f.uri@, site.range)]));
                            } else {
                                assert(nv[y] != nv[x as int]);
                                assert(site_views(g.override_sites@)[y] == sv1[y]);
                                assert(file_overrides(files@, *f, sites@.take(j as int), w) + Seq::<(Seq<char>, Range)>::empty() =~= file_overrides(files@, *f, sites@.take(j as int), w));
                                if y < n0 {
                                    assert(sv1[y] == sv0[y]);
                                } else {
                                    assert(y == n0);
                                    assert(y == x);
                                }
                            }
                        }
                        assert forall|v: (Seq<char>, Range)|
                            (overrides_of(files@, before, v) + #[trigger] file_overrides(files@, *f, sites@.take(j + 1), v)).len() > 0
                                implies node_views(g.nodes@).contains(v) by {
                            if v == node@ {
                                assert(nv[x as int] == v);
                            } else {
                                assert(file_overrides(files@, *f, sites@.take(j as int), v) + Seq::<(Seq<char>, Range)>::empty() =~= file_overrides(files@, *f, sites@.take(j as int), v));
                                assert(nv0.contains(v));
                                let z = choose|z: int| 0 <= z < nv0.len() && nv0[z] == v;
                                assert(nv[z] == v);
                            }
                        }
                    }
                },
                None => {
                    proof {
                        assert forall|v: (Seq<char>, Range)| #[trigger] file_overrides(files@, *f, sites@.take(j + 1), v)
                            == file_overrides(files@, *f, sites@.take(j as int), v) by {
                            assert(file_overrides(files@, *f, sites@.take(j as int), v) + Seq::<(Seq<char>, Range)>::empty() =~= file_overrides(files@, *f, sites@.take(j as int), v));
                        }
                    }
                },
            }
            j += 1;
        }
        proof {
            assert(sites@.take(sites@.len() as int) =~= sites@);
            assert forall|v: (Seq<char>, Range)|
                #[trigger] overrides_of(files@, files@.take(i + 1), v) == overrides_of(files@, before, v) + file_overrides(files@, *f, sites@, v) by {
            }
        }
        i += 1;
    }
    assert(files@.take(files@.len() as int) =~= files@);
}

} // verus!
