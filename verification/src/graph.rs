//! The dependency graph between `Depends()` functions and its cycles.
//!
//! Nodes are numbered `0..n`; `uses[u]` lists the nodes that node `u` depends on.
use vstd::prelude::*;

verus! {

/// Adjacency lists as sequences.
pub open spec fn adj(uses: Seq<Vec<usize>>) -> Seq<Seq<usize>> {
    uses.map_values(|v: Vec<usize>| v@)
}

/// Every edge points at a node of the graph.
pub open spec fn wf_graph(g: Seq<Seq<usize>>) -> bool {
    forall|u: int, i: int| 0 <= u < g.len() && 0 <= i < g[u].len() ==> (#[trigger] g[u][i]) < g.len()
}

/// `u` depends directly on `v`.
pub open spec fn edge(g: Seq<Seq<usize>>, u: int, v: int) -> bool {
    &&& 0 <= u < g.len()
    &&& 0 <= v < g.len()
    &&& exists|k: int| 0 <= k < g[u].len() && #[trigger] g[u][k] as int == v
}

/// `p` is a walk along edges of `g`.
pub open spec fn is_path(g: Seq<Seq<usize>>, p: Seq<int>) -> bool {
    &&& p.len() >= 1
    &&& forall|i: int| 0 <= i < p.len() ==> 0 <= #[trigger] p[i] < g.len()
    &&& forall|i: int| 0 <= i < p.len() - 1 ==> edge(g, #[trigger] p[i], p[i + 1])
}

/// There is a walk (possibly empty) from `u` to `v`.
pub open spec fn reaches(g: Seq<Seq<usize>>, u: int, v: int) -> bool {
    exists|p: Seq<int>| is_path(g, p) && p[0] == u && p.last() == v
}

/// `v` lies on a cycle: it depends, directly or through others, on itself.
pub open spec fn on_cycle(g: Seq<Seq<usize>>, v: int) -> bool {
    exists|w: int| edge(g, v, w) && reaches(g, w, v)
}

/// `u` and `v` are in the same strongly connected component.
pub open spec fn same_scc(g: Seq<Seq<usize>>, u: int, v: int) -> bool {
    reaches(g, u, v) && reaches(g, v, u)
}

pub proof fn lemma_reaches_refl(g: Seq<Seq<usize>>, u: int)
    requires
        0 <= u < g.len(),
    ensures
        reaches(g, u, u),
{
    let p = seq![u];
    assert(is_path(g, p));
    assert(p[0] == u && p.last() == u);
}

pub proof fn lemma_reaches_step(g: Seq<Seq<usize>>, u: int, x: int, w: int)
    requires
        reaches(g, u, x),
        edge(g, x, w),
    ensures
        reaches(g, u, w),
{
    let p = choose|p: Seq<int>| is_path(g, p) && p[0] == u && p.last() == x;
    let q = p.push(w);
    assert forall|i: int| 0 <= i < q.len() - 1 implies edge(g, #[trigger] q[i], q[i + 1]) by {
        if i < p.len() - 1 {
            assert(q[i] == p[i] && q[i + 1] == p[i + 1]);
        }
    }
    assert(is_path(g, q));
    assert(q[0] == u && q.last() == w);
}

pub proof fn lemma_reaches_trans(g: Seq<Seq<usize>>, u: int, v: int, w: int)
    requires
        reaches(g, u, v),
        reaches(g, v, w),
    ensures
        reaches(g, u, w),
{
    let p = choose|p: Seq<int>| is_path(g, p) && p[0] == u && p.last() == v;
    let q = choose|q: Seq<int>| is_path(g, q) && q[0] == v && q.last() == w;
    let r = p + q.skip(1);
    assert forall|i: int| 0 <= i < r.len() - 1 implies edge(g, #[trigger] r[i], r[i + 1]) by {
        if i < p.len() - 1 {
            assert(r[i] == p[i] && r[i + 1] == p[i + 1]);
        } else if i == p.len() - 1 {
            assert(r[i] == q[0]);
            assert(r[i + 1] == q[1]);
        } else {
            assert(r[i] == q[i - p.len() + 1]);
            assert(r[i + 1] == q[i - p.len() + 2]);
        }
    }
    assert forall|i: int| 0 <= i < r.len() implies 0 <= #[trigger] r[i] < g.len() by {
        if i < p.len() {
            assert(r[i] == p[i]);
        } else {
            assert(r[i] == q[i - p.len() + 1]);
        }
    }
    if q.len() == 1 {
        assert(r.last() == p.last());
    } else {
        assert(r.last() == q.last());
    }
    assert(is_path(g, r));
}

proof fn lemma_closed_path_prefix(g: Seq<Seq<usize>>, s: Seq<bool>, p: Seq<int>, i: int)
    requires
        s.len() == g.len(),
        is_path(g, p),
        s[p[0]],
        0 <= i < p.len(),
        forall|x: int, k: int| 0 <= x < g.len() && s[x] && 0 <= k < g[x].len() ==> s[#[trigger] g[x][k] as int],
    ensures
        s[p[i]],
    decreases i,
{
    if i > 0 {
        lemma_closed_path_prefix(g, s, p, i - 1);
        assert(edge(g, p[i - 1], p[i]));
        let k = choose|k: int| 0 <= k < g[p[i - 1]].len() && #[trigger] g[p[i - 1]][k] as int == p[i];
        assert(s[g[p[i - 1]][k] as int]);
    }
}

/// Nodes reachable from a member of a set closed under edges are in the set.
pub proof fn lemma_closed_contains_reachable(g: Seq<Seq<usize>>, s: Seq<bool>, u: int, v: int)
    requires
        s.len() == g.len(),
        0 <= u < g.len(),
        s[u],
        forall|x: int, k: int| 0 <= x < g.len() && s[x] && 0 <= k < g[x].len() ==> s[#[trigger] g[x][k] as int],
        reaches(g, u, v),
    ensures
        s[v],
{
    let p = choose|p: Seq<int>| is_path(g, p) && p[0] == u && p.last() == v;
    lemma_closed_path_prefix(g, s, p, p.len() - 1);
}

/// `r` is `g` with every edge reversed.
pub open spec fn reversed_of(r: Seq<Seq<usize>>, g: Seq<Seq<usize>>) -> bool {
    &&& r.len() == g.len()
    &&& forall|a: int, b: int| edge(r, a, b) <==> edge(g, b, a)
}

pub proof fn lemma_reverse_reaches(r: Seq<Seq<usize>>, g: Seq<Seq<usize>>, v: int, u: int)
    requires
        reversed_of(r, g),
        reaches(r, v, u),
    ensures
        reaches(g, u, v),
{
    let p = choose|p: Seq<int>| is_path(r, p) && p[0] == v && p.last() == u;
    let q = p.reverse();
    assert forall|i: int| 0 <= i < q.len() - 1 implies edge(g, #[trigger] q[i], q[i + 1]) by {
        let j = p.len() - 2 - i;
        assert(edge(r, p[j], p[j + 1]));
        assert(q[i] == p[j + 1]);
        assert(q[i + 1] == p[j]);
    }
    assert forall|i: int| 0 <= i < q.len() implies 0 <= #[trigger] q[i] < g.len() by {
        assert(q[i] == p[p.len() - 1 - i]);
    }
    assert(is_path(g, q));
    assert(q[0] == p.last());
    assert(q.last() == p[0]);
}

/// Number of `false` entries.
pub open spec fn count_false(s: Seq<bool>) -> nat
    decreases s.len(),
{
    if s.len() == 0 {
        0
    } else {
        count_false(s.drop_last()) + if s.last() { 0nat } else { 1nat }
    }
}

proof fn lemma_count_false_update(s: Seq<bool>, w: int)
    requires
        0 <= w < s.len(),
        !s[w],
    ensures
        count_false(s.update(w, true)) + 1 == count_false(s),
    decreases s.len(),
{
    let t = s.update(w, true);
    if w == s.len() - 1 {
        assert(t.drop_last() == s.drop_last());
    } else {
        assert(t.drop_last() == s.drop_last().update(w, true));
        lemma_count_false_update(s.drop_last(), w);
    }
}

/// Closedness of one visited node: all its successors are visited.
pub open spec fn closed_at(g: Seq<Seq<usize>>, vis: Seq<bool>, x: int) -> bool {
    forall|k: int| 0 <= k < g[x].len() ==> vis[#[trigger] g[x][k] as int]
}

/// The nodes reachable from `start`, as a membership vector.
pub fn reach_set(g: &Vec<Vec<usize>>, start: usize) -> (visited: Vec<bool>)
    requires
        wf_graph(adj(g@)),
        start < g@.len(),
    ensures
        visited@.len() == g@.len(),
        forall|x: int| 0 <= x < g@.len() ==> (visited@[x] <==> reaches(adj(g@), start as int, x)),
{
    let ghost gg = adj(g@);
    let n = g.len();
    let mut visited: Vec<bool> = Vec::new();
    let mut i: usize = 0;
    while i < n
        invariant
            i <= n,
            n == g@.len(),
            visited@.len() == i,
            forall|x: int| 0 <= x < i ==> !visited@[x],
        decreases n - i,
    {
        visited.push(false);
        i += 1;
    }
    visited.set(start, true);
    proof {
        lemma_reaches_refl(gg, start as int);
    }
    let mut stack: Vec<usize> = Vec::new();
    stack.push(start);
    assert(stack@[0] == start);
    assert forall|x: int| 0 <= x < n && visited@[x] implies x == start && stack@.contains(x as usize) by {
    }
    while stack.len() > 0
        invariant
            n == g@.len(),
            gg == adj(g@),
            wf_graph(gg),
            start < n,
            visited@.len() == n,
            visited@[start as int],
            forall|x: int| 0 <= x < n && visited@[x] ==> reaches(gg, start as int, x),
            forall|i: int| 0 <= i < stack@.len() ==> (#[trigger] stack@[i]) < n && visited@[stack@[i] as int],
            forall|x: int| 0 <= x < n && visited@[x] && !stack@.contains(x as usize) ==> closed_at(gg, visited@, x),
        decreases 2 * count_false(visited@) + stack@.len(),
    {
        let ghost m0 = 2 * count_false(visited@) + stack@.len();
        let ghost old_stack = stack@;
        let u = stack.pop().unwrap();
        assert(old_stack == stack@.push(u));
        assert(old_stack[old_stack.len() - 1] == u);
        let nb = &g[u];
        assert(nb@ == gg[u as int]);
        let mut j: usize = 0;
        while j < nb.len()
            invariant
                n == g@.len(),
                gg == adj(g@),
                wf_graph(gg),
                start < n,
                u < n,
                nb@ == gg[u as int],
                j <= nb@.len(),
                visited@.len() == n,
                visited@[start as int],
                visited@[u as int],
                forall|x: int| 0 <= x < n && visited@[x] ==> reaches(gg, start as int, x),
                forall|i: int| 0 <= i < stack@.len() ==> (#[trigger] stack@[i]) < n && visited@[stack@[i] as int],
                forall|x: int| 0 <= x < n && visited@[x] && !stack@.contains(x as usize) && x != u ==> closed_at(gg, visited@, x),
                forall|k: int| 0 <= k < j ==> visited@[#[trigger] nb@[k] as int],
                2 * count_false(visited@) + stack@.len() < m0,
            decreases nb@.len() - j,
        {
            let w = nb[j];
            assert(w == gg[u as int][j as int]);
            assert(w < n);
            if !visited[w] {
                proof {
                    lemma_count_false_update(visited@, w as int);
                    assert(edge(gg, u as int, w as int));
                    lemma_reaches_step(gg, start as int, u as int, w as int);
                }
                let ghost vis0 = visited@;
                let ghost st0 = stack@;
                visited.set(w, true);
                stack.push(w);
                assert(stack@ == st0.push(w));
                assert(stack@[stack@.len() - 1] == w);
                assert forall|x: int| 0 <= x < n && visited@[x] && !stack@.contains(x as usize) && x != u
                    implies closed_at(gg, visited@, x) by {
                    if x != w {
                        assert(vis0[x]);
                        if st0.contains(x as usize) {
                            let t = choose|t: int| 0 <= t < st0.len() && st0[t] == x as usize;
                            assert(stack@[t] == x as usize);
                        }
                        assert(closed_at(gg, vis0, x));
                    }
                }
            }
            j += 1;
        }
        assert(closed_at(gg, visited@, u as int));
    }
    proof {
        assert forall|x: int| 0 <= x < n implies (visited@[x] <==> reaches(gg, start as int, x)) by {
            if reaches(gg, start as int, x) {
                assert forall|y: int, k: int| 0 <= y < gg.len() && visited@[y] && 0 <= k < gg[y].len()
                    implies visited@[#[trigger] gg[y][k] as int] by {
                    assert(closed_at(gg, visited@, y));
                }
                lemma_closed_contains_reachable(gg, visited@, start as int, x);
            }
        }
    }
    visited
}

/// A walk from `v` to another node starts with an edge out of `v`.
pub proof fn lemma_first_step(g: Seq<Seq<usize>>, v: int, x: int) -> (w: int)
    requires
        reaches(g, v, x),
        v != x,
    ensures
        edge(g, v, w),
        reaches(g, w, x),
{
    let p = choose|p: Seq<int>| is_path(g, p) && p[0] == v && p.last() == x;
    assert(p.len() >= 2);
    assert(edge(g, p[0], p[1]));
    let q = p.skip(1);
    assert forall|i: int| 0 <= i < q.len() - 1 implies edge(g, #[trigger] q[i], q[i + 1]) by {
        assert(q[i] == p[i + 1] && q[i + 1] == p[i + 2]);
        assert(edge(g, p[i + 1], p[i + 2]));
    }
    assert forall|i: int| 0 <= i < q.len() implies 0 <= #[trigger] q[i] < g.len() by {
        assert(q[i] == p[i + 1]);
    }
    assert(is_path(g, q));
    assert(q[0] == p[1] && q.last() == x);
    p[1]
}

/// Lying on a cycle is shared by all nodes of a strongly connected component.
pub proof fn lemma_on_cycle_scc(g: Seq<Seq<usize>>, a: int, b: int)
    requires
        on_cycle(g, a),
        same_scc(g, a, b),
    ensures
        on_cycle(g, b),
{
    if a == b {
    } else {
        let z = lemma_first_step(g, b, a);
        lemma_reaches_trans(g, z, a, b);
    }
}

/// `reversed_of` is symmetric.
pub proof fn lemma_reversed_sym(r: Seq<Seq<usize>>, g: Seq<Seq<usize>>)
    requires
        reversed_of(r, g),
    ensures
        reversed_of(g, r),
{
}

/// Edges of `g` from node `b` to node `a`, among those visited before position (`u`, `k`).
pub open spec fn edge_before(g: Seq<Seq<usize>>, b: int, a: int, u: int, k: int) -> bool {
    &&& 0 <= a < g.len()
    &&& 0 <= b < g.len()
    &&& exists|kk: int| 0 <= kk < g[b].len() && #[trigger] g[b][kk] as int == a && (b < u || (b == u && kk < k))
}

/// `g` with every edge reversed.
pub fn reverse_graph(g: &Vec<Vec<usize>>) -> (r: Vec<Vec<usize>>)
    requires
        wf_graph(adj(g@)),
    ensures
        wf_graph(adj(r@)),
        reversed_of(adj(r@), adj(g@)),
{
    let ghost gg = adj(g@);
    let n = g.len();
    let mut r: Vec<Vec<usize>> = Vec::new();
    let mut i: usize = 0;
    while i < n
        invariant
            i <= n,
            n == g@.len(),
            r@.len() == i,
            forall|x: int| 0 <= x < i ==> (#[trigger] r@[x])@.len() == 0,
        decreases n - i,
    {
        r.push(Vec::new());
        i += 1;
    }
    assert forall|a: int, b: int| edge(adj(r@), a, b) <==> edge_before(gg, b, a, 0, 0) by {
        if edge(adj(r@), a, b) {
            let kk = choose|kk: int| 0 <= kk < adj(r@)[a].len() && #[trigger] adj(r@)[a][kk] as int == b;
            assert(adj(r@)[a] == r@[a]@);
        }
    }
    let mut u: usize = 0;
    while u < n
        invariant
            u <= n,
            n == g@.len(),
            gg == adj(g@),
            wf_graph(gg),
            r@.len() == n,
            wf_graph(adj(r@)),
            forall|a: int, b: int| edge(adj(r@), a, b) <==> edge_before(gg, b, a, u as int, 0),
        decreases n - u,
    {
        let nb = &g[u];
        assert(nb@ == gg[u as int]);
        let mut k: usize = 0;
        while k < nb.len()
            invariant
                u < n,
                n == g@.len(),
                gg == adj(g@),
                wf_graph(gg),
                nb@ == gg[u as int],
                k <= nb@.len(),
                r@.len() == n,
                wf_graph(adj(r@)),
                forall|a: int, b: int| edge(adj(r@), a, b) <==> edge_before(gg, b, a, u as int, k as int),
            decreases nb@.len() - k,
        {
            let v = nb[k];
            assert(v == gg[u as int][k as int]);
            let ghost r0 = adj(r@);
            let mut inner = r[v].clone();
            assert(inner@ == r0[v as int]);
            inner.push(u);
            r.set(v, inner);
            let ghost r1 = adj(r@);
            assert(r1 == r0.update(v as int, r0[v as int].push(u)));
            assert forall|a: int, b: int| edge(r1, a, b) <==> edge_before(gg, b, a, u as int, k + 1) by {
                if a == v as int {
                    if edge(r1, a, b) {
                        let kk = choose|kk: int| 0 <= kk < r1[a].len() && #[trigger] r1[a][kk] as int == b;
                        if kk < r0[a].len() {
                            assert(r1[a][kk] == r0[a][kk]);
                            assert(edge(r0, a, b));
                            assert(edge_before(gg, b, a, u as int, k as int));
                            let k2 = choose|k2: int| 0 <= k2 < gg[b].len() && #[trigger] gg[b][k2] as int == a && (b < u || (b == u && k2 < k));
                            assert(gg[b][k2] as int == a);
                        } else {
                            assert(b == u);
                            assert(gg[b][k as int] as int == a);
                        }
                    }
                    if edge_before(gg, b, a, u as int, k + 1) {
                        let k2 = choose|k2: int| 0 <= k2 < gg[b].len() && #[trigger] gg[b][k2] as int == a && (b < u || (b == u && k2 < k + 1));
                        if b == u && k2 == k {
                            assert(r1[a][r0[a].len() as int] == u);
                            assert(edge(r1, a, b));
                        } else {
                            assert(edge_before(gg, b, a, u as int, k as int));
                            assert(edge(r0, a, b));
                            let kk = choose|kk: int| 0 <= kk < r0[a].len() && #[trigger] r0[a][kk] as int == b;
                            assert(r1[a][kk] == r0[a][kk]);
                        }
                    }
                } else {
                    if edge(r1, a, b) {
                        let kk = choose|kk: int| 0 <= kk < r1[a].len() && #[trigger] r1[a][kk] as int == b;
                        assert(r1[a] == r0[a]);
                        assert(edge(r0, a, b));
                        let k2 = choose|k2: int| 0 <= k2 < gg[b].len() && #[trigger] gg[b][k2] as int == a && (b < u || (b == u && k2 < k));
                        assert(gg[b][k2] as int == a);
                    }
                    if edge_before(gg, b, a, u as int, k + 1) {
                        let k2 = choose|k2: int| 0 <= k2 < gg[b].len() && #[trigger] gg[b][k2] as int == a && (b < u || (b == u && k2 < k + 1));
                        if b == u && k2 == k {
                            assert(gg[b][k2] == v);
                        }
                        assert(edge_before(gg, b, a, u as int, k as int));
                        assert(edge(r0, a, b));
                        let kk = choose|kk: int| 0 <= kk < r0[a].len() && #[trigger] r0[a][kk] as int == b;
                        assert(r1[a][kk] == r0[a][kk]);
                    }
                }
            }
            assert forall|x: int, i2: int| 0 <= x < r1.len() && 0 <= i2 < r1[x].len() implies (#[trigger] r1[x][i2]) < r1.len() by {
                if x == v as int && i2 == r0[x].len() {
                } else {
                    assert(r1[x][i2] == r0[x][i2]);
                }
            }
            k += 1;
        }
        assert forall|a: int, b: int| edge_before(gg, b, a, u as int, nb@.len() as int) <==> edge_before(gg, b, a, u + 1, 0) by {
            if edge_before(gg, b, a, u + 1, 0) {
                let k2 = choose|k2: int| 0 <= k2 < gg[b].len() && #[trigger] gg[b][k2] as int == a && (b < u + 1 || (b == u + 1 && k2 < 0));
                assert(gg[b][k2] as int == a);
            }
            if edge_before(gg, b, a, u as int, nb@.len() as int) {
                let k2 = choose|k2: int| 0 <= k2 < gg[b].len() && #[trigger] gg[b][k2] as int == a && (b < u || (b == u && k2 < nb@.len()));
                assert(gg[b][k2] as int == a);
            }
        }
        u += 1;
    }
    assert forall|a: int, b: int| edge(adj(r@), a, b) <==> edge(gg, b, a) by {
        if edge(gg, b, a) {
            let k2 = choose|k2: int| 0 <= k2 < gg[b].len() && #[trigger] gg[b][k2] as int == a;
            assert(edge_before(gg, b, a, n as int, 0));
        }
        if edge_before(gg, b, a, n as int, 0) {
            let k2 = choose|k2: int| 0 <= k2 < gg[b].len() && #[trigger] gg[b][k2] as int == a && (b < n || (b == n && k2 < 0));
            assert(gg[b][k2] as int == a);
        }
    }
    r
}

/// `group` holds exactly the component of `rep`, each node once.
pub open spec fn is_component(g: Seq<Seq<usize>>, group: Seq<usize>, rep: int) -> bool {
    &&& 0 <= rep < g.len()
    &&& group.no_duplicates()
    &&& forall|i: int| 0 <= i < group.len() ==> (#[trigger] group[i]) < g.len()
    &&& forall|x: int| 0 <= x < g.len() ==> (group.contains(x as usize) <==> same_scc(g, rep, x))
}

/// `group` is the component of its first node, and that node lies on a cycle.
pub open spec fn is_cycle_group(g: Seq<Seq<usize>>, group: Seq<usize>) -> bool {
    &&& group.len() > 0
    &&& is_component(g, group, group[0] as int)
    &&& on_cycle(g, group[0] as int)
}

/// Any member of a component represents it.
pub proof fn lemma_component_rep(g: Seq<Seq<usize>>, group: Seq<usize>, v: int, u: usize)
    requires
        g.len() <= usize::MAX,
        is_component(g, group, v),
        group.contains(u),
    ensures
        is_component(g, group, u as int),
{
    let i = choose|i: int| 0 <= i < group.len() && group[i] == u;
    assert(group[i] < g.len());
    assert(same_scc(g, v, u as int));
    assert forall|x: int| 0 <= x < g.len() implies (group.contains(x as usize) <==> same_scc(g, u as int, x)) by {
        if same_scc(g, v, x) {
            lemma_reaches_trans(g, u as int, v, x);
            lemma_reaches_trans(g, x, v, u as int);
        }
        if same_scc(g, u as int, x) {
            lemma_reaches_trans(g, v, u as int, x);
            lemma_reaches_trans(g, x, u as int, v);
        }
    }
}

/// The result of `cycle_components`: every group is the strongly connected component of
/// a node on a cycle, the groups are disjoint, and every node on a cycle is in a group.
pub open spec fn cycle_components_spec(g: Seq<Seq<usize>>, groups: Seq<Seq<usize>>) -> bool {
    &&& forall|k: int| 0 <= k < groups.len() ==> #[trigger] is_cycle_group(g, groups[k])
    &&& forall|k1: int, k2: int, x: usize| 0 <= k1 < k2 < groups.len() ==> !(#[trigger] groups[k1].contains(x) && #[trigger] groups[k2].contains(x))
    &&& forall|v: int| 0 <= v < g.len() && on_cycle(g, v) ==> exists|k: int| 0 <= k < groups.len() && #[trigger] groups[k].contains(v as usize)
}

/// Whether node `v` depends directly on itself.
fn has_self_loop(g: &Vec<Vec<usize>>, v: usize) -> (r: bool)
    requires
        v < g@.len(),
    ensures
        r == edge(adj(g@), v as int, v as int),
{
    let nb = &g[v];
    assert(nb@ == adj(g@)[v as int]);
    let mut k: usize = 0;
    while k < nb.len()
        invariant
            k <= nb@.len(),
            v < g@.len(),
            nb@ == adj(g@)[v as int],
            forall|i: int| 0 <= i < k ==> nb@[i] != v,
        decreases nb@.len() - k,
    {
        if nb[k] == v {
            assert(adj(g@)[v as int][k as int] as int == v);
            return true;
        }
        k += 1;
    }
    false
}

/// The component of `v`, in increasing node order.
fn component_members(g: &Vec<Vec<usize>>, rev: &Vec<Vec<usize>>, v: usize) -> (members: Vec<usize>)
    requires
        wf_graph(adj(g@)),
        wf_graph(adj(rev@)),
        reversed_of(adj(rev@), adj(g@)),
        v < g@.len(),
    ensures
        is_component(adj(g@), members@, v as int),
        members@.contains(v),
{
    let ghost gg = adj(g@);
    let n = g.len();
    proof {
        lemma_reversed_sym(adj(rev@), gg);
    }
    let fwd = reach_set(g, v);
    let bwd = reach_set(rev, v);
    let mut members: Vec<usize> = Vec::new();
    let mut x: usize = 0;
    while x < n
        invariant
            x <= n,
            n == g@.len(),
            v < n,
            gg == adj(g@),
            reversed_of(adj(rev@), gg),
            reversed_of(gg, adj(rev@)),
            fwd@.len() == n,
            bwd@.len() == n,
            forall|y: int| 0 <= y < n ==> (fwd@[y] <==> reaches(gg, v as int, y)),
            forall|y: int| 0 <= y < n ==> (bwd@[y] <==> reaches(adj(rev@), v as int, y)),
            members@.no_duplicates(),
            forall|i2: int| 0 <= i2 < members@.len() ==> (#[trigger] members@[i2]) < x,
            forall|y: int| 0 <= y < x ==> (members@.contains(y as usize) <==> same_scc(gg, v as int, y)),
        decreases n - x,
    {
        proof {
            if bwd@[x as int] {
                lemma_reverse_reaches(adj(rev@), gg, v as int, x as int);
            }
            if reaches(gg, x as int, v as int) {
                lemma_reverse_reaches(gg, adj(rev@), x as int, v as int);
            }
        }
        if fwd[x] && bwd[x] {
            let ghost m0 = members@;
            members.push(x);
            assert(members@ == m0.push(x));
            assert forall|y: int| 0 <= y < x + 1 implies (members@.contains(y as usize) <==> same_scc(gg, v as int, y)) by {
                if y < x {
                    if members@.contains(y as usize) {
                        let t = choose|t: int| 0 <= t < members@.len() && members@[t] == y as usize;
                        if t < m0.len() {
                            assert(m0[t] == y as usize);
                        }
                    }
                    if m0.contains(y as usize) {
                        let t = choose|t: int| 0 <= t < m0.len() && m0[t] == y as usize;
                        assert(members@[t] == y as usize);
                    }
                } else {
                    assert(members@[m0.len() as int] == x);
                }
            }
        } else {
            assert(!members@.contains(x as usize));
        }
        x += 1;
    }
    proof {
        lemma_reaches_refl(gg, v as int);
        assert(same_scc(gg, v as int, v as int));
        assert(members@.contains((v as int) as usize));
    }
    members
}

/// Sets `assigned[y]` for every `y` in `members`.
fn mark_all(assigned: &mut Vec<bool>, members: &Vec<usize>)
    requires
        forall|i: int| 0 <= i < members@.len() ==> (#[trigger] members@[i]) < old(assigned)@.len(),
    ensures
        final(assigned)@.len() == old(assigned)@.len(),
        forall|y: int| 0 <= y < old(assigned)@.len() ==> (#[trigger] final(assigned)@[y] <==> (old(assigned)@[y] || members@.contains(y as usize))),
{
    let ghost a0 = assigned@;
    let n = assigned.len();
    let mut t: usize = 0;
    while t < members.len()
        invariant
            t <= members@.len(),
            assigned@.len() == n,
            a0.len() == n,
            forall|i2: int| 0 <= i2 < members@.len() ==> (#[trigger] members@[i2]) < n,
            forall|y: int| 0 <= y < n ==> (#[trigger] assigned@[y] <==> (a0[y] || members@.take(t as int).contains(y as usize))),
        decreases members@.len() - t,
    {
        let y = members[t];
        let ghost as0 = assigned@;
        assigned.set(y, true);
        assert(members@.take(t + 1) == members@.take(t as int).push(y));
        assert forall|z: int| 0 <= z < n implies (#[trigger] assigned@[z] <==> (a0[z] || members@.take(t + 1).contains(z as usize))) by {
            assert(as0[z] <==> (a0[z] || members@.take(t as int).contains(z as usize)));
            if z == y as int {
                assert(members@.take(t + 1)[t as int] == y);
            } else {
                assert(assigned@[z] == as0[z]);
                if members@.take(t + 1).contains(z as usize) {
                    let i2 = choose|i2: int| 0 <= i2 < t + 1 && #[trigger] members@.take(t + 1)[i2] == z as usize;
                    assert(i2 != t);
                    assert(members@.take(t as int)[i2] == z as usize);
                }
                if members@.take(t as int).contains(z as usize) {
                    let i2 = choose|i2: int| 0 <= i2 < t && #[trigger] members@.take(t as int)[i2] == z as usize;
                    assert(members@.take(t + 1)[i2] == z as usize);
                }
            }
        }
        t += 1;
    }
    assert(members@.take(members@.len() as int) == members@);
}

/// A component is a cycle exactly when it has more than one node or a self loop.
proof fn lemma_component_cycle(gg: Seq<Seq<usize>>, members: Seq<usize>, v: int)
    requires
        gg.len() <= usize::MAX,
        is_component(gg, members, v),
        members.contains(v as usize),
    ensures
        on_cycle(gg, v) <==> (members.len() > 1 || edge(gg, v, v)),
{
    let n = gg.len();
    if members.len() > 1 {
        let other: usize = if members[0] != v as usize { members[0] } else { members[1] };
        if members[0] == v as usize {
            assert(members[1] != members[0]);
        }
        assert(members.contains(other));
        assert(other < n);
        assert(same_scc(gg, v, other as int));
        let w = lemma_first_step(gg, v, other as int);
        lemma_reaches_trans(gg, w, other as int, v);
        assert(on_cycle(gg, v));
    }
    if edge(gg, v, v) {
        lemma_reaches_refl(gg, v);
        assert(on_cycle(gg, v));
    }
    if on_cycle(gg, v) && !edge(gg, v, v) {
        let w = choose|w: int| edge(gg, v, w) && reaches(gg, w, v);
        assert(w != v);
        lemma_reaches_refl(gg, v);
        lemma_reaches_step(gg, v, v, w);
        assert(same_scc(gg, v, w));
        assert(members.contains(w as usize));
        if members.len() <= 1 {
            let i2 = choose|i2: int| 0 <= i2 < members.len() && members[i2] == w as usize;
            let i3 = choose|i3: int| 0 <= i3 < members.len() && members[i3] == v as usize;
            assert(i2 == 0 && i3 == 0);
            assert(members[0] == w as usize && members[0] == v as usize);
            assert(false);
        }
    }
}

/// Exactly the components of nodes below `v` are marked.
#[verifier::opaque]
pub open spec fn assigned_ok(gg: Seq<Seq<usize>>, assigned: Seq<bool>, v: int) -> bool {
    &&& assigned.len() == gg.len()
    &&& forall|x: int| 0 <= x < gg.len() ==> (assigned[x] <==> exists|w: int| 0 <= w < v && #[trigger] same_scc(gg, w, x))
}

/// Every group is the component of a node on a cycle.
#[verifier::opaque]
pub open spec fn groups_ok(gg: Seq<Seq<usize>>, groups: Seq<Seq<usize>>) -> bool {
    forall|k: int| 0 <= k < groups.len() ==> #[trigger] is_cycle_group(gg, groups[k])
}

/// The groups are pairwise disjoint.
#[verifier::opaque]
pub open spec fn disjoint_ok(groups: Seq<Seq<usize>>) -> bool {
    forall|k1: int, k2: int, x: usize| 0 <= k1 < k2 < groups.len() ==> !(#[trigger] groups[k1].contains(x) && #[trigger] groups[k2].contains(x))
}

/// Every grouped node is marked.
#[verifier::opaque]
pub open spec fn grouped_marked(gg: Seq<Seq<usize>>, assigned: Seq<bool>, groups: Seq<Seq<usize>>) -> bool {
    forall|k: int, x: usize| 0 <= k < groups.len() && #[trigger] groups[k].contains(x) ==> x < gg.len() && assigned[x as int]
}

/// Every node below `v` on a cycle is in a group.
#[verifier::opaque]
pub open spec fn covered_ok(gg: Seq<Seq<usize>>, groups: Seq<Seq<usize>>, v: int) -> bool {
    forall|w: int| 0 <= w < v && on_cycle(gg, w) ==> exists|k: int| 0 <= k < groups.len() && #[trigger] groups[k].contains(w as usize)
}

/// Invariant of the component loop after processing nodes below `v`.
pub open spec fn components_so_far(gg: Seq<Seq<usize>>, assigned: Seq<bool>, groups: Seq<Seq<usize>>, v: int) -> bool {
    &&& gg.len() <= usize::MAX
    &&& assigned_ok(gg, assigned, v)
    &&& groups_ok(gg, groups)
    &&& disjoint_ok(groups)
    &&& grouped_marked(gg, assigned, groups)
    &&& covered_ok(gg, groups, v)
}

/// A node already assigned adds nothing.
proof fn lemma_step_assigned(gg: Seq<Seq<usize>>, assigned: Seq<bool>, groups: Seq<Seq<usize>>, v: int)
    requires
        components_so_far(gg, assigned, groups, v),
        0 <= v < gg.len(),
        assigned[v],
    ensures
        components_so_far(gg, assigned, groups, v + 1),
{
    reveal(assigned_ok);
    reveal(covered_ok);
    let w = choose|w: int| 0 <= w < v && #[trigger] same_scc(gg, w, v);
    assert forall|x: int| 0 <= x < gg.len() implies (assigned[x] <==> exists|w2: int| 0 <= w2 < v + 1 && #[trigger] same_scc(gg, w2, x)) by {
        if same_scc(gg, v, x) {
            lemma_reaches_trans(gg, w, v, x);
            lemma_reaches_trans(gg, x, v, w);
            assert(same_scc(gg, w, x));
        }
    }
    if on_cycle(gg, v) {
        reveal(groups_ok);
        assert(same_scc(gg, v, w));
        lemma_on_cycle_scc(gg, v, w);
        let k = choose|k: int| 0 <= k < groups.len() && #[trigger] groups[k].contains(w as usize);
        assert(is_cycle_group(gg, groups[k]));
        let rep = groups[k][0] as int;
        assert(is_component(gg, groups[k], rep));
        assert(same_scc(gg, rep, w));
        lemma_reaches_trans(gg, rep, w, v);
        lemma_reaches_trans(gg, v, w, rep);
        assert(same_scc(gg, rep, v));
        assert(groups[k].contains((v as int) as usize));
    }
}

/// A new component is marked, and added when it is a cycle.
proof fn lemma_step_new(gg: Seq<Seq<usize>>, a0: Seq<bool>, a1: Seq<bool>, groups: Seq<Seq<usize>>, g1: Seq<Seq<usize>>, members: Seq<usize>, v: int, added: bool)
    requires
        components_so_far(gg, a0, groups, v),
        0 <= v < gg.len(),
        !a0[v],
        is_component(gg, members, v),
        members.contains(v as usize),
        a1.len() == a0.len(),
        forall|y: int| 0 <= y < a0.len() ==> (#[trigger] a1[y] <==> (a0[y] || members.contains(y as usize))),
        added <==> on_cycle(gg, v),
        g1 == (if added { groups.push(members) } else { groups }),
    ensures
        components_so_far(gg, a1, g1, v + 1),
{
    let n = gg.len();
    reveal(assigned_ok);
    assert forall|y: int| 0 <= y < n implies (a1[y] <==> exists|w2: int| 0 <= w2 < v + 1 && #[trigger] same_scc(gg, w2, y)) by {
        assert(a1[y] <==> (a0[y] || members.contains(y as usize)));
        if members.contains(y as usize) {
            assert(same_scc(gg, v, y));
        }
        if same_scc(gg, v, y) {
            assert(members.contains(y as usize));
        }
        if exists|w2: int| 0 <= w2 < v + 1 && #[trigger] same_scc(gg, w2, y) {
            let w2 = choose|w2: int| 0 <= w2 < v + 1 && #[trigger] same_scc(gg, w2, y);
            if w2 < v {
                assert(a0[y]);
            } else {
                assert(same_scc(gg, v, y));
            }
        }
        if a0[y] {
            let w2 = choose|w2: int| 0 <= w2 < v && #[trigger] same_scc(gg, w2, y);
            assert(same_scc(gg, w2, y));
        }
    }
    assert forall|yy: usize| #[trigger] members.contains(yy) implies yy < n && !a0[yy as int] by {
        let i2 = choose|i2: int| 0 <= i2 < members.len() && members[i2] == yy;
        assert(members[i2] < n);
        assert(same_scc(gg, v, yy as int));
        if a0[yy as int] {
            let w = choose|w: int| 0 <= w < v && #[trigger] same_scc(gg, w, yy as int);
            lemma_reaches_trans(gg, w, yy as int, v);
            lemma_reaches_trans(gg, v, yy as int, w);
            assert(same_scc(gg, w, v));
        }
    }
    assert(groups_ok(gg, g1)) by {
        reveal(groups_ok);
        assert forall|k: int| 0 <= k < g1.len() implies #[trigger] is_cycle_group(gg, g1[k]) by {
            if k < groups.len() {
                assert(g1[k] == groups[k]);
                assert(is_cycle_group(gg, groups[k]));
            } else {
                assert(g1[k] == members);
                assert(members.contains(members[0]));
                lemma_component_rep(gg, members, v, members[0]);
                assert(members[0] < n);
                assert(same_scc(gg, v, members[0] as int));
                lemma_on_cycle_scc(gg, v, members[0] as int);
            }
        }
    }
    assert(disjoint_ok(g1)) by {
        reveal(disjoint_ok);
        reveal(grouped_marked);
        assert forall|k1: int, k2: int, x: usize| 0 <= k1 < k2 < g1.len() implies !(#[trigger] g1[k1].contains(x) && #[trigger] g1[k2].contains(x)) by {
            if k2 < groups.len() {
                assert(g1[k1] == groups[k1] && g1[k2] == groups[k2]);
            } else {
                assert(g1[k1] == groups[k1]);
                assert(g1[k2] == members);
                if groups[k1].contains(x) && members.contains(x) {
                    assert(a0[x as int]);
                }
            }
        }
    }
    assert(grouped_marked(gg, a1, g1)) by {
        reveal(grouped_marked);
        assert forall|k: int, x: usize| 0 <= k < g1.len() && #[trigger] g1[k].contains(x) implies x < n && a1[x as int] by {
            if k < groups.len() {
                assert(g1[k] == groups[k]);
                assert(a0[x as int]);
            } else {
                assert(g1[k] == members);
            }
        }
    }
    assert(covered_ok(gg, g1, v + 1)) by {
        reveal(covered_ok);
        assert forall|w: int| 0 <= w < v + 1 && on_cycle(gg, w) implies exists|k: int| 0 <= k < g1.len() && #[trigger] g1[k].contains(w as usize) by {
            if w < v {
                let k = choose|k: int| 0 <= k < groups.len() && #[trigger] groups[k].contains(w as usize);
                assert(g1[k] == groups[k]);
            } else {
                assert(g1[groups.len() as int] == members);
                assert(g1[groups.len() as int].contains(w as usize));
            }
        }
    }
}

/// The loop's final state gives the result specification.
proof fn lemma_components_done(gg: Seq<Seq<usize>>, assigned: Seq<bool>, groups: Seq<Seq<usize>>)
    requires
        components_so_far(gg, assigned, groups, gg.len() as int),
    ensures
        cycle_components_spec(gg, groups),
{
    reveal(groups_ok);
    reveal(disjoint_ok);
    reveal(covered_ok);
}

/// The strongly connected components that contain a cycle (more than one node, or one node
/// that depends on itself), each listed in increasing node order.
pub fn cycle_components(g: &Vec<Vec<usize>>) -> (r: Vec<Vec<usize>>)
    requires
        wf_graph(adj(g@)),
    ensures
        cycle_components_spec(adj(g@), r@.map_values(|v: Vec<usize>| v@)),
{
    let ghost gg = adj(g@);
    let n = g.len();
    let rev = reverse_graph(g);
    let mut assigned: Vec<bool> = Vec::new();
    let mut i: usize = 0;
    while i < n
        invariant
            i <= n,
            n == g@.len(),
            assigned@.len() == i,
            forall|x: int| 0 <= x < i ==> !assigned@[x],
        decreases n - i,
    {
        assigned.push(false);
        i += 1;
    }
    let mut result: Vec<Vec<usize>> = Vec::new();
    let mut v: usize = 0;
    proof {
        reveal(assigned_ok);
        reveal(groups_ok);
        reveal(disjoint_ok);
        reveal(grouped_marked);
        reveal(covered_ok);
    }
    assert(components_so_far(gg, assigned@, result@.map_values(|x: Vec<usize>| x@), 0));
    while v < n
        invariant
            v <= n,
            n == g@.len(),
            gg == adj(g@),
            wf_graph(gg),
            wf_graph(adj(rev@)),
            reversed_of(adj(rev@), gg),
            assigned@.len() == n,
            components_so_far(gg, assigned@, result@.map_values(|x: Vec<usize>| x@), v as int),
        decreases n - v,
    {
        let ghost groups = result@.map_values(|x: Vec<usize>| x@);
        if assigned[v] {
            proof {
                lemma_step_assigned(gg, assigned@, groups, v as int);
            }
        } else {
            let members = component_members(g, &rev, v);
            let ghost a0 = assigned@;
            mark_all(&mut assigned, &members);
            let self_loop = has_self_loop(g, v);
            proof {
                lemma_component_cycle(gg, members@, v as int);
            }
            let added = members.len() > 1 || self_loop;
            let ghost mv = members@;
            if added {
                let ghost before = result@;
                result.push(members);
                assert(result@.map_values(|x: Vec<usize>| x@) == groups.push(mv));
            }
            proof {
                lemma_step_new(gg, a0, assigned@, groups, result@.map_values(|x: Vec<usize>| x@), mv, v as int, added);
            }
        }
        v += 1;
    }
    proof {
        lemma_components_done(gg, assigned@, result@.map_values(|x: Vec<usize>| x@));
    }
    result
}

/// Every member of the group depends on at most one member of the group: the group is a
/// single cycle.
pub open spec fn simple_cycle(g: Seq<Seq<usize>>, s: Seq<usize>) -> bool {
    forall|u: usize, w1: usize, w2: usize|
        #![trigger s.contains(u), edge(g, u as int, w1 as int), edge(g, u as int, w2 as int)]
        s.contains(u) && s.contains(w1) && s.contains(w2) && edge(g, u as int, w1 as int) && edge(g, u as int, w2 as int) ==> w1 == w2
}

/// A list in cycle order: each member depends on the next, and the last on the first.
pub open spec fn in_cycle_order(g: Seq<Seq<usize>>, c: Seq<usize>) -> bool {
    forall|i: int| 0 <= i < c.len() ==> edge(g, #[trigger] c[i] as int, c[(i + 1) % (c.len() as int)] as int)
}

/// A member of `s` that `u` depends on.
pub open spec fn succ_of(g: Seq<Seq<usize>>, s: Seq<usize>, u: usize) -> usize {
    choose|w: usize| s.contains(w) && edge(g, u as int, w as int)
}

/// `i` steps from `u` along `succ_of`.
pub open spec fn walk(g: Seq<Seq<usize>>, s: Seq<usize>, u: usize, i: nat) -> usize
    decreases i,
{
    if i == 0 {
        u
    } else {
        succ_of(g, s, walk(g, s, u, (i - 1) as nat))
    }
}

proof fn lemma_member_has_succ(g: Seq<Seq<usize>>, s: Seq<usize>, u: usize)
    requires
        g.len() <= usize::MAX,
        is_cycle_group(g, s),
        s.contains(u),
    ensures
        s.contains(succ_of(g, s, u)),
        edge(g, u as int, succ_of(g, s, u) as int),
{
    let r = s[0] as int;
    let i = choose|i: int| 0 <= i < s.len() && s[i] == u;
    assert(s[i] < g.len());
    assert(same_scc(g, r, u as int));
    lemma_on_cycle_scc(g, r, u as int);
    let w = choose|w: int| edge(g, u as int, w) && reaches(g, w, u as int);
    lemma_reaches_refl(g, u as int);
    lemma_reaches_step(g, u as int, u as int, w);
    lemma_reaches_trans(g, r, u as int, w);
    lemma_reaches_trans(g, w, u as int, r);
    assert(same_scc(g, r, w));
    assert(s.contains(w as usize));
    assert(s.contains(w as usize) && edge(g, u as int, (w as usize) as int));
}

proof fn lemma_walk_in(g: Seq<Seq<usize>>, s: Seq<usize>, u: usize, i: nat)
    requires
        g.len() <= usize::MAX,
        is_cycle_group(g, s),
        s.contains(u),
    ensures
        s.contains(walk(g, s, u, i)),
    decreases i,
{
    if i > 0 {
        lemma_walk_in(g, s, u, (i - 1) as nat);
        lemma_member_has_succ(g, s, walk(g, s, u, (i - 1) as nat));
    }
}

proof fn lemma_walk_compose(g: Seq<Seq<usize>>, s: Seq<usize>, u: usize, x: nat, y: nat)
    ensures
        walk(g, s, u, x + y) == walk(g, s, walk(g, s, u, x), y),
    decreases y,
{
    if y > 0 {
        lemma_walk_compose(g, s, u, x, (y - 1) as nat);
        assert((x + y - 1) as nat == x + (y - 1) as nat);
    }
}

/// Nodes on a walk between two members of a component are members.
proof fn lemma_path_in_group(g: Seq<Seq<usize>>, s: Seq<usize>, p: Seq<int>, i: int)
    requires
        g.len() <= usize::MAX,
        is_cycle_group(g, s),
        is_path(g, p),
        s.contains(p[0] as usize),
        s.contains(p.last() as usize),
        0 <= i < p.len(),
    ensures
        s.contains(p[i] as usize),
{
    let r = s[0] as int;
    let a = p.take(i + 1);
    assert(is_path(g, a)) by {
        assert forall|k: int| 0 <= k < a.len() - 1 implies edge(g, #[trigger] a[k], a[k + 1]) by {
            assert(a[k] == p[k] && a[k + 1] == p[k + 1]);
        }
    }
    assert(a[0] == p[0] && a.last() == p[i]);
    let b = p.skip(i);
    assert(is_path(g, b)) by {
        assert forall|k: int| 0 <= k < b.len() - 1 implies edge(g, #[trigger] b[k], b[k + 1]) by {
            assert(b[k] == p[k + i] && b[k + 1] == p[k + i + 1]);
        }
    }
    assert(b[0] == p[i] && b.last() == p.last());
    assert(reaches(g, p[0], p[i]));
    assert(reaches(g, p[i], p.last()));
    let j0 = choose|j: int| 0 <= j < s.len() && s[j] == p[0] as usize;
    let j1 = choose|j: int| 0 <= j < s.len() && s[j] == p.last() as usize;
    assert(s[j0] < g.len() && s[j1] < g.len());
    assert(same_scc(g, r, p[0]));
    assert(same_scc(g, r, p.last()));
    lemma_reaches_trans(g, r, p[0], p[i]);
    lemma_reaches_trans(g, p[i], p.last(), r);
    assert(same_scc(g, r, p[i]));
}

/// In a single cycle, a walk between members follows `succ_of`.
proof fn lemma_path_is_walk(g: Seq<Seq<usize>>, s: Seq<usize>, p: Seq<int>, j: int)
    requires
        g.len() <= usize::MAX,
        is_cycle_group(g, s),
        simple_cycle(g, s),
        is_path(g, p),
        s.contains(p[0] as usize),
        s.contains(p.last() as usize),
        0 <= j < p.len(),
    ensures
        p[j] as usize == walk(g, s, p[0] as usize, j as nat),
        p[j] == p[j] as usize as int,
    decreases j,
{
    assert(0 <= p[j] < g.len());
    if j > 0 {
        lemma_path_is_walk(g, s, p, j - 1);
        let u = p[j - 1] as usize;
        lemma_path_in_group(g, s, p, j - 1);
        lemma_path_in_group(g, s, p, j);
        lemma_member_has_succ(g, s, u);
        assert(edge(g, p[j - 1], p[j]));
        let w2 = succ_of(g, s, u);
        assert(s.contains(u) && s.contains(p[j] as usize) && s.contains(w2) && edge(g, u as int, (p[j] as usize) as int) && edge(g, u as int, w2 as int));
    }
}

proof fn lemma_reach_is_walk(g: Seq<Seq<usize>>, s: Seq<usize>, u: usize, x: usize) -> (j: nat)
    requires
        g.len() <= usize::MAX,
        is_cycle_group(g, s),
        simple_cycle(g, s),
        s.contains(u),
        s.contains(x),
        reaches(g, u as int, x as int),
    ensures
        walk(g, s, u, j) == x,
{
    let p = choose|p: Seq<int>| is_path(g, p) && p[0] == u as int && p.last() == x as int;
    lemma_path_is_walk(g, s, p, p.len() - 1);
    (p.len() - 1) as nat
}

proof fn lemma_walk_period(g: Seq<Seq<usize>>, s: Seq<usize>, u: usize, d: nat, j: nat) -> (k: nat)
    requires
        d >= 1,
        walk(g, s, u, d) == u,
    ensures
        k < d,
        walk(g, s, u, j) == walk(g, s, u, k),
    decreases j,
{
    if j < d {
        j
    } else {
        lemma_walk_compose(g, s, u, d, (j - d) as nat);
        assert(d + (j - d) as nat == j);
        lemma_walk_period(g, s, u, d, (j - d) as nat)
    }
}

proof fn lemma_walk_multiple(g: Seq<Seq<usize>>, s: Seq<usize>, u: usize, d: nat, q: nat)
    requires
        walk(g, s, u, d) == u,
    ensures
        walk(g, s, u, d * q) == u,
    decreases q,
{
    if q > 0 {
        lemma_walk_multiple(g, s, u, d, (q - 1) as nat);
        assert(d * q == d * (q - 1) as nat + d) by (nonlinear_arith)
            requires q > 0;
        lemma_walk_compose(g, s, u, d * (q - 1) as nat, d);
    } else {
        assert(d * q == 0) by (nonlinear_arith)
            requires q == 0;
    }
}

/// A return to the start after `d` steps bounds the size of the cycle.
proof fn lemma_return_bound(g: Seq<Seq<usize>>, s: Seq<usize>, d: nat)
    requires
        g.len() <= usize::MAX,
        is_cycle_group(g, s),
        simple_cycle(g, s),
        d >= 1,
        walk(g, s, s[0], d) == s[0],
    ensures
        s.len() <= d,
{
    let s0 = s[0];
    let w = Seq::new(d, |i: int| walk(g, s, s0, i as nat));
    assert(s.contains(s0));
    assert forall|i: int| 0 <= i < s.len() implies w.contains(#[trigger] s[i]) by {
        let x = s[i];
        assert(x < g.len());
        assert(same_scc(g, s0 as int, x as int));
        let j = lemma_reach_is_walk(g, s, s0, x);
        let k = lemma_walk_period(g, s, s0, d, j);
        assert(w[k as int] == x);
    }
    crate::params::lemma_distinct_subseq_len(s, w);
}

/// In a single cycle, the walk from the first member visits every member once and comes back.
proof fn lemma_simple_walk(g: Seq<Seq<usize>>, s: Seq<usize>)
    requires
        g.len() <= usize::MAX,
        is_cycle_group(g, s),
        simple_cycle(g, s),
    ensures
        Seq::new(s.len(), |i: int| walk(g, s, s[0], i as nat)).no_duplicates(),
        walk(g, s, s[0], s.len()) == s[0],
{
    let s0 = s[0];
    let n = s.len();
    assert(s.contains(s0));
    // a return to the start
    lemma_member_has_succ(g, s, s0);
    assert(on_cycle(g, s0 as int));
    let w1 = choose|w: int| edge(g, s0 as int, w) && reaches(g, w, s0 as int);
    lemma_reaches_refl(g, s0 as int);
    lemma_reaches_step(g, s0 as int, s0 as int, w1);
    assert(0 <= w1 < g.len());
    assert(same_scc(g, s0 as int, w1)) by {
        lemma_reaches_refl(g, s0 as int);
    }
    let r = s0 as int;
    assert(s.contains(w1 as usize));
    let s1 = succ_of(g, s, s0);
    assert(s.contains(s0) && s.contains(w1 as usize) && s.contains(s1) && edge(g, s0 as int, (w1 as usize) as int) && edge(g, s0 as int, s1 as int));
    assert(walk(g, s, s0, 0) == s0);
    assert(walk(g, s, s0, 1) == s1);
    let j = lemma_reach_is_walk(g, s, s1, s0);
    lemma_walk_compose(g, s, s0, 1, j);
    let m: nat = 1 + j;
    assert(walk(g, s, s0, m) == s0);
    let ws = Seq::new(n, |i: int| walk(g, s, s0, i as nat));
    assert forall|a: int, b: int| 0 <= a < ws.len() && 0 <= b < ws.len() && a != b implies ws[a] != ws[b] by {
        if ws[a] == ws[b] {
            let (lo, hi) = if a < b { (a, b) } else { (b, a) };
            let t: nat = (m * ((lo + 1) as nat) - lo) as nat;
            assert(m * ((lo + 1) as nat) >= lo + 1) by (nonlinear_arith)
                requires m >= 1, lo >= 0;
            lemma_walk_multiple(g, s, s0, m, (lo + 1) as nat);
            lemma_walk_compose(g, s, s0, lo as nat, t);
            lemma_walk_compose(g, s, s0, hi as nat, t);
            assert(walk(g, s, s0, hi as nat) == walk(g, s, s0, lo as nat));
            assert(lo as nat + t == m * ((lo + 1) as nat));
            // walk(s0, hi + t) = s0
            assert(walk(g, s, s0, (hi as nat + t) as nat) == s0);
            lemma_walk_compose(g, s, s0, (lo as nat + t) as nat, (hi - lo) as nat);
            assert((lo as nat + t) as nat + (hi - lo) as nat == hi as nat + t);
            assert(walk(g, s, s0, (hi - lo) as nat) == s0);
            lemma_return_bound(g, s, (hi - lo) as nat);
        }
    }
    // the step after the last member returns to the start
    let x = walk(g, s, s0, n);
    lemma_walk_in(g, s, s0, n);
    assert forall|i: int| 0 <= i < ws.len() implies s.contains(#[trigger] ws[i]) by {
        lemma_walk_in(g, s, s0, i as nat);
    }
    if !ws.contains(x) {
        let k = choose|k: int| 0 <= k < s.len() && s[k] == x;
        let s2 = s.remove(k);
        assert forall|i: int| 0 <= i < ws.len() implies s2.contains(#[trigger] ws[i]) by {
            assert(s.contains(ws[i]));
            let j2 = choose|j2: int| 0 <= j2 < s.len() && s[j2] == ws[i];
            assert(j2 != k);
            if j2 < k {
                assert(s2[j2] == ws[i]);
            } else {
                assert(s2[j2 - 1] == ws[i]);
            }
        }
        assert(ws.no_duplicates());
        crate::params::lemma_distinct_subseq_len(ws, s2);
        assert(false);
    }
    let jx = choose|jx: int| 0 <= jx < ws.len() && ws[jx] == x;
    if jx > 0 {
        let t: nat = (m * ((jx + 1) as nat) - jx) as nat;
        assert(m * ((jx + 1) as nat) >= jx + 1) by (nonlinear_arith)
            requires m >= 1, jx >= 0;
        lemma_walk_multiple(g, s, s0, m, (jx + 1) as nat);
        assert(jx as nat + t == m * ((jx + 1) as nat));
        lemma_walk_compose(g, s, s0, jx as nat, t);
        lemma_walk_compose(g, s, s0, n, t);
        assert(walk(g, s, s0, (n + t) as nat) == s0);
        lemma_walk_compose(g, s, s0, (jx as nat + t) as nat, (n - jx) as nat);
        assert((jx as nat + t) as nat + (n - jx) as nat == n + t);
        assert(walk(g, s, s0, (n - jx) as nat) == s0);
        lemma_return_bound(g, s, (n - jx) as nat);
    }
}

fn in_list(l: &Vec<usize>, x: usize) -> (b: bool)
    ensures
        b == l@.contains(x),
{
    let mut i: usize = 0;
    while i < l.len()
        invariant
            i <= l@.len(),
            forall|j: int| 0 <= j < i ==> l@[j] != x,
        decreases l@.len() - i,
    {
        if l[i] == x {
            assert(l@[i as int] == x);
            return true;
        }
        i += 1;
    }
    false
}

fn succ_in(g: &Vec<Vec<usize>>, grp: &Vec<usize>, u: usize) -> (r: Option<usize>)
    requires
        wf_graph(adj(g@)),
        u < g@.len(),
    ensures
        r matches Some(w) ==> grp@.contains(w) && edge(adj(g@), u as int, w as int),
        r is None ==> forall|w: usize| grp@.contains(w) ==> !edge(adj(g@), u as int, w as int),
{
    let ghost gg = adj(g@);
    let row = &g[u];
    assert(gg[u as int] == row@);
    let mut k: usize = 0;
    while k < row.len()
        invariant
            k <= row@.len(),
            gg == adj(g@),
            gg[u as int] == row@,
            wf_graph(gg),
            u < g@.len(),
            forall|j: int| 0 <= j < k ==> !grp@.contains(#[trigger] row@[j]),
        decreases row@.len() - k,
    {
        let w = row[k];
        if in_list(grp, w) {
            assert(gg[u as int][k as int] == w);
            assert(w < gg.len());
            assert(edge(gg, u as int, w as int));
            return Some(w);
        }
        k += 1;
    }
    proof {
        assert forall|w: usize| grp@.contains(w) implies !edge(gg, u as int, w as int) by {
            if edge(gg, u as int, w as int) {
                let j = choose|j: int| 0 <= j < gg[u as int].len() && #[trigger] gg[u as int][j] as int == w as int;
                assert(row@[j] == w);
            }
        }
    }
    None
}

fn distinct_list(l: &Vec<usize>) -> (b: bool)
    ensures
        b == l@.no_duplicates(),
{
    let mut i: usize = 0;
    while i < l.len()
        invariant
            i <= l@.len(),
            forall|a: int, b: int| 0 <= a < i && 0 <= b < l@.len() && a != b ==> l@[a] != l@[b],
        decreases l@.len() - i,
    {
        let mut j: usize = 0;
        while j < l.len()
            invariant
                i < l@.len(),
                j <= l@.len(),
                forall|a: int, b: int| 0 <= a < i && 0 <= b < l@.len() && a != b ==> l@[a] != l@[b],
                forall|b: int| 0 <= b < j && b != i ==> l@[i as int] != l@[b],
            decreases l@.len() - j,
        {
            if j != i && l[i] == l[j] {
                return false;
            }
            j += 1;
        }
        i += 1;
    }
    true
}

/// The members of a cycle group in cycle order when they form a single cycle: starting at
/// the group's first member, each member followed by the one it depends on. Otherwise the
/// group as it is.
pub fn order_cycle(g: &Vec<Vec<usize>>, grp: &Vec<usize>) -> (r: Vec<usize>)
    requires
        wf_graph(adj(g@)),
        g@.len() <= usize::MAX,
        is_cycle_group(adj(g@), grp@),
    ensures
        r@.len() == grp@.len(),
        r@.len() > 0,
        r@[0] == grp@[0],
        r@.no_duplicates(),
        forall|x: usize| #![trigger r@.contains(x)] #![trigger grp@.contains(x)] r@.contains(x) <==> grp@.contains(x),
        simple_cycle(adj(g@), grp@) ==> in_cycle_order(adj(g@), r@),
{
    let ghost gg = adj(g@);
    let ghost sg = grp@;
    let n = grp.len();
    let s0 = grp[0];
    let mut w: Vec<usize> = Vec::new();
    w.push(s0);
    let mut ok = true;
    let mut i: usize = 1;
    assert(grp@.contains(s0));
    while i < n
        invariant
            gg == adj(g@),
            sg == grp@,
            wf_graph(gg),
            g@.len() <= usize::MAX,
            is_cycle_group(gg, sg),
            n == sg.len(),
            s0 == sg[0],
            1 <= i <= n,
            ok ==> w@.len() == i,
            w@.len() >= 1,
            w@[0] == s0,
            forall|j: int| 0 <= j < w@.len() ==> sg.contains(#[trigger] w@[j]),
            forall|j: int| 0 <= j < w@.len() - 1 ==> edge(gg, #[trigger] w@[j] as int, w@[j + 1] as int),
            simple_cycle(gg, sg) ==> ok && forall|j: int| 0 <= j < w@.len() ==> #[trigger] w@[j] == walk(gg, sg, s0, j as nat),
        ensures
            1 <= i <= n,
            ok ==> i == n && w@.len() == n,
            w@.len() >= 1,
            w@[0] == s0,
            forall|j: int| 0 <= j < w@.len() ==> sg.contains(#[trigger] w@[j]),
            forall|j: int| 0 <= j < w@.len() - 1 ==> edge(gg, #[trigger] w@[j] as int, w@[j + 1] as int),
            simple_cycle(gg, sg) ==> ok && forall|j: int| 0 <= j < w@.len() ==> #[trigger] w@[j] == walk(gg, sg, s0, j as nat),
        decreases n - i,
    {
        if !ok {
            break;
        }
        let cur = w[w.len() - 1];
        assert(sg.contains(cur));
        proof {
            let ci = choose|ci: int| 0 <= ci < sg.len() && sg[ci] == cur;
            assert(sg[ci] < gg.len());
        }
        match succ_in(g, grp, cur) {
            Some(nx) => {
                proof {
                    if simple_cycle(gg, sg) {
                        lemma_member_has_succ(gg, sg, cur);
                        let sc = succ_of(gg, sg, cur);
                        assert(sg.contains(cur) && sg.contains(nx) && sg.contains(sc) && edge(gg, cur as int, nx as int) && edge(gg, cur as int, sc as int));
                        assert(w@[w@.len() - 1] == walk(gg, sg, s0, (w@.len() - 1) as nat));
                        assert(walk(gg, sg, s0, w@.len() as nat) == succ_of(gg, sg, walk(gg, sg, s0, (w@.len() - 1) as nat)));
                    }
                }
                let ghost w0 = w@;
                w.push(nx);
                assert(forall|j: int| 0 <= j < w0.len() ==> w@[j] == w0[j]);
            },
            None => {
                proof {
                    if simple_cycle(gg, sg) {
                        lemma_member_has_succ(gg, sg, cur);
                        assert(sg.contains(succ_of(gg, sg, cur)));
                    }
                }
                ok = false;
            },
        }
        i += 1;
    }
    let mut closes = false;
    if ok && w.len() == n {
        let last = w[n - 1];
        assert(sg.contains(last));
        proof {
            let li = choose|li: int| 0 <= li < sg.len() && sg[li] == last;
            assert(sg[li] < gg.len());
        }
        match succ_in(g, grp, last) {
            Some(nx) => {
                closes = nx == s0;
                proof {
                    if simple_cycle(gg, sg) {
                        lemma_member_has_succ(gg, sg, last);
                        let sc = succ_of(gg, sg, last);
                        assert(sg.contains(last) && sg.contains(nx) && sg.contains(sc) && edge(gg, last as int, nx as int) && edge(gg, last as int, sc as int));
                        lemma_simple_walk(gg, sg);
                        assert(w@[n - 1] == walk(gg, sg, s0, (n - 1) as nat));
                        assert(walk(gg, sg, s0, n as nat) == succ_of(gg, sg, walk(gg, sg, s0, (n - 1) as nat)));
                    }
                }
            },
            None => {
                proof {
                    if simple_cycle(gg, sg) {
                        lemma_member_has_succ(gg, sg, last);
                    }
                }
            },
        }
    }
    let distinct = if closes { distinct_list(&w) } else { false };
    proof {
        if simple_cycle(gg, sg) {
            lemma_simple_walk(gg, sg);
            assert(w@ =~= Seq::new(n as nat, |j: int| walk(gg, sg, s0, j as nat)));
        }
    }
    if closes && distinct {
        proof {
            assert forall|x: usize| #![trigger w@.contains(x)] #![trigger sg.contains(x)] w@.contains(x) <==> sg.contains(x) by {
                if w@.contains(x) {
                    let j = choose|j: int| 0 <= j < w@.len() && w@[j] == x;
                    assert(sg.contains(w@[j]));
                }
                if sg.contains(x) && !w@.contains(x) {
                    let k = choose|k: int| 0 <= k < sg.len() && sg[k] == x;
                    let s2 = sg.remove(k);
                    assert forall|j: int| 0 <= j < w@.len() implies s2.contains(#[trigger] w@[j]) by {
                        assert(sg.contains(w@[j]));
                        let j2 = choose|j2: int| 0 <= j2 < sg.len() && sg[j2] == w@[j];
                        assert(j2 != k);
                        if j2 < k {
                            assert(s2[j2] == w@[j]);
                        } else {
                            assert(s2[j2 - 1] == w@[j]);
                        }
                    }
                    crate::params::lemma_distinct_subseq_len(w@, s2);
                }
            }
            assert forall|j: int| 0 <= j < w@.len() implies edge(gg, #[trigger] w@[j] as int, w@[(j + 1) % (w@.len() as int)] as int) by {
                if j < w@.len() - 1 {
                    assert((j + 1) % (w@.len() as int) == j + 1) by (nonlinear_arith)
                        requires 0 <= j + 1 < w@.len();
                } else {
                    assert((j + 1) % (w@.len() as int) == 0) by (nonlinear_arith)
                        requires j + 1 == w@.len(), w@.len() > 0;
                }
            }
        }
        w
    } else {
        let mut c: Vec<usize> = Vec::new();
        let mut k: usize = 0;
        while k < n
            invariant
                k <= n,
                n == grp@.len(),
                c@ == grp@.take(k as int),
            decreases n - k,
        {
            c.push(grp[k]);
            k += 1;
            assert(c@ =~= grp@.take(k as int));
        }
        assert(grp@.take(n as int) =~= grp@);
        c
    }
}

} // verus!
