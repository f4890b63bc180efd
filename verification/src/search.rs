//! Breadth-first search for call paths between defined symbols.
use vstd::prelude::*;
use crate::analyzer::graph::CallGraph;
use crate::node::NodeId;
use crate::order::{KeyPart, KeyV, key_order, key_view};
use crate::query::{defined_public, public_kind_of};

verus! {

/// One step of a call path: a uses edge from node `a` to the defined node
/// `b` of a reported flavor.
pub open spec fn step(cg: &CallGraph, a: int, b: int) -> bool {
    &&& 0 <= a < cg.nodes_arena@.len()
    &&& cg.uses_edges@[a]@.contains(b as NodeId)
    &&& defined_public(cg, b)
}

/// The `i`th and next node of `w` are one step apart.
pub open spec fn link(cg: &CallGraph, w: Seq<NodeId>, i: int) -> bool {
    step(cg, w[i] as int, w[i + 1] as int)
}

/// `w` is a call path from `s` to `t`.
pub open spec fn is_walk(cg: &CallGraph, w: Seq<NodeId>, s: int, t: int) -> bool {
    &&& w.len() >= 1
    &&& w[0] == s
    &&& w[w.len() - 1] == t
    &&& forall|i: int| 0 <= i < w.len() - 1 ==> #[trigger] link(cg, w, i)
}

/// `w` is a call path from `s` to `t` through distinct nodes, and no call
/// path from `s` to `t` is shorter.
pub open spec fn shortest_walk(cg: &CallGraph, w: Seq<NodeId>, s: int, t: int) -> bool {
    &&& is_walk(cg, w, s, t)
    &&& forall|a: int, b: int| 0 <= a < w.len() && 0 <= b < w.len() && a != b ==> #[trigger] w[a] != #[trigger] w[b]
    &&& forall|v: Seq<NodeId>| #[trigger] is_walk(cg, v, s, t) ==> w.len() <= v.len()
}

/// The nodes one step from `cur`, each once, ordered by canonical name.
fn steps_of(cg: &CallGraph, cur: NodeId) -> (r: Vec<NodeId>)
    requires
        cg.wf(),
        cur < cg.nodes_arena@.len(),
    ensures
        forall|a: int, b: int| 0 <= a < r@.len() && 0 <= b < r@.len() && a != b ==> #[trigger] r@[a] != #[trigger] r@[b],
        forall|z: NodeId| #[trigger] step(cg, cur as int, z as int) <==> r@.contains(z),
        forall|k: int| 0 <= k < r@.len() ==> step(cg, cur as int, #[trigger] r@[k] as int),
{
    proof {
        assert(crate::analyzer::graph::set_in(cg.uses_edges@[cur as int], cg.nodes_arena@.len()));
    }
    let targets = cg.uses_edges[cur].as_slice();
    let mut found: Vec<NodeId> = Vec::new();
    let mut keys: Vec<Vec<KeyPart>> = Vec::new();
    let mut m: usize = 0;
    while m < targets.len()
        invariant
            cg.wf(),
            cur < cg.nodes_arena@.len(),
            targets@ == cg.uses_edges@[cur as int]@,
            crate::analyzer::graph::set_in(cg.uses_edges@[cur as int], cg.nodes_arena@.len()),
            m <= targets@.len(),
            keys@.len() == found@.len(),
            forall|k: int| 0 <= k < found@.len() ==> exists|j: int| 0 <= j < m && #[trigger] found@[k] == targets@[j],
            forall|k: int| 0 <= k < found@.len() ==> step(cg, cur as int, #[trigger] found@[k] as int),
            forall|a: int, b: int| 0 <= a < found@.len() && 0 <= b < found@.len() && a != b ==> #[trigger] found@[a] != #[trigger] found@[b],
            forall|j: int| 0 <= j < m && step(cg, cur as int, #[trigger] targets@[j] as int) ==> found@.contains(targets@[j]),
        decreases targets.len() - m,
    {
        let t = targets[m];
        let ghost f0 = found@;
        proof {
            assert(t < cg.nodes_arena@.len());
            assert(cg.nodes_arena@[t as int].ids_in(&cg.interner));
        }
        if cg.defined[t] && public_kind_of(cg.nodes_arena[t].flavor).is_some() {
            let mut key: Vec<KeyPart> = Vec::new();
            let name = cg.nodes_arena[t].get_name(&cg.interner);
            key.push(KeyPart::Text(crate::text::str_to_chars(name.as_str())));
            found.push(t);
            keys.push(key);
            proof {
                assert(step(cg, cur as int, t as int));
                assert forall|a: int, b: int| 0 <= a < found@.len() && 0 <= b < found@.len() && a != b implies #[trigger] found@[a] != #[trigger] found@[b] by {
                    if a < f0.len() && b < f0.len() {
                        assert(f0[a] != f0[b]);
                    } else if a < f0.len() {
                        let j = choose|j: int| 0 <= j < m && #[trigger] f0[a] == targets@[j];
                        assert(cg.uses_edges@[cur as int]@.no_duplicates());
                        assert(targets@[j] != targets@[m as int]);
                    } else if b < f0.len() {
                        let j = choose|j: int| 0 <= j < m && #[trigger] f0[b] == targets@[j];
                        assert(cg.uses_edges@[cur as int]@.no_duplicates());
                        assert(targets@[j] != targets@[m as int]);
                    }
                }
            }
        }
        proof {
            assert forall|k: int| 0 <= k < found@.len() implies exists|j: int| 0 <= j < m + 1 && #[trigger] found@[k] == targets@[j] by {
                if k < f0.len() {
                    let j = choose|j: int| 0 <= j < m && #[trigger] f0[k] == targets@[j];
                    assert(found@[k] == targets@[j]);
                } else {
                    assert(found@[k] == targets@[m as int]);
                }
            }
            assert forall|j: int| 0 <= j < m + 1 && step(cg, cur as int, #[trigger] targets@[j] as int) implies found@.contains(targets@[j]) by {
                if j < m {
                    assert(f0.contains(targets@[j]));
                    let z = choose|z: int| 0 <= z < f0.len() && f0[z] == targets@[j];
                    assert(found@[z] == targets@[j]);
                } else {
                    assert(found@[found@.len() - 1] == t);
                }
            }
        }
        m = m + 1;
    }
    let ghost fv = found@;
    let perm = key_order(keys);
    let mut out: Vec<NodeId> = Vec::new();
    let mut k: usize = 0;
    while k < perm.len()
        invariant
            k <= perm@.len(),
            perm@.len() == fv.len(),
            fv == found@,
            forall|j: int| 0 <= j < perm@.len() ==> #[trigger] perm@[j] < fv.len(),
            forall|a: int, b: int| 0 <= a < perm@.len() && 0 <= b < perm@.len() && a != b ==> #[trigger] perm@[a] != #[trigger] perm@[b],
            out@.len() == k,
            forall|j: int| 0 <= j < k ==> #[trigger] out@[j] == fv[perm@[j] as int],
        decreases perm.len() - k,
    {
        out.push(found[perm[k]]);
        k = k + 1;
    }
    proof {
        assert forall|a: int, b: int| 0 <= a < out@.len() && 0 <= b < out@.len() && a != b implies #[trigger] out@[a] != #[trigger] out@[b] by {
            assert(perm@[a] != perm@[b]);
        }
        assert forall|k: int| 0 <= k < out@.len() implies step(cg, cur as int, #[trigger] out@[k] as int) by {
            assert(step(cg, cur as int, fv[perm@[k] as int] as int));
        }
        assert forall|z: NodeId| #[trigger] step(cg, cur as int, z as int) <==> out@.contains(z) by {
            if step(cg, cur as int, z as int) {
                assert(targets@.contains(z));
                let j = choose|j: int| 0 <= j < targets@.len() && targets@[j] == z;
                assert(step(cg, cur as int, targets@[j] as int));
                assert(fv.contains(z));
                let y = choose|y: int| 0 <= y < fv.len() && fv[y] == z;
                assert(perm@.contains(y as usize));
                let x = choose|x: int| 0 <= x < perm@.len() && perm@[x] == y as usize;
                assert(out@[x] == z);
            }
            if out@.contains(z) {
                let x = choose|x: int| 0 <= x < out@.len() && out@[x] == z;
                assert(step(cg, cur as int, fv[perm@[x] as int] as int));
            }
        }
    }
    out
}

/// Node `x` was taken from the queue and expanded: it is among the first
/// `h` nodes of `order`.
pub open spec fn done(order: Seq<NodeId>, h: int, x: NodeId) -> bool {
    exists|m: int| 0 <= m < h && order[m] == x
}

/// Node `v` was reached from `prev[v]`, one step further from the start.
pub open spec fn back_link(cg: &CallGraph, prev: Seq<usize>, dist: Seq<nat>, visited: Seq<bool>, v: int) -> bool {
    &&& prev[v] < cg.nodes_arena@.len()
    &&& visited[prev[v] as int]
    &&& step(cg, prev[v] as int, v)
    &&& dist[v] == dist[prev[v] as int] + 1
}

/// The state of the search from `src` for `tgt`: `order` lists the reached
/// nodes in the order reached, the first `h` of them expanded; `dist` is
/// each reached node's distance along `prev`.
pub open spec fn bfs_inv(
    cg: &CallGraph,
    src: int,
    tgt: int,
    order: Seq<NodeId>,
    h: int,
    visited: Seq<bool>,
    prev: Seq<usize>,
    dist: Seq<nat>,
) -> bool {
    let n = cg.nodes_arena@.len();
    &&& visited.len() == n
    &&& prev.len() == n
    &&& dist.len() == n
    &&& 0 <= h <= order.len()
    &&& order.len() >= 1
    &&& order[0] == src
    &&& forall|k: int| 0 <= k < order.len() ==> #[trigger] order[k] < n
    &&& forall|a: int, b: int| 0 <= a < order.len() && 0 <= b < order.len() && a != b ==> #[trigger] order[a] != #[trigger] order[b]
    &&& forall|x: int| 0 <= x < n ==> (#[trigger] visited[x] <==> order.contains(x as NodeId))
    &&& dist[src] == 0
    &&& forall|k: int| 1 <= k < order.len() ==> #[trigger] back_link(cg, prev, dist, visited, order[k] as int)
    &&& forall|a: int, b: int| 0 <= a < b < order.len() ==> dist[#[trigger] order[a] as int] <= dist[#[trigger] order[b] as int]
    &&& h < order.len() ==> forall|k: int| h <= k < order.len() ==> dist[#[trigger] order[k] as int] <= dist[order[h] as int] + 1
    &&& forall|k: int, z: int| 0 <= k < h && #[trigger] step(cg, order[k] as int, z) ==> visited[z] && dist[z] <= dist[order[k] as int] + 1
    &&& forall|k: int| 0 <= k < h ==> #[trigger] order[k] != tgt
}

/// Along a call path from the start whose first `i` nodes were expanded,
/// the `i`th node was reached, no further than `i` steps away.
proof fn lemma_prefix_reached(
    cg: &CallGraph,
    src: int,
    tgt: int,
    order: Seq<NodeId>,
    h: int,
    visited: Seq<bool>,
    prev: Seq<usize>,
    dist: Seq<nat>,
    w: Seq<NodeId>,
    i: int,
)
    requires
        bfs_inv(cg, src, tgt, order, h, visited, prev, dist),
        w.len() >= 1,
        w[0] == src,
        forall|j: int| 0 <= j < w.len() - 1 ==> #[trigger] link(cg, w, j),
        0 <= i < w.len(),
        forall|k: int| 0 <= k < i ==> #[trigger] done(order, h, w[k]),
    ensures
        visited[w[i] as int],
        dist[w[i] as int] <= i,
    decreases i,
{
    if i == 0 {
        assert(order[0] == w[0]);
        assert(order.contains(w[0]));
    } else {
        lemma_prefix_reached(cg, src, tgt, order, h, visited, prev, dist, w, i - 1);
        assert(done(order, h, w[i - 1]));
        let m = choose|m: int| 0 <= m < h && order[m] == w[i - 1];
        assert(link(cg, w, i - 1));
        assert(step(cg, order[m] as int, w[i] as int));
    }
}

/// When the target is next in the queue, no call path from the start to it
/// is shorter than its distance.
proof fn lemma_found_shortest(
    cg: &CallGraph,
    src: int,
    tgt: int,
    order: Seq<NodeId>,
    h: int,
    visited: Seq<bool>,
    prev: Seq<usize>,
    dist: Seq<nat>,
    w: Seq<NodeId>,
    i: int,
)
    requires
        bfs_inv(cg, src, tgt, order, h, visited, prev, dist),
        h < order.len(),
        order[h] == tgt,
        is_walk(cg, w, src, tgt),
        0 <= i < w.len(),
        forall|k: int| 0 <= k < i ==> #[trigger] done(order, h, w[k]),
    ensures
        dist[tgt] + 1 <= w.len(),
    decreases w.len() - i,
{
    if done(order, h, w[i]) {
        let m = choose|m: int| 0 <= m < h && order[m] == w[i];
        assert(order[m] != tgt);
        assert(i != w.len() - 1);
        assert forall|k: int| 0 <= k < i + 1 implies #[trigger] done(order, h, w[k]) by {
            if k < i {
                assert(done(order, h, w[k]));
            }
        }
        lemma_found_shortest(cg, src, tgt, order, h, visited, prev, dist, w, i + 1);
    } else {
        lemma_prefix_reached(cg, src, tgt, order, h, visited, prev, dist, w, i);
        assert(w[i] < cg.nodes_arena@.len()) by {
            if i == 0 {
                assert(order[0] < cg.nodes_arena@.len());
            } else {
                assert(link(cg, w, i - 1));
            }
        }
        assert(order.contains(w[i]));
        let m = choose|m: int| 0 <= m < order.len() && order[m] == w[i];
        if m < h {
            assert(done(order, h, w[i]));
        }
        if m > h {
            assert(dist[order[h] as int] <= dist[order[m] as int]);
        }
    }
}

/// When every reached node was expanded, every node of a call path from
/// the start was reached.
proof fn lemma_all_reached(
    cg: &CallGraph,
    src: int,
    tgt: int,
    order: Seq<NodeId>,
    visited: Seq<bool>,
    prev: Seq<usize>,
    dist: Seq<nat>,
    w: Seq<NodeId>,
    i: int,
)
    requires
        bfs_inv(cg, src, tgt, order, order.len() as int, visited, prev, dist),
        w.len() >= 1,
        w[0] == src,
        forall|j: int| 0 <= j < w.len() - 1 ==> #[trigger] link(cg, w, j),
        0 <= i < w.len(),
    ensures
        order.contains(w[i]),
    decreases i,
{
    if i == 0 {
        assert(order[0] == w[0]);
    } else {
        lemma_all_reached(cg, src, tgt, order, visited, prev, dist, w, i - 1);
        let m = choose|m: int| 0 <= m < order.len() && order[m] == w[i - 1];
        assert(link(cg, w, i - 1));
        assert(step(cg, order[m] as int, w[i] as int));
        assert(visited[w[i] as int]);
    }
}

/// Distinct nodes number no more than the graph's nodes.
proof fn lemma_distinct_bound(s: Seq<NodeId>, n: nat)
    requires
        forall|k: int| 0 <= k < s.len() ==> #[trigger] s[k] < n,
        forall|a: int, b: int| 0 <= a < s.len() && 0 <= b < s.len() && a != b ==> #[trigger] s[a] != #[trigger] s[b],
    ensures
        s.len() <= n,
{
    let t = s.map_values(|x: NodeId| x as int);
    assert(t.no_duplicates()) by {
        assert forall|a: int, b: int| 0 <= a < t.len() && 0 <= b < t.len() && a != b implies t[a] != t[b] by {
            assert(s[a] != s[b]);
        }
    }
    t.unique_seq_to_set();
    vstd::set_lib::lemma_int_range(0, n as int);
    assert(t.to_set().subset_of(vstd::set_lib::set_int_range(0, n as int))) by {
        assert forall|x: int| t.to_set().contains(x) implies vstd::set_lib::set_int_range(0, n as int).contains(x) by {
            let k = choose|k: int| 0 <= k < t.len() && t[k] == x;
            assert(s[k] < n);
        }
    }
    vstd::set_lib::lemma_len_subset(t.to_set(), vstd::set_lib::set_int_range(0, n as int));
}

/// `rev` runs backwards along steps: each node is one step after the next.
pub open spec fn back_walk(cg: &CallGraph, rev: Seq<NodeId>) -> bool {
    forall|i: int| 0 <= i < rev.len() - 1 ==> #[trigger] step(cg, rev[i + 1] as int, rev[i] as int)
}

/// A shortest call path from `src` to `tgt`, found by a breadth-first
/// search that tries the next nodes of each node by canonical name; `None`
/// when no call path joins them.
pub fn shortest_path(cg: &CallGraph, src: NodeId, tgt: NodeId) -> (r: Option<Vec<NodeId>>)
    requires
        cg.wf(),
        src < cg.nodes_arena@.len(),
        tgt < cg.nodes_arena@.len(),
    ensures
        match r {
            Some(p) => shortest_walk(cg, p@, src as int, tgt as int),
            None => forall|w: Seq<NodeId>| !#[trigger] is_walk(cg, w, src as int, tgt as int),
        },
{
    let n = cg.nodes_arena.len();
    let mut visited: Vec<bool> = Vec::new();
    let mut prev: Vec<usize> = Vec::new();
    let mut i: usize = 0;
    while i < n
        invariant
            i <= n,
            visited@.len() == i,
            prev@.len() == i,
            forall|x: int| 0 <= x < i ==> !#[trigger] visited@[x],
        decreases n - i,
    {
        visited.push(false);
        prev.push(0);
        i = i + 1;
    }
    visited.set(src, true);
    let mut order: Vec<NodeId> = vec![src];
    let ghost mut dist: Seq<nat> = Seq::new(n as nat, |x: int| 0nat);
    let mut h: usize = 0;
    proof {
        assert forall|x: int| 0 <= x < n implies (#[trigger] visited@[x] <==> order@.contains(x as NodeId)) by {
            if x == src as int {
                assert(order@[0] == src);
            } else {
                if order@.contains(x as NodeId) {
                    let k = choose|k: int| 0 <= k < order@.len() && order@[k] == x as NodeId;
                    assert(k == 0);
                }
            }
        }
        assert(bfs_inv(cg, src as int, tgt as int, order@, h as int, visited@, prev@, dist));
    }
    while h < order.len() && order[h] != tgt
        invariant
            cg.wf(),
            n == cg.nodes_arena@.len(),
            src < n,
            tgt < n,
            order@.len() <= n,
            bfs_inv(cg, src as int, tgt as int, order@, h as int, visited@, prev@, dist),
        decreases n - h,
    {
        let cur = order[h];
        let succ = steps_of(cg, cur);
        let mut j: usize = 0;
        while j < succ.len()
            invariant
                cg.wf(),
                n == cg.nodes_arena@.len(),
                src < n,
                tgt < n,
                h < order@.len(),
                order@[h as int] == cur,
                cur != tgt,
                cur < n,
                bfs_inv(cg, src as int, tgt as int, order@, h as int, visited@, prev@, dist),
                j <= succ@.len(),
                forall|a: int, b: int| 0 <= a < succ@.len() && 0 <= b < succ@.len() && a != b ==> #[trigger] succ@[a] != #[trigger] succ@[b],
                forall|z: NodeId| #[trigger] step(cg, cur as int, z as int) <==> succ@.contains(z),
                forall|k: int| 0 <= k < succ@.len() ==> step(cg, cur as int, #[trigger] succ@[k] as int),
                forall|jj: int| 0 <= jj < j ==> #[trigger] visited@[succ@[jj] as int] && dist[succ@[jj] as int] <= dist[cur as int] + 1,
            decreases succ.len() - j,
        {
            let t = succ[j];
            proof {
                assert(succ@.contains(t));
                assert(step(cg, cur as int, t as int));
            }
            if !visited[t] {
                let ghost o0 = order@;
                let ghost v0 = visited@;
                let ghost p0 = prev@;
                let ghost d0 = dist;
                visited.set(t, true);
                prev.set(t, cur);
                order.push(t);
                proof {
                    dist = dist.update(t as int, d0[cur as int] + 1);
                    assert(!o0.contains(t));
                    assert(o0.contains(cur)) by {
                        assert(o0[h as int] == cur);
                    }
                    assert(v0[cur as int]);
                    assert(cur != t);
                    assert forall|a: int, b: int| 0 <= a < order@.len() && 0 <= b < order@.len() && a != b implies #[trigger] order@[a] != #[trigger] order@[b] by {
                        if a < o0.len() && b < o0.len() {
                            assert(o0[a] != o0[b]);
                        } else if a < o0.len() {
                            assert(o0.contains(o0[a]));
                        } else if b < o0.len() {
                            assert(o0.contains(o0[b]));
                        }
                    }
                    assert forall|x: int| 0 <= x < n implies (#[trigger] visited@[x] <==> order@.contains(x as NodeId)) by {
                        if x == t as int {
                            assert(order@[order@.len() - 1] == t);
                        } else {
                            assert(visited@[x] == v0[x]);
                            if order@.contains(x as NodeId) {
                                let k = choose|k: int| 0 <= k < order@.len() && order@[k] == x as NodeId;
                                assert(k < o0.len());
                                assert(o0.contains(x as NodeId));
                            }
                            if o0.contains(x as NodeId) {
                                let k = choose|k: int| 0 <= k < o0.len() && o0[k] == x as NodeId;
                                assert(order@[k] == x as NodeId);
                            }
                        }
                    }
                    assert(dist[src as int] == 0) by {
                        assert(v0[src as int]);
                    }
                    assert forall|k: int| 1 <= k < order@.len() implies #[trigger] back_link(cg, prev@, dist, visited@, order@[k] as int) by {
                        if k < o0.len() {
                            let v = o0[k] as int;
                            assert(back_link(cg, p0, d0, v0, v));
                            assert(v != t as int);
                            assert(v0[p0[v] as int]);
                            assert(p0[v] != t);
                        } else {
                            assert(order@[k] == t);
                        }
                    }
                    assert forall|a: int, b: int| 0 <= a < b < order@.len() implies dist[#[trigger] order@[a] as int] <= dist[#[trigger] order@[b] as int] by {
                        assert(o0[a] != t);
                        if b < o0.len() {
                            assert(o0[b] != t);
                            assert(d0[o0[a] as int] <= d0[o0[b] as int]);
                        } else {
                            if a >= h {
                                assert(d0[o0[a] as int] <= d0[o0[h as int] as int] + 1);
                            } else if a < h {
                                assert(d0[o0[a] as int] <= d0[o0[h as int] as int]);
                            }
                        }
                    }
                    assert forall|k: int| h <= k < order@.len() implies dist[#[trigger] order@[k] as int] <= dist[order@[h as int] as int] + 1 by {
                        assert(order@[h as int] == cur);
                        assert(cur != t) by {
                            assert(v0[cur as int]);
                        }
                        if k < o0.len() {
                            assert(o0[k] != t);
                        }
                    }
                    assert forall|k: int, z: int| 0 <= k < h && #[trigger] step(cg, order@[k] as int, z) implies visited@[z] && dist[z] <= dist[order@[k] as int] + 1 by {
                        assert(order@[k] == o0[k]);
                        assert(v0[z]);
                        assert(z != t as int);
                        assert(o0[k] != t);
                    }
                    assert(bfs_inv(cg, src as int, tgt as int, order@, h as int, visited@, prev@, dist));
                    assert forall|jj: int| 0 <= jj < j implies #[trigger] visited@[succ@[jj] as int] && dist[succ@[jj] as int] <= dist[cur as int] + 1 by {
                        assert(v0[succ@[jj] as int]);
                        assert(d0[succ@[jj] as int] <= d0[cur as int] + 1);
                        assert(succ@[jj as int] != succ@[j as int]);
                        assert(succ@[jj] != t);
                    }
                    assert(dist[t as int] == dist[cur as int] + 1);
                }
            } else {
                proof {
                    assert(order@.contains(t));
                    let m = choose|m: int| 0 <= m < order@.len() && order@[m] == t;
                    if m >= h {
                        assert(dist[order@[m] as int] <= dist[order@[h as int] as int] + 1);
                    } else {
                        assert(dist[order@[m] as int] <= dist[order@[h as int] as int]);
                    }
                    assert(dist[t as int] <= dist[cur as int] + 1);
                }
            }
            proof {
                assert(visited@[t as int]);
                assert forall|jj: int| 0 <= jj < j + 1 implies #[trigger] visited@[succ@[jj] as int] && dist[succ@[jj] as int] <= dist[cur as int] + 1 by {
                    if jj == j {
                        assert(succ@[jj] == t);
                        assert(dist[t as int] <= dist[cur as int] + 1);
                    }
                }
            }
            j = j + 1;
        }
        proof {
            assert forall|k: int, z: int| 0 <= k < h + 1 && #[trigger] step(cg, order@[k] as int, z) implies visited@[z] && dist[z] <= dist[order@[k] as int] + 1 by {
                if k == h {
                    assert((z as NodeId) as int == z);
                    assert(step(cg, cur as int, (z as NodeId) as int));
                    assert(succ@.contains(z as NodeId));
                    let jj = choose|jj: int| 0 <= jj < succ@.len() && succ@[jj] == z as NodeId;
                    assert(visited@[succ@[jj] as int]);
                }
            }
            if h + 1 < order@.len() {
                assert forall|k: int| h + 1 <= k < order@.len() implies dist[#[trigger] order@[k] as int] <= dist[order@[h + 1] as int] + 1 by {
                    assert(dist[order@[k] as int] <= dist[order@[h as int] as int] + 1);
                    assert(dist[order@[h as int] as int] <= dist[order@[h + 1] as int]);
                }
            }
            assert(bfs_inv(cg, src as int, tgt as int, order@, h + 1, visited@, prev@, dist));
            lemma_distinct_bound(order@, n as nat);
        }
        h = h + 1;
    }
    if h == order.len() {
        proof {
            assert forall|w: Seq<NodeId>| !#[trigger] is_walk(cg, w, src as int, tgt as int) by {
                if is_walk(cg, w, src as int, tgt as int) {
                    lemma_all_reached(cg, src as int, tgt as int, order@, visited@, prev@, dist, w, w.len() - 1);
                    let m = choose|m: int| 0 <= m < order@.len() && order@[m] == w[w.len() - 1];
                    assert(order@[m] != tgt);
                }
            }
        }
        return None;
    }
    let mut rev: Vec<NodeId> = vec![tgt];
    let mut cur: NodeId = tgt;
    proof {
        assert(order@.contains(tgt)) by {
            assert(order@[h as int] == tgt);
        }
    }
    while cur != src
        invariant
            cg.wf(),
            n == cg.nodes_arena@.len(),
            src < n,
            tgt < n,
            bfs_inv(cg, src as int, tgt as int, order@, h as int, visited@, prev@, dist),
            h < order@.len(),
            order@[h as int] == tgt,
            cur < n,
            visited@[cur as int],
            rev@.len() >= 1,
            rev@[0] == tgt,
            rev@[rev@.len() - 1] == cur,
            back_walk(cg, rev@),
            forall|k: int| 0 <= k < rev@.len() ==> dist[#[trigger] rev@[k] as int] + k == dist[tgt as int],
        decreases dist[cur as int],
    {
        proof {
            assert(order@.contains(cur));
            let k = choose|k: int| 0 <= k < order@.len() && order@[k] == cur;
            assert(k != 0);
            assert(back_link(cg, prev@, dist, visited@, order@[k] as int));
        }
        let p = prev[cur];
        let ghost r0 = rev@;
        rev.push(p);
        proof {
            assert forall|i: int| 0 <= i < rev@.len() - 1 implies #[trigger] step(cg, rev@[i + 1] as int, rev@[i] as int) by {
                if i < r0.len() - 1 {
                    assert(step(cg, r0[i + 1] as int, r0[i] as int));
                }
            }
            assert forall|k: int| 0 <= k < rev@.len() implies dist[#[trigger] rev@[k] as int] + k == dist[tgt as int] by {
                if k < r0.len() {
                    assert(rev@[k] == r0[k]);
                }
            }
        }
        cur = p;
    }
    let len = rev.len();
    let mut path: Vec<NodeId> = Vec::new();
    let mut k: usize = 0;
    while k < len
        invariant
            len == rev@.len(),
            k <= len,
            path@.len() == k,
            forall|i: int| 0 <= i < k ==> #[trigger] path@[i] == rev@[len - 1 - i],
        decreases len - k,
    {
        path.push(rev[len - 1 - k]);
        k = k + 1;
    }
    proof {
        let pv = path@;
        assert(dist[src as int] == 0);
        assert(pv[0] == src);
        assert(pv[pv.len() - 1] == tgt);
        assert forall|i: int| 0 <= i < pv.len() - 1 implies #[trigger] link(cg, pv, i) by {
            let j = len - 2 - i;
            assert(step(cg, rev@[j + 1] as int, rev@[j] as int));
        }
        assert(is_walk(cg, pv, src as int, tgt as int));
        assert forall|a: int, b: int| 0 <= a < pv.len() && 0 <= b < pv.len() && a != b implies #[trigger] pv[a] != #[trigger] pv[b] by {
            assert(dist[rev@[len - 1 - a] as int] + (len - 1 - a) == dist[tgt as int]);
            assert(dist[rev@[len - 1 - b] as int] + (len - 1 - b) == dist[tgt as int]);
        }
        assert(dist[rev@[len - 1] as int] + (len - 1) == dist[tgt as int]);
        assert forall|v: Seq<NodeId>| #[trigger] is_walk(cg, v, src as int, tgt as int) implies pv.len() <= v.len() by {
            lemma_found_shortest(cg, src as int, tgt as int, order@, h as int, visited@, prev@, dist, v, 0);
        }
    }
    Some(path)
}

} // verus!
