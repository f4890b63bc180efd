//! Postprocessing of the analyzed graph: wildcard expansion, import
//! resolution, contraction of undefined nodes, culling of inherited edges
//! and collapsing of inner scopes.

use vstd::prelude::*;

use crate::analyzer::graph::{edges_in, lemma_edges_update, set_in, CallGraph, ExternalReferenceDiagnostic, ExternalReferenceKind};
use crate::analyzer::modgraph::lemma_push_contains;
use crate::analyzer::session::{scope_pos, AnalysisSession};
use crate::analyzer::state::{describes, first_key, lemma_first_key_unique, lemma_named_stable, scope_index};
use crate::intern::{Interner, SymId};
use crate::node::{flavor_rank, Flavor, Node, NodeId};
use crate::scope::ValueSet;
use crate::text::chars_to_string;

verus! {

/// The image of `id` under an id mapping (the first entry for `id`), or
/// `id` itself.
pub fn remap_id(mapping: &Vec<(NodeId, NodeId)>, id: NodeId) -> (r: NodeId)
    ensures
        r == id || exists|k: int| 0 <= k < mapping@.len() && mapping@[k].0 == id && mapping@[k].1 == r,
        forall|k: int|
            0 <= k < mapping@.len() && mapping@[k].0 == id && (forall|j: int| 0 <= j < k ==> mapping@[j].0 != id) ==> r
                == mapping@[k].1,
        (forall|k: int| 0 <= k < mapping@.len() ==> mapping@[k].0 != id) ==> r == id,
        r == image(mapping@, id),
{
    let mut i: usize = 0;
    while i < mapping.len()
        invariant
            i <= mapping@.len(),
            forall|j: int| 0 <= j < i ==> mapping@[j].0 != id,
        decreases mapping.len() - i,
    {
        if mapping[i].0 == id {
            proof {
                assert(first_key(mapping@, id, i as int));
                lemma_first_key_unique(mapping@, id, i as int);
            }
            return mapping[i].1;
        }
        i = i + 1;
    }
    proof {
        if exists|k: int| first_key(mapping@, id, k) {
            let k = choose|k: int| first_key(mapping@, id, k);
            assert(mapping@[k].0 == id);
        }
    }
    id
}

/// The image of `id` under `mapping`: the target of its first entry, or
/// `id` itself.
pub open spec fn image(mapping: Seq<(NodeId, NodeId)>, id: NodeId) -> NodeId {
    if exists|k: int| first_key(mapping, id, k) {
        mapping[choose|k: int| first_key(mapping, id, k)].1
    } else {
        id
    }
}

/// The `q`-th edge of node `a` in `t` leads, remapped, from `s` to `x`.
pub open spec fn remapped_edge(t: Seq<ValueSet>, mapping: Seq<(NodeId, NodeId)>, a: int, q: int, s: int, x: usize) -> bool {
    &&& 0 <= a < t.len()
    &&& 0 <= q < t[a]@.len()
    &&& image(mapping, a as usize) == s
    &&& image(mapping, t[a]@[q]) == x
}

/// `u` holds exactly the edges of `t` with both ends remapped.
pub open spec fn remapped(t: Seq<ValueSet>, mapping: Seq<(NodeId, NodeId)>, u: Seq<ValueSet>) -> bool {
    &&& u.len() == t.len()
    &&& forall|s: int, x: usize|
        0 <= s < u.len() ==> (#[trigger] u[s]@.contains(x) <==> exists|a: int, q: int| #[trigger] remapped_edge(t, mapping, a, q, s, x))
}

/// The remapped edge is one of those before the `j`-th edge of node `from`.
pub open spec fn done_edge(t: Seq<ValueSet>, mapping: Seq<(NodeId, NodeId)>, from: int, j: int, s: int, x: usize) -> bool {
    exists|a: int, q: int| #[trigger] remapped_edge(t, mapping, a, q, s, x) && (a < from || (a == from && q < j))
}

/// Stepping past one edge adds that edge.
proof fn lemma_done_step(t: Seq<ValueSet>, mapping: Seq<(NodeId, NodeId)>, from: int, j: int, s: int, x: usize)
    requires
        0 <= from < t.len(),
        0 <= j < t[from]@.len(),
    ensures
        done_edge(t, mapping, from, j + 1, s, x) == (done_edge(t, mapping, from, j, s, x) || remapped_edge(t, mapping, from, j, s, x)),
{
    if done_edge(t, mapping, from, j + 1, s, x) {
        let (a, q) = choose|a: int, q: int| #[trigger] remapped_edge(t, mapping, a, q, s, x) && (a < from || (a == from && q < j + 1));
        if !(a == from && q == j) {
            assert(remapped_edge(t, mapping, a, q, s, x) && (a < from || (a == from && q < j)));
        }
    }
    if done_edge(t, mapping, from, j, s, x) {
        let (a, q) = choose|a: int, q: int| #[trigger] remapped_edge(t, mapping, a, q, s, x) && (a < from || (a == from && q < j));
        assert(remapped_edge(t, mapping, a, q, s, x) && (a < from || (a == from && q < j + 1)));
    }
    if remapped_edge(t, mapping, from, j, s, x) {
        assert(remapped_edge(t, mapping, from, j, s, x) && (from < from || (from == from && j < j + 1)));
    }
}

/// All edges of node `from` done is node `from + 1` begun.
proof fn lemma_done_next(t: Seq<ValueSet>, mapping: Seq<(NodeId, NodeId)>, from: int, s: int, x: usize)
    requires
        0 <= from < t.len(),
    ensures
        done_edge(t, mapping, from + 1, 0, s, x) == done_edge(t, mapping, from, t[from]@.len() as int, s, x),
{
    let len = t[from]@.len() as int;
    if done_edge(t, mapping, from + 1, 0, s, x) {
        let (a, q) = choose|a: int, q: int| #[trigger] remapped_edge(t, mapping, a, q, s, x) && (a < from + 1 || (a == from + 1 && q < 0));
        assert(remapped_edge(t, mapping, a, q, s, x) && (a < from || (a == from && q < len)));
    }
    if done_edge(t, mapping, from, len, s, x) {
        let (a, q) = choose|a: int, q: int| #[trigger] remapped_edge(t, mapping, a, q, s, x) && (a < from || (a == from && q < len));
        assert(remapped_edge(t, mapping, a, q, s, x) && (a < from + 1 || (a == from + 1 && q < 0)));
    }
}

/// Every id of the mapping names a node below `n`.
pub open spec fn mapping_in(mapping: Seq<(NodeId, NodeId)>, n: nat) -> bool {
    forall|k: int| 0 <= k < mapping.len() ==> (#[trigger] mapping[k]).0 < n && mapping[k].1 < n
}

/// A table of `n` empty sets.
fn empty_table(n: usize) -> (r: Vec<ValueSet>)
    ensures
        r@.len() == n,
        edges_in(r@, n as nat),
        forall|i: int| 0 <= i < n ==> (#[trigger] r@[i])@.len() == 0,
{
    let mut t: Vec<ValueSet> = Vec::new();
    let mut i: usize = 0;
    while i < n
        invariant
            i <= n,
            t@.len() == i,
            edges_in(t@, n as nat),
            forall|k: int| 0 <= k < i ==> (#[trigger] t@[k])@.len() == 0,
        decreases n - i,
    {
        let e = ValueSet::empty();
        proof {
            assert forall|a: int| 0 <= a < t@.push(e).len() implies #[trigger] set_in(t@.push(e)[a], n as nat) by {
                if a < t@.len() {
                    assert(set_in(t@[a], n as nat));
                }
            }
        }
        t.push(e);
        i = i + 1;
    }
    t
}

/// The edge table with every source and target replaced by its image.
fn remap_table(table: &Vec<ValueSet>, mapping: &Vec<(NodeId, NodeId)>, n: usize) -> (r: Vec<ValueSet>)
    requires
        table@.len() == n,
        edges_in(table@, n as nat),
        mapping_in(mapping@, n as nat),
    ensures
        r@.len() == n,
        edges_in(r@, n as nat),
        remapped(table@, mapping@, r@),
{
    let mut out = empty_table(n);
    let ghost t = table@;
    let ghost m = mapping@;
    proof {
        assert forall|s: int, x: usize| 0 <= s < n implies (#[trigger] out@[s]@.contains(x) <==> done_edge(t, m, 0, 0, s, x)) by {
            assert(set_in(out@[s], n as nat));
            if done_edge(t, m, 0, 0, s, x) {
                let (a, q) = choose|a: int, q: int| #[trigger] remapped_edge(t, m, a, q, s, x) && (a < 0 || (a == 0 && q < 0));
            }
        }
    }
    let mut from: usize = 0;
    while from < n
        invariant
            from <= n,
            table@.len() == n,
            t == table@,
            m == mapping@,
            edges_in(table@, n as nat),
            mapping_in(mapping@, n as nat),
            out@.len() == n,
            edges_in(out@, n as nat),
            forall|s: int, x: usize| 0 <= s < n ==> (#[trigger] out@[s]@.contains(x) <==> done_edge(t, m, from as int, 0, s, x)),
        decreases n - from,
    {
        let targets = table[from].iter();
        if targets.len() == 0 {
            proof {
                assert forall|s: int, x: usize| 0 <= s < n implies (#[trigger] out@[s]@.contains(x) <==> done_edge(t, m, from as int + 1, 0, s, x)) by {
                    lemma_done_next(t, m, from as int, s, x);
                    if done_edge(t, m, from as int, 0, s, x) != done_edge(t, m, from as int, t[from as int]@.len() as int, s, x) {
                        assert(t[from as int]@.len() == 0);
                    }
                }
            }
        }
        if targets.len() > 0 {
            let new_from = remap_id(mapping, from);
            proof {
                if new_from != from {
                    let k = choose|k: int| 0 <= k < mapping@.len() && mapping@[k].0 == from && mapping@[k].1 == new_from;
                    assert(mapping@[k].1 < n);
                }
                assert(set_in(table@[from as int], n as nat));
            }
            let mut j: usize = 0;
            while j < targets.len()
                invariant
                    j <= targets@.len(),
                    from < n,
                    new_from < n,
                    new_from == image(m, from),
                    targets@ == t[from as int]@,
                    t == table@,
                    m == mapping@,
                    table@.len() == n,
                    out@.len() == n,
                    edges_in(out@, n as nat),
                    mapping_in(mapping@, n as nat),
                    forall|a: int| 0 <= a < targets@.len() ==> #[trigger] targets@[a] < n,
                    forall|s: int, x: usize| 0 <= s < n ==> (#[trigger] out@[s]@.contains(x) <==> done_edge(t, m, from as int, j as int, s, x)),
                decreases targets.len() - j,
            {
                let to = remap_id(mapping, targets[j]);
                proof {
                    if to != targets@[j as int] {
                        let k = choose|k: int| 0 <= k < mapping@.len() && mapping@[k].0 == targets@[j as int] && mapping@[k].1 == to;
                        assert(mapping@[k].1 < n);
                    }
                    assert(set_in(out@[new_from as int], n as nat));
                }
                let ghost before = out@;
                let mut set = out[new_from].duplicate();
                let _ = set.insert(to);
                proof {
                    assert forall|x: usize| #[trigger] set@.contains(x) implies before[new_from as int]@.contains(x) || x < n by {
                        if x != to {
                            let q = choose|q: int| 0 <= q < set@.len() && set@[q] == x;
                            if q < before[new_from as int]@.len() {
                                assert(before[new_from as int]@[q] == x);
                            }
                        }
                    }
                    lemma_edges_update(before, new_from as int, set, n as nat);
                }
                out.set(new_from, set);
                proof {
                    assert forall|s: int, x: usize| 0 <= s < n implies (#[trigger] out@[s]@.contains(x) <==> done_edge(
                        t,
                        m,
                        from as int,
                        j as int + 1,
                        s,
                        x,
                    )) by {
                        lemma_done_step(t, m, from as int, j as int, s, x);
                        assert(remapped_edge(t, m, from as int, j as int, s, x) <==> (s == new_from && x == to));
                        if s == new_from {
                            lemma_push_contains(before[new_from as int]@, to, x);
                            assert(out@[s]@.contains(x) <==> (before[s]@.contains(x) || x == to));
                        } else {
                            assert(out@[s] == before[s]);
                        }
                    }
                }
                j = j + 1;
            }
            proof {
                assert forall|s: int, x: usize| 0 <= s < n implies (#[trigger] out@[s]@.contains(x) <==> done_edge(t, m, from as int + 1, 0, s, x)) by {
                    lemma_done_next(t, m, from as int, s, x);
                }
            }
        }
        from = from + 1;
    }
    proof {
        assert forall|s: int, x: usize| 0 <= s < out@.len() implies (#[trigger] out@[s]@.contains(x) <==> exists|a: int, q: int|
            #[trigger] remapped_edge(t, m, a, q, s, x)) by {
            if out@[s]@.contains(x) {
                let (a, q) = choose|a: int, q: int| #[trigger] remapped_edge(t, m, a, q, s, x) && (a < n || (a == n && q < 0));
            }
            if exists|a: int, q: int| #[trigger] remapped_edge(t, m, a, q, s, x) {
                let (a, q) = choose|a: int, q: int| #[trigger] remapped_edge(t, m, a, q, s, x);
                assert(remapped_edge(t, m, a, q, s, x) && (a < n || (a == n && q < 0)));
            }
        }
    }
    out
}

impl CallGraph {
    /// Replace every endpoint of every uses and defines edge by its image
    /// under `mapping`.
    pub fn remap_edges(&mut self, mapping: &Vec<(NodeId, NodeId)>)
        requires
            old(self).wf(),
            mapping_in(mapping@, old(self).n()),
        ensures
            final(self).wf(),
            final(self).nodes_arena == old(self).nodes_arena,
            final(self).interner == old(self).interner,
            final(self).defined == old(self).defined,
            final(self).module_to_filename == old(self).module_to_filename,
            remapped(old(self).uses_edges@, mapping@, final(self).uses_edges@),
            remapped(old(self).defines_edges@, mapping@, final(self).defines_edges@),
    {
        let n = self.nodes_arena.len();
        let uses = remap_table(&self.uses_edges, mapping, n);
        let defines = remap_table(&self.defines_edges, mapping, n);
        self.uses_edges = uses;
        self.defines_edges = defines;
    }
}

/// `g` is `mid` with both ends of every edge sent through `m`; `mid` is
/// `g0` with possibly some new nodes that have no edges, and `m` sends
/// only imported items.
pub open spec fn imports_remapped(g0: &CallGraph, mid: CallGraph, m: Seq<(NodeId, NodeId)>, g: &CallGraph) -> bool {
    &&& g0.n() <= mid.n()
    &&& mid.uses_edges@.len() == mid.n()
    &&& mid.defines_edges@.len() == mid.n()
    &&& forall|i: int| 0 <= i < g0.n() ==> #[trigger] mid.uses_edges@[i] == g0.uses_edges@[i]
    &&& forall|i: int| 0 <= i < g0.n() ==> #[trigger] mid.defines_edges@[i] == g0.defines_edges@[i]
    &&& forall|i: int| g0.n() <= i < mid.n() ==> (#[trigger] mid.uses_edges@[i])@.len() == 0 && mid.defines_edges@[i]@.len() == 0
    &&& forall|k: int|
        0 <= k < m.len() ==> (#[trigger] m[k]).0 < mid.n() && m[k].1 < mid.n() && mid.nodes_arena@[m[k].0 as int].flavor
            == Flavor::ImportedItem
    &&& g.nodes_arena == mid.nodes_arena
    &&& remapped(mid.uses_edges@, m, g.uses_edges@)
    &&& remapped(mid.defines_edges@, m, g.defines_edges@)
}

/// While imported items are followed: the nodes of `g0` keep their edges,
/// new nodes have none, and every pending item and every mapped item is an
/// imported item.
pub open spec fn import_state(g0: &CallGraph, g: &CallGraph, todo: Seq<NodeId>, m: Seq<(NodeId, NodeId)>) -> bool {
    &&& g0.n() <= g.n()
    &&& forall|i: int| 0 <= i < g0.n() ==> #[trigger] g.uses_edges@[i] == g0.uses_edges@[i]
    &&& forall|i: int| 0 <= i < g0.n() ==> #[trigger] g.defines_edges@[i] == g0.defines_edges@[i]
    &&& forall|i: int| g0.n() <= i < g.n() ==> (#[trigger] g.uses_edges@[i])@.len() == 0 && g.defines_edges@[i]@.len() == 0
    &&& forall|a: int| 0 <= a < todo.len() ==> #[trigger] todo[a] < g.n() && g.nodes_arena@[todo[a] as int].flavor == Flavor::ImportedItem
    &&& mapping_in(m, g.n())
    &&& forall|k: int| 0 <= k < m.len() ==> g.nodes_arena@[(#[trigger] m[k]).0 as int].flavor == Flavor::ImportedItem
}

/// The values that the scope of node `i`'s namespace binds to its name.
pub open spec fn item_scope_values(s: &AnalysisSession, i: int) -> Seq<usize> {
    let nd = s.graph.nodes_arena@[i];
    s.text_values(
        match nd.namespace {
            Some(x) => s.graph.interner.str_of(x),
            None => Seq::empty(),
        },
        s.graph.interner.str_of(nd.name),
    )
}

/// Each mapped item with a namespace whose scope binds values to its name
/// is mapped to one of them.
pub open spec fn scope_targets(s: &AnalysisSession, m: Seq<(NodeId, NodeId)>) -> bool {
    forall|k: int|
        0 <= k < m.len() && s.graph.nodes_arena@[(#[trigger] m[k]).0 as int].namespace is Some && item_scope_values(s, m[k].0 as int).len() > 0
            ==> item_scope_values(s, m[k].0 as int).contains(m[k].1)
}

/// An interned string is found at its id, before and after the interner
/// grows.
pub proof fn lemma_first_sym_kept(a: &Interner, b: &Interner, id: SymId)
    requires
        a.wf(),
        b.wf(),
        a.extends(b),
        a.has_id(id),
    ensures
        a.first_sym(a.str_of(id)) == Some(id),
        b.first_sym(a.str_of(id)) == Some(id),
{
    let t = a.str_of(id);
    crate::intern::lemma_intern_idempotent(a, t, id);
    assert(b.str_of(id) == t);
    crate::intern::lemma_intern_idempotent(b, t, id);
    let ia = choose|i: usize| i < a@.len() && a@[i as int] == t && forall|j: int| 0 <= j < i ==> a@[j] != t;
    assert(a@[id.0 as int] == t);
    assert(ia == id.0);
    let ib = choose|i: usize| i < b@.len() && b@[i as int] == t && forall|j: int| 0 <= j < i ==> b@[j] != t;
    assert(b@[id.0 as int] == t);
    assert(ib == id.0);
}

/// The scope values of a node with a namespace do not change while the
/// session evolves with its scopes kept.
pub proof fn lemma_item_values_kept(a: AnalysisSession, b: AnalysisSession, i: int)
    requires
        a.wf(),
        a.evolves(&b),
        b.scopes == a.scopes,
        0 <= i < a.graph.n(),
        a.graph.nodes_arena@[i].namespace is Some,
    ensures
        item_scope_values(&b, i) == item_scope_values(&a, i),
{
    let nd = a.graph.nodes_arena@[i];
    assert(nd.ids_in(&a.graph.interner));
    let x = nd.namespace.unwrap();
    lemma_first_sym_kept(&a.graph.interner, &b.graph.interner, x);
    lemma_first_sym_kept(&a.graph.interner, &b.graph.interner, nd.name);
    assert(b.graph.interner.str_of(x) == a.graph.interner.str_of(x));
    assert(b.graph.interner.str_of(nd.name) == a.graph.interner.str_of(nd.name));
}

/// With no mapping, remapping keeps every edge.
pub proof fn lemma_remap_none(t: Seq<ValueSet>)
    requires
        t.len() <= usize::MAX,
    ensures
        remapped(t, Seq::empty(), t),
{
    let e = Seq::<(NodeId, NodeId)>::empty();
    assert forall|id: NodeId| #[trigger] image(e, id) == id by {
        assert(!exists|k: int| first_key(e, id, k));
    }
    assert forall|s: int, x: usize| 0 <= s < t.len() implies (#[trigger] t[s]@.contains(x) <==> exists|a: int, q: int|
        #[trigger] remapped_edge(t, e, a, q, s, x)) by {
        if t[s]@.contains(x) {
            let q = choose|q: int| 0 <= q < t[s]@.len() && t[s]@[q] == x;
            assert(image(e, s as usize) == s as usize);
            assert(image(e, t[s]@[q]) == t[s]@[q]);
            assert(remapped_edge(t, e, s, q, s, x));
        }
        if exists|a: int, q: int| #[trigger] remapped_edge(t, e, a, q, s, x) {
            let (a, q) = choose|a: int, q: int| #[trigger] remapped_edge(t, e, a, q, s, x);
            assert(image(e, a as usize) == a as usize);
            assert(image(e, t[a]@[q]) == t[a]@[q]);
            assert(t[a]@[q] == x);
        }
    }
}

/// The kind of external reference that a uses edge to a node of flavor `f`
/// records, if any.
pub open spec fn reference_kind(f: Flavor) -> Option<ExternalReferenceKind> {
    match f {
        Flavor::ImportedItem => Some(ExternalReferenceKind::Import),
        Flavor::Module => Some(ExternalReferenceKind::Module),
        _ => None,
    }
}

/// When `t` is an imported item or a module of `s`, `refs` describes a
/// reference from `f` to it.
pub open spec fn records_reference(s: &AnalysisSession, refs: Seq<ExternalReferenceDiagnostic>, f: int, t: usize) -> bool {
    reference_kind(s.graph.nodes_arena@[t as int].flavor) matches Some(kd) ==> exists|k: int|
        0 <= k < refs.len() && #[trigger] describes(
            refs[k],
            s.graph.nodes_arena@[f],
            &s.graph.interner,
            kd,
            s.graph.nodes_arena@[t as int].full_name(&s.graph.interner),
        )
}

/// A node's full name does not change as the interner grows.
pub proof fn lemma_full_name_kept(a: Node, b: Node, ia: &Interner, ib: &Interner)
    requires
        a.ids_in(ia),
        ia.extends(ib),
        a.name == b.name,
        a.namespace == b.namespace,
    ensures
        b.full_name(ib) == a.full_name(ia),
        b.ns_text(ib) == a.ns_text(ia),
{
    assert(ib.str_of(a.name) == ia.str_of(a.name));
    if let Some(ns) = a.namespace {
        assert(ib.str_of(ns) == ia.str_of(ns));
    }
}

/// `f` uses an unknown node spelled `text`.
pub open spec fn uses_wild_named(s: &AnalysisSession, f: int, text: Seq<char>) -> bool {
    exists|w: usize|
        #[trigger] s.graph.uses_edges@[f]@.contains(w) && w < s.graph.n() && s.graph.nodes_arena@[w as int].namespace is None
            && s.graph.interner.str_of(s.graph.nodes_arena@[w as int].name) == text
}

/// A used unknown node stays used, and keeps its spelling, while the
/// session evolves with the edge kept.
pub proof fn lemma_wild_named_kept(a: AnalysisSession, b: AnalysisSession, f: int, text: Seq<char>, w: usize)
    requires
        a.wf(),
        a.evolves(&b),
        w < a.graph.n(),
        a.graph.nodes_arena@[w as int].namespace is None,
        a.graph.interner.str_of(a.graph.nodes_arena@[w as int].name) == text,
        b.graph.uses_edges@[f]@.contains(w),
    ensures
        uses_wild_named(&b, f, text),
{
    let nm = a.graph.nodes_arena@[w as int].name;
    assert(a.graph.nodes_arena@[w as int].ids_in(&a.graph.interner));
    assert(b.graph.interner@[nm.0 as int] == a.graph.interner@[nm.0 as int]);
    assert(b.graph.nodes_arena@[w as int].name == nm);
}

/// A uses edge from `f` to `t`, a node with a known namespace that is not
/// defined.
pub open spec fn dangling(g: &CallGraph, f: int, t: usize) -> bool {
    &&& 0 <= f < g.n()
    &&& g.uses_edges@[f]@.contains(t)
    &&& t < g.n()
    &&& g.nodes_arena@[t as int].namespace is Some
    &&& !g.defined@[t as int]
}

/// The text of `id` in the session's interner (empty when unknown).
pub open spec fn sym_text(s: &AnalysisSession, id: SymId) -> Seq<char> {
    if s.graph.interner.has_id(id) {
        s.graph.interner.str_of(id)
    } else {
        Seq::empty()
    }
}

/// `f` has a defines edge to the unknown node `u`, and `c` is a known node
/// of the same name.
pub open spec fn wild_def_match(g: &CallGraph, f: int, u: usize, c: int) -> bool {
    &&& 0 <= f < g.n()
    &&& g.defines_edges@[f]@.contains(u)
    &&& u < g.n()
    &&& g.nodes_arena@[u as int].namespace is None
    &&& 0 <= c < g.n()
    &&& g.nodes_arena@[c].namespace is Some
    &&& g.nodes_arena@[c].name == g.nodes_arena@[u as int].name
}

/// `f` uses a known node named `name`.
pub open spec fn uses_known(g: &CallGraph, f: int, name: SymId) -> bool {
    exists|t: usize|
        #[trigger] g.uses_edges@[f]@.contains(t) && t < g.n() && g.nodes_arena@[t as int].namespace is Some
            && g.nodes_arena@[t as int].name == name
}

/// The scope of `ns` has a literal `__all__` that does not list `name`.
pub open spec fn all_excludes(s: &AnalysisSession, ns: SymId, name: SymId) -> bool {
    scope_index(s.scopes@, ns) is Some && ({
        let sc = s.scopes@[scope_index(s.scopes@, ns).unwrap()].1;
        sc.all_exports is Some && !sc.all_exports.unwrap()@.contains(name)
    })
}

/// `f` has a uses edge to the unknown node `u`, whose name is public and
/// not already used by `f` through a known node, and `c` is a known node of
/// that name that the `__all__` of its module does not exclude.
pub open spec fn wild_use_match(s: &AnalysisSession, f: int, u: usize, c: int) -> bool {
    let g = s.graph;
    let name = g.nodes_arena@[u as int].name;
    &&& 0 <= f < g.n()
    &&& g.uses_edges@[f]@.contains(u)
    &&& u < g.n()
    &&& g.nodes_arena@[u as int].namespace is None
    &&& !(sym_text(s, name).len() > 0 && sym_text(s, name)[0] == '_')
    &&& !uses_known(&g, f, name)
    &&& 0 <= c < g.n()
    &&& g.nodes_arena@[c].name == name
    &&& g.nodes_arena@[c].namespace matches Some(ns) && !(sym_text(s, ns).len() > 0 && all_excludes(s, ns, name))
}

/// While wildcard defines edges are expanded: rows after `open` are as in
/// `s0`, rows up to `done` have every expansion, and every edge is either
/// old or an expansion.
pub open spec fn def_phase(s0: &AnalysisSession, s: &AnalysisSession, done: int, open: int) -> bool {
    &&& s0.evolves_up(s)
    &&& s.graph.nodes_arena == s0.graph.nodes_arena
    &&& s.graph.uses_edges == s0.graph.uses_edges
    &&& s.graph.interner == s0.graph.interner
    &&& s0.same_but_graph(s)
    &&& forall|i: int| open < i < s0.graph.n() ==> #[trigger] s.graph.defines_edges@[i] == s0.graph.defines_edges@[i]
    &&& forall|f: int, u: usize, c: int| #[trigger] wild_def_match(&s0.graph, f, u, c) && f <= done
        ==> s.graph.defines_edges@[f]@.contains(c as usize)
    &&& forall|f: int, x: usize| 0 <= f < s0.graph.n() && #[trigger] s.graph.defines_edges@[f]@.contains(x)
        ==> s0.graph.defines_edges@[f]@.contains(x) || exists|u: usize| wild_def_match(&s0.graph, f, u, x as int)
}

/// While wildcard uses edges are expanded, after the defines edges (`s2`).
pub open spec fn use_phase(s0: &AnalysisSession, s2: &AnalysisSession, s: &AnalysisSession, done: int, open: int) -> bool {
    &&& s0.evolves_up(s)
    &&& s.graph.nodes_arena == s0.graph.nodes_arena
    &&& s.graph.defines_edges == s2.graph.defines_edges
    &&& s.graph.defined == s2.graph.defined
    &&& s.graph.interner == s0.graph.interner
    &&& s0.same_but_graph(s)
    &&& forall|i: int| open < i < s0.graph.n() ==> #[trigger] s.graph.uses_edges@[i] == s0.graph.uses_edges@[i]
    &&& forall|f: int, u: usize, c: int| #[trigger] wild_use_match(s0, f, u, c) && f <= done
        ==> s.graph.uses_edges@[f]@.contains(c as usize)
    &&& forall|f: int, x: usize| 0 <= f < s0.graph.n() && #[trigger] s.graph.uses_edges@[f]@.contains(x)
        ==> s0.graph.uses_edges@[f]@.contains(x) || exists|u: usize| wild_use_match(s0, f, u, x as int)
}

/// What expanding wildcards gives: the unknown nodes are no longer defined,
/// each wildcard edge gains its expansions, and no other edge appears.
pub open spec fn unknowns_expanded(a: &AnalysisSession, b: &AnalysisSession) -> bool {
    &&& a.evolves(b)
    &&& b.graph.n() == a.graph.n()
    &&& forall|i: int| 0 <= i < b.graph.n() && b.graph.nodes_arena@[i].namespace is None ==> !#[trigger] b.graph.defined@[i]
    &&& forall|f: int, u: usize, c: int| #[trigger] wild_def_match(&a.graph, f, u, c) ==> b.graph.defines_edges@[f]@.contains(c as usize)
    &&& forall|f: int, x: usize| 0 <= f < a.graph.n() && #[trigger] b.graph.defines_edges@[f]@.contains(x)
        ==> a.graph.defines_edges@[f]@.contains(x) || exists|u: usize| wild_def_match(&a.graph, f, u, x as int)
    &&& forall|f: int, u: usize, c: int| #[trigger] wild_use_match(a, f, u, c) ==> b.graph.uses_edges@[f]@.contains(c as usize)
    &&& forall|f: int, x: usize| 0 <= f < a.graph.n() && #[trigger] b.graph.uses_edges@[f]@.contains(x)
        ==> a.graph.uses_edges@[f]@.contains(x) || exists|u: usize| wild_use_match(a, f, u, x as int)
}

/// What following imports gives: every edge is sent through a mapping of
/// imported items, each sent to a value its scope binds where it has one.
pub open spec fn imports_resolved(a: &AnalysisSession, b: &AnalysisSession) -> bool {
    &&& a.evolves(b)
    &&& exists|mid: CallGraph, m: Seq<(NodeId, NodeId)>| #[trigger] imports_remapped(&a.graph, mid, m, &b.graph) && scope_targets(b, m)
}

/// What contracting undefined nodes gives: no uses edge dangles.
pub open spec fn nonexistents_contracted(a: &AnalysisSession, b: &AnalysisSession) -> bool {
    &&& a.evolves(b)
    &&& forall|f: int, t: usize| !#[trigger] dangling(&b.graph, f, t)
}

/// What culling inherited edges gives: exactly the inherited uses edges go.
pub open spec fn inherited_culled(a: &AnalysisSession, b: &AnalysisSession) -> bool {
    &&& a.evolves_up(b)
    &&& forall|f: int, t: usize| 0 <= f < a.graph.n() ==> (#[trigger] b.graph.uses_edges@[f]@.contains(t) <==> (
        a.graph.uses_edges@[f]@.contains(t) && !inherited_edge(a, f, t)))
}

/// What collapsing inner scopes gives: each lambda or comprehension node is
/// no longer defined and its parent gains its uses.
pub open spec fn inner_collapsed(a: &AnalysisSession, b: &AnalysisSession) -> bool {
    &&& a.evolves(b)
    &&& forall|i: int| 0 <= i < a.graph.n() && is_inner_label(a.graph.interner.str_of(#[trigger] a.graph.nodes_arena@[i].name))
        ==> !b.graph.defined@[i] && gained(a, b, i)
}

/// Every node of `a` that is defined, has a namespace and is not named like
/// a lambda or comprehension is still defined in `b`.
pub open spec fn keeps_named_defined(a: &AnalysisSession, b: &AnalysisSession) -> bool {
    forall|i: int|
        0 <= i < a.graph.n() && a.graph.defined@[i] && a.graph.nodes_arena@[i].namespace is Some && !is_inner_label(
            a.graph.interner.str_of(a.graph.nodes_arena@[i].name),
        ) ==> #[trigger] b.graph.defined@[i]
}

/// Keeping named nodes defined composes along an evolving session.
pub proof fn lemma_keeps_trans(a: AnalysisSession, b: AnalysisSession, c: AnalysisSession)
    requires
        a.wf(),
        a.evolves(&b),
        keeps_named_defined(&a, &b),
        keeps_named_defined(&b, &c),
    ensures
        keeps_named_defined(&a, &c),
{
    assert forall|i: int|
        0 <= i < a.graph.n() && a.graph.defined@[i] && a.graph.nodes_arena@[i].namespace is Some && !is_inner_label(
            a.graph.interner.str_of(a.graph.nodes_arena@[i].name),
        ) implies #[trigger] c.graph.defined@[i] by {
        let nm = a.graph.nodes_arena@[i].name;
        assert(a.graph.nodes_arena@[i].ids_in(&a.graph.interner));
        assert(b.graph.nodes_arena@[i].name == nm);
        assert(b.graph.interner@[nm.0 as int] == a.graph.interner@[nm.0 as int]);
        assert(b.graph.defined@[i]);
    }
}

/// `x` is a node with a namespace: never a wildcard.
pub open spec fn concrete(g: &CallGraph, x: usize) -> bool {
    x < g.n() && g.nodes_arena@[x as int].namespace is Some
}

/// Every uses edge of `a` to a concrete node is still in `b`.
pub open spec fn keeps_concrete_uses(a: &CallGraph, b: &CallGraph) -> bool {
    forall|i: int, x: usize| 0 <= i < a.n() && concrete(a, x) && a.uses_edges@[i]@.contains(x) ==> #[trigger] b.uses_edges@[i]@.contains(x)
}

/// Every concrete node that node `i` uses in `a` is used, in `b`, by the
/// parent node of `i`.
pub open spec fn gained(a: &AnalysisSession, b: &AnalysisSession, i: int) -> bool {
    forall|x: usize| #![trigger a.graph.uses_edges@[i]@.contains(x)]
        a.graph.uses_edges@[i]@.contains(x) && concrete(&a.graph, x) ==> exists|p: int|
            0 <= p < b.graph.n() && #[trigger] b.graph.uses_edges@[p]@.contains(x) && b.is_parent(a, i as usize, p)
}

/// Keeping concrete uses edges composes.
proof fn lemma_concrete_trans(a: AnalysisSession, b: AnalysisSession, c: AnalysisSession)
    requires
        a.evolves(&b),
        keeps_concrete_uses(&a.graph, &b.graph),
        keeps_concrete_uses(&b.graph, &c.graph),
    ensures
        keeps_concrete_uses(&a.graph, &c.graph),
{
    assert forall|i: int, x: usize| 0 <= i < a.graph.n() && concrete(&a.graph, x) && a.graph.uses_edges@[i]@.contains(x)
        implies #[trigger] c.graph.uses_edges@[i]@.contains(x) by {
        assert(b.graph.nodes_arena@[x as int].namespace == a.graph.nodes_arena@[x as int].namespace);
        assert(b.graph.uses_edges@[i]@.contains(x));
    }
}

/// The parent of an existing node is spelled alike as the session evolves.
proof fn lemma_parent_stable(a: AnalysisSession, b: AnalysisSession, id: NodeId, pa: Seq<char>, pb: Seq<char>)
    requires
        a.wf(),
        a.evolves(&b),
        id < a.graph.n(),
    ensures
        b.parent_key(id, pa, pb) == a.parent_key(id, pa, pb),
{
    let nd = a.graph.nodes_arena@[id as int];
    assert(nd.ids_in(&a.graph.interner));
    assert(b.graph.nodes_arena@[id as int].namespace == nd.namespace);
    if let Some(x) = nd.namespace {
        assert(b.graph.interner@[x.0 as int] == a.graph.interner@[x.0 as int]);
    }
}

/// What node `i` gained stays gained while concrete uses are kept.
proof fn lemma_gained_stable(a: AnalysisSession, b: AnalysisSession, c: AnalysisSession, i: int)
    requires
        a.evolves(&b),
        b.wf(),
        b.evolves(&c),
        keeps_concrete_uses(&b.graph, &c.graph),
        gained(&a, &b, i),
    ensures
        gained(&a, &c, i),
{
    assert forall|x: usize| a.graph.uses_edges@[i]@.contains(x) && concrete(&a.graph, x) implies exists|p: int|
        0 <= p < c.graph.n() && #[trigger] c.graph.uses_edges@[p]@.contains(x) && c.is_parent(&a, i as usize, p) by {
        let p = choose|p: int| 0 <= p < b.graph.n() && #[trigger] b.graph.uses_edges@[p]@.contains(x) && b.is_parent(&a, i as usize, p);
        assert(b.graph.nodes_arena@[x as int].namespace == a.graph.nodes_arena@[x as int].namespace);
        assert(concrete(&b.graph, x));
        assert(c.graph.uses_edges@[p]@.contains(x));
        let (pa, pb) = choose|pa: Seq<char>, pb: Seq<char>| a.parent_key(i as usize, pa, pb) && #[trigger] b.node_named(p, Some(pa), pb);
        lemma_named_stable(b, c, p, Some(pa), pb);
        assert(c.node_named(p, Some(pa), pb));
    }
}

/// Node `p` is the parent of node `c`: the first node spelled like it.
pub open spec fn parent_of(s: &AnalysisSession, c: usize, p: int) -> bool {
    exists|pa: Seq<char>, pb: Seq<char>| #[trigger] s.parent_key(c, pa, pb) && s.first_named(p, Some(pa), pb)
}

/// `f` also uses `o`, a node of the same name as `t` in another namespace,
/// and the parent of `o` uses the parent of `t`: `o` overrides `t`.
pub open spec fn overridden(s: &AnalysisSession, f: int, t: usize, o: usize) -> bool {
    &&& s.graph.uses_edges@[f]@.contains(o)
    &&& o != t
    &&& t < s.graph.n()
    &&& o < s.graph.n()
    &&& s.graph.nodes_arena@[t as int].name == s.graph.nodes_arena@[o as int].name
    &&& s.graph.nodes_arena@[t as int].namespace is Some
    &&& s.graph.nodes_arena@[o as int].namespace is Some
    &&& s.graph.nodes_arena@[t as int].namespace != s.graph.nodes_arena@[o as int].namespace
    &&& exists|pt: int, po: int| parent_of(s, t, pt) && parent_of(s, o, po) && #[trigger] s.graph.uses_edges@[po]@.contains(pt as usize)
}

/// The uses edge `f -> t` is inherited: some node `f` uses overrides `t`.
pub open spec fn inherited_edge(s: &AnalysisSession, f: int, t: usize) -> bool {
    exists|o: usize| #[trigger] overridden(s, f, t, o)
}

/// The pair `(f, t)` occurs in `v` before index `k`.
pub open spec fn listed_upto(v: Seq<(NodeId, NodeId)>, k: int, f: int, t: usize) -> bool {
    exists|q: int| 0 <= q < k && v[q].0 == f && v[q].1 == t
}

/// The last `.` splits a name one way only.
proof fn lemma_parent_key_unique(s: AnalysisSession, c: usize, a1: Seq<char>, b1: Seq<char>, a2: Seq<char>, b2: Seq<char>)
    requires
        s.parent_key(c, a1, b1),
        s.parent_key(c, a2, b2),
    ensures
        a1 == a2 && b1 == b2,
{
    if c < s.graph.n() && s.graph.nodes_arena@[c as int].namespace is Some {
        let t = s.graph.interner.str_of(s.graph.nodes_arena@[c as int].namespace.unwrap());
        if t.contains('.') {
            assert(t == a1 + seq!['.'] + b1 && t == a2 + seq!['.'] + b2);
            if b1.len() < b2.len() {
                let q = t.len() - b1.len() - 1;
                assert(t[q] == '.');
                assert(b2[q - a2.len() - 1] == t[q]);
            } else if b2.len() < b1.len() {
                let q = t.len() - b2.len() - 1;
                assert(t[q] == '.');
                assert(b1[q - a1.len() - 1] == t[q]);
            }
            assert(b1 =~= t.subrange(t.len() - b1.len(), t.len() as int));
            assert(b2 =~= t.subrange(t.len() - b2.len(), t.len() as int));
            assert(a1 =~= t.subrange(0, a1.len() as int));
            assert(a2 =~= t.subrange(0, a2.len() as int));
        } else {
            assert(a1 =~= a2);
        }
    } else {
        assert(a1 =~= a2);
        assert(b1 =~= b2);
    }
}

/// Old nodes are spelled alike before and after the session evolves.
proof fn lemma_named_old(a: AnalysisSession, b: AnalysisSession, i: int, ns: Option<Seq<char>>, nm: Seq<char>)
    requires
        a.wf(),
        a.evolves(&b),
        0 <= i < a.graph.n(),
    ensures
        b.node_named(i, ns, nm) <==> a.node_named(i, ns, nm),
{
    let nd = a.graph.nodes_arena@[i];
    assert(nd.ids_in(&a.graph.interner));
    assert(b.graph.interner@[nd.name.0 as int] == a.graph.interner@[nd.name.0 as int]);
    if let Some(x) = nd.namespace {
        assert(b.graph.interner@[x.0 as int] == a.graph.interner@[x.0 as int]);
    }
}

/// What `get_parent_node` returned in `cs` is, for an old node `c`, the
/// parent of `c` in `a` whenever either exists in `a`.
proof fn lemma_parent_link(a: AnalysisSession, cs: AnalysisSession, c: usize, r: int)
    requires
        a.wf(),
        a.evolves(&cs),
        c < a.graph.n(),
        exists|pa: Seq<char>, pb: Seq<char>| #[trigger] cs.parent_key(c, pa, pb) && if exists|i: int|
            cs.node_named(i, Some(pa), pb) {
            cs.first_named(r, Some(pa), pb)
        } else {
            r == cs.graph.n()
        },
    ensures
        r < a.graph.n() ==> parent_of(&a, c, r),
        forall|p: int| parent_of(&a, c, p) ==> r == p,
{
    let (pa, pb) = choose|pa: Seq<char>, pb: Seq<char>| #[trigger] cs.parent_key(c, pa, pb) && if exists|i: int|
        cs.node_named(i, Some(pa), pb) {
        cs.first_named(r, Some(pa), pb)
    } else {
        r == cs.graph.n()
    };
    lemma_parent_stable(a, cs, c, pa, pb);
    if r < a.graph.n() {
        if !(exists|i: int| cs.node_named(i, Some(pa), pb)) {
            assert(r == cs.graph.n());
        }
        lemma_named_old(a, cs, r, Some(pa), pb);
        assert forall|j: int| 0 <= j < r implies !#[trigger] a.node_named(j, Some(pa), pb) by {
            lemma_named_old(a, cs, j, Some(pa), pb);
        }
        assert(a.first_named(r, Some(pa), pb));
    }
    assert forall|p: int| parent_of(&a, c, p) implies r == p by {
        let (qa, qb) = choose|qa: Seq<char>, qb: Seq<char>| #[trigger] a.parent_key(c, qa, qb) && a.first_named(p, Some(qa), qb);
        lemma_parent_key_unique(a, c, pa, pb, qa, qb);
        lemma_named_old(a, cs, p, Some(pa), pb);
        assert(cs.node_named(p, Some(pa), pb));
        assert(cs.first_named(r, Some(pa), pb));
        assert forall|j: int| 0 <= j < p implies !#[trigger] cs.node_named(j, Some(pa), pb) by {
            lemma_named_old(a, cs, j, Some(pa), pb);
        }
        if r < p {
            assert(cs.node_named(r, Some(pa), pb));
        }
        if p < r {
            assert(!cs.node_named(p, Some(pa), pb));
        }
    }
}

/// `s` names the namespace of a lambda or a comprehension.
pub open spec fn is_inner_label(s: Seq<char>) -> bool {
    s == "lambda"@ || s == "listcomp"@ || s == "setcomp"@ || s == "dictcomp"@ || s == "genexpr"@
}

/// The pair `(f, t)` occurs in `v` at index `k` or later.
pub open spec fn listed_from(v: Seq<(NodeId, NodeId)>, k: int, f: int, t: usize) -> bool {
    exists|a: int| k <= a < v.len() && v[a].0 == f && v[a].1 == t
}

impl AnalysisSession {
    /// Mark node `id` as not defined.
    pub fn mark_undefined(&mut self, id: NodeId)
        requires
            old(self).wf(),
        ensures
            final(self).graph.diagnostics == old(self).graph.diagnostics,
            old(self).evolves(final(self)),
            final(self).graph.n() == old(self).graph.n(),
            final(self).graph.nodes_arena == old(self).graph.nodes_arena,
            final(self).graph.uses_edges == old(self).graph.uses_edges,
            final(self).graph.defines_edges == old(self).graph.defines_edges,
            final(self).graph.interner == old(self).graph.interner,
            final(self).scopes == old(self).scopes,
            id < old(self).graph.n() ==> !final(self).graph.defined@[id as int],
            forall|i: int| 0 <= i < old(self).graph.n() && i != id ==> #[trigger] final(self).graph.defined@[i] == old(self).graph.defined@[i],
    {
        if id < self.graph.defined.len() {
            self.graph.defined.set(id, false);
        }
    }

    /// Postprocess the analyzed graph, in order: expand wildcards, resolve
    /// imports, contract undefined nodes, cull inherited edges, collapse
    /// inner scopes.
    pub fn postprocess(&mut self)
        requires
            old(self).wf(),
        ensures
            old(self).evolves(final(self)),
            keeps_named_defined(&*old(self), &*final(self)),
            exists|s1: AnalysisSession, s2: AnalysisSession, s3: AnalysisSession, s4: AnalysisSession|
                #[trigger] unknowns_expanded(&*old(self), &s1) && #[trigger] imports_resolved(&s1, &s2)
                && #[trigger] nonexistents_contracted(&s2, &s3) && #[trigger] inherited_culled(&s3, &s4)
                && inner_collapsed(&s4, &*final(self)),
    {
        let ghost s0 = *self;
        self.expand_unknowns();
        let ghost s1 = *self;
        self.resolve_imports();
        let ghost s2 = *self;
        self.contract_nonexistents();
        let ghost s3 = *self;
        self.cull_inherited();
        let ghost s4 = *self;
        self.collapse_inner();
        proof {
            lemma_keeps_trans(s0, s1, s2);
            lemma_keeps_trans(s0, s2, s3);
            lemma_keeps_trans(s0, s3, s4);
            lemma_keeps_trans(s0, s4, *self);
            assert(unknowns_expanded(&s0, &s1));
            assert(imports_resolved(&s1, &s2));
            assert(nonexistents_contracted(&s2, &s3));
            assert(inherited_culled(&s3, &s4));
            assert(inner_collapsed(&s4, &*self));
        }
    }

    /// Whether `ns_sym`'s scope has a literal `__all__` that does not list
    /// `name`.
    fn excluded_by_all(&self, ns_sym: SymId, name: SymId) -> (r: bool)
        ensures
            r == (crate::analyzer::state::scope_index(self.scopes@, ns_sym) is Some && ({
                let sc = self.scopes@[crate::analyzer::state::scope_index(self.scopes@, ns_sym).unwrap()].1;
                sc.all_exports is Some && !sc.all_exports.unwrap()@.contains(name)
            })),
    {
        let pos = scope_pos(&self.scopes, ns_sym);
        proof {
            crate::analyzer::state::lemma_scope_index(self.scopes@, ns_sym, pos);
        }
        match pos {
            Some(p) => self.scopes[p].1.all_exports.is_some() && !self.scopes[p].1.exports_contains(name),
            None => false,
        }
    }

    /// Replace wildcards: each defines edge to an unknown node `*.name`
    /// gains edges to every known node named `name`; each uses edge to one
    /// gains edges to every known `name` whose module `__all__` does not
    /// exclude it, unless the name is private or the source already uses a
    /// known node of that name. Unknown nodes are then no longer defined.
    #[verifier::loop_isolation(false)]
    #[verifier::spinoff_prover]
    pub fn expand_unknowns(&mut self)
        requires
            old(self).wf(),
        ensures
            old(self).evolves(final(self)),
            final(self).graph.n() == old(self).graph.n(),
            forall|i: int| 0 <= i < final(self).graph.n() && final(self).graph.nodes_arena@[i].namespace is None
                ==> !#[trigger] final(self).graph.defined@[i],
            keeps_named_defined(&*old(self), &*final(self)),
            forall|f: int, u: usize, c: int| #[trigger] wild_def_match(&old(self).graph, f, u, c)
                ==> final(self).graph.defines_edges@[f]@.contains(c as usize),
            forall|f: int, x: usize| 0 <= f < old(self).graph.n() && #[trigger] final(self).graph.defines_edges@[f]@.contains(x)
                ==> old(self).graph.defines_edges@[f]@.contains(x) || exists|u: usize| wild_def_match(&old(self).graph, f, u, x as int),
            forall|f: int, u: usize, c: int| #[trigger] wild_use_match(&*old(self), f, u, c)
                ==> final(self).graph.uses_edges@[f]@.contains(c as usize),
            forall|f: int, x: usize| 0 <= f < old(self).graph.n() && #[trigger] final(self).graph.uses_edges@[f]@.contains(x)
                ==> old(self).graph.uses_edges@[f]@.contains(x) || exists|u: usize| wild_use_match(&*old(self), f, u, x as int),
    {
        let n = self.graph.nodes_arena.len();
        let ghost s0 = *self;
        let mut from: usize = 0;
        while from < n
            invariant
                n == s0.graph.n(),
                from <= n,
                def_phase(&s0, self, from as int - 1, from as int - 1),
                from < n ==> self.graph.defines_edges@[from as int] == s0.graph.defines_edges@[from as int],
            decreases n - from,
        {
            let targets = self.graph.defines_edges[from].iter();
            let mut j: usize = 0;
            while j < targets.len()
                invariant
                    n == s0.graph.n(),
                    from < n,
                    j <= targets@.len(),
                    targets@ == s0.graph.defines_edges@[from as int]@,
                    def_phase(&s0, self, from as int - 1, from as int),
                    forall|k: int, c: int| 0 <= k < j && #[trigger] wild_def_match(&s0.graph, from as int, targets@[k], c)
                        ==> self.graph.defines_edges@[from as int]@.contains(c as usize),
                decreases targets.len() - j,
            {
                let to = targets[j];
                if to < n && self.graph.nodes_arena[to].namespace.is_none() {
                    let name_sym = self.graph.nodes_arena[to].name;
                    let mut cand: usize = 0;
                    while cand < n
                        invariant
                            n == s0.graph.n(),
                            from < n,
                            j < targets@.len(),
                            to == targets@[j as int],
                            targets@ == s0.graph.defines_edges@[from as int]@,
                            def_phase(&s0, self, from as int - 1, from as int),
                            forall|k: int, c: int| 0 <= k < j && #[trigger] wild_def_match(&s0.graph, from as int, targets@[k], c)
                                ==> self.graph.defines_edges@[from as int]@.contains(c as usize),
                            forall|c: int| 0 <= c < cand && #[trigger] wild_def_match(&s0.graph, from as int, to, c)
                                ==> self.graph.defines_edges@[from as int]@.contains(c as usize),
                        decreases n - cand,
                    {
                        if self.graph.nodes_arena[cand].name == name_sym && self.graph.nodes_arena[cand].namespace.is_some() {
                            let ghost s1 = *self;
                            proof {
                                assert(targets@.contains(to));
                                assert(wild_def_match(&s0.graph, from as int, to, cand as int));
                            }
                            let _ = self.add_defines_edge(from, Some(cand));
                            proof {
                                assert forall|f: int, x: usize| 0 <= f < s0.graph.n() && #[trigger] self.graph.defines_edges@[f]@.contains(x)
                                    implies s0.graph.defines_edges@[f]@.contains(x) || exists|u: usize| wild_def_match(&s0.graph, f, u, x as int) by {
                                    if f == from as int && x == cand {
                                        assert(wild_def_match(&s0.graph, f, to, x as int));
                                    } else {
                                        assert(s1.graph.defines_edges@[f]@.contains(x));
                                    }
                                }
                            }
                        }
                        cand = cand + 1;
                    }
                }
                j = j + 1;
            }
            proof {
                assert forall|f: int, u: usize, c: int| #[trigger] wild_def_match(&s0.graph, f, u, c) && f < from as int + 1
                    implies self.graph.defines_edges@[f]@.contains(c as usize) by {
                    if f == from as int {
                        let k = choose|k: int| 0 <= k < targets@.len() && targets@[k] == u;
                        assert(wild_def_match(&s0.graph, from as int, targets@[k], c));
                    }
                }
            }
            from = from + 1;
        }
        let ghost s2 = *self;
        let mut from: usize = 0;
        while from < n
            invariant
                n == s0.graph.n(),
                from <= n,
                use_phase(&s0, &s2, self, from as int - 1, from as int - 1),
                from < n ==> self.graph.uses_edges@[from as int] == s0.graph.uses_edges@[from as int],
            decreases n - from,
        {
            let targets = self.graph.uses_edges[from].iter();
            let mut j: usize = 0;
            while j < targets.len()
                invariant
                    n == s0.graph.n(),
                    from < n,
                    j <= targets@.len(),
                    targets@ == s0.graph.uses_edges@[from as int]@,
                    use_phase(&s0, &s2, self, from as int - 1, from as int),
                    forall|k: int, c: int| 0 <= k < j && #[trigger] wild_use_match(&s0, from as int, targets@[k], c)
                        ==> self.graph.uses_edges@[from as int]@.contains(c as usize),
                decreases targets.len() - j,
            {
                let to = targets[j];
                if to < n && self.graph.nodes_arena[to].namespace.is_none() {
                    let name_sym = self.graph.nodes_arena[to].name;
                    let name = self.text(name_sym);
                    let private = name.len() > 0 && name[0] == '_';
                    let mut known = false;
                    let mut q: usize = 0;
                    while q < targets.len()
                        invariant
                            q <= targets@.len(),
                            known == exists|k: int| 0 <= k < q && #[trigger] targets@[k] < n
                                && s0.graph.nodes_arena@[targets@[k] as int].namespace is Some
                                && s0.graph.nodes_arena@[targets@[k] as int].name == name_sym,
                        decreases targets.len() - q,
                    {
                        let t = targets[q];
                        if t < n && self.graph.nodes_arena[t].namespace.is_some() && self.graph.nodes_arena[t].name == name_sym {
                            known = true;
                        }
                        q = q + 1;
                    }
                    proof {
                        if known {
                            let k = choose|k: int| 0 <= k < targets@.len() && #[trigger] targets@[k] < n
                                && s0.graph.nodes_arena@[targets@[k] as int].namespace is Some
                                && s0.graph.nodes_arena@[targets@[k] as int].name == name_sym;
                            assert(s0.graph.uses_edges@[from as int]@.contains(targets@[k]));
                        } else {
                            assert forall|t: usize| #[trigger] s0.graph.uses_edges@[from as int]@.contains(t) implies !(t < s0.graph.n()
                                && s0.graph.nodes_arena@[t as int].namespace is Some && s0.graph.nodes_arena@[t as int].name == name_sym) by {
                                let k = choose|k: int| 0 <= k < targets@.len() && targets@[k] == t;
                                assert(targets@[k] < n ==> !(s0.graph.nodes_arena@[targets@[k] as int].namespace is Some
                                    && s0.graph.nodes_arena@[targets@[k] as int].name == name_sym));
                            }
                        }
                        assert(known == uses_known(&s0.graph, from as int, name_sym));
                        assert(name@ == sym_text(&s0, name_sym));
                    }
                    if !private && !known {
                        let mut cand: usize = 0;
                        while cand < n
                            invariant
                                n == s0.graph.n(),
                                from < n,
                                j < targets@.len(),
                                to == targets@[j as int],
                                to < n,
                                s0.graph.nodes_arena@[to as int].namespace is None,
                                name_sym == s0.graph.nodes_arena@[to as int].name,
                                !(sym_text(&s0, name_sym).len() > 0 && sym_text(&s0, name_sym)[0] == '_'),
                                !uses_known(&s0.graph, from as int, name_sym),
                                targets@ == s0.graph.uses_edges@[from as int]@,
                                use_phase(&s0, &s2, self, from as int - 1, from as int),
                                forall|k: int, c: int| 0 <= k < j && #[trigger] wild_use_match(&s0, from as int, targets@[k], c)
                                    ==> self.graph.uses_edges@[from as int]@.contains(c as usize),
                                forall|c: int| 0 <= c < cand && #[trigger] wild_use_match(&s0, from as int, to, c)
                                    ==> self.graph.uses_edges@[from as int]@.contains(c as usize),
                            decreases n - cand,
                        {
                            if self.graph.nodes_arena[cand].name == name_sym {
                                if let Some(ns_sym) = self.graph.nodes_arena[cand].namespace {
                                    let ns = self.text(ns_sym);
                                    if !(ns.len() > 0 && self.excluded_by_all(ns_sym, name_sym)) {
                                        let ghost s1 = *self;
                                        proof {
                                            assert(targets@.contains(to));
                                            assert(ns@ == sym_text(&s0, ns_sym));
                                            assert(wild_use_match(&s0, from as int, to, cand as int));
                                        }
                                        let _ = self.add_uses_edge(from, cand);
                                        proof {
                                            assert forall|x: usize| #[trigger] s1.graph.uses_edges@[from as int]@.contains(x)
                                                && x < n && s0.graph.nodes_arena@[x as int].namespace is Some
                                                implies self.graph.uses_edges@[from as int]@.contains(x) by {
                                                assert(!s1.graph.is_wild(x, s1.graph.nodes_arena@[cand as int].name));
                                            }
                                            assert forall|f: int, x: usize| 0 <= f < s0.graph.n() && #[trigger] self.graph.uses_edges@[f]@.contains(x)
                                                implies s0.graph.uses_edges@[f]@.contains(x) || exists|u: usize| wild_use_match(&s0, f, u, x as int) by {
                                                if f == from as int && x == cand {
                                                    assert(wild_use_match(&s0, f, to, x as int));
                                                } else {
                                                    assert(s1.graph.uses_edges@[f]@.contains(x));
                                                }
                                            }
                                        }
                                    }
                                }
                            }
                            cand = cand + 1;
                        }
                    }
                }
                j = j + 1;
            }
            proof {
                assert forall|f: int, u: usize, c: int| #[trigger] wild_use_match(&s0, f, u, c) && f < from as int + 1
                    implies self.graph.uses_edges@[f]@.contains(c as usize) by {
                    if f == from as int {
                        let k = choose|k: int| 0 <= k < targets@.len() && targets@[k] == u;
                        assert(wild_use_match(&s0, from as int, targets@[k], c));
                    }
                }
            }
            from = from + 1;
        }
        let ghost s3 = *self;
        let mut id: usize = 0;
        while id < n
            invariant
                old(self).evolves(self),
                n == self.graph.nodes_arena@.len(),
                id <= n,
                self.graph.defines_edges == s3.graph.defines_edges,
                self.graph.uses_edges == s3.graph.uses_edges,
                forall|i: int| 0 <= i < n && old(self).graph.defined@[i] && self.graph.nodes_arena@[i].namespace is Some
                    ==> #[trigger] self.graph.defined@[i],
                forall|i: int| 0 <= i < id && self.graph.nodes_arena@[i].namespace is None ==> !#[trigger] self.graph.defined@[i],
            decreases n - id,
        {
            if self.graph.nodes_arena[id].namespace.is_none() {
                self.graph.defined.set(id, false);
            }
            id = id + 1;
        }
    }

    /// Follow imported items to their definitions: an item is mapped to a
    /// value its source module's scope binds (preferring one that is not
    /// itself an imported item), or else, when it has a single uses edge,
    /// to the node of the same name that the target's module uses.
    /// Imported items reached this way are resolved in turn. Every edge is
    /// then redirected through the mapping.
    #[verifier::loop_isolation(false)]
    #[verifier::spinoff_prover]
    pub fn resolve_imports(&mut self)
        requires
            old(self).wf(),
        ensures
            old(self).evolves(final(self)),
            keeps_named_defined(&*old(self), &*final(self)),
            exists|mid: CallGraph, m: Seq<(NodeId, NodeId)>| #[trigger] imports_remapped(&old(self).graph, mid, m, &final(self).graph)
                && scope_targets(&*final(self), m),
    {
        let ghost g0 = self.graph;
        let n0 = self.graph.nodes_arena.len();
        let mut to_resolve: Vec<NodeId> = Vec::new();
        let mut i: usize = 0;
        while i < n0
            invariant
                n0 == self.graph.nodes_arena@.len(),
                self.graph == g0,
                forall|a: int| 0 <= a < to_resolve@.len() ==> #[trigger] to_resolve@[a] < n0
                    && self.graph.nodes_arena@[to_resolve@[a] as int].flavor == Flavor::ImportedItem,
            decreases n0 - i,
        {
            if self.graph.nodes_arena[i].flavor == Flavor::ImportedItem {
                to_resolve.push(i);
            }
            i = i + 1;
        }
        // Each round pops one item, and an item is pushed only when an
        // imported item gets its first mapping: the rounds never exceed
        // twice the number of imported items.
        let mut rounds: usize = if to_resolve.len() < usize::MAX / 2 {
            2 * to_resolve.len() + 1
        } else {
            usize::MAX
        };
        let mut mapping: Vec<(NodeId, NodeId)> = Vec::new();
        while rounds > 0 && to_resolve.len() > 0
            invariant
                old(self).evolves_up(self),
                n0 == g0.n(),
                import_state(&g0, &self.graph, to_resolve@, mapping@),
                scope_targets(&*self, mapping@),
                self.scopes == old(self).scopes,
            decreases rounds,
        {
            rounds = rounds - 1;
            let from_id = match to_resolve.pop() {
                Some(f) => f,
                None => break,
            };
            let mut mapped = false;
            let mut q: usize = 0;
            while q < mapping.len()
                decreases mapping.len() - q,
            {
                if mapping[q].0 == from_id {
                    mapped = true;
                }
                q = q + 1;
            }
            if mapped {
                continue;
            }
            let mod_name: Vec<char> = match self.graph.nodes_arena[from_id].namespace {
                Some(s) => self.text(s),
                None => Vec::new(),
            };
            let item_name = self.text(self.graph.nodes_arena[from_id].name);
            let scope_vals = self.lookup_values_in_scope(mod_name.as_slice(), item_name.as_slice()).iter();
            proof {
                let nd = self.graph.nodes_arena@[from_id as int];
                assert(nd.ids_in(&self.graph.interner));
                if nd.namespace is Some {
                    assert(scope_vals@ == item_scope_values(&*self, from_id as int));
                }
            }
            if scope_vals.len() > 0 {
                let mut best = scope_vals[0];
                let mut k: usize = 0;
                while k < scope_vals.len()
                    invariant
                        scope_vals@.contains(best),
                    decreases scope_vals.len() - k,
                {
                    let c = scope_vals[k];
                    if c < self.graph.nodes_arena.len() && self.graph.nodes_arena[c].flavor != Flavor::ImportedItem {
                        best = c;
                        break;
                    }
                    k = k + 1;
                }
                if best < self.graph.nodes_arena.len() {
                    let ghost m0 = mapping@;
                    mapping.push((from_id, best));
                    proof {
                        assert forall|q: int| 0 <= q < mapping@.len() && self.graph.nodes_arena@[(#[trigger] mapping@[q]).0 as int].namespace is Some
                            && item_scope_values(&*self, mapping@[q].0 as int).len() > 0
                            implies item_scope_values(&*self, mapping@[q].0 as int).contains(mapping@[q].1) by {
                            if q < m0.len() {
                                assert(mapping@[q] == m0[q]);
                            }
                        }
                    }
                    if self.graph.nodes_arena[best].flavor == Flavor::ImportedItem && best != from_id {
                        to_resolve.push(best);
                    }
                }
                continue;
            }
            let targets = self.graph.uses_edges[from_id].iter();
            if targets.len() != 1 {
                continue;
            }
            let to_id = targets[0];
            if to_id >= self.graph.nodes_arena.len() {
                continue;
            }
            let ns_sym = self.graph.nodes_arena[to_id].namespace;
            let ns_str: Vec<char> = match ns_sym {
                Some(s) => self.text(s),
                None => Vec::new(),
            };
            let module_id = if ns_str.len() == 0 && ns_sym.is_some() {
                to_id
            } else {
                let empty: Vec<char> = Vec::new();
                let ghost before = *self;
                let id = self.get_node(Some(empty.as_slice()), ns_str.as_slice(), Flavor::Namespace);
                proof {
                    assert forall|q: int| 0 <= q < mapping@.len() && self.graph.nodes_arena@[(#[trigger] mapping@[q]).0 as int].namespace is Some
                        && item_scope_values(&*self, mapping@[q].0 as int).len() > 0
                        implies item_scope_values(&*self, mapping@[q].0 as int).contains(mapping@[q].1) by {
                        lemma_item_values_kept(before, *self, mapping@[q].0 as int);
                    }
                    if self.graph.nodes_arena@[from_id as int].namespace is Some {
                        lemma_item_values_kept(before, *self, from_id as int);
                    }
                    assert forall|x: int| 0 <= x < before.graph.n() && before.graph.nodes_arena@[x].flavor == Flavor::ImportedItem
                        implies #[trigger] self.graph.nodes_arena@[x].flavor == Flavor::ImportedItem by {
                        if x == id as int {
                            assert(flavor_rank(Flavor::Namespace) < flavor_rank(Flavor::ImportedItem));
                        }
                    }
                }
                id
            };
            if module_id < self.graph.nodes_arena.len() && from_id < self.graph.nodes_arena.len() {
                let module_uses = self.graph.uses_edges[module_id].iter();
                let from_name = self.graph.nodes_arena[from_id].name;
                let mut k: usize = 0;
                while k < module_uses.len()
                    invariant
                        old(self).evolves_up(self),
                        n0 == g0.n(),
                        import_state(&g0, &self.graph, to_resolve@, mapping@),
                        scope_targets(&*self, mapping@),
                        self.scopes == old(self).scopes,
                        from_id < self.graph.n(),
                        self.graph.nodes_arena@[from_id as int].flavor == Flavor::ImportedItem,
                        self.graph.nodes_arena@[from_id as int].namespace is Some ==> item_scope_values(&*self, from_id as int).len() == 0,
                    decreases module_uses.len() - k,
                {
                    let cand = module_uses[k];
                    if cand < self.graph.nodes_arena.len() && self.graph.nodes_arena[cand].name == from_name {
                        let ghost m0 = mapping@;
                        mapping.push((from_id, cand));
                        proof {
                            assert forall|q: int| 0 <= q < mapping@.len() && self.graph.nodes_arena@[(#[trigger] mapping@[q]).0 as int].namespace is Some
                                && item_scope_values(&*self, mapping@[q].0 as int).len() > 0
                                implies item_scope_values(&*self, mapping@[q].0 as int).contains(mapping@[q].1) by {
                                if q < m0.len() {
                                    assert(mapping@[q] == m0[q]);
                                }
                            }
                        }
                        if self.graph.nodes_arena[cand].flavor == Flavor::ImportedItem && cand != from_id {
                            to_resolve.push(cand);
                        }
                        break;
                    }
                    k = k + 1;
                }
            }
        }
        let ghost mid = self.graph;
        if mapping.len() > 0 {
            self.graph.remap_edges(&mapping);
        } else {
            let size = self.graph.nodes_arena.len();
            proof {
                assert(mid.uses_edges@.len() == size && mid.defines_edges@.len() == size);
                assert(mapping@ =~= Seq::<(NodeId, NodeId)>::empty());
                lemma_remap_none(mid.uses_edges@);
                lemma_remap_none(mid.defines_edges@);
            }
        }
        proof {
            assert(imports_remapped(&old(self).graph, mid, mapping@, &self.graph));
            assert forall|q: int| 0 <= q < mapping@.len() && self.graph.nodes_arena@[(#[trigger] mapping@[q]).0 as int].namespace is Some
                && item_scope_values(&*self, mapping@[q].0 as int).len() > 0
                implies item_scope_values(&*self, mapping@[q].0 as int).contains(mapping@[q].1) by {
                assert(self.graph.interner == mid.interner);
                assert(self.graph.nodes_arena == mid.nodes_arena);
            }
        }
    }

    /// Replace each uses edge to a known-namespace node that is not
    /// defined by an edge to the unknown node of the same name, recording
    /// an external reference when the node is an imported item or module.
    /// Afterwards no uses edge leads to such a node.
    #[verifier::loop_isolation(false)]
    pub fn contract_nonexistents(&mut self)
        requires
            old(self).wf(),
        ensures
            old(self).evolves(final(self)),
            forall|f: int, t: usize| !#[trigger] dangling(&final(self).graph, f, t),
            keeps_named_defined(&*old(self), &*final(self)),
            old(self).graph.diagnostics.external_references@.is_prefix_of(final(self).graph.diagnostics.external_references@),
            forall|f: int, t: usize| #[trigger] dangling(&old(self).graph, f, t)
                ==> records_reference(&*old(self), final(self).graph.diagnostics.external_references@, f, t),
            forall|f: int, t: usize| #[trigger] dangling(&old(self).graph, f, t) ==> uses_wild_named(
                &*final(self),
                f,
                old(self).graph.interner.str_of(old(self).graph.nodes_arena@[t as int].name),
            ),
    {
        let ghost s0 = *self;
        let n = self.graph.nodes_arena.len();
        let mut to_contract: Vec<(NodeId, NodeId)> = Vec::new();
        let mut from: usize = 0;
        while from < n
            invariant
                n == self.graph.nodes_arena@.len(),
                self.wf(),
                *self == *old(self),
                from <= n,
                forall|a: int| 0 <= a < to_contract@.len() ==> (#[trigger] to_contract@[a]).1 < n && to_contract@[a].0 < n,
                forall|a: int| 0 <= a < to_contract@.len() ==> dangling(&self.graph, (#[trigger] to_contract@[a]).0 as int, to_contract@[a].1),
                forall|f: int, t: usize| 0 <= f < from && #[trigger] dangling(&self.graph, f, t) ==> listed_from(to_contract@, 0, f, t),
            decreases n - from,
        {
            let targets = self.graph.uses_edges[from].iter();
            let mut j: usize = 0;
            while j < targets.len()
                invariant
                    j <= targets@.len(),
                    targets@ == self.graph.uses_edges@[from as int]@,
                    forall|a: int| 0 <= a < to_contract@.len() ==> (#[trigger] to_contract@[a]).1 < n && to_contract@[a].0 < n,
                    forall|a: int| 0 <= a < to_contract@.len() ==> dangling(&self.graph, (#[trigger] to_contract@[a]).0 as int, to_contract@[a].1),
                    forall|f: int, t: usize| 0 <= f < from && #[trigger] dangling(&self.graph, f, t) ==> listed_from(to_contract@, 0, f, t),
                    forall|jj: int| 0 <= jj < j && dangling(&self.graph, from as int, #[trigger] targets@[jj]) ==> listed_from(to_contract@, 0, from as int, targets@[jj]),
                decreases targets.len() - j,
            {
                let to = targets[j];
                let ghost tc0 = to_contract@;
                if to < n && self.graph.nodes_arena[to].namespace.is_some() && !self.graph.defined[to] {
                    to_contract.push((from, to));
                    proof {
                        assert(to_contract@[tc0.len() as int] == (from, to));
                        assert(targets@.contains(to));
                        assert(dangling(&self.graph, from as int, to));
                        assert forall|a: int| 0 <= a < to_contract@.len() implies dangling(&self.graph, (#[trigger] to_contract@[a]).0 as int, to_contract@[a].1) by {
                            if a < tc0.len() {
                                assert(to_contract@[a] == tc0[a]);
                            }
                        }
                    }
                }
                proof {
                    assert forall|f: int, t: usize| listed_from(tc0, 0, f, t) implies listed_from(to_contract@, 0, f, t) by {
                        let a = choose|a: int| 0 <= a < tc0.len() && tc0[a].0 == f && tc0[a].1 == t;
                        assert(to_contract@[a] == tc0[a]);
                    }
                }
                j = j + 1;
            }
            proof {
                assert forall|f: int, t: usize| 0 <= f < from + 1 && #[trigger] dangling(&self.graph, f, t) implies listed_from(to_contract@, 0, f, t) by {
                    if f == from {
                        let jj = choose|jj: int| 0 <= jj < targets@.len() && targets@[jj] == t;
                        assert(dangling(&self.graph, from as int, targets@[jj]));
                    }
                }
            }
            from = from + 1;
        }
        let mut k: usize = 0;
        while k < to_contract.len()
            invariant
                old(self).evolves(self),
                keeps_named_defined(&*old(self), &*self),
                n <= self.graph.n(),
                k <= to_contract@.len(),
                forall|a: int| 0 <= a < to_contract@.len() ==> (#[trigger] to_contract@[a]).1 < n && to_contract@[a].0 < n,
                forall|f: int, t: usize| #[trigger] dangling(&self.graph, f, t) ==> listed_from(to_contract@, k as int, f, t),
                s0 == *old(self),
                n == s0.graph.n(),
                forall|a: int| 0 <= a < to_contract@.len() ==> dangling(&s0.graph, (#[trigger] to_contract@[a]).0 as int, to_contract@[a].1),
                forall|f: int, t: usize| #[trigger] dangling(&s0.graph, f, t) ==> listed_from(to_contract@, 0, f, t),
                s0.graph.diagnostics.external_references@.is_prefix_of(self.graph.diagnostics.external_references@),
                forall|i: int| 0 <= i < n && s0.graph.nodes_arena@[i].namespace is Some ==> #[trigger] self.graph.nodes_arena@[i] == s0.graph.nodes_arena@[i],
                forall|i: int| 0 <= i < n ==> (#[trigger] self.graph.nodes_arena@[i]).filename == s0.graph.nodes_arena@[i].filename
                    && self.graph.nodes_arena@[i].line == s0.graph.nodes_arena@[i].line,
                forall|a: int| 0 <= a < k ==> records_reference(&s0, self.graph.diagnostics.external_references@, (#[trigger] to_contract@[a]).0 as int, to_contract@[a].1),
                forall|a: int| 0 <= a < k ==> uses_wild_named(&*self, (#[trigger] to_contract@[a]).0 as int,
                    s0.graph.interner.str_of(s0.graph.nodes_arena@[to_contract@[a].1 as int].name)),
            decreases to_contract.len() - k,
        {
            let (from, to) = to_contract[k];
            let ghost g0 = self.graph;
            let ghost sk = *self;
            proof {
                assert(dangling(&s0.graph, from as int, to));
                assert(self.graph.nodes_arena@[to as int] == s0.graph.nodes_arena@[to as int]);
            }
            let kind = match self.graph.nodes_arena[to].flavor {
                Flavor::ImportedItem => Some(ExternalReferenceKind::Import),
                Flavor::Module => Some(ExternalReferenceKind::Module),
                _ => None,
            };
            if let Some(kd) = kind {
                let canonical = chars_to_string(self.node_name(to).as_slice());
                proof {
                    lemma_full_name_kept(s0.graph.nodes_arena@[to as int], self.graph.nodes_arena@[to as int], &s0.graph.interner, &self.graph.interner);
                }
                self.record_external_reference(from, kd, canonical);
                proof {
                    lemma_full_name_kept(s0.graph.nodes_arena@[from as int], sk.graph.nodes_arena@[from as int], &s0.graph.interner, &sk.graph.interner);
                    let fv = self.graph.diagnostics.external_references@;
                    let idx = choose|idx: int| 0 <= idx < fv.len() && #[trigger] describes(fv[idx], sk.graph.nodes_arena@[from as int],
                        &sk.graph.interner, kd, canonical@);
                    assert(describes(fv[idx], s0.graph.nodes_arena@[from as int], &s0.graph.interner, kd,
                        s0.graph.nodes_arena@[to as int].full_name(&s0.graph.interner)));
                }
            }
            let ghost sr = *self;
            proof {
                assert(records_reference(&s0, sr.graph.diagnostics.external_references@, from as int, to));
                assert forall|a: int| 0 <= a < k implies records_reference(&s0, sr.graph.diagnostics.external_references@, (#[trigger] to_contract@[a]).0 as int, to_contract@[a].1) by {
                    let (f, t) = to_contract@[a];
                    if let Some(kd) = reference_kind(s0.graph.nodes_arena@[t as int].flavor) {
                        let dv = sk.graph.diagnostics.external_references@;
                        let idx = choose|idx: int| 0 <= idx < dv.len() && #[trigger] describes(dv[idx], s0.graph.nodes_arena@[f as int],
                            &s0.graph.interner, kd, s0.graph.nodes_arena@[t as int].full_name(&s0.graph.interner));
                        assert(sr.graph.diagnostics.external_references@[idx] == dv[idx]);
                    }
                }
            }
            let name = self.text(self.graph.nodes_arena[to].name);
            let ghost g1 = self.graph;
            let wild_id = self.get_node(None, name.as_slice(), Flavor::Unknown);
            let ghost g2 = self.graph;
            let ghost t2 = *self;
            self.mark_undefined(wild_id);
            let ghost g3 = self.graph;
            let _ = self.add_uses_edge(from, wild_id);
            let ghost g4 = self.graph;
            self.remove_uses_edge(from, to);
            proof {
                let txt = s0.graph.interner.str_of(s0.graph.nodes_arena@[to as int].name);
                let nm = s0.graph.nodes_arena@[to as int].name;
                assert(s0.graph.nodes_arena@[to as int].ids_in(&s0.graph.interner));
                assert(sr.graph.interner@[nm.0 as int] == s0.graph.interner@[nm.0 as int]);
                assert(name@ == txt);
                assert(g4.nodes_arena@[to as int] == s0.graph.nodes_arena@[to as int]);
                assert(wild_id != to);
                assert(self.graph.uses_edges@[from as int]@.contains(wild_id));
                lemma_wild_named_kept(t2, *self, from as int, txt, wild_id);
                assert forall|a: int| 0 <= a < k + 1 implies uses_wild_named(&*self, (#[trigger] to_contract@[a]).0 as int,
                    s0.graph.interner.str_of(s0.graph.nodes_arena@[to_contract@[a].1 as int].name)) by {
                    if a < k {
                        let f = to_contract@[a].0 as int;
                        let t2x = s0.graph.interner.str_of(s0.graph.nodes_arena@[to_contract@[a].1 as int].name);
                        let w = choose|w: usize| #[trigger] sk.graph.uses_edges@[f]@.contains(w) && w < sk.graph.n()
                            && sk.graph.nodes_arena@[w as int].namespace is None
                            && sk.graph.interner.str_of(sk.graph.nodes_arena@[w as int].name) == t2x;
                        assert(g1.uses_edges@[f]@.contains(w));
                        assert(g2.uses_edges@[f]@.contains(w));
                        assert(g3.uses_edges@[f]@.contains(w));
                        assert(g4.uses_edges@[f]@.contains(w)) by {
                            if f == from as int {
                                assert(!g3.is_wild(w, g3.nodes_arena@[wild_id as int].name) || g3.nodes_arena@[wild_id as int].namespace is None);
                            }
                        }
                        assert(g4.nodes_arena@[w as int].namespace is None);
                        assert(w != to);
                        assert(self.graph.uses_edges@[f]@.contains(w));
                        lemma_wild_named_kept(sk, *self, f, t2x, w);
                    }
                }
                assert(self.graph.diagnostics == sr.graph.diagnostics);
                assert forall|i: int| 0 <= i < n && s0.graph.nodes_arena@[i].namespace is Some
                    implies #[trigger] self.graph.nodes_arena@[i] == s0.graph.nodes_arena@[i] by {
                    assert(i != wild_id as int);
                }
                assert forall|f: int, t: usize| #[trigger] dangling(&self.graph, f, t) implies listed_from(to_contract@, k + 1, f, t) by {
                    assert(dangling(&g4, f, t));
                    assert(!(f == from && t == to));
                    assert(dangling(&g3, f, t));
                    assert(dangling(&g2, f, t));
                    if f >= g1.n() {
                        assert(g2.uses_edges@[f]@.len() == 0);
                    }
                    if t >= g1.n() {
                        assert(t == wild_id);
                    }
                    assert(dangling(&g1, f, t));
                    assert(dangling(&g0, f, t));
                    assert(listed_from(to_contract@, k as int, f, t));
                    let a = choose|a: int| k <= a < to_contract@.len() && to_contract@[a].0 == f && to_contract@[a].1 == t;
                    assert(a != k);
                }
            }
            k = k + 1;
        }
    }

    /// Drop a uses edge to `X.name` when the same source also uses
    /// `Y.name` and `Y`'s namespace uses `X`'s: the edge is inherited.
    #[verifier::loop_isolation(false)]
    pub fn cull_inherited(&mut self)
        requires
            old(self).wf(),
        ensures
            old(self).evolves_up(final(self)),
            keeps_named_defined(&*old(self), &*final(self)),
            forall|f: int, t: usize| 0 <= f < old(self).graph.n() ==> (#[trigger] final(self).graph.uses_edges@[f]@.contains(t) <==> (
                old(self).graph.uses_edges@[f]@.contains(t) && !inherited_edge(&*old(self), f, t))),
    {
        let n = self.graph.nodes_arena.len();
        let mut removed: Vec<(NodeId, NodeId)> = Vec::new();
        let mut from: usize = 0;
        while from < n
            invariant
                old(self).evolves_up(self),
                n == old(self).graph.n(),
                n <= self.graph.n(),
                from <= n,
                forall|i: int| 0 <= i < n ==> #[trigger] self.graph.uses_edges@[i] == old(self).graph.uses_edges@[i],
                forall|i: int| n <= i < self.graph.n() ==> (#[trigger] self.graph.uses_edges@[i])@.len() == 0,
                forall|q: int| 0 <= q < removed@.len() ==> (#[trigger] removed@[q]).0 < n && old(self).graph.uses_edges@[removed@[q].0 as int]@.contains(
                    removed@[q].1,
                ) && inherited_edge(&*old(self), removed@[q].0 as int, removed@[q].1),
                forall|f: int, t: usize| 0 <= f < from && old(self).graph.uses_edges@[f]@.contains(t) && #[trigger] inherited_edge(&*old(self), f, t)
                    ==> listed_from(removed@, 0, f, t),
            decreases n - from,
        {
            let targets = self.graph.uses_edges[from].iter();
            proof {
                assert(set_in(old(self).graph.uses_edges@[from as int], n as nat));
                assert(forall|kk: int| 0 <= kk < targets@.len() ==> #[trigger] targets@[kk] < n);
            }
            let mut a: usize = 0;
            while a < targets.len()
                invariant
                    old(self).evolves_up(self),
                    n == old(self).graph.n(),
                    n <= self.graph.n(),
                    from < n,
                    a <= targets@.len(),
                    targets@ == old(self).graph.uses_edges@[from as int]@,
                    forall|i: int| 0 <= i < n ==> #[trigger] self.graph.uses_edges@[i] == old(self).graph.uses_edges@[i],
                    forall|i: int| n <= i < self.graph.n() ==> (#[trigger] self.graph.uses_edges@[i])@.len() == 0,
                    forall|q: int| 0 <= q < removed@.len() ==> (#[trigger] removed@[q]).0 < n && old(self).graph.uses_edges@[removed@[q].0 as int]@.contains(
                        removed@[q].1,
                    ) && inherited_edge(&*old(self), removed@[q].0 as int, removed@[q].1),
                    forall|f: int, t: usize| 0 <= f < from && old(self).graph.uses_edges@[f]@.contains(t) && #[trigger] inherited_edge(&*old(self), f, t)
                        ==> listed_from(removed@, 0, f, t),
                    forall|aa: int| 0 <= aa < a && inherited_edge(&*old(self), from as int, #[trigger] targets@[aa])
                        ==> listed_from(removed@, 0, from as int, targets@[aa]),
                decreases targets.len() - a,
            {
                let to = targets[a];
                let mut inherited = false;
                let mut b: usize = 0;
                #[verifier::loop_isolation(true)]
                while b < targets.len()
                    invariant_except_break
                        !inherited,
                    invariant
                        old(self).wf(),
                        old(self).evolves_up(self),
                        n == old(self).graph.n(),
                        n <= self.graph.n(),
                        from < n,
                        b <= targets@.len(),
                        a < targets@.len(),
                        forall|kk: int| 0 <= kk < targets@.len() ==> #[trigger] targets@[kk] < n,
                        to == targets@[a as int],
                        targets@ == old(self).graph.uses_edges@[from as int]@,
                        forall|i: int| 0 <= i < n ==> #[trigger] self.graph.uses_edges@[i] == old(self).graph.uses_edges@[i],
                        forall|i: int| n <= i < self.graph.n() ==> (#[trigger] self.graph.uses_edges@[i])@.len() == 0,
                        forall|bb: int| 0 <= bb < b ==> !overridden(&*old(self), from as int, to, #[trigger] targets@[bb]),
                    ensures
                        inherited ==> inherited_edge(&*old(self), from as int, to),
                        !inherited ==> !inherited_edge(&*old(self), from as int, to),
                        old(self).evolves_up(self),
                        n <= self.graph.n(),
                        forall|i: int| 0 <= i < n ==> #[trigger] self.graph.uses_edges@[i] == old(self).graph.uses_edges@[i],
                        forall|i: int| n <= i < self.graph.n() ==> (#[trigger] self.graph.uses_edges@[i])@.len() == 0,
                    decreases targets.len() - b,
                {
                    let other = targets[b];
                    let ghost cs = *self;
                    let mut found = false;
                    if other != to && self.valid(to) && self.valid(other) {
                        let same_name = self.graph.nodes_arena[to].name == self.graph.nodes_arena[other].name;
                        let to_ns = self.graph.nodes_arena[to].namespace;
                        let other_ns = self.graph.nodes_arena[other].namespace;
                        if same_name && to_ns.is_some() && other_ns.is_some() && to_ns != other_ns {
                            let parent_to = self.get_parent_node(to);
                            let ghost cs2 = *self;
                            let parent_other = self.get_parent_node(other);
                            let ghost cs3 = *self;
                            proof {
                                lemma_parent_link(*old(self), cs, to, parent_to as int);
                                lemma_parent_link(*old(self), cs2, other, parent_other as int);
                                assert forall|i: int| 0 <= i < n implies #[trigger] self.graph.uses_edges@[i] == old(self).graph.uses_edges@[i] by {
                                    assert(cs2.graph.uses_edges@[i] == cs.graph.uses_edges@[i]);
                                }
                                assert forall|i: int| n <= i < self.graph.n() implies (#[trigger] self.graph.uses_edges@[i])@.len() == 0 by {
                                    if i < cs2.graph.n() {
                                        assert(self.graph.uses_edges@[i] == cs2.graph.uses_edges@[i]);
                                        if i < cs.graph.n() {
                                            assert(cs2.graph.uses_edges@[i] == cs.graph.uses_edges@[i]);
                                        }
                                    }
                                }
                            }
                            if self.graph.uses_edges[parent_other].contains(parent_to) {
                                proof {
                                    if parent_other >= n {
                                        assert(self.graph.uses_edges@[parent_other as int]@.len() == 0);
                                    }
                                    assert(set_in(old(self).graph.uses_edges@[parent_other as int], n as nat));
                                    let k = choose|k: int| 0 <= k < old(self).graph.uses_edges@[parent_other as int]@.len()
                                        && old(self).graph.uses_edges@[parent_other as int]@[k] == parent_to;
                                    assert(parent_to < n);
                                    assert(parent_of(&*old(self), to, parent_to as int));
                                    assert(parent_of(&*old(self), other, parent_other as int));
                                    assert(old(self).graph.uses_edges@[parent_other as int]@.contains(parent_to as int as usize));
                                    assert(overridden(&*old(self), from as int, to, other));
                                }
                                found = true;
                            } else {
                                proof {
                                    assert(!overridden(&*old(self), from as int, to, other)) by {
                                        if overridden(&*old(self), from as int, to, other) {
                                            let (pt, po) = choose|pt: int, po: int| parent_of(&*old(self), to, pt) && parent_of(&*old(self), other, po)
                                                && #[trigger] old(self).graph.uses_edges@[po]@.contains(pt as usize);
                                            assert(parent_to == pt && parent_other == po);
                                            let (qa, qb) = choose|qa: Seq<char>, qb: Seq<char>| #[trigger] old(self).parent_key(other, qa, qb)
                                                && old(self).first_named(po, Some(qa), qb);
                                        }
                                    }
                                }
                            }
                        } else {
                            proof {
                                assert(!overridden(&*old(self), from as int, to, other)) by {
                                    assert(self.graph.nodes_arena@[to as int] .name == old(self).graph.nodes_arena@[to as int].name);
                                    assert(self.graph.nodes_arena@[other as int].name == old(self).graph.nodes_arena@[other as int].name);
                                }
                            }
                        }
                    } else {
                        proof {
                            assert(set_in(old(self).graph.uses_edges@[from as int], n as nat));
                            assert(!overridden(&*old(self), from as int, to, other));
                        }
                    }
                    if found {
                        inherited = true;
                        break;
                    }
                    b = b + 1;
                }
                proof {
                    if !inherited {
                        assert(!inherited_edge(&*old(self), from as int, to)) by {
                            if inherited_edge(&*old(self), from as int, to) {
                                let o = choose|o: usize| #[trigger] overridden(&*old(self), from as int, to, o);
                                let k = choose|k: int| 0 <= k < targets@.len() && targets@[k] == o;
                                assert(!overridden(&*old(self), from as int, to, targets@[k]));
                            }
                        }
                    }
                }
                let ghost r0 = removed@;
                if inherited {
                    removed.push((from, to));
                }
                proof {
                    assert forall|q: int| 0 <= q < removed@.len() implies (#[trigger] removed@[q]).0 < n && old(self).graph.uses_edges@[removed@[q].0 as int]@.contains(
                        removed@[q].1,
                    ) && inherited_edge(&*old(self), removed@[q].0 as int, removed@[q].1) by {
                        if q < r0.len() {
                            assert(removed@[q] == r0[q]);
                        }
                    }
                    assert forall|f: int, t: usize| listed_from(r0, 0, f, t) implies listed_from(removed@, 0, f, t) by {
                        let q = choose|q: int| 0 <= q < r0.len() && r0[q].0 == f && r0[q].1 == t;
                        assert(removed@[q] == r0[q]);
                    }
                    assert forall|aa: int| 0 <= aa < a + 1 && inherited_edge(&*old(self), from as int, #[trigger] targets@[aa])
                        implies listed_from(removed@, 0, from as int, targets@[aa]) by {
                        if aa == a {
                            assert(removed@[r0.len() as int] == (from, to));
                        }
                    }
                }
                a = a + 1;
            }
            proof {
                assert forall|f: int, t: usize| 0 <= f < from + 1 && old(self).graph.uses_edges@[f]@.contains(t) && #[trigger] inherited_edge(&*old(self), f, t)
                    implies listed_from(removed@, 0, f, t) by {
                    if f == from {
                        let k = choose|k: int| 0 <= k < targets@.len() && targets@[k] == t;
                        assert(inherited_edge(&*old(self), from as int, targets@[k]));
                    }
                }
            }
            from = from + 1;
        }
        let ghost s1 = *self;
        let mut k: usize = 0;
        while k < removed.len()
            invariant
                old(self).evolves_up(self),
                n == old(self).graph.n(),
                k <= removed@.len(),
                forall|q: int| 0 <= q < removed@.len() ==> (#[trigger] removed@[q]).0 < n,
                forall|f: int, t: usize| 0 <= f < n ==> (#[trigger] self.graph.uses_edges@[f]@.contains(t) <==> (
                    old(self).graph.uses_edges@[f]@.contains(t) && !listed_upto(removed@, k as int, f, t))),
            decreases removed.len() - k,
        {
            let ghost u0 = self.graph;
            self.remove_uses_edge(removed[k].0, removed[k].1);
            proof {
                assert forall|f: int, t: usize| 0 <= f < n implies (#[trigger] self.graph.uses_edges@[f]@.contains(t) <==> (
                    old(self).graph.uses_edges@[f]@.contains(t) && !listed_upto(removed@, k + 1, f, t))) by {
                    assert(u0.uses_edges@[f]@.contains(t) <==> (old(self).graph.uses_edges@[f]@.contains(t) && !listed_upto(removed@, k as int, f, t)));
                    if listed_upto(removed@, k + 1, f, t) && !listed_upto(removed@, k as int, f, t) {
                        let q = choose|q: int| 0 <= q < k + 1 && removed@[q].0 == f && removed@[q].1 == t;
                        assert(q == k);
                    }
                    if listed_upto(removed@, k as int, f, t) {
                        let q = choose|q: int| 0 <= q < k && removed@[q].0 == f && removed@[q].1 == t;
                        assert(listed_upto(removed@, k + 1, f, t));
                    }
                }
            }
            k = k + 1;
        }
        proof {
            assert forall|f: int, t: usize| 0 <= f < old(self).graph.n() implies (#[trigger] self.graph.uses_edges@[f]@.contains(t) <==> (
                old(self).graph.uses_edges@[f]@.contains(t) && !inherited_edge(&*old(self), f, t))) by {
                if listed_upto(removed@, removed@.len() as int, f, t) {
                    let q = choose|q: int| 0 <= q < removed@.len() && removed@[q].0 == f && removed@[q].1 == t;
                    assert(inherited_edge(&*old(self), removed@[q].0 as int, removed@[q].1));
                }
                if old(self).graph.uses_edges@[f]@.contains(t) && inherited_edge(&*old(self), f, t) {
                    assert(listed_from(removed@, 0, f, t));
                    let q = choose|q: int| 0 <= q < removed@.len() && removed@[q].0 == f && removed@[q].1 == t;
                    assert(listed_upto(removed@, removed@.len() as int, f, t));
                }
            }
        }
    }

    /// Merge the uses of each lambda and comprehension node into its
    /// parent, and mark it not defined.
    #[verifier::loop_isolation(false)]
    pub fn collapse_inner(&mut self)
        requires
            old(self).wf(),
        ensures
            old(self).evolves(final(self)),
            forall|i: int| 0 <= i < old(self).graph.n() && is_inner_label(
                old(self).graph.interner.str_of(#[trigger] old(self).graph.nodes_arena@[i].name),
            ) ==> !final(self).graph.defined@[i],
            keeps_named_defined(&*old(self), &*final(self)),
            forall|i: int| 0 <= i < old(self).graph.n() && is_inner_label(
                old(self).graph.interner.str_of(#[trigger] old(self).graph.nodes_arena@[i].name),
            ) ==> gained(&*old(self), &*final(self), i),
    {
        let labels: [&str; 5] = ["lambda", "listcomp", "setcomp", "dictcomp", "genexpr"];
        let ghost n0 = self.graph.n();
        proof {
            reveal_strlit("lambda");
            reveal_strlit("listcomp");
            reveal_strlit("setcomp");
            reveal_strlit("dictcomp");
            reveal_strlit("genexpr");
            assert(is_inner_label(labels@[0]@) && is_inner_label(labels@[1]@) && is_inner_label(labels@[2]@)
                && is_inner_label(labels@[3]@) && is_inner_label(labels@[4]@));
        }
        let mut l: usize = 0;
        while l < 5
            invariant
                old(self).evolves(self),
                keeps_named_defined(&*old(self), &*self),
                forall|ll: int| 0 <= ll < 5 ==> is_inner_label((#[trigger] labels@[ll])@),
                n0 == old(self).graph.n(),
                n0 <= self.graph.n(),
                l <= 5,
                old(self).graph.interner.extends(&self.graph.interner),
                forall|i: int| 0 <= i < n0 ==> (#[trigger] self.graph.nodes_arena@[i]).name == old(self).graph.nodes_arena@[i].name,
                forall|i: int, ll: int| 0 <= i < n0 && 0 <= ll < l && old(self).graph.interner.str_of(
                    #[trigger] old(self).graph.nodes_arena@[i].name,
                ) == (#[trigger] labels@[ll])@ ==> !self.graph.defined@[i],
                keeps_concrete_uses(&old(self).graph, &self.graph),
                forall|i: int, ll: int| 0 <= i < n0 && 0 <= ll < l && old(self).graph.interner.str_of(
                    #[trigger] old(self).graph.nodes_arena@[i].name,
                ) == (#[trigger] labels@[ll])@ ==> gained(&*old(self), &*self, i),
            decreases 5 - l,
        {
            let ghost before = self.graph;
            let ghost bs = *self;
            let label_sym = self.sym(labels[l]);
            proof {
                assert forall|i: int, ll: int| 0 <= i < n0 && 0 <= ll < l && old(self).graph.interner.str_of(
                    #[trigger] old(self).graph.nodes_arena@[i].name,
                ) == (#[trigger] labels@[ll])@ implies gained(&*old(self), &*self, i) by {
                    lemma_gained_stable(*old(self), bs, *self, i);
                }
            }
            let n = self.graph.nodes_arena.len();
            let mut ids: Vec<NodeId> = Vec::new();
            let mut i: usize = 0;
            while i < n
                invariant
                    n == self.graph.nodes_arena@.len(),
                    i <= n,
                    forall|a: int| 0 <= a < ids@.len() ==> #[trigger] ids@[a] < n,
                    forall|x: int| 0 <= x < i && self.graph.nodes_arena@[x].name == label_sym ==> ids@.contains(x as usize),
                    forall|a: int| 0 <= a < ids@.len() ==> self.graph.nodes_arena@[#[trigger] ids@[a] as int].name == label_sym,
                decreases n - i,
            {
                let ghost ids0 = ids@;
                if self.graph.nodes_arena[i].name == label_sym {
                    ids.push(i);
                    proof {
                        assert(ids@[ids0.len() as int] == i);
                        assert forall|a: int| 0 <= a < ids@.len() implies self.graph.nodes_arena@[#[trigger] ids@[a] as int].name == label_sym by {
                            if a < ids0.len() {
                                assert(ids@[a] == ids0[a]);
                            }
                        }
                    }
                }
                proof {
                    assert forall|x: int| 0 <= x < i && self.graph.nodes_arena@[x].name == label_sym implies ids@.contains(x as usize) by {
                        assert(ids0.contains(x as usize));
                        let a = choose|a: int| 0 <= a < ids0.len() && ids0[a] == x as usize;
                        assert(ids@[a] == ids0[a]);
                    }
                }
                i = i + 1;
            }
            let ghost mid = self.graph;
            let mut k: usize = 0;
            while k < ids.len()
                invariant
                    old(self).evolves(self),
                    n <= self.graph.n(),
                    k <= ids@.len(),
                    forall|a: int| 0 <= a < ids@.len() ==> #[trigger] ids@[a] < n,
                    mid.interner.extends(&self.graph.interner),
                    forall|x: int| 0 <= x < n ==> (#[trigger] self.graph.nodes_arena@[x]).name == mid.nodes_arena@[x].name,
                    forall|x: int| 0 <= x < n && !mid.defined@[x] ==> !#[trigger] self.graph.defined@[x],
                    forall|a: int| 0 <= a < k ==> !self.graph.defined@[#[trigger] ids@[a] as int],
                    keeps_named_defined(&*old(self), &*self),
                    mid.interner.has_id(label_sym) && mid.interner.str_of(label_sym) == labels@[l as int]@,
                    forall|a: int| 0 <= a < ids@.len() ==> mid.nodes_arena@[#[trigger] ids@[a] as int].name == label_sym,
                    keeps_concrete_uses(&old(self).graph, &self.graph),
                    forall|i: int, ll: int| 0 <= i < n0 && 0 <= ll < l && old(self).graph.interner.str_of(
                        #[trigger] old(self).graph.nodes_arena@[i].name,
                    ) == (#[trigger] labels@[ll])@ ==> gained(&*old(self), &*self, i),
                    forall|a: int| 0 <= a < k && (#[trigger] ids@[a]) < n0 ==> gained(&*old(self), &*self, ids@[a] as int),
                decreases ids.len() - k,
            {
                let id = ids[k];
                let ghost g0 = self.graph;
                let ghost g0s = *self;
                let parent_id = self.get_parent_node(id);
                let ghost g1s = *self;
                let inner_uses = self.graph.uses_edges[id].iter();
                let mut j: usize = 0;
                let ghost g1 = self.graph;
                while j < inner_uses.len()
                    invariant
                        old(self).evolves(self),
                        g1s.evolves(self),
                        n <= self.graph.n(),
                        self.graph.nodes_arena == g1.nodes_arena,
                        self.graph.defined == g1.defined,
                        self.graph.interner == g1.interner,
                        parent_id < self.graph.n(),
                        j <= inner_uses@.len(),
                        keeps_concrete_uses(&g1, &self.graph),
                        forall|jj: int| 0 <= jj < j && concrete(&g1, #[trigger] inner_uses@[jj])
                            ==> self.graph.uses_edges@[parent_id as int]@.contains(inner_uses@[jj]),
                    decreases inner_uses.len() - j,
                {
                    let ghost h0 = self.graph;
                    let x = inner_uses[j];
                    let added = self.add_uses_edge(parent_id, x);
                    proof {
                        assert forall|i: int, y: usize| 0 <= i < h0.n() && concrete(&h0, y) && h0.uses_edges@[i]@.contains(y)
                            implies #[trigger] self.graph.uses_edges@[i]@.contains(y) by {
                            if added && i == parent_id {
                                if h0.drops_on_add(parent_id, x, y) {
                                    assert(h0.is_wild(y, h0.nodes_arena@[x as int].name));
                                }
                            }
                        }
                        assert forall|i: int, y: usize| 0 <= i < g1.n() && concrete(&g1, y) && g1.uses_edges@[i]@.contains(y)
                            implies #[trigger] self.graph.uses_edges@[i]@.contains(y) by {
                            assert(h0.uses_edges@[i]@.contains(y));
                            assert(concrete(&h0, y));
                        }
                        assert forall|jj: int| 0 <= jj < j + 1 && concrete(&g1, #[trigger] inner_uses@[jj])
                            implies self.graph.uses_edges@[parent_id as int]@.contains(inner_uses@[jj]) by {
                            if jj < j {
                                assert(h0.uses_edges@[parent_id as int]@.contains(inner_uses@[jj]));
                                assert(concrete(&h0, inner_uses@[jj]));
                            }
                        }
                    }
                    j = j + 1;
                }
                let ghost g2 = *self;
                self.mark_undefined(id);
                proof {
                    assert forall|i: int|
                        0 <= i < old(self).graph.n() && old(self).graph.defined@[i] && old(self).graph.nodes_arena@[i].namespace is Some
                            && !is_inner_label(old(self).graph.interner.str_of(old(self).graph.nodes_arena@[i].name))
                        implies #[trigger] self.graph.defined@[i] by {
                        assert(g2.graph.defined@[i]);
                        if i == id {
                            let nm = old(self).graph.nodes_arena@[i].name;
                            assert(old(self).graph.nodes_arena@[i].ids_in(&old(self).graph.interner));
                            assert(g2.graph.nodes_arena@[i].name == nm);
                            assert(mid.nodes_arena@[i].name == label_sym);
                            assert(g2.graph.nodes_arena@[i].name == mid.nodes_arena@[i].name);
                            assert(mid.interner@[nm.0 as int] == old(self).graph.interner@[nm.0 as int]);
                            assert(is_inner_label(labels@[l as int]@));
                        }
                    }
                    assert forall|x: int| 0 <= x < n && !mid.defined@[x] implies !#[trigger] self.graph.defined@[x] by {
                        assert(!g0.defined@[x]);
                        assert(g1.defined@[x] == g0.defined@[x]);
                    }
                    assert forall|a: int| 0 <= a < k + 1 implies !self.graph.defined@[#[trigger] ids@[a] as int] by {
                        if a < k {
                            assert(!g0.defined@[ids@[a] as int]);
                            assert(g1.defined@[ids@[a] as int] == g0.defined@[ids@[a] as int]);
                        }
                    }
                    assert forall|x: int| 0 <= x < n implies (#[trigger] self.graph.nodes_arena@[x]).name == mid.nodes_arena@[x].name by {
                        assert(g1.nodes_arena@[x].name == g0.nodes_arena@[x].name);
                    }
                    assert(keeps_concrete_uses(&g0, &g1)) by {
                        assert forall|i: int, y: usize| 0 <= i < g0.n() && concrete(&g0, y) && g0.uses_edges@[i]@.contains(y)
                            implies #[trigger] g1.uses_edges@[i]@.contains(y) by {}
                    }
                    lemma_concrete_trans(g0s, g1s, g2);
                    assert(keeps_concrete_uses(&g0, &self.graph)) by {
                        assert forall|i: int, y: usize| 0 <= i < g0.n() && concrete(&g0, y) && g0.uses_edges@[i]@.contains(y)
                            implies #[trigger] self.graph.uses_edges@[i]@.contains(y) by {
                            assert(g2.graph.uses_edges@[i]@.contains(y));
                        }
                    }
                    lemma_concrete_trans(*old(self), g0s, *self);
                    assert forall|i: int, ll: int| 0 <= i < n0 && 0 <= ll < l && old(self).graph.interner.str_of(
                        #[trigger] old(self).graph.nodes_arena@[i].name,
                    ) == (#[trigger] labels@[ll])@ implies gained(&*old(self), &*self, i) by {
                        lemma_gained_stable(*old(self), g0s, *self, i);
                    }
                    if id < n0 {
                        assert(gained(&*old(self), &*self, id as int)) by {
                            assert forall|x: usize| old(self).graph.uses_edges@[id as int]@.contains(x) && concrete(&old(self).graph, x)
                                implies exists|p: int| 0 <= p < self.graph.n() && #[trigger] self.graph.uses_edges@[p]@.contains(x)
                                    && self.is_parent(&*old(self), id, p) by {
                                assert(g0.uses_edges@[id as int]@.contains(x));
                                assert(g1.uses_edges@[id as int]@.contains(x));
                                let jj = choose|jj: int| 0 <= jj < inner_uses@.len() && inner_uses@[jj] == x;
                                assert(g1.nodes_arena@[x as int].namespace == old(self).graph.nodes_arena@[x as int].namespace);
                                assert(concrete(&g1, inner_uses@[jj]));
                                assert(g2.graph.uses_edges@[parent_id as int]@.contains(x));
                                assert(self.graph.uses_edges@[parent_id as int]@.contains(x));
                                let (pa, pb) = choose|pa: Seq<char>, pb: Seq<char>| g0s.parent_key(id, pa, pb) && #[trigger] g1s.node_named(parent_id as int, Some(pa), pb);
                                lemma_parent_stable(*old(self), g0s, id, pa, pb);
                                lemma_named_stable(g1s, *self, parent_id as int, Some(pa), pb);
                                assert(self.node_named(parent_id as int, Some(pa), pb));
                            }
                        }
                    }
                    assert forall|a: int| 0 <= a < k + 1 && (#[trigger] ids@[a]) < n0 implies gained(&*old(self), &*self, ids@[a] as int) by {
                        if a < k {
                            lemma_gained_stable(*old(self), g0s, *self, ids@[a] as int);
                        }
                    }
                }
                k = k + 1;
            }
            proof {
                assert forall|i: int, ll: int| 0 <= i < n0 && 0 <= ll < l + 1 && old(self).graph.interner.str_of(
                    #[trigger] old(self).graph.nodes_arena@[i].name,
                ) == (#[trigger] labels@[ll])@ implies !self.graph.defined@[i] by {
                    if ll == l {
                        let nm = old(self).graph.nodes_arena@[i].name;
                        assert(old(self).graph.nodes_arena@[i].ids_in(&old(self).graph.interner));
                        assert(old(self).graph.interner.has_id(nm));
                        assert(mid.nodes_arena@[i].name == nm);
                        assert(mid.interner@[nm.0 as int] == old(self).graph.interner@[nm.0 as int]);
                        assert(mid.interner.str_of(nm) == mid.interner.str_of(label_sym));
                        assert(nm.0 == label_sym.0);
                        assert(nm == label_sym);
                        assert(ids@.contains(i as usize));
                        let a = choose|a: int| 0 <= a < ids@.len() && ids@[a] == i as usize;
                        assert(!self.graph.defined@[ids@[a] as int]);
                    } else {
                        assert(!before.defined@[i]);
                        assert(!mid.defined@[i]);
                    }
                }
                assert forall|i: int, ll: int| 0 <= i < n0 && 0 <= ll < l + 1 && old(self).graph.interner.str_of(
                    #[trigger] old(self).graph.nodes_arena@[i].name,
                ) == (#[trigger] labels@[ll])@ implies gained(&*old(self), &*self, i) by {
                    if ll == l {
                        let nm = old(self).graph.nodes_arena@[i].name;
                        assert(old(self).graph.nodes_arena@[i].ids_in(&old(self).graph.interner));
                        assert(mid.nodes_arena@[i].name == nm);
                        assert(mid.interner@[nm.0 as int] == old(self).graph.interner@[nm.0 as int]);
                        assert(mid.interner.str_of(nm) == mid.interner.str_of(label_sym));
                        assert(nm.0 == label_sym.0);
                        assert(nm == label_sym);
                        assert(ids@.contains(i as usize));
                        let a = choose|a: int| 0 <= a < ids@.len() && ids@[a] == i as usize;
                        assert(gained(&*old(self), &*self, ids@[a] as int));
                    }
                }
            }
            l = l + 1;
        }
        proof {
            reveal_strlit("lambda");
            reveal_strlit("listcomp");
            reveal_strlit("setcomp");
            reveal_strlit("dictcomp");
            reveal_strlit("genexpr");
            assert forall|i: int| 0 <= i < old(self).graph.n() && is_inner_label(
                old(self).graph.interner.str_of(#[trigger] old(self).graph.nodes_arena@[i].name),
            ) implies !self.graph.defined@[i] by {
                let t = old(self).graph.interner.str_of(old(self).graph.nodes_arena@[i].name);
                if t == "lambda"@ {
                    assert(t == labels@[0]@);
                } else if t == "listcomp"@ {
                    assert(t == labels@[1]@);
                } else if t == "setcomp"@ {
                    assert(t == labels@[2]@);
                } else if t == "dictcomp"@ {
                    assert(t == labels@[3]@);
                } else {
                    assert(t == labels@[4]@);
                }
            }
            assert forall|i: int| 0 <= i < old(self).graph.n() && is_inner_label(
                old(self).graph.interner.str_of(#[trigger] old(self).graph.nodes_arena@[i].name),
            ) implies gained(&*old(self), &*self, i) by {
                let t = old(self).graph.interner.str_of(old(self).graph.nodes_arena@[i].name);
                if t == "lambda"@ {
                    assert(t == labels@[0]@);
                } else if t == "listcomp"@ {
                    assert(t == labels@[1]@);
                } else if t == "setcomp"@ {
                    assert(t == labels@[2]@);
                } else if t == "dictcomp"@ {
                    assert(t == labels@[3]@);
                } else {
                    assert(t == labels@[4]@);
                }
            }
        }
    }
}

} // verus!
