//! Node creation, edges and name bindings of the analysis session.

use vstd::prelude::*;

use crate::analyzer::graph::{CallGraph, ExternalReferenceDiagnostic, ExternalReferenceKind};
use crate::analyzer::session::{assoc_pos, clone_facts, same_fact, scope_pos, AnalysisSession, ContainerFact, ScopeInfo};
use crate::intern::SymId;
use crate::node::{upgraded_flavor, Flavor, NodeId};
use crate::scope::ValueSet;
use crate::text::{chars_to_string, dot_join, rsplit_dot, str_to_chars};

verus! {

/// Diagnostic `d` records a reference of kind `kind` from `node` to
/// `name`.
pub open spec fn describes(d: ExternalReferenceDiagnostic, node: crate::node::Node, interner: &crate::intern::Interner, kind: ExternalReferenceKind, name: Seq<char>) -> bool {
    &&& d.source_canonical_name@ == node.full_name(interner)
    &&& crate::scope::opt_view(d.source_filename) == crate::scope::opt_view(node.filename)
    &&& d.source_line == node.line
    &&& d.kind == kind
    &&& d.canonical_name@ == name
}

/// The first entry of `scopes` for `key` is at `i`.
pub open spec fn first_scope(scopes: Seq<(SymId, ScopeInfo)>, key: SymId, i: int) -> bool {
    &&& 0 <= i < scopes.len()
    &&& scopes[i].0 == key
    &&& forall|j: int| 0 <= j < i ==> scopes[j].0 != key
}

/// The position of the first entry of `scopes` for `key`, if any.
pub open spec fn scope_index(scopes: Seq<(SymId, ScopeInfo)>, key: SymId) -> Option<int> {
    if exists|i: int| first_scope(scopes, key, i) {
        Some(choose|i: int| first_scope(scopes, key, i))
    } else {
        None
    }
}

/// `scope_pos` finds what `scope_index` names.
pub proof fn lemma_scope_index(scopes: Seq<(SymId, ScopeInfo)>, key: SymId, r: Option<usize>)
    requires
        r matches Some(i) ==> first_scope(scopes, key, i as int),
        r is None ==> forall|j: int| 0 <= j < scopes.len() ==> scopes[j].0 != key,
    ensures
        match r {
            Some(i) => scope_index(scopes, key) == Some(i as int),
            None => scope_index(scopes, key) is None,
        },
{
    if let Some(i) = r {
        let c = choose|c: int| first_scope(scopes, key, c);
        assert(first_scope(scopes, key, c));
        if c < i {
            assert(scopes[c].0 != key);
        }
        if c > i {
            assert(scopes[i as int].0 != key);
        }
    }
}

/// Scopes with the same keys at the same places find a key at the same
/// place.
proof fn lemma_scope_index_same(a: Seq<(SymId, ScopeInfo)>, b: Seq<(SymId, ScopeInfo)>, k: SymId)
    requires
        a.len() == b.len(),
        forall|q: int| 0 <= q < a.len() ==> #[trigger] b[q].0 == a[q].0,
    ensures
        scope_index(b, k) == scope_index(a, k),
        scope_index(a, k) matches Some(q) ==> 0 <= q < a.len() && a[q].0 == k,
{
    if exists|i: int| first_scope(a, k, i) {
        let ca = choose|i: int| first_scope(a, k, i);
        assert(first_scope(b, k, ca));
        let cb = choose|i: int| first_scope(b, k, i);
        assert forall|j: int| 0 <= j < cb implies a[j].0 != k by {
            assert(b[j].0 == a[j].0);
        }
        assert(first_scope(a, k, cb));
        if ca < cb {
            assert(b[ca].0 != k);
        }
        if cb < ca {
            assert(a[cb].0 != k);
        }
    } else {
        if exists|i: int| first_scope(b, k, i) {
            let cb = choose|i: int| first_scope(b, k, i);
            assert forall|j: int| 0 <= j < cb implies a[j].0 != k by {
                assert(b[j].0 == a[j].0);
            }
            assert(first_scope(a, k, cb));
        }
    }
}

/// Binding into scope `p`, where the stack already finds `name`, leaves
/// the stack finding it there.
proof fn lemma_declaring_kept(a: AnalysisSession, b: AnalysisSession, name: SymId, p: int, i: int)
    requires
        0 <= i <= a.scope_stack@.len(),
        b.scope_stack == a.scope_stack,
        a.declaring_scope(name, i) == Some(p),
        0 <= p < a.scopes@.len(),
        b.scopes@.len() == a.scopes@.len(),
        forall|q: int| 0 <= q < a.scopes@.len() ==> #[trigger] b.scopes@[q].0 == a.scopes@[q].0,
        forall|q: int| 0 <= q < a.scopes@.len() && q != p ==> #[trigger] b.scopes@[q] == a.scopes@[q],
        b.scopes@[p].1.def_index(name) is Some,
    ensures
        b.declaring_scope(name, i) == Some(p),
    decreases i,
{
    let k = a.scope_stack@[i - 1];
    lemma_scope_index_same(a.scopes@, b.scopes@, k);
    let q = scope_index(a.scopes@, k);
    if q is Some && a.scopes@[q.unwrap()].1.def_index(name) is Some {
        assert(q == Some(p));
    } else {
        lemma_declaring_kept(a, b, name, p, i - 1);
        if let Some(q0) = q {
            if q0 != p {
                assert(b.scopes@[q0] == a.scopes@[q0]);
            }
        }
    }
}

/// After `name` is bound to `v` in a session that is in a scope, looking
/// `name` up finds `v`: a later read of the name sees the value bound.
pub proof fn lemma_bound_value_visible(a: AnalysisSession, b: AnalysisSession, name: Seq<char>, v: NodeId)
    requires
        b.graph.interner.wf(),
        a.value_set_as(&b, name, Some(v)),
        b.scope_stack == a.scope_stack,
        b.in_scope(),
    ensures
        b.name_values(name).contains(v),
{
    let s = choose|s: SymId|
        {
            &&& b.graph.interner.has_id(s)
            &&& b.graph.interner.str_of(s) == name
            &&& match a.binding_pos(s) {
                Some(p) => {
                    &&& b.scopes@.len() == a.scopes@.len()
                    &&& b.scopes@[p].0 == a.scopes@[p].0
                    &&& a.scopes@[p].1.binds_after(b.scopes@[p].1, s, set![v])
                    &&& forall|q: int| 0 <= q < a.scopes@.len() && q != p ==> #[trigger] b.scopes@[q] == a.scopes@[q]
                },
                None => b.scopes == a.scopes,
            }
        };
    crate::analyzer::postprocess::lemma_first_sym_kept(&b.graph.interner, &b.graph.interner, s);
    let len = a.scope_stack@.len() as int;
    let top = a.scope_stack@.last();
    match a.binding_pos(s) {
        Some(p) => {
            assert forall|q: int| 0 <= q < a.scopes@.len() implies #[trigger] b.scopes@[q].0 == a.scopes@[q].0 by {
                if q != p {
                    assert(b.scopes@[q] == a.scopes@[q]);
                }
            }
            lemma_scope_index_same(a.scopes@, b.scopes@, top);
            let bp = b.scopes@[p].1;
            let pp = choose|pp: int| {
                &&& bp.first_def(s, pp)
                &&& pp < a.scopes@[p].1.defs@.len() ==> a.scopes@[p].1.defs@[pp].0 == s
                &&& bp.defs@[pp].1@.to_set() == (if pp < a.scopes@[p].1.defs@.len() {
                    a.scopes@[p].1.defs@[pp].1@.to_set()
                } else {
                    Set::empty()
                }) + set![v]
                &&& forall|j: int| 0 <= j < bp.defs@.len() && j != pp ==> bp.defs@[j] == a.scopes@[p].1.defs@[j]
                &&& bp.defs@.len() == if pp < a.scopes@[p].1.defs@.len() {
                    a.scopes@[p].1.defs@.len()
                } else {
                    a.scopes@[p].1.defs@.len() + 1
                }
            };
            lemma_def_index(bp, s, pp);
            assert(bp.defs@[pp].1@.to_set().contains(v));
            assert(bp.defs@[pp].1@.contains(v));
            match a.declaring_scope(s, len) {
                Some(p0) => {
                    assert(p0 == p);
                    lemma_declaring_p_valid(a, s, len);
                    lemma_declaring_kept(a, b, s, p, len);
                },
                None => {
                    assert(scope_index(a.scopes@, top) == Some(p));
                    lemma_scope_index_same(a.scopes@, b.scopes@, top);
                    assert(b.declaring_scope(s, len) == Some(p));
                },
            }
            assert(b.stack_values(s) == bp.defs@[pp].1@);
        },
        None => {
            assert(b.scopes == a.scopes);
        },
    }
}

/// A scope that the stack finds is a scope.
proof fn lemma_declaring_p_valid(a: AnalysisSession, name: SymId, i: int)
    requires
        0 <= i <= a.scope_stack@.len(),
    ensures
        a.declaring_scope(name, i) matches Some(p) ==> 0 <= p < a.scopes@.len(),
    decreases i,
{
    if i > 0 {
        let k = a.scope_stack@[i - 1];
        lemma_scope_index_same(a.scopes@, a.scopes@, k);
        lemma_declaring_p_valid(a, name, i - 1);
    }
}

/// `def_pos` finds what `def_index` names.
pub proof fn lemma_def_index(sc: ScopeInfo, name: SymId, i: int)
    requires
        sc.first_def(name, i),
    ensures
        sc.def_index(name) == Some(i),
{
    let c = choose|c: int| sc.first_def(name, c);
    assert(sc.first_def(name, c));
    if c < i {
        assert(sc.defs@[c].0 != name);
    }
    if c > i {
        assert(sc.defs@[i].0 != name);
    }
}

/// A declared name has a first def.
proof fn lemma_has_def_index(sc: ScopeInfo, name: SymId)
    requires
        exists|k: int| 0 <= k < sc.defs@.len() && sc.defs@[k].0 == name,
    ensures
        sc.def_index(name) is Some,
    decreases sc.defs@.len(),
{
    let k = choose|k: int| 0 <= k < sc.defs@.len() && sc.defs@[k].0 == name;
    lemma_first_key_exists(sc.defs@, name, k);
    let i = choose|i: int| 0 <= i <= k && sc.defs@[i].0 == name && forall|j: int| 0 <= j < i ==> sc.defs@[j].0 != name;
    assert(sc.first_def(name, i));
}

/// Some key equal to `name` at or before `k` is the first.
proof fn lemma_first_key_exists(defs: Seq<(SymId, crate::scope::ValueSet)>, name: SymId, k: int)
    requires
        0 <= k < defs.len(),
        defs[k].0 == name,
    ensures
        exists|i: int| 0 <= i <= k && defs[i].0 == name && forall|j: int| 0 <= j < i ==> defs[j].0 != name,
    decreases k,
{
    if exists|j: int| 0 <= j < k && defs[j].0 == name {
        let j = choose|j: int| 0 <= j < k && defs[j].0 == name;
        lemma_first_key_exists(defs, name, j);
    } else {
        assert(forall|j: int| 0 <= j < k ==> defs[j].0 != name);
    }
}

/// Scope lookups read only the scopes and the scope stack.
proof fn lemma_lookups_same(a: AnalysisSession, b: AnalysisSession, name: SymId, i: int)
    requires
        a.scopes == b.scopes,
        a.scope_stack == b.scope_stack,
    ensures
        a.declaring_scope(name, i) == b.declaring_scope(name, i),
        a.containers_scope(name, i) == b.containers_scope(name, i),
        a.binding_pos(name) == b.binding_pos(name),
{
    lemma_scans_same(a, b, name, i);
    lemma_scans_same(a, b, name, a.scope_stack@.len() as int);
}

/// The scans of the scope stack read only the scopes and the stack.
proof fn lemma_scans_same(a: AnalysisSession, b: AnalysisSession, name: SymId, i: int)
    requires
        a.scopes == b.scopes,
        a.scope_stack == b.scope_stack,
    ensures
        a.declaring_scope(name, i) == b.declaring_scope(name, i),
        a.containers_scope(name, i) == b.containers_scope(name, i),
    decreases i,
{
    if i > 0 {
        lemma_scans_same(a, b, name, i - 1);
    }
}

/// Entry `i` of `v` is the first with key `key`.
pub open spec fn first_key<T>(v: Seq<(NodeId, T)>, key: NodeId, i: int) -> bool {
    &&& 0 <= i < v.len()
    &&& v[i].0 == key
    &&& forall|j: int| 0 <= j < i ==> v[j].0 != key
}

/// The first of some values.
pub open spec fn first_of(v: Seq<usize>) -> Option<usize> {
    if v.len() > 0 {
        Some(v[0])
    } else {
        None
    }
}

/// The characters of an optional namespace.
pub open spec fn opt_chars(ns: Option<&[char]>) -> Option<Seq<char>> {
    match ns {
        Some(t) => Some(t@),
        None => None,
    }
}

/// With `nsym` and `nmsym` interning `ns` and `name`, the nodes spelled
/// `(ns, name)` before interning are those keyed `(nsym, nmsym)` after.
pub proof fn lemma_named_keyed(
    old_s: AnalysisSession,
    g1: CallGraph,
    ns: Option<Seq<char>>,
    name: Seq<char>,
    nsym: Option<SymId>,
    nmsym: SymId,
)
    requires
        old_s.wf(),
        g1.interner.wf(),
        old_s.graph.interner.extends(&g1.interner),
        g1.nodes_arena == old_s.graph.nodes_arena,
        g1.n() == old_s.graph.n(),
        g1.interner.has_id(nmsym),
        g1.interner.str_of(nmsym) == name,
        match ns {
            Some(t) => nsym matches Some(x) && g1.interner.has_id(x) && g1.interner.str_of(x) == t,
            None => nsym is None,
        },
    ensures
        forall|i: int| #[trigger] old_s.node_named(i, ns, name) <==> g1.keyed(i, nsym, nmsym),
{
    assert forall|i: int| #[trigger] old_s.node_named(i, ns, name) <==> g1.keyed(i, nsym, nmsym) by {
        if 0 <= i < old_s.graph.n() {
            let nd = old_s.graph.nodes_arena@[i];
            assert(nd.ids_in(&old_s.graph.interner));
            assert(g1.interner@[nd.name.0 as int] == old_s.graph.interner@[nd.name.0 as int]);
            if let Some(x) = nd.namespace {
                assert(g1.interner@[x.0 as int] == old_s.graph.interner@[x.0 as int]);
            }
            if old_s.node_named(i, ns, name) {
                assert(nd.name.0 == nmsym.0);
                assert(nd.name == nmsym);
                if let Some(x) = nd.namespace {
                    let y = nsym.unwrap();
                    assert(x.0 == y.0);
                    assert(x == y);
                }
            }
        }
    }
}

/// Some defined node `f` is named `name`, lies in the namespace that is the
/// full name of a node `p`, and `p` has a defines edge to `f`.
pub open spec fn defines_named(s: &AnalysisSession, name: Seq<char>) -> bool {
    exists|f: int, p: int|
        0 <= f < s.graph.n() && 0 <= p < s.graph.n() && #[trigger] s.graph.defined@[f] && s.graph.interner.str_of(
            s.graph.nodes_arena@[f].name,
        ) == name && (s.graph.nodes_arena@[f].namespace matches Some(x) && s.graph.interner.str_of(x)
            == s.graph.nodes_arena@[p].full_name(&s.graph.interner)) && #[trigger] s.graph.defines_edges@[p]@.contains(
            f as usize,
        )
}

/// A defined, defining node stays so while the session evolves without
/// undefining nodes or dropping defines edges.
pub proof fn lemma_defines_stable(a: AnalysisSession, b: AnalysisSession, name: Seq<char>)
    requires
        a.wf(),
        a.evolves_up(&b),
        defines_named(&a, name),
    ensures
        defines_named(&b, name),
{
    let (f, p) = choose|f: int, p: int|
        0 <= f < a.graph.n() && 0 <= p < a.graph.n() && #[trigger] a.graph.defined@[f] && a.graph.interner.str_of(
            a.graph.nodes_arena@[f].name,
        ) == name && (a.graph.nodes_arena@[f].namespace matches Some(x) && a.graph.interner.str_of(x)
            == a.graph.nodes_arena@[p].full_name(&a.graph.interner)) && #[trigger] a.graph.defines_edges@[p]@.contains(
            f as usize,
        );
    let nf = a.graph.nodes_arena@[f];
    let np = a.graph.nodes_arena@[p];
    assert(nf.ids_in(&a.graph.interner));
    assert(np.ids_in(&a.graph.interner));
    assert(b.graph.nodes_arena@[f].name == nf.name && b.graph.nodes_arena@[f].namespace == nf.namespace);
    assert(b.graph.nodes_arena@[p].name == np.name && b.graph.nodes_arena@[p].namespace == np.namespace);
    assert(b.graph.interner@[nf.name.0 as int] == a.graph.interner@[nf.name.0 as int]);
    assert(b.graph.interner@[np.name.0 as int] == a.graph.interner@[np.name.0 as int]);
    let x = nf.namespace.unwrap();
    assert(b.graph.interner@[x.0 as int] == a.graph.interner@[x.0 as int]);
    if let Some(y) = np.namespace {
        assert(b.graph.interner@[y.0 as int] == a.graph.interner@[y.0 as int]);
    }
    assert(b.graph.nodes_arena@[p].full_name(&b.graph.interner) == np.full_name(&a.graph.interner));
    assert(b.graph.defined@[f]);
    assert(b.graph.defines_edges@[p]@.contains(f as usize));
}

/// After `from_node` (whose full name is `ns`) got a defines edge to a node
/// spelled `(ns, name)` that is now defined, `name` is defined there.
pub proof fn lemma_defines_after(
    s0: AnalysisSession,
    s1: AnalysisSession,
    s2: AnalysisSession,
    from_node: int,
    to_node: int,
    ns: Seq<char>,
    name: Seq<char>,
)
    requires
        s0.wf(),
        0 <= from_node < s0.graph.n(),
        s0.graph.nodes_arena@[from_node].full_name(&s0.graph.interner) == ns,
        s0.evolves(&s1),
        s1.node_named(to_node, Some(ns), name),
        s1.evolves(&s2),
        s2.graph.nodes_arena == s1.graph.nodes_arena,
        s2.graph.interner == s1.graph.interner,
        s2.graph.defined@[to_node],
        s2.graph.defines_edges@[from_node]@.contains(to_node as usize),
    ensures
        defines_named(&s2, name),
{
    let np = s0.graph.nodes_arena@[from_node];
    assert(np.ids_in(&s0.graph.interner));
    assert(s1.graph.nodes_arena@[from_node].name == np.name && s1.graph.nodes_arena@[from_node].namespace == np.namespace);
    assert(s1.graph.interner@[np.name.0 as int] == s0.graph.interner@[np.name.0 as int]);
    if let Some(y) = np.namespace {
        assert(s1.graph.interner@[y.0 as int] == s0.graph.interner@[y.0 as int]);
    }
    assert(s2.graph.nodes_arena@[from_node].full_name(&s2.graph.interner) == ns);
    assert(s2.graph.defined@[to_node] && s2.graph.defines_edges@[from_node]@.contains(to_node as usize));
}

/// A node keeps its spelled name and namespace as the session evolves.
pub proof fn lemma_named_stable(a: AnalysisSession, b: AnalysisSession, i: int, ns: Option<Seq<char>>, name: Seq<char>)
    requires
        a.wf(),
        a.evolves(&b),
        a.node_named(i, ns, name),
    ensures
        b.node_named(i, ns, name),
{
    let nd = a.graph.nodes_arena@[i];
    assert(nd.ids_in(&a.graph.interner));
    assert(b.graph.nodes_arena@[i].name == nd.name);
    assert(b.graph.interner@[nd.name.0 as int] == a.graph.interner@[nd.name.0 as int]);
    if let Some(x) = nd.namespace {
        assert(b.graph.interner@[x.0 as int] == a.graph.interner@[x.0 as int]);
    }
}

/// The first entry for a key is the one `choose` picks.
pub proof fn lemma_first_key_unique<T>(v: Seq<(NodeId, T)>, key: NodeId, i: int)
    requires
        first_key(v, key, i),
    ensures
        (choose|p: int| first_key(v, key, p)) == i,
{
    let c = choose|p: int| first_key(v, key, p);
    assert(first_key(v, key, c));
    if c < i {
        assert(v[c].0 != key);
    }
    if c > i {
        assert(v[i].0 != key);
    }
}

impl AnalysisSession {
    /// Every field but the graph is as in `self`.
    pub open spec fn same_but_graph(&self, next: &Self) -> bool {
        &&& next.scopes == self.scopes
        &&& next.class_base_ast_info == self.class_base_ast_info
        &&& next.class_base_nodes == self.class_base_nodes
        &&& next.mro == self.mro
        &&& next.function_returns == self.function_returns
        &&& next.function_returns_changed == self.function_returns_changed
        &&& next.module_name == self.module_name
        &&& next.filename == self.filename
        &&& next.name_stack == self.name_stack
        &&& next.fqn_cache == self.fqn_cache
        &&& next.scope_stack == self.scope_stack
        &&& next.class_stack == self.class_stack
        &&& next.context_stack == self.context_stack
    }

    /// Node `i` has the name spelled `name` and the namespace spelled `ns`
    /// (no namespace for `None`).
    pub open spec fn node_named(&self, i: int, ns: Option<Seq<char>>, name: Seq<char>) -> bool {
        &&& 0 <= i < self.graph.n()
        &&& self.graph.interner.str_of(self.graph.nodes_arena@[i].name) == name
        &&& match ns {
            Some(t) => self.graph.nodes_arena@[i].namespace matches Some(x) && self.graph.interner.str_of(x) == t,
            None => self.graph.nodes_arena@[i].namespace is None,
        }
    }

    /// The values bound to `name` in the scope of namespace `ns` (none when
    /// there is no such scope or binding).
    pub open spec fn scope_values(&self, ns: SymId, name: SymId) -> Seq<usize> {
        match scope_index(self.scopes@, ns) {
            Some(p) => match self.scopes@[p].1.def_index(name) {
                Some(i) => self.scopes@[p].1.defs@[i].1@,
                None => Seq::empty(),
            },
            None => Seq::empty(),
        }
    }

    /// The values bound to the name spelled `name` in the scope of the
    /// namespace spelled `ns`, through the symbols that spell them.
    pub open spec fn text_values(&self, ns: Seq<char>, name: Seq<char>) -> Seq<usize> {
        match (self.graph.interner.first_sym(ns), self.graph.interner.first_sym(name)) {
            (Some(a), Some(b)) => self.scope_values(a, b),
            _ => Seq::empty(),
        }
    }

    /// The values of the name spelled `name` in the innermost scope of the
    /// stack that declares it.
    pub open spec fn name_values(&self, name: Seq<char>) -> Seq<usize> {
        match self.graph.interner.first_sym(name) {
            Some(s) => self.stack_values(s),
            None => Seq::empty(),
        }
    }

    /// The qualified name of node `id` (empty for an unknown id).
    pub open spec fn node_text(&self, id: NodeId) -> Seq<char> {
        if id < self.graph.n() {
            self.graph.nodes_arena@[id as int].full_name(&self.graph.interner)
        } else {
            Seq::empty()
        }
    }

    /// The container facts of `name` in the scope of namespace `ns`.
    pub open spec fn scope_containers(&self, ns: SymId, name: SymId) -> Seq<ContainerFact> {
        match scope_index(self.scopes@, ns) {
            Some(p) => match self.scopes@[p].1.containers_index(name) {
                Some(i) => self.scopes@[p].1.containers@[i].1@,
                None => Seq::empty(),
            },
            None => Seq::empty(),
        }
    }

    /// The recorded method resolution order of `cls` (empty when none).
    pub open spec fn mro_spec(&self, cls: NodeId) -> Seq<NodeId> {
        if exists|p: int| first_key(self.mro@, cls, p) {
            self.mro@[choose|p: int| first_key(self.mro@, cls, p)].1@
        } else {
            Seq::empty()
        }
    }

    /// What `super()` stands for: the class after the current class in its
    /// method resolution order.
    pub open spec fn super_class(&self) -> Option<NodeId> {
        if self.class_stack@.len() == 0 {
            None
        } else {
            let m = self.mro_spec(self.class_stack@.last());
            if m.len() > 1 {
                Some(m[1])
            } else {
                None
            }
        }
    }

    /// The innermost of the first `i` scopes of the scope stack that
    /// declares `name`, as a position in `scopes`.
    pub open spec fn declaring_scope(&self, name: SymId, i: int) -> Option<int>
        decreases i,
    {
        if i <= 0 || i > self.scope_stack@.len() {
            None
        } else {
            let p = scope_index(self.scopes@, self.scope_stack@[i - 1]);
            if p is Some && self.scopes@[p.unwrap()].1.def_index(name) is Some {
                p
            } else {
                self.declaring_scope(name, i - 1)
            }
        }
    }

    /// The values bound to `name` in the innermost scope of the stack that
    /// declares it (none when no scope does).
    pub open spec fn stack_values(&self, name: SymId) -> Seq<usize> {
        match self.declaring_scope(name, self.scope_stack@.len() as int) {
            Some(p) => self.scopes@[p].1.defs@[self.scopes@[p].1.def_index(name).unwrap()].1@,
            None => Seq::empty(),
        }
    }

    /// Where a binding of `name` goes: the innermost scope of the stack
    /// that declares it, else the current scope.
    pub open spec fn binding_pos(&self, name: SymId) -> Option<int> {
        match self.declaring_scope(name, self.scope_stack@.len() as int) {
            Some(p) => Some(p),
            None => if self.scope_stack@.len() > 0 {
                scope_index(self.scopes@, self.scope_stack@.last())
            } else {
                None
            },
        }
    }

    /// The innermost of the first `i` scopes of the stack with container
    /// facts for `name`, as a position in `scopes`.
    pub open spec fn containers_scope(&self, name: SymId, i: int) -> Option<int>
        decreases i,
    {
        if i <= 0 || i > self.scope_stack@.len() {
            None
        } else {
            let p = scope_index(self.scopes@, self.scope_stack@[i - 1]);
            if p is Some && self.scopes@[p.unwrap()].1.containers_index(name) is Some {
                p
            } else {
                self.containers_scope(name, i - 1)
            }
        }
    }

    /// The container facts of `name` in the innermost scope of the stack
    /// that has any (none when no scope does).
    /// The container facts of the name spelled `name` in the innermost scope
    /// of the stack that has some for it.
    pub open spec fn name_containers(&self, name: Seq<char>) -> Seq<ContainerFact> {
        match self.graph.interner.first_sym(name) {
            Some(s) => self.stack_containers(s),
            None => Seq::empty(),
        }
    }

    pub open spec fn stack_containers(&self, name: SymId) -> Seq<ContainerFact> {
        match self.containers_scope(name, self.scope_stack@.len() as int) {
            Some(p) => {
                let sc = self.scopes@[p].1;
                sc.containers@[sc.containers_index(name).unwrap()].1@
            },
            None => Seq::empty(),
        }
    }

    /// Get or create the node with this namespace and name (see
    /// `CallGraph::get_node_by_sym`). A new node is placed in the file of
    /// its namespace when that is an analyzed module, else in the current
    /// file.
    #[verifier::loop_isolation(false)]
    pub fn get_node(&mut self, namespace: Option<&[char]>, name: &[char], flavor: Flavor) -> (r: NodeId)
        requires
            old(self).wf(),
        ensures
            final(self).graph.diagnostics == old(self).graph.diagnostics,
            forall|i: int| 0 <= i < old(self).graph.n() ==> (#[trigger] final(self).graph.nodes_arena@[i]).filename
                == old(self).graph.nodes_arena@[i].filename && final(self).graph.nodes_arena@[i].line == old(self).graph.nodes_arena@[i].line,
            old(self).evolves_up(final(self)),
            r < final(self).graph.n(),
            final(self).graph.interner.has_id(final(self).graph.nodes_arena@[r as int].name),
            final(self).graph.interner.str_of(final(self).graph.nodes_arena@[r as int].name) == name@,
            match namespace {
                Some(ns) => final(self).graph.nodes_arena@[r as int].namespace matches Some(s)
                    && final(self).graph.interner.has_id(s) && final(self).graph.interner.str_of(s) == ns@,
                None => final(self).graph.nodes_arena@[r as int].namespace is None,
            },
            old(self).graph.keeps_old_nodes(&final(self).graph, r),
            forall|i: int| 0 <= i < old(self).graph.n() ==> (#[trigger] final(self).graph.nodes_arena@[i]).namespace
                == old(self).graph.nodes_arena@[i].namespace && final(self).graph.nodes_arena@[i].name
                == old(self).graph.nodes_arena@[i].name,
            old(self).graph.interner.extends(&final(self).graph.interner),
            (exists|i: int| #[trigger] old(self).node_named(i, opt_chars(namespace), name@)) ==> {
                &&& old(self).node_named(r as int, opt_chars(namespace), name@)
                &&& forall|j: int| 0 <= j < r ==> !#[trigger] old(self).node_named(j, opt_chars(namespace), name@)
                &&& final(self).graph.n() == old(self).graph.n()
                &&& final(self).graph.nodes_arena@[r as int].flavor == upgraded_flavor(old(self).graph.nodes_arena@[r as int].flavor, flavor)
            },
            !(exists|i: int| #[trigger] old(self).node_named(i, opt_chars(namespace), name@)) ==> {
                &&& r == old(self).graph.n()
                &&& final(self).graph.n() == old(self).graph.n() + 1
                &&& final(self).graph.nodes_arena@[r as int].flavor == flavor
            },
            forall|i: int| 0 <= i < old(self).graph.n() && i != r ==> #[trigger] final(self).graph.nodes_arena@[i] == old(self).graph.nodes_arena@[i],
            old(self).same_but_graph(final(self)),
            final(self).name_stack == old(self).name_stack,
            final(self).fqn_cache == old(self).fqn_cache,
            final(self).scope_stack == old(self).scope_stack,
    {
        let ns_sym: Option<SymId> = match namespace {
            Some(ns) => Some(self.sym_chars(ns)),
            None => None,
        };
        let ghost i1 = self.graph.interner;
        let name_sym = self.sym_chars(name);
        proof {
            if let Some(ns) = ns_sym {
                assert(self.graph.interner@[ns.0 as int] == i1@[ns.0 as int]);
            }
            lemma_named_keyed(*old(self), self.graph, opt_chars(namespace), name@, ns_sym, name_sym);
            if !(exists|i: int| #[trigger] old(self).node_named(i, opt_chars(namespace), name@)) {
                assert forall|i: int| !#[trigger] self.graph.keyed(i, ns_sym, name_sym) by {
                    assert(!old(self).node_named(i, opt_chars(namespace), name@));
                }
            }
        }
        self.get_node_by_sym(ns_sym, name_sym, flavor)
    }

    /// Get or create the node with these interned namespace and name.
    #[verifier::loop_isolation(false)]
    pub fn get_node_by_sym(&mut self, namespace: Option<SymId>, name: SymId, flavor: Flavor) -> (r: NodeId)
        requires
            old(self).wf(),
            old(self).graph.interner.has_id(name),
            namespace matches Some(ns) ==> old(self).graph.interner.has_id(ns),
        ensures
            final(self).graph.diagnostics == old(self).graph.diagnostics,
            forall|i: int| 0 <= i < old(self).graph.n() ==> (#[trigger] final(self).graph.nodes_arena@[i]).filename
                == old(self).graph.nodes_arena@[i].filename && final(self).graph.nodes_arena@[i].line == old(self).graph.nodes_arena@[i].line,
            old(self).evolves_up(final(self)),
            r < final(self).graph.n(),
            final(self).graph.nodes_arena@[r as int].namespace == namespace,
            final(self).graph.nodes_arena@[r as int].name == name,
            final(self).graph.interner == old(self).graph.interner,
            forall|i: int| 0 <= i < old(self).graph.n() ==> (#[trigger] final(self).graph.nodes_arena@[i]).namespace
                == old(self).graph.nodes_arena@[i].namespace && final(self).graph.nodes_arena@[i].name
                == old(self).graph.nodes_arena@[i].name,
            old(self).graph.keeps_old_nodes(&final(self).graph, r),
            (exists|i: int| #[trigger] old(self).graph.keyed(i, namespace, name)) ==> {
                &&& old(self).graph.keyed(r as int, namespace, name)
                &&& forall|j: int| 0 <= j < r ==> !#[trigger] old(self).graph.keyed(j, namespace, name)
                &&& final(self).graph.n() == old(self).graph.n()
                &&& final(self).graph.nodes_arena@[r as int].flavor == upgraded_flavor(old(self).graph.nodes_arena@[r as int].flavor, flavor)
            },
            !(exists|i: int| #[trigger] old(self).graph.keyed(i, namespace, name)) ==> {
                &&& r == old(self).graph.n()
                &&& final(self).graph.n() == old(self).graph.n() + 1
                &&& final(self).graph.nodes_arena@[r as int].flavor == flavor
            },
            forall|i: int| 0 <= i < old(self).graph.n() && i != r ==> #[trigger] final(self).graph.nodes_arena@[i] == old(self).graph.nodes_arena@[i],
            old(self).same_but_graph(final(self)),
            final(self).name_stack == old(self).name_stack,
            final(self).fqn_cache == old(self).fqn_cache,
            final(self).scope_stack == old(self).scope_stack,
    {
        let file_sym = match namespace {
            Some(ns) => match self.module_file(ns) {
                Some(f) => f,
                None => self.filename,
            },
            None => self.filename,
        };
        let filename = self.graph.interner.resolve(file_sym).to_owned();
        self.graph.get_node_by_sym(namespace, name, flavor, Some(filename))
    }

    /// Push a name onto the name stack and extend the qualified-name cache.
    #[verifier::loop_isolation(false)]
    pub fn push_name(&mut self, name: SymId)
        requires
            old(self).wf(),
            old(self).graph.interner.has_id(name),
        ensures
            old(self).evolves_up(final(self)),
            final(self).graph.n() == old(self).graph.n(),
            final(self).name_stack@ == old(self).name_stack@.push(name),
            final(self).scope_stack == old(self).scope_stack,
            final(self).fqn_cache@.len() == old(self).fqn_cache@.len() + 1,
    {
        let fqn = if self.fqn_cache.len() == 0 {
            name
        } else {
            let prev = self.fqn_cache[self.fqn_cache.len() - 1];
            let joined = dot_join(self.text(prev).as_slice(), self.text(name).as_slice());
            self.sym_chars(joined.as_slice())
        };
        self.name_stack.push(name);
        self.fqn_cache.push(fqn);
    }

    /// Pop a name from the name stack and the qualified-name cache.
    #[verifier::loop_isolation(false)]
    pub fn pop_name(&mut self)
        requires
            old(self).wf(),
        ensures
            old(self).evolves_up(final(self)),
            final(self).graph == old(self).graph,
            final(self).scope_stack == old(self).scope_stack,
            old(self).name_stack@.len() > 0 ==> final(self).name_stack@ == old(self).name_stack@.drop_last()
                && final(self).fqn_cache@ == old(self).fqn_cache@.drop_last(),
            old(self).name_stack@.len() == 0 ==> final(self).name_stack == old(self).name_stack && final(self).fqn_cache
                == old(self).fqn_cache,
    {
        if self.name_stack.len() > 0 && self.fqn_cache.len() > 0 {
            self.name_stack.pop();
            self.fqn_cache.pop();
        }
    }

    /// The qualified name of the current namespace, if any.
    #[verifier::loop_isolation(false)]
    pub fn current_fqn(&self) -> (r: Option<SymId>)
        requires
            self.wf(),
        ensures
            r matches Some(s) ==> self.graph.interner.has_id(s),
            self.fqn_cache@.len() == 0 ==> r is None,
            self.fqn_cache@.len() > 0 ==> r == Some(self.fqn_cache@.last()),
    {
        if self.fqn_cache.len() == 0 {
            None
        } else {
            Some(self.fqn_cache[self.fqn_cache.len() - 1])
        }
    }

    /// The node of the current namespace: the innermost pushed name inside
    /// its enclosing qualified name. Outside any namespace, the node of the
    /// empty name.
    #[verifier::loop_isolation(false)]
    pub fn get_node_of_current_namespace(&mut self) -> (r: NodeId)
        requires
            old(self).wf(),
        ensures
            old(self).evolves_up(final(self)),
            old(self).graph.interner.extends(&final(self).graph.interner),
            forall|i: int| 0 <= i < old(self).graph.n() ==> (#[trigger] final(self).graph.nodes_arena@[i]).namespace
                == old(self).graph.nodes_arena@[i].namespace && final(self).graph.nodes_arena@[i].name
                == old(self).graph.nodes_arena@[i].name,
            r < final(self).graph.n(),
            final(self).name_stack == old(self).name_stack,
            final(self).fqn_cache == old(self).fqn_cache,
            final(self).scope_stack == old(self).scope_stack,
    {
        let len = self.fqn_cache.len();
        if len == 0 || self.name_stack.len() == 0 {
            let e = self.sym("");
            return self.get_node_by_sym(Some(e), e, Flavor::Namespace);
        }
        let ns_sym = if len > 1 {
            self.fqn_cache[len - 2]
        } else {
            self.sym("")
        };
        let name_sym = self.name_stack[self.name_stack.len() - 1];
        self.get_node_by_sym(Some(ns_sym), name_sym, Flavor::Namespace)
    }

    /// The node of the namespace that contains node `id`.
    #[verifier::loop_isolation(false)]
    /// `(a, b)` is the namespace and name of the parent of node `id`: its
    /// namespace split at the last `.` (the empty namespace and the whole
    /// namespace when there is no `.`); both empty for a node without a
    /// namespace or an unknown id.
    pub open spec fn parent_key(&self, id: NodeId, a: Seq<char>, b: Seq<char>) -> bool {
        if id < self.graph.n() && self.graph.nodes_arena@[id as int].namespace is Some {
            let t = self.graph.interner.str_of(self.graph.nodes_arena@[id as int].namespace.unwrap());
            if t.contains('.') {
                t == crate::text::dotted(a, b) && !b.contains('.')
            } else {
                a.len() == 0 && b == t
            }
        } else {
            a.len() == 0 && b.len() == 0
        }
    }

    /// Node `p` is the first node spelled `(ns, name)`.
    pub open spec fn first_named(&self, p: int, ns: Option<Seq<char>>, name: Seq<char>) -> bool {
        &&& self.node_named(p, ns, name)
        &&& forall|j: int| 0 <= j < p ==> !#[trigger] self.node_named(j, ns, name)
    }

    /// Node `p` is the parent node of node `id` (see `parent_key`).
    pub open spec fn is_parent(&self, before: &Self, id: NodeId, p: int) -> bool {
        exists|a: Seq<char>, b: Seq<char>| before.parent_key(id, a, b) && #[trigger] self.node_named(p, Some(a), b)
    }

    pub fn get_parent_node(&mut self, id: NodeId) -> (r: NodeId)
        requires
            old(self).wf(),
        ensures
            old(self).evolves_up(final(self)),
            final(self).is_parent(&*old(self), id, r as int),
            exists|pa: Seq<char>, pb: Seq<char>| #[trigger] old(self).parent_key(id, pa, pb) && if exists|i: int|
                old(self).node_named(i, Some(pa), pb) {
                old(self).first_named(r as int, Some(pa), pb)
            } else {
                r == old(self).graph.n()
            },
            r < final(self).graph.n(),
            old(self).graph.keeps_old_nodes(&final(self).graph, r),
            forall|i: int| 0 <= i < old(self).graph.n() ==> (#[trigger] final(self).graph.nodes_arena@[i]).namespace
                == old(self).graph.nodes_arena@[i].namespace && final(self).graph.nodes_arena@[i].name
                == old(self).graph.nodes_arena@[i].name,
            old(self).graph.interner.extends(&final(self).graph.interner),
            final(self).name_stack == old(self).name_stack,
            final(self).fqn_cache == old(self).fqn_cache,
            final(self).scope_stack == old(self).scope_stack,
    {
        let (ns, name): (Vec<char>, Vec<char>) = if id < self.graph.nodes_arena.len() {
            match self.graph.nodes_arena[id].namespace {
                Some(ns_sym) => {
                    proof {
                        assert(self.graph.nodes_arena@[id as int].ids_in(&self.graph.interner));
                    }
                    let ns_str = self.text(ns_sym);
                    match rsplit_dot(ns_str.as_slice()) {
                        Some((a, b)) => {
                            proof {
                                assert(crate::text::dotted(a@, b@)[a@.len() as int] == '.');
                            }
                            (a, b)
                        },
                        None => {
                            let e: Vec<char> = Vec::new();
                            proof {
                                assert(e@.len() == 0);
                            }
                            (e, ns_str)
                        },
                    }
                },
                None => (Vec::new(), Vec::new()),
            }
        } else {
            (Vec::new(), Vec::new())
        };
        proof {
            assert(old(self).parent_key(id, ns@, name@));
        }
        let nss = ns.as_slice();
        let r = self.get_node(Some(nss), name.as_slice(), Flavor::Namespace);
        proof {
            assert(opt_chars(Some(nss)) == Some(ns@));
            if exists|i: int| #[trigger] old(self).node_named(i, opt_chars(Some(nss)), name@) {
                lemma_named_stable(*old(self), *self, r as int, Some(ns@), name@);
            }
            assert(self.node_named(r as int, Some(ns@), name@));
            assert(old(self).parent_key(id, ns@, name@));
        }
        r
    }

    /// Record where node `id` is defined.
    #[verifier::loop_isolation(false)]
    pub fn associate_node(&mut self, id: NodeId, filename: SymId, line: usize)
        requires
            old(self).wf(),
        ensures
            old(self).evolves_up(final(self)),
            final(self).graph.n() == old(self).graph.n(),
            final(self).graph.interner == old(self).graph.interner,
            final(self).graph.uses_edges == old(self).graph.uses_edges,
            final(self).graph.defines_edges == old(self).graph.defines_edges,
            final(self).graph.defined == old(self).graph.defined,
            forall|i: int| 0 <= i < old(self).graph.n() && i != id ==> #[trigger] final(self).graph.nodes_arena@[i] == old(self).graph.nodes_arena@[i],
            id < old(self).graph.n() && old(self).graph.interner.has_id(filename) ==> {
                let nd = final(self).graph.nodes_arena@[id as int];
                let od = old(self).graph.nodes_arena@[id as int];
                &&& nd.namespace == od.namespace && nd.name == od.name && nd.flavor == od.flavor
                &&& nd.filename matches Some(f) && f@ == old(self).graph.interner.str_of(filename)
                &&& nd.line == Some(line)
            },
            !(id < old(self).graph.n() && old(self).graph.interner.has_id(filename)) ==> final(self).graph.nodes_arena
                == old(self).graph.nodes_arena,
            final(self).name_stack == old(self).name_stack,
            final(self).fqn_cache == old(self).fqn_cache,
            final(self).scope_stack == old(self).scope_stack,
    {
        if id < self.graph.nodes_arena.len() && filename.0 < self.graph.interner.len() {
            let f = self.graph.interner.resolve(filename).to_owned();
            self.graph.nodes_arena[id].filename = Some(f);
            self.graph.nodes_arena[id].line = Some(line);
            proof {
                assert forall|i: int| 0 <= i < self.graph.n() implies #[trigger] self.graph.nodes_arena@[i].ids_in(
                    &self.graph.interner,
                ) by {
                    assert(old(self).graph.nodes_arena@[i].ids_in(&old(self).graph.interner));
                }
            }
        }
    }

    /// Record that function `fn_node` may return `ret_id`; returns whether
    /// that is new, and marks the session changed when it is.
    #[verifier::loop_isolation(false)]
    pub fn record_function_return(&mut self, fn_node: NodeId, ret_id: NodeId) -> (r: bool)
        requires
            old(self).wf(),
        ensures
            old(self).evolves_up(final(self)),
            final(self).graph == old(self).graph,
            final(self).name_stack == old(self).name_stack,
            final(self).fqn_cache == old(self).fqn_cache,
            final(self).scope_stack == old(self).scope_stack,
            final(self).function_returns_changed == (old(self).function_returns_changed || r),
            forall|i: int|
                first_key(old(self).function_returns@, fn_node, i) ==> {
                    &&& r == !old(self).function_returns@[i].1@.contains(ret_id)
                    &&& final(self).function_returns@.len() == old(self).function_returns@.len()
                    &&& final(self).function_returns@[i].0 == fn_node
                    &&& final(self).function_returns@[i].1@ == if r {
                        old(self).function_returns@[i].1@.push(ret_id)
                    } else {
                        old(self).function_returns@[i].1@
                    }
                    &&& forall|k: int| 0 <= k < old(self).function_returns@.len() && k != i ==> #[trigger] final(self).function_returns@[k]
                        == old(self).function_returns@[k]
                },
            (forall|i: int| 0 <= i < old(self).function_returns@.len() ==> old(self).function_returns@[i].0 != fn_node) ==> {
                &&& r
                &&& final(self).function_returns@.len() == old(self).function_returns@.len() + 1
                &&& final(self).function_returns@.last().0 == fn_node
                &&& final(self).function_returns@.last().1@ == seq![ret_id]
                &&& forall|k: int| 0 <= k < old(self).function_returns@.len() ==> #[trigger] final(self).function_returns@[k]
                    == old(self).function_returns@[k]
            },
    {
        let changed = match assoc_pos(&self.function_returns, fn_node) {
            Some(i) => {
                let ghost f0 = self.function_returns@;
                let c = self.function_returns[i].1.insert(ret_id);
                proof {
                    assert forall|k: int| 0 <= k < f0.len() && k != i implies #[trigger] self.function_returns@[k] == f0[k] by {}
                }
                c
            },
            None => {
                self.function_returns.push((fn_node, ValueSet::singleton(ret_id)));
                true
            },
        };
        self.function_returns_changed = self.function_returns_changed || changed;
        changed
    }

    /// The return values recorded for `fn_node`.
    #[verifier::loop_isolation(false)]
    pub fn returns_of(&self, fn_node: NodeId) -> (r: ValueSet)
        ensures
            forall|i: int| first_key(self.function_returns@, fn_node, i) ==> r@ == self.function_returns@[i].1@,
            (forall|i: int| 0 <= i < self.function_returns@.len() ==> self.function_returns@[i].0 != fn_node) ==> r@.len() == 0,
    {
        match assoc_pos(&self.function_returns, fn_node) {
            Some(i) => self.function_returns[i].1.duplicate(),
            None => ValueSet::empty(),
        }
    }

    /// Add a defines edge (ignored when an id is unknown).
    #[verifier::loop_isolation(false)]
    pub fn add_defines_edge(&mut self, from_id: NodeId, to_id: Option<NodeId>) -> (r: bool)
        requires
            old(self).wf(),
        ensures
            old(self).evolves_up(final(self)),
            final(self).graph.nodes_arena == old(self).graph.nodes_arena,
            final(self).graph.uses_edges == old(self).graph.uses_edges,
            final(self).graph.interner == old(self).graph.interner,
            ({
                let n = old(self).graph.n();
                let ok = from_id < n && (to_id matches Some(t) ==> t < n);
                &&& !ok ==> !r && final(self).graph == old(self).graph
                &&& ok ==> final(self).graph.defined@[from_id as int]
                &&& ok ==> forall|x: usize| #[trigger] final(self).graph.defines_edges@[from_id as int]@.contains(x) <==> (
                    old(self).graph.defines_edges@[from_id as int]@.contains(x) || to_id == Some(x))
                &&& ok ==> (to_id matches Some(t) ==> final(self).graph.defined@[t as int] && r
                    == !old(self).graph.defines_edges@[from_id as int]@.contains(t))
                &&& ok && to_id is None ==> !r
                &&& ok ==> forall|i: int| 0 <= i < n && i != from_id ==> #[trigger] final(self).graph.defines_edges@[i] == old(self).graph.defines_edges@[i]
            }),
            final(self).graph.n() == old(self).graph.n(),
            old(self).same_but_graph(final(self)),
            final(self).name_stack == old(self).name_stack,
            final(self).fqn_cache == old(self).fqn_cache,
            final(self).scope_stack == old(self).scope_stack,
    {
        let n = self.graph.nodes_arena.len();
        let ok = from_id < n && match to_id {
            Some(t) => t < n,
            None => true,
        };
        if ok {
            self.graph.add_defines_edge(from_id, to_id)
        } else {
            false
        }
    }

    /// Add a uses edge (ignored when an id is unknown).
    #[verifier::loop_isolation(false)]
    pub fn add_uses_edge(&mut self, from_id: NodeId, to_id: NodeId) -> (r: bool)
        requires
            old(self).wf(),
        ensures
            final(self).graph.diagnostics == old(self).graph.diagnostics,
            old(self).evolves_up(final(self)),
            final(self).graph.nodes_arena == old(self).graph.nodes_arena,
            final(self).graph.defines_edges == old(self).graph.defines_edges,
            final(self).graph.defined == old(self).graph.defined,
            final(self).graph.interner == old(self).graph.interner,
            from_id < old(self).graph.n() && to_id < old(self).graph.n() ==> final(self).graph.uses_edges@[from_id as int]@.contains(to_id)
                && r == !old(self).graph.uses_edges@[from_id as int]@.contains(to_id),
            !(from_id < old(self).graph.n() && to_id < old(self).graph.n()) ==> !r && final(self).graph == old(self).graph,
            forall|i: int| 0 <= i < final(self).graph.n() && i != from_id ==> #[trigger] final(self).graph.uses_edges@[i] == old(self).graph.uses_edges@[i],
            from_id < old(self).graph.n() ==> forall|x: usize| #[trigger] final(self).graph.uses_edges@[from_id as int]@.contains(x) ==> (
                old(self).graph.uses_edges@[from_id as int]@.contains(x) || x == to_id),
            r ==> forall|x: usize| #[trigger] final(self).graph.uses_edges@[from_id as int]@.contains(x) <==> (x == to_id || (
                old(self).graph.uses_edges@[from_id as int]@.contains(x) && !old(self).graph.drops_on_add(from_id, to_id, x))),
            !r ==> final(self).graph.uses_edges == old(self).graph.uses_edges,
            old(self).same_but_graph(final(self)),
            final(self).graph.n() == old(self).graph.n(),
            final(self).name_stack == old(self).name_stack,
            final(self).fqn_cache == old(self).fqn_cache,
            final(self).scope_stack == old(self).scope_stack,
    {
        let n = self.graph.nodes_arena.len();
        if from_id < n && to_id < n {
            self.graph.add_uses_edge(from_id, to_id)
        } else {
            false
        }
    }

    /// Remove a uses edge (ignored when an id is unknown).
    #[verifier::loop_isolation(false)]
    pub fn remove_uses_edge(&mut self, from_id: NodeId, to_id: NodeId)
        requires
            old(self).wf(),
        ensures
            final(self).graph.diagnostics == old(self).graph.diagnostics,
            old(self).evolves_up(final(self)),
            final(self).graph.nodes_arena == old(self).graph.nodes_arena,
            final(self).graph.defines_edges == old(self).graph.defines_edges,
            final(self).graph.defined == old(self).graph.defined,
            from_id >= old(self).graph.n() ==> final(self).graph == old(self).graph,
            from_id < old(self).graph.n() ==> forall|x: usize| #[trigger] final(self).graph.uses_edges@[from_id as int]@.contains(x) <==> (
                old(self).graph.uses_edges@[from_id as int]@.contains(x) && x != to_id),
            forall|i: int| 0 <= i < old(self).graph.n() && i != from_id ==> #[trigger] final(self).graph.uses_edges@[i] == old(self).graph.uses_edges@[i],
            final(self).graph.n() == old(self).graph.n(),
            final(self).name_stack == old(self).name_stack,
            final(self).fqn_cache == old(self).fqn_cache,
            final(self).scope_stack == old(self).scope_stack,
    {
        if from_id < self.graph.nodes_arena.len() {
            self.graph.remove_uses_edge(from_id, to_id);
        }
    }

    /// Drop a wildcard uses edge resolved by `to_id` (see `CallGraph::remove_wild`).
    #[verifier::loop_isolation(false)]
    pub fn remove_wild(&mut self, from_id: NodeId, to_id: NodeId, name: SymId)
        requires
            old(self).wf(),
        ensures
            old(self).evolves_up(final(self)),
            final(self).graph.nodes_arena == old(self).graph.nodes_arena,
            final(self).graph.defines_edges == old(self).graph.defines_edges,
            final(self).graph.defined == old(self).graph.defined,
            !(from_id < old(self).graph.n() && to_id < old(self).graph.n() && old(self).graph.interner.has_id(name)
                && old(self).graph.drops_wild(from_id, to_id, name)) ==> final(self).graph.uses_edges
                == old(self).graph.uses_edges,
            forall|i: int| 0 <= i < old(self).graph.n() && i != from_id ==> #[trigger] final(self).graph.uses_edges@[i] == old(self).graph.uses_edges@[i],
            from_id < old(self).graph.n() && to_id < old(self).graph.n() && old(self).graph.interner.has_id(name) ==> {
                let u = old(self).graph.uses_edges@[from_id as int]@;
                &&& forall|x: usize| #[trigger] final(self).graph.uses_edges@[from_id as int]@.contains(x) ==> u.contains(x)
                &&& forall|x: usize| #[trigger] u.contains(x) && !old(self).graph.is_wild(x, name) ==> final(self).graph.uses_edges@[from_id as int]@.contains(x)
                &&& old(self).graph.drops_wild(from_id, to_id, name) ==> forall|k: int|
                    0 <= k < u.len() && old(self).graph.is_wild(#[trigger] u[k], name) && (forall|j: int|
                        0 <= j < k ==> !old(self).graph.is_wild(u[j], name)) ==> !final(self).graph.uses_edges@[from_id as int]@.contains(u[k])
            },
            final(self).graph.n() == old(self).graph.n(),
            final(self).name_stack == old(self).name_stack,
            final(self).fqn_cache == old(self).fqn_cache,
            final(self).scope_stack == old(self).scope_stack,
    {
        let n = self.graph.nodes_arena.len();
        if from_id < n && to_id < n && name.0 < self.graph.interner.len() {
            self.graph.remove_wild(from_id, to_id, name);
        }
    }

    /// The values bound to `name` in the innermost scope of the scope stack
    /// that declares it.
    #[verifier::loop_isolation(false)]
    pub fn get_values(&self, name: &[char]) -> (r: ValueSet)
        ensures
            !self.graph.interner@.contains(name@) ==> r@.len() == 0,
            self.graph.interner@.contains(name@) ==> exists|s: SymId|
                self.graph.interner.has_id(s) && self.graph.interner.str_of(s) == name@ && r@ == self.stack_values(s),
            r@ == self.name_values(name@),
    {
        let name_str = chars_to_string(name);
        let name_sym = match self.graph.interner.lookup(name_str.as_str()) {
            Some(s) => s,
            None => return ValueSet::empty(),
        };
        let ghost len = self.scope_stack@.len() as int;
        let mut i = self.scope_stack.len();
        while i > 0
            invariant
                i <= self.scope_stack@.len(),
                len == self.scope_stack@.len(),
                self.declaring_scope(name_sym, len) == self.declaring_scope(name_sym, i as int),
            decreases i,
        {
            let key = self.scope_stack[i - 1];
            let pos = scope_pos(&self.scopes, key);
            proof {
                lemma_scope_index(self.scopes@, key, pos);
            }
            if let Some(p) = pos {
                let d = self.scopes[p].1.get_def(name_sym);
                if let Some(vs) = d {
                    proof {
                        let sc = self.scopes@[p as int].1;
                        let k = choose|k: int| 0 <= k < sc.defs@.len() && sc.defs@[k].0 == name_sym && *vs == sc.defs@[k].1
                            && forall|j: int| 0 <= j < k ==> sc.defs@[j].0 != name_sym;
                        lemma_def_index(sc, name_sym, k);
                        assert(self.declaring_scope(name_sym, i as int) == Some(p as int));
                        assert(self.stack_values(name_sym) == vs@);
                    }
                    let r = vs.duplicate();
                    proof {
                        assert(name_str@ == name@);
                        assert(self.graph.interner.has_id(name_sym) && self.graph.interner.str_of(name_sym) == name@ && r@
                            == self.stack_values(name_sym));
                    }
                    return r;
                }
                proof {
                    let sc = self.scopes@[p as int].1;
                    if sc.def_index(name_sym) is Some {
                        let c = choose|c: int| sc.first_def(name_sym, c);
                        assert(sc.defs@[c].0 == name_sym);
                    }
                }
            }
            i = i - 1;
        }
        let r = ValueSet::empty();
        proof {
            assert(name_str@ == name@);
            assert(self.declaring_scope(name_sym, 0) is None);
            assert(r@ =~= self.stack_values(name_sym));
        }
        r
    }

    /// The first value bound to `name`, if any.
    #[verifier::loop_isolation(false)]
    pub fn get_value(&self, name: &[char]) -> (r: Option<NodeId>)
        ensures
            !self.graph.interner@.contains(name@) ==> r is None,
            self.graph.interner@.contains(name@) ==> exists|s: SymId|
                {
                    &&& self.graph.interner.has_id(s)
                    &&& self.graph.interner.str_of(s) == name@
                    &&& self.stack_values(s).len() == 0 ==> r is None
                    &&& self.stack_values(s).len() > 0 ==> r == Some(self.stack_values(s)[0])
                },
            r == first_of(self.name_values(name@)),
    {
        self.get_values(name).first()
    }

    /// The container facts bound to `name` in the innermost scope that has any.
    #[verifier::loop_isolation(false)]
    pub fn get_containers(&self, name: &[char]) -> (r: Vec<ContainerFact>)
        ensures
            !self.graph.interner@.contains(name@) ==> r@.len() == 0,
            self.graph.interner@.contains(name@) ==> exists|s: SymId|
                {
                    &&& self.graph.interner.has_id(s)
                    &&& self.graph.interner.str_of(s) == name@
                    &&& r@.len() == self.stack_containers(s).len()
                    &&& forall|j: int| 0 <= j < r@.len() ==> same_fact(#[trigger] self.stack_containers(s)[j], r@[j])
                },
            r@.len() == self.name_containers(name@).len(),
            forall|j: int| 0 <= j < r@.len() ==> same_fact(#[trigger] self.name_containers(name@)[j], r@[j]),
    {
        let name_str = chars_to_string(name);
        let name_sym = match self.graph.interner.lookup(name_str.as_str()) {
            Some(s) => s,
            None => return Vec::new(),
        };
        proof {
            assert(name_str@ == name@);
        }
        let ghost len = self.scope_stack@.len() as int;
        let mut i = self.scope_stack.len();
        while i > 0
            invariant
                i <= self.scope_stack@.len(),
                len == self.scope_stack@.len(),
                self.containers_scope(name_sym, len) == self.containers_scope(name_sym, i as int),
            decreases i,
        {
            let key = self.scope_stack[i - 1];
            let pos = scope_pos(&self.scopes, key);
            proof {
                lemma_scope_index(self.scopes@, key, pos);
            }
            if let Some(p) = pos {
                let g = self.scopes[p].1.get_containers(name_sym);
                if let Some(f) = g {
                    proof {
                        let sc = self.scopes@[p as int].1;
                        let k = choose|k: int| 0 <= k < sc.containers@.len() && sc.containers@[k].0 == name_sym && *f
                            == sc.containers@[k].1 && forall|j: int| 0 <= j < k ==> sc.containers@[j].0 != name_sym;
                        assert(sc.first_containers(name_sym, k));
                        let c = choose|c: int| sc.first_containers(name_sym, c);
                        if c < k {
                            assert(sc.containers@[c].0 != name_sym);
                        }
                        if c > k {
                            assert(sc.containers@[k].0 != name_sym);
                        }
                        assert(sc.containers_index(name_sym) == Some(k));
                        assert(self.containers_scope(name_sym, i as int) == Some(p as int));
                        assert(self.stack_containers(name_sym) == f@);
                    }
                    return clone_facts(f);
                }
                proof {
                    let sc = self.scopes@[p as int].1;
                    if sc.containers_index(name_sym) is Some {
                        let c = choose|c: int| sc.first_containers(name_sym, c);
                        assert(sc.containers@[c].0 == name_sym);
                    }
                }
            }
            i = i - 1;
        }
        proof {
            assert(self.containers_scope(name_sym, 0) is None);
        }
        Vec::new()
    }

    /// The innermost scope on the stack that declares `name_sym`, else the
    /// current scope; as a position in `scopes`.
    #[verifier::loop_isolation(false)]
    pub fn binding_scope(&self, name_sym: SymId) -> (r: Option<usize>)
        ensures
            r matches Some(p) ==> p < self.scopes@.len(),
            match r {
                Some(p) => self.binding_pos(name_sym) == Some(p as int),
                None => self.binding_pos(name_sym) is None,
            },
    {
        let ghost len = self.scope_stack@.len() as int;
        let mut i = self.scope_stack.len();
        while i > 0
            invariant
                i <= self.scope_stack@.len(),
                len == self.scope_stack@.len(),
                self.declaring_scope(name_sym, len) == self.declaring_scope(name_sym, i as int),
            decreases i,
        {
            let key = self.scope_stack[i - 1];
            let pos = scope_pos(&self.scopes, key);
            proof {
                lemma_scope_index(self.scopes@, key, pos);
            }
            if let Some(p) = pos {
                let h = self.scopes[p].1.has_def(name_sym);
                if h {
                    proof {
                        let sc = self.scopes@[p as int].1;
                        assert(exists|k: int| 0 <= k < sc.defs@.len() && sc.defs@[k].0 == name_sym);
                        lemma_has_def_index(sc, name_sym);
                        assert(self.declaring_scope(name_sym, i as int) == Some(p as int));
                    }
                    return Some(p);
                }
                proof {
                    let sc = self.scopes@[p as int].1;
                    if sc.def_index(name_sym) is Some {
                        let c = choose|c: int| sc.first_def(name_sym, c);
                        assert(sc.defs@[c].0 == name_sym);
                    }
                }
            }
            i = i - 1;
        }
        if self.scope_stack.len() > 0 {
            let key = self.scope_stack[self.scope_stack.len() - 1];
            let pos = scope_pos(&self.scopes, key);
            proof {
                lemma_scope_index(self.scopes@, key, pos);
            }
            pos
        } else {
            None
        }
    }

    /// Bind `name` to `value` in the innermost scope that declares it (or
    /// declare it in the current scope).
    #[verifier::loop_isolation(false)]
    pub fn set_value(&mut self, name: &[char], value: Option<NodeId>)
        requires
            old(self).wf(),
        ensures
            old(self).evolves_up(final(self)),
            final(self).graph.nodes_arena == old(self).graph.nodes_arena,
            final(self).graph.uses_edges == old(self).graph.uses_edges,
            final(self).graph.defines_edges == old(self).graph.defines_edges,
            exists|s: SymId|
                {
                    &&& final(self).graph.interner.has_id(s)
                    &&& final(self).graph.interner.str_of(s) == name@
                    &&& match old(self).binding_pos(s) {
                        Some(p) => {
                            &&& final(self).scopes@.len() == old(self).scopes@.len()
                            &&& final(self).scopes@[p].0 == old(self).scopes@[p].0
                            &&& old(self).scopes@[p].1.binds_after(
                                final(self).scopes@[p].1,
                                s,
                                match value {
                                    Some(id) => set![id],
                                    None => Set::empty(),
                                },
                            )
                            &&& forall|q: int| 0 <= q < old(self).scopes@.len() && q != p ==> #[trigger] final(self).scopes@[q] == old(self).scopes@[q]
                        },
                        None => final(self).scopes == old(self).scopes,
                    }
                },
            final(self).graph.n() == old(self).graph.n(),
            final(self).name_stack == old(self).name_stack,
            final(self).fqn_cache == old(self).fqn_cache,
            final(self).scope_stack == old(self).scope_stack,
    {
        let name_sym = self.sym_chars(name);
        let ghost mid = *self;
        let pos = self.binding_scope(name_sym);
        proof {
            lemma_lookups_same(mid, *old(self), name_sym, old(self).scope_stack@.len() as int);
        }
        if let Some(p) = pos {
            self.scopes[p].1.bind(name_sym, value);
            proof {
                assert forall|q: int| 0 <= q < old(self).scopes@.len() && q != p implies #[trigger] self.scopes@[q] == old(self).scopes@[q] by {
                    assert(self.scopes@[q] == mid.scopes@[q]);
                }
            }
        }
    }

    /// `next` is this session after `set_value(name, value)`: the innermost
    /// scope of the stack that declares `name` (if any) has `value` added to
    /// it, every other scope is unchanged.
    pub open spec fn value_set_as(&self, next: &Self, name: Seq<char>, value: Option<NodeId>) -> bool {
        exists|s: SymId|
            {
                &&& next.graph.interner.has_id(s)
                &&& next.graph.interner.str_of(s) == name
                &&& match self.binding_pos(s) {
                    Some(p) => {
                        &&& next.scopes@.len() == self.scopes@.len()
                        &&& next.scopes@[p].0 == self.scopes@[p].0
                        &&& self.scopes@[p].1.binds_after(
                            next.scopes@[p].1,
                            s,
                            match value {
                                Some(id) => set![id],
                                None => Set::empty(),
                            },
                        )
                        &&& forall|q: int| 0 <= q < self.scopes@.len() && q != p ==> #[trigger] next.scopes@[q] == self.scopes@[q]
                    },
                    None => next.scopes == self.scopes,
                }
            }
    }

    /// The current scope exists: the scope stack is not empty and its top
    /// names a scope.
    pub open spec fn in_scope(&self) -> bool {
        self.scope_stack@.len() > 0 && scope_index(self.scopes@, self.scope_stack@.last()) is Some
    }

    /// Add container facts to `name` in the innermost scope that declares it
    /// (or the current scope).
    #[verifier::loop_isolation(false)]
    pub fn set_containers(&mut self, name: &[char], facts: &Vec<ContainerFact>)
        requires
            old(self).wf(),
        ensures
            old(self).evolves_up(final(self)),
            final(self).graph.nodes_arena == old(self).graph.nodes_arena,
            final(self).graph.uses_edges == old(self).graph.uses_edges,
            final(self).graph.defines_edges == old(self).graph.defines_edges,
            facts@.len() == 0 ==> final(self).scopes == old(self).scopes,
            facts@.len() > 0 ==> exists|s: SymId|
                {
                    &&& final(self).graph.interner.has_id(s)
                    &&& final(self).graph.interner.str_of(s) == name@
                    &&& match old(self).binding_pos(s) {
                        Some(p) => {
                            &&& final(self).scopes@.len() == old(self).scopes@.len()
                            &&& final(self).scopes@[p].0 == old(self).scopes@[p].0
                            &&& old(self).scopes@[p].1.containers_added(final(self).scopes@[p].1, s, facts@)
                            &&& forall|q: int| 0 <= q < old(self).scopes@.len() && q != p ==> #[trigger] final(self).scopes@[q] == old(self).scopes@[q]
                        },
                        None => final(self).scopes == old(self).scopes,
                    }
                },
            final(self).graph.n() == old(self).graph.n(),
            final(self).name_stack == old(self).name_stack,
            final(self).fqn_cache == old(self).fqn_cache,
            final(self).scope_stack == old(self).scope_stack,
    {
        if facts.len() == 0 {
            return;
        }
        let name_sym = self.sym_chars(name);
        let ghost mid = *self;
        let pos = self.binding_scope(name_sym);
        proof {
            lemma_lookups_same(mid, *old(self), name_sym, old(self).scope_stack@.len() as int);
        }
        if let Some(p) = pos {
            self.scopes[p].1.add_containers(name_sym, facts);
            proof {
                assert forall|q: int| 0 <= q < old(self).scopes@.len() && q != p implies #[trigger] self.scopes@[q] == old(self).scopes@[q] by {
                    assert(self.scopes@[q] == mid.scopes@[q]);
                }
            }
        }
    }

    /// The name spelled `name` is a local of the current scope.
    pub open spec fn local_name(&self, name: Seq<char>) -> bool {
        match self.graph.interner.first_sym(name) {
            Some(s) => self.scope_stack@.len() > 0 && scope_index(self.scopes@, self.scope_stack@.last()) is Some
                && self.scopes@[scope_index(self.scopes@, self.scope_stack@.last()).unwrap()].1.locals@.contains(s),
            None => false,
        }
    }

    /// Whether `name` is local to the current scope.
    #[verifier::loop_isolation(false)]
    pub fn is_local(&self, name: &[char]) -> (r: bool)
        ensures
            r == self.local_name(name@),
            !self.graph.interner@.contains(name@) ==> !r,
            self.graph.interner@.contains(name@) ==> exists|s: SymId|
                {
                    &&& self.graph.interner.has_id(s)
                    &&& self.graph.interner.str_of(s) == name@
                    &&& r == (self.scope_stack@.len() > 0 && scope_index(self.scopes@, self.scope_stack@.last()) is Some
                        && self.scopes@[scope_index(self.scopes@, self.scope_stack@.last()).unwrap()].1.locals@.contains(s))
                },
    {
        let name_str = chars_to_string(name);
        let name_sym = match self.graph.interner.lookup(name_str.as_str()) {
            Some(s) => s,
            None => return false,
        };
        proof {
            assert(name_str@ == name@);
        }
        if self.scope_stack.len() > 0 {
            let key = self.scope_stack[self.scope_stack.len() - 1];
            let pos = scope_pos(&self.scopes, key);
            proof {
                lemma_scope_index(self.scopes@, key, pos);
            }
            if let Some(p) = pos {
                return self.scopes[p].1.is_local(name_sym);
            }
        }
        false
    }

    /// The innermost class being analyzed.
    #[verifier::loop_isolation(false)]
    pub fn get_current_class(&self) -> (r: Option<NodeId>)
        ensures
            self.class_stack@.len() == 0 ==> r is None,
            self.class_stack@.len() > 0 ==> r == Some(self.class_stack@.last()),
    {
        if self.class_stack.len() == 0 {
            None
        } else {
            Some(self.class_stack[self.class_stack.len() - 1])
        }
    }

    /// Record a reference from `source_id` to a name outside the analyzed
    /// files, once.
    #[verifier::loop_isolation(false)]
    pub fn record_external_reference(&mut self, source_id: NodeId, kind: ExternalReferenceKind, canonical_name: String)
        requires
            old(self).wf(),
        ensures
            old(self).evolves_up(final(self)),
            final(self).graph.nodes_arena == old(self).graph.nodes_arena,
            final(self).graph.uses_edges == old(self).graph.uses_edges,
            final(self).graph.defines_edges == old(self).graph.defines_edges,
            final(self).graph.interner == old(self).graph.interner,
            final(self).graph.defined == old(self).graph.defined,
            source_id >= old(self).graph.n() ==> final(self).graph == old(self).graph,
            source_id < old(self).graph.n() ==> {
                let dv = old(self).graph.diagnostics.external_references@;
                let fv = final(self).graph.diagnostics.external_references@;
                &&& exists|k: int|
                    0 <= k < fv.len() && describes(
                        #[trigger] fv[k],
                        old(self).graph.nodes_arena@[source_id as int],
                        &old(self).graph.interner,
                        kind,
                        canonical_name@,
                    )
                &&& fv == dv || (fv.len() == dv.len() + 1 && fv.drop_last() == dv)
            },
            final(self).graph.n() == old(self).graph.n(),
            final(self).name_stack == old(self).name_stack,
            final(self).fqn_cache == old(self).fqn_cache,
            final(self).scope_stack == old(self).scope_stack,
    {
        if source_id >= self.graph.nodes_arena.len() {
            return;
        }
        let src_name = chars_to_string(self.node_name(source_id).as_slice());
        let src_file: Option<String> = match &self.graph.nodes_arena[source_id].filename {
            Some(f) => Some(f.clone()),
            None => None,
        };
        let src_line = self.graph.nodes_arena[source_id].line;
        let ghost node = self.graph.nodes_arena@[source_id as int];
        proof {
            assert(src_name@ == node.full_name(&self.graph.interner));
            assert(crate::scope::opt_view(src_file) == crate::scope::opt_view(node.filename));
        }
        let mut i: usize = 0;
        while i < self.graph.diagnostics.external_references.len()
            invariant
                i <= self.graph.diagnostics.external_references@.len(),
            decreases self.graph.diagnostics.external_references.len() - i,
        {
            let d = &self.graph.diagnostics.external_references[i];
            let same_file = match (&d.source_filename, &src_file) {
                (Some(a), Some(b)) => *a == *b,
                (None, None) => true,
                _ => false,
            };
            if d.source_canonical_name == src_name && same_file && d.source_line == src_line
                && d.kind == kind && d.canonical_name == canonical_name {
                proof {
                    assert(crate::scope::opt_view(d.source_filename) == crate::scope::opt_view(src_file));
                    assert(describes(self.graph.diagnostics.external_references@[i as int], node, &self.graph.interner, kind, canonical_name@));
                }
                return;
            }
            i = i + 1;
        }
        self.graph.diagnostics.external_references.push(
            ExternalReferenceDiagnostic {
                source_canonical_name: src_name,
                source_filename: src_file,
                source_line: src_line,
                kind,
                canonical_name,
            },
        );
        proof {
            let fv = self.graph.diagnostics.external_references@;
            assert(describes(fv[fv.len() - 1], node, &self.graph.interner, kind, canonical_name@));
            assert(fv.drop_last() =~= old(self).graph.diagnostics.external_references@);
        }
    }
}

} // verus!
