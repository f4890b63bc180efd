//! The call graph: a node arena with defines and uses edges between nodes.

use vstd::prelude::*;

use crate::intern::{Interner, SymId};
use crate::node::{flavor_rank, upgraded_flavor, Flavor, Node, NodeId};
use crate::scope::ValueSet;
use crate::text::{contains_seq, str_to_chars};

verus! {

/// Whether an external reference names an imported item or a module.
#[derive(Debug, Clone, Copy, PartialEq, Eq, Structural, Hash)]
pub enum ExternalReferenceKind {
    Import,
    Module,
}

impl ExternalReferenceKind {
    /// The kind's display word: `import` or `module`.
    pub fn as_str(self) -> (r: &'static str)
        ensures
            self == ExternalReferenceKind::Import ==> r@ == "import"@,
            self == ExternalReferenceKind::Module ==> r@ == "module"@,
    {
        match self {
            Self::Import => "import",
            Self::Module => "module",
        }
    }
}

/// A use of a name that the analyzed files do not define.
#[derive(Debug, Clone)]
pub struct ExternalReferenceDiagnostic {
    pub source_canonical_name: String,
    pub source_filename: Option<String>,
    pub source_line: Option<usize>,
    pub kind: ExternalReferenceKind,
    pub canonical_name: String,
}

/// Diagnostics collected by the analyzer.
#[derive(Debug, Clone)]
pub struct AnalysisDiagnostics {
    pub external_references: Vec<ExternalReferenceDiagnostic>,
}

/// The set is duplicate-free and names only nodes below `n`.
pub open spec fn set_in(s: ValueSet, n: nat) -> bool {
    s.wf() && (forall|j: int| 0 <= j < s@.len() ==> #[trigger] s@[j] < n)
}

/// Every set of `e` is duplicate-free and names only nodes below `n`.
pub open spec fn edges_in(e: Seq<ValueSet>, n: nat) -> bool {
    forall|i: int| 0 <= i < e.len() ==> #[trigger] set_in(e[i], n)
}

/// The finished output of the analyzer: a call graph over Python symbols.
///
/// Node ids index `nodes_arena`; `defines_edges[i]` and `uses_edges[i]`
/// hold the targets of node `i`'s edges, and `defined[i]` tells whether
/// node `i` is defined.
#[derive(Debug)]
pub struct CallGraph {
    pub interner: Interner,
    pub nodes_arena: Vec<Node>,
    pub defines_edges: Vec<ValueSet>,
    pub uses_edges: Vec<ValueSet>,
    pub defined: Vec<bool>,
    pub diagnostics: AnalysisDiagnostics,
    /// Module name and file name of each analyzed file.
    pub module_to_filename: Vec<(SymId, SymId)>,
}

impl CallGraph {
    /// Number of nodes.
    pub open spec fn n(&self) -> nat {
        self.nodes_arena@.len()
    }

    /// The arena, the edge tables and the interner agree.
    pub open spec fn wf(&self) -> bool {
        &&& self.interner.wf()
        &&& self.defines_edges@.len() == self.n()
        &&& self.uses_edges@.len() == self.n()
        &&& self.defined@.len() == self.n()
        &&& forall|i: int| 0 <= i < self.n() ==> #[trigger] self.nodes_arena@[i].ids_in(&self.interner)
        &&& edges_in(self.defines_edges@, self.n())
        &&& edges_in(self.uses_edges@, self.n())
        &&& forall|k: int|
            0 <= k < self.module_to_filename@.len() ==> self.interner.has_id(
                #[trigger] self.module_to_filename@[k].0,
            ) && self.interner.has_id(self.module_to_filename@[k].1)
    }

    /// `other` keeps the edges and `defined` flags of every node of
    /// `self`, and has at most one node more: `r`, with no edges.
    pub open spec fn keeps_old_nodes(&self, other: &CallGraph, r: NodeId) -> bool {
        &&& forall|i: int| 0 <= i < self.n() ==> #[trigger] other.uses_edges@[i] == self.uses_edges@[i]
        &&& forall|i: int| 0 <= i < self.n() ==> #[trigger] other.defines_edges@[i] == self.defines_edges@[i]
        &&& forall|i: int| 0 <= i < self.n() ==> #[trigger] other.defined@[i] == self.defined@[i]
        &&& other.n() == self.n() || (other.n() == self.n() + 1 && r == self.n() && other.uses_edges@[r as int]@.len() == 0
            && other.defines_edges@[r as int]@.len() == 0)
    }

    /// `other` extends `self`: same or more nodes and interned strings,
    /// with the old strings kept.
    pub open spec fn grows_to(&self, other: &CallGraph) -> bool {
        &&& self.n() <= other.n()
        &&& self.interner@.len() <= other.interner@.len()
        &&& forall|i: int| 0 <= i < self.interner@.len() ==> #[trigger] other.interner@[i] == self.interner@[i]
    }

    /// An empty graph over `interner`.
    pub fn empty(interner: Interner, module_to_filename: Vec<(SymId, SymId)>) -> (r: Self)
        requires
            interner.wf(),
            forall|k: int|
                0 <= k < module_to_filename@.len() ==> interner.has_id(
                    #[trigger] module_to_filename@[k].0,
                ) && interner.has_id(module_to_filename@[k].1),
        ensures
            r.wf(),
            r.n() == 0,
            r.interner == interner,
    {
        CallGraph {
            interner,
            nodes_arena: Vec::new(),
            defines_edges: Vec::new(),
            uses_edges: Vec::new(),
            defined: Vec::new(),
            diagnostics: AnalysisDiagnostics { external_references: Vec::new() },
            module_to_filename,
        }
    }

    /// Intern a string in the graph's interner.
    pub fn intern(&mut self, s: &str) -> (r: SymId)
        requires
            old(self).wf(),
        ensures
            final(self).wf(),
            old(self).grows_to(final(self)),
            final(self).n() == old(self).n(),
            final(self).nodes_arena == old(self).nodes_arena,
            final(self).uses_edges == old(self).uses_edges,
            final(self).defines_edges == old(self).defines_edges,
            final(self).defined == old(self).defined,
            final(self).diagnostics == old(self).diagnostics,
            final(self).module_to_filename == old(self).module_to_filename,
            final(self).interner.has_id(r),
            final(self).interner.str_of(r) == s@,
    {
        let r = self.interner.intern(s);
        proof {
            assert forall|i: int| 0 <= i < self.n() implies #[trigger] self.nodes_arena@[i].ids_in(
                &self.interner,
            ) by {
                assert(old(self).nodes_arena@[i].ids_in(&old(self).interner));
            }
            assert forall|k: int| 0 <= k < self.module_to_filename@.len() implies self.interner.has_id(
                #[trigger] self.module_to_filename@[k].0,
            ) && self.interner.has_id(self.module_to_filename@[k].1) by {
                assert(old(self).interner.has_id(old(self).module_to_filename@[k].0));
            }
        }
        r
    }

    /// Some defined node is the module spelled `name`: its name is `name`
    /// and its namespace the empty string.
    pub open spec fn defines_module(&self, name: Seq<char>) -> bool {
        exists|m: int|
            0 <= m < self.n() && self.interner.str_of(#[trigger] self.nodes_arena@[m].name) == name && (
            self.nodes_arena@[m].namespace matches Some(x) && self.interner.str_of(x) == Seq::<char>::empty())
                && self.defined@[m]
    }

    /// Some defined node with a namespace is named `name`.
    pub open spec fn has_defined(&self, name: Seq<char>) -> bool {
        exists|f: int|
            0 <= f < self.n() && #[trigger] self.defined@[f] && self.interner.str_of(self.nodes_arena@[f].name) == name
                && self.nodes_arena@[f].namespace is Some
    }

    /// Node `i` has this namespace and name.
    pub open spec fn keyed(&self, i: int, namespace: Option<SymId>, name: SymId) -> bool {
        0 <= i < self.n() && self.nodes_arena@[i].namespace == namespace && self.nodes_arena@[i].name == name
    }

    /// Position of the node with this namespace and name, if any.
    pub fn find_node(&self, namespace: Option<SymId>, name: SymId) -> (r: Option<NodeId>)
        ensures
            match r {
                Some(i) => i < self.n() && self.nodes_arena@[i as int].namespace == namespace
                    && self.nodes_arena@[i as int].name == name
                    && forall|j: int| 0 <= j < i ==> !#[trigger] self.keyed(j, namespace, name),
                None => forall|i: int|
                    0 <= i < self.n() ==> !(self.nodes_arena@[i].namespace == namespace
                        && #[trigger] self.nodes_arena@[i].name == name),
            },
    {
        let mut i: usize = 0;
        while i < self.nodes_arena.len()
            invariant
                i <= self.nodes_arena.len(),
                forall|j: int|
                    0 <= j < i ==> !(self.nodes_arena@[j].namespace == namespace
                        && #[trigger] self.nodes_arena@[j].name == name),
            decreases self.nodes_arena.len() - i,
        {
            if self.nodes_arena[i].namespace == namespace && self.nodes_arena[i].name == name {
                return Some(i);
            }
            i = i + 1;
        }
        None
    }

    /// Get or create the node with this namespace and name. An existing
    /// node keeps its id and takes `flavor` if that is more specific; a new
    /// node gets `filename`, and is marked defined when it has no namespace.
    pub fn get_node_by_sym(
        &mut self,
        namespace: Option<SymId>,
        name: SymId,
        flavor: Flavor,
        filename: Option<String>,
    ) -> (r: NodeId)
        requires
            old(self).wf(),
            old(self).interner.has_id(name),
            namespace matches Some(ns) ==> old(self).interner.has_id(ns),
        ensures
            final(self).diagnostics == old(self).diagnostics,
            forall|i: int| 0 <= i < old(self).n() ==> (#[trigger] final(self).nodes_arena@[i]).filename == old(self).nodes_arena@[i].filename
                && final(self).nodes_arena@[i].line == old(self).nodes_arena@[i].line,
            final(self).wf(),
            old(self).grows_to(final(self)),
            final(self).interner == old(self).interner,
            r < final(self).n(),
            final(self).nodes_arena@[r as int].namespace == namespace,
            final(self).nodes_arena@[r as int].name == name,
            flavor_rank(final(self).nodes_arena@[r as int].flavor) >= flavor_rank(flavor),
            forall|i: int| 0 <= i < old(self).n() ==> (#[trigger] final(self).nodes_arena@[i]).namespace
                == old(self).nodes_arena@[i].namespace && final(self).nodes_arena@[i].name
                == old(self).nodes_arena@[i].name,
            forall|i: int| 0 <= i < old(self).n() ==> #[trigger] final(self).uses_edges@[i] == old(self).uses_edges@[i],
            forall|i: int| 0 <= i < old(self).n() ==> #[trigger] final(self).defines_edges@[i] == old(self).defines_edges@[i],
            forall|i: int| 0 <= i < old(self).n() ==> #[trigger] final(self).defined@[i] == old(self).defined@[i],
            final(self).module_to_filename == old(self).module_to_filename,
            final(self).n() == old(self).n() || final(self).n() == old(self).n() + 1,
            final(self).n() == old(self).n() + 1 ==> r == old(self).n() && final(self).uses_edges@[r as int]@.len() == 0
                && final(self).defines_edges@[r as int]@.len() == 0,
            (exists|i: int| #[trigger] old(self).keyed(i, namespace, name)) ==> {
                &&& old(self).keyed(r as int, namespace, name)
                &&& forall|j: int| 0 <= j < r ==> !#[trigger] old(self).keyed(j, namespace, name)
                &&& final(self).n() == old(self).n()
                &&& final(self).nodes_arena@[r as int].flavor == upgraded_flavor(old(self).nodes_arena@[r as int].flavor, flavor)
            },
            !(exists|i: int| #[trigger] old(self).keyed(i, namespace, name)) ==> {
                &&& r == old(self).n()
                &&& final(self).n() == old(self).n() + 1
                &&& final(self).nodes_arena@[r as int].flavor == flavor
            },
            forall|i: int| 0 <= i < old(self).n() && i != r ==> #[trigger] final(self).nodes_arena@[i] == old(self).nodes_arena@[i],
    {
        match self.find_node(namespace, name) {
            Some(id) => {
                if flavor.specificity() > self.nodes_arena[id].flavor.specificity() {
                    self.nodes_arena[id].flavor = flavor;
                }
                proof {
                    assert(old(self).keyed(id as int, namespace, name));
                    assert forall|i: int| 0 <= i < self.n() implies #[trigger] self.nodes_arena@[i].ids_in(
                        &self.interner,
                    ) by {
                        assert(old(self).nodes_arena@[i].ids_in(&old(self).interner));
                    }
                }
                id
            },
            None => {
                let id = self.nodes_arena.len();
                let mut node = Node::new(namespace, name, flavor);
                node.filename = filename;
                self.nodes_arena.push(node);
                let e1 = ValueSet::empty();
                let e2 = ValueSet::empty();
                self.defines_edges.push(e1);
                self.uses_edges.push(e2);
                self.defined.push(namespace.is_none());
                proof {
                    assert forall|i: int| !#[trigger] old(self).keyed(i, namespace, name) by {}
                    assert forall|i: int| 0 <= i < self.n() implies #[trigger] self.nodes_arena@[i].ids_in(
                        &self.interner,
                    ) by {
                        if i < id {
                            assert(old(self).nodes_arena@[i].ids_in(&old(self).interner));
                        }
                    }
                    lemma_edges_push(old(self).uses_edges@, old(self).n(), e2);
                    lemma_edges_push(old(self).defines_edges@, old(self).n(), e1);
                }
                id
            },
        }
    }

    /// Mark `from_id` (and `to_id`, if given) defined and add the defines
    /// edge between them. Returns whether the edge is new.
    pub fn add_defines_edge(&mut self, from_id: NodeId, to_id: Option<NodeId>) -> (r: bool)
        requires
            old(self).wf(),
            from_id < old(self).n(),
            to_id matches Some(t) ==> t < old(self).n(),
        ensures
            final(self).wf(),
            final(self).nodes_arena == old(self).nodes_arena,
            final(self).interner == old(self).interner,
            final(self).uses_edges == old(self).uses_edges,
            final(self).module_to_filename == old(self).module_to_filename,
            final(self).defined@[from_id as int],
            to_id matches Some(t) ==> final(self).defined@[t as int] && final(self).defines_edges@[from_id as int]@.contains(t),
            to_id matches Some(t) ==> r == !old(self).defines_edges@[from_id as int]@.contains(t),
            to_id is None ==> !r && final(self).defines_edges == old(self).defines_edges,
            forall|i: int| 0 <= i < final(self).n() && i != from_id ==> #[trigger] final(self).defines_edges@[i] == old(self).defines_edges@[i],
            forall|i: int| 0 <= i < final(self).n() && i != from_id && (to_id != Some(i as usize))
                ==> #[trigger] final(self).defined@[i] == old(self).defined@[i],
            forall|x: usize| #[trigger] final(self).defines_edges@[from_id as int]@.contains(x) <==> (
                old(self).defines_edges@[from_id as int]@.contains(x) || to_id == Some(x)),
    {
        self.defined.set(from_id, true);
        match to_id {
            Some(to) => {
                self.defined.set(to, true);
                let ghost before = self.defines_edges@;
                proof {
                    assert(set_in(self.defines_edges@[from_id as int], self.n()));
                }
                let changed = self.defines_edges[from_id].insert(to);
                proof {
                    lemma_edges_update(before, from_id as int, self.defines_edges@[from_id as int], self.n());
                    assert(self.defines_edges@ == before.update(from_id as int, self.defines_edges@[from_id as int]));
                    if changed {
                        assert(self.defines_edges@[from_id as int]@ == before[from_id as int]@.push(to));
                    }
                    assert forall|x: usize| #[trigger] self.defines_edges@[from_id as int]@.contains(x) <==> (
                        old(self).defines_edges@[from_id as int]@.contains(x) || to_id == Some(x)) by {
                        if changed {
                            let s = before[from_id as int]@;
                            if s.push(to).contains(x) && x != to {
                                let k = choose|k: int| 0 <= k < s.push(to).len() && s.push(to)[k] == x;
                                assert(s[k] == x);
                            }
                            if s.contains(x) {
                                let k = choose|k: int| 0 <= k < s.len() && s[k] == x;
                                assert(s.push(to)[k] == x);
                            }
                            assert(s.push(to)[s.len() as int] == to);
                        }
                    }
                }
                changed
            },
            None => false,
        }
    }

    /// Add the uses edge `from_id -> to_id`. When it is new and `to_id` has a
    /// namespace, a wildcard edge from `from_id` to an unknown node of the
    /// same short name is dropped (see `remove_wild`). Returns whether the
    /// edge is new.
    pub fn add_uses_edge(&mut self, from_id: NodeId, to_id: NodeId) -> (r: bool)
        requires
            old(self).wf(),
            from_id < old(self).n(),
            to_id < old(self).n(),
        ensures
            final(self).diagnostics == old(self).diagnostics,
            final(self).wf(),
            final(self).nodes_arena == old(self).nodes_arena,
            final(self).interner == old(self).interner,
            final(self).defines_edges == old(self).defines_edges,
            final(self).defined == old(self).defined,
            final(self).module_to_filename == old(self).module_to_filename,
            r == !old(self).uses_edges@[from_id as int]@.contains(to_id),
            final(self).uses_edges@[from_id as int]@.contains(to_id),
            forall|i: int| 0 <= i < final(self).n() && i != from_id ==> #[trigger] final(self).uses_edges@[i] == old(self).uses_edges@[i],
            forall|x: usize| #[trigger] final(self).uses_edges@[from_id as int]@.contains(x) ==> (
                old(self).uses_edges@[from_id as int]@.contains(x) || x == to_id),
            forall|x: usize|
                #[trigger] old(self).uses_edges@[from_id as int]@.contains(x) && (old(self).nodes_arena@[x as int].namespace is Some
                    || old(self).nodes_arena@[x as int].name != old(self).nodes_arena@[to_id as int].name
                    || old(self).nodes_arena@[to_id as int].namespace is None) ==> final(self).uses_edges@[from_id as int]@.contains(x),
            !r ==> final(self).uses_edges == old(self).uses_edges,
            r ==> forall|x: usize| #[trigger] final(self).uses_edges@[from_id as int]@.contains(x) <==> (x == to_id || (
                old(self).uses_edges@[from_id as int]@.contains(x) && !old(self).drops_on_add(from_id, to_id, x))),
    {
        if self.uses_edges[from_id].contains(to_id) {
            return false;
        }
        let ghost before = self.uses_edges@;
        proof {
            assert(set_in(self.uses_edges@[from_id as int], self.n()));
        }
        let changed = self.uses_edges[from_id].insert(to_id);
        proof {
            lemma_edges_update(before, from_id as int, self.uses_edges@[from_id as int], self.n());
            assert(self.uses_edges@ == before.update(from_id as int, self.uses_edges@[from_id as int]));
            {
                let s = before[from_id as int]@;
                assert(self.uses_edges@[from_id as int]@ == s.push(to_id));
                assert(s.push(to_id)[s.len() as int] == to_id);
                assert forall|x: usize| #[trigger] self.uses_edges@[from_id as int]@.contains(x) implies (
                    s.contains(x) || x == to_id) by {
                    let k = choose|k: int| 0 <= k < s.push(to_id).len() && s.push(to_id)[k] == x;
                    if k < s.len() {
                        assert(s[k] == x);
                    }
                }
                assert forall|x: usize| #[trigger] s.contains(x) implies self.uses_edges@[from_id as int]@.contains(x) by {
                    let k = choose|k: int| 0 <= k < s.len() && s[k] == x;
                    assert(s.push(to_id)[k] == x);
                }
            }
        }
        if changed {
            if self.nodes_arena[to_id].namespace.is_some() {
                let name = self.nodes_arena[to_id].name;
                proof {
                    assert(self.nodes_arena@[to_id as int].ids_in(&self.interner));
                }
                let ghost mid = self.uses_edges@;
                let ghost gm = *self;
                assert(mid[from_id as int]@.contains(to_id));
                self.remove_wild(from_id, to_id, name);
                proof {
                    let s0 = old(self).uses_edges@[from_id as int]@;
                    assert(mid[from_id as int]@ == s0.push(to_id));
                    assert(gm.drops_wild(from_id, to_id, name) == old(self).drops_wild(from_id, to_id, name));
                    assert forall|x: usize| gm.is_first_wild(from_id, name, x) <==> old(self).is_first_wild(from_id, name, x) by {
                        if gm.is_first_wild(from_id, name, x) {
                            let q = choose|q: int|
                                0 <= q < mid[from_id as int]@.len() && mid[from_id as int]@[q] == x && gm.is_wild(x, name) && forall|j: int|
                                    0 <= j < q ==> !gm.is_wild(#[trigger] mid[from_id as int]@[j], name);
                            assert(q < s0.len());
                            assert(s0[q] == x);
                            assert forall|j: int| 0 <= j < q implies !old(self).is_wild(#[trigger] s0[j], name) by {
                                assert(mid[from_id as int]@[j] == s0[j]);
                            }
                        }
                        if old(self).is_first_wild(from_id, name, x) {
                            let q = choose|q: int|
                                0 <= q < s0.len() && s0[q] == x && old(self).is_wild(x, name) && forall|j: int|
                                    0 <= j < q ==> !old(self).is_wild(#[trigger] s0[j], name);
                            assert(mid[from_id as int]@[q] == x);
                            assert forall|j: int| 0 <= j < q implies !gm.is_wild(#[trigger] mid[from_id as int]@[j], name) by {
                                assert(mid[from_id as int]@[j] == s0[j]);
                            }
                        }
                    }
                    if gm.drops_wild(from_id, to_id, name) {
                        assert forall|x: usize| #[trigger] self.uses_edges@[from_id as int]@.contains(x) <==> (x == to_id || (
                            s0.contains(x) && !old(self).drops_on_add(from_id, to_id, x))) by {
                            if x == to_id {
                                assert(!gm.is_wild(to_id, name));
                                if gm.is_first_wild(from_id, name, to_id) {}
                            }
                        }
                    } else {
                        assert forall|x: usize| #[trigger] self.uses_edges@[from_id as int]@.contains(x) <==> (x == to_id || (
                            s0.contains(x) && !old(self).drops_on_add(from_id, to_id, x))) by {}
                    }
                    assert(self.uses_edges@[from_id as int]@.contains(to_id));
                    assert forall|x: usize| #[trigger] self.uses_edges@[from_id as int]@.contains(x) implies (
                        old(self).uses_edges@[from_id as int]@.contains(x) || x == to_id) by {
                        assert(mid[from_id as int]@.contains(x));
                    }
                    assert forall|x: usize|
                        #[trigger] old(self).uses_edges@[from_id as int]@.contains(x) && (old(self).nodes_arena@[x as int].namespace is Some
                            || old(self).nodes_arena@[x as int].name != old(self).nodes_arena@[to_id as int].name
                            || old(self).nodes_arena@[to_id as int].namespace is None) implies self.uses_edges@[from_id as int]@.contains(x) by {
                        assert(mid[from_id as int]@.contains(x));
                    }
                }
            }
        }
        changed
    }

    /// Remove the uses edge `from_id -> to_id`, if present.
    pub fn remove_uses_edge(&mut self, from_id: NodeId, to_id: NodeId)
        requires
            old(self).wf(),
            from_id < old(self).n(),
        ensures
            final(self).diagnostics == old(self).diagnostics,
            final(self).wf(),
            final(self).nodes_arena == old(self).nodes_arena,
            final(self).interner == old(self).interner,
            final(self).defines_edges == old(self).defines_edges,
            final(self).defined == old(self).defined,
            final(self).module_to_filename == old(self).module_to_filename,
            forall|i: int| 0 <= i < final(self).n() && i != from_id ==> #[trigger] final(self).uses_edges@[i] == old(self).uses_edges@[i],
            forall|x: usize| #[trigger] final(self).uses_edges@[from_id as int]@.contains(x) <==> (
                old(self).uses_edges@[from_id as int]@.contains(x) && x != to_id),
    {
        let ghost before = self.uses_edges@;
        proof {
            assert(set_in(self.uses_edges@[from_id as int], self.n()));
        }
        let _ = self.uses_edges[from_id].remove(to_id);
        proof {
            lemma_edges_update(before, from_id as int, self.uses_edges@[from_id as int], self.n());
            assert(self.uses_edges@ == before.update(from_id as int, self.uses_edges@[from_id as int]));
        }
    }

    /// Node `x` is the wildcard (namespace-less) node named `name`.
    pub open spec fn is_wild(&self, x: usize, name: SymId) -> bool {
        self.nodes_arena@[x as int].namespace is None && self.nodes_arena@[x as int].name == name
    }

    /// `x` is the first wildcard node named `name` among the uses of
    /// `from_id`.
    pub open spec fn is_first_wild(&self, from_id: NodeId, name: SymId, x: usize) -> bool {
        exists|k: int|
            0 <= k < self.uses_edges@[from_id as int]@.len() && self.uses_edges@[from_id as int]@[k] == x
                && self.is_wild(x, name) && forall|j: int|
                0 <= j < k ==> !self.is_wild(#[trigger] self.uses_edges@[from_id as int]@[j], name)
    }

    /// Adding the new uses edge `from_id -> to_id` drops the edge to `x`:
    /// `to_id` has a namespace and `x` is the first wildcard of its name.
    pub open spec fn drops_on_add(&self, from_id: NodeId, to_id: NodeId, x: usize) -> bool {
        &&& self.nodes_arena@[to_id as int].namespace is Some
        &&& self.drops_wild(from_id, to_id, self.nodes_arena@[to_id as int].name)
        &&& self.is_first_wild(from_id, self.nodes_arena@[to_id as int].name, x)
    }

    /// `remove_wild(from_id, to_id, name)` drops an edge: `name` is not
    /// empty, `to_id` is another node, and its name holds no argument
    /// sentinel.
    pub open spec fn drops_wild(&self, from_id: NodeId, to_id: NodeId, name: SymId) -> bool {
        &&& self.interner.str_of(name).len() > 0
        &&& to_id != from_id
        &&& !crate::text::occurs_in(argument_sentinel_spec(), self.nodes_arena@[to_id as int].full_name(&self.interner))
    }

    /// When `from_id` uses a concrete `to_id` whose short name is `name`,
    /// drop the now-redundant edge from `from_id` to the unknown (wildcard)
    /// node of that name. Nothing is dropped when `name` is empty, when
    /// `to_id`'s full name contains the argument sentinel, or when
    /// `to_id == from_id`.
    pub fn remove_wild(&mut self, from_id: NodeId, to_id: NodeId, name: SymId)
        requires
            old(self).wf(),
            from_id < old(self).n(),
            to_id < old(self).n(),
            old(self).interner.has_id(name),
        ensures
            final(self).diagnostics == old(self).diagnostics,
            final(self).wf(),
            final(self).nodes_arena == old(self).nodes_arena,
            final(self).interner == old(self).interner,
            final(self).defines_edges == old(self).defines_edges,
            final(self).defined == old(self).defined,
            final(self).module_to_filename == old(self).module_to_filename,
            forall|i: int| 0 <= i < final(self).n() && i != from_id ==> #[trigger] final(self).uses_edges@[i] == old(self).uses_edges@[i],
            forall|x: usize| #[trigger] final(self).uses_edges@[from_id as int]@.contains(x) ==>
                old(self).uses_edges@[from_id as int]@.contains(x),
            forall|x: usize| #[trigger] old(self).uses_edges@[from_id as int]@.contains(x) && (
                old(self).nodes_arena@[x as int].namespace is Some || old(self).nodes_arena@[x as int].name != name)
                ==> final(self).uses_edges@[from_id as int]@.contains(x),
            !old(self).drops_wild(from_id, to_id, name) ==> final(self).uses_edges == old(self).uses_edges,
            old(self).drops_wild(from_id, to_id, name) ==> forall|k: int|
                0 <= k < old(self).uses_edges@[from_id as int]@.len() && old(self).is_wild(
                    #[trigger] old(self).uses_edges@[from_id as int]@[k],
                    name,
                ) && (forall|j: int| 0 <= j < k ==> !old(self).is_wild(old(self).uses_edges@[from_id as int]@[j], name))
                    ==> !final(self).uses_edges@[from_id as int]@.contains(old(self).uses_edges@[from_id as int]@[k]),
            old(self).drops_wild(from_id, to_id, name) ==> forall|x: usize| #[trigger] final(self).uses_edges@[from_id as int]@.contains(x)
                <==> (old(self).uses_edges@[from_id as int]@.contains(x) && !old(self).is_first_wild(from_id, name, x)),
    {
        let name_chars = str_to_chars(self.interner.resolve(name));
        if name_chars.len() == 0 || to_id == from_id {
            return;
        }
        let to_name = str_to_chars(self.nodes_arena[to_id].get_name(&self.interner).as_str());
        if contains_seq(to_name.as_slice(), &argument_sentinel()) {
            return;
        }
        let targets = self.uses_edges[from_id].iter();
        proof {
            assert(set_in(self.uses_edges@[from_id as int], self.n()));
            assert forall|k: int| 0 <= k < targets@.len() implies #[trigger] targets@[k] < self.nodes_arena@.len() by {
                assert(self.uses_edges@[from_id as int]@[k] < self.n());
            }
        }
        let mut found: Option<usize> = None;
        let mut i: usize = 0;
        while i < targets.len()
            invariant_except_break
                found is None,
            invariant
                i <= targets.len(),
                forall|k: int| 0 <= k < targets@.len() ==> #[trigger] targets@[k] < self.nodes_arena@.len(),
                forall|k: int| 0 <= k < i ==> !(self.nodes_arena@[#[trigger] targets@[k] as int].namespace is None
                    && self.nodes_arena@[targets@[k] as int].name == name),
            ensures
                found is None ==> i == targets.len(),
                found matches Some(k) ==> k == i && i < targets.len() && self.nodes_arena@[targets@[k as int] as int].namespace is None
                    && self.nodes_arena@[targets@[k as int] as int].name == name,
                forall|k: int| 0 <= k < i ==> !(self.nodes_arena@[#[trigger] targets@[k] as int].namespace is None
                    && self.nodes_arena@[targets@[k] as int].name == name),
            decreases targets.len() - i,
        {
            let eid = targets[i];
            if self.nodes_arena[eid].namespace.is_none() && self.nodes_arena[eid].name == name {
                found = Some(i);
                break;
            }
            i = i + 1;
        }
        proof {
            assert(self.drops_wild(from_id, to_id, name));
        }
        if let Some(k) = found {
            if k < targets.len() {
                let eid = targets[k];
                if self.nodes_arena[eid].namespace.is_none() && self.nodes_arena[eid].name == name {
                    let ghost u0 = self.uses_edges@[from_id as int]@;
                    self.remove_uses_edge(from_id, eid);
                    proof {
                        assert forall|q: int|
                            0 <= q < u0.len() && self.is_wild(#[trigger] u0[q], name) && (forall|j: int|
                                0 <= j < q ==> !self.is_wild(u0[j], name)) implies !self.uses_edges@[from_id as int]@.contains(u0[q]) by {
                            assert(u0[k as int] == eid);
                            if q < k {
                                assert(!(self.nodes_arena@[targets@[q] as int].namespace is None
                                    && self.nodes_arena@[targets@[q] as int].name == name));
                            }
                            if q > k {
                                assert(!self.is_wild(u0[k as int], name));
                            }
                        }
                        assert(old(self).is_first_wild(from_id, name, eid)) by {
                            assert(u0[k as int] == eid);
                            assert forall|j: int| 0 <= j < k implies !old(self).is_wild(#[trigger] u0[j], name) by {
                                assert(!(self.nodes_arena@[targets@[j] as int].namespace is None
                                    && self.nodes_arena@[targets@[j] as int].name == name));
                            }
                        }
                        assert forall|x: usize| old(self).is_first_wild(from_id, name, x) implies x == eid by {
                            let q = choose|q: int|
                                0 <= q < u0.len() && u0[q] == x && old(self).is_wild(x, name) && forall|j: int|
                                    0 <= j < q ==> !old(self).is_wild(#[trigger] u0[j], name);
                            if q < k {
                                assert(!(self.nodes_arena@[targets@[q] as int].namespace is None
                                    && self.nodes_arena@[targets@[q] as int].name == name));
                            }
                            if q > k {
                                assert(!old(self).is_wild(u0[k as int], name));
                            }
                        }
                    }
                }
            }
        } else {
            proof {
                assert(targets@ == old(self).uses_edges@[from_id as int]@);
                assert forall|q: int|
                    0 <= q < targets@.len() && self.is_wild(#[trigger] targets@[q], name) implies false by {
                    assert(!(self.nodes_arena@[targets@[q] as int].namespace is None && self.nodes_arena@[targets@[q] as int].name == name));
                }
                assert forall|x: usize| !old(self).is_first_wild(from_id, name, x) by {
                    if old(self).is_first_wild(from_id, name, x) {
                        let q = choose|q: int|
                            0 <= q < targets@.len() && targets@[q] == x && old(self).is_wild(x, name) && forall|j: int|
                                0 <= j < q ==> !old(self).is_wild(#[trigger] targets@[j], name);
                        assert(self.is_wild(targets@[q], name));
                    }
                }
            }
        }
    }
}

/// The name given to argument placeholder nodes.
pub open spec fn argument_sentinel_spec() -> Seq<char> {
    seq!['^', '^', '^', 'a', 'r', 'g', 'u', 'm', 'e', 'n', 't', '^', '^', '^']
}

/// The name given to argument placeholder nodes: `^^^argument^^^`.
pub fn argument_sentinel() -> (r: Vec<char>)
    ensures
        r@ == argument_sentinel_spec(),
{
    let r = vec!['^', '^', '^', 'a', 'r', 'g', 'u', 'm', 'e', 'n', 't', '^', '^', '^'];
    assert(r@ =~= argument_sentinel_spec());
    r
}

/// Appending an empty set to a well-formed edge table keeps it well formed
/// for one more node.
pub proof fn lemma_edges_push(e: Seq<ValueSet>, n: nat, s: ValueSet)
    requires
        edges_in(e, n),
        s.wf(),
        s@.len() == 0,
    ensures
        edges_in(e.push(s), n + 1),
{
    let e2 = e.push(s);
    assert forall|a: int| 0 <= a < e2.len() implies #[trigger] set_in(e2[a], n + 1) by {
        if a < e.len() {
            assert(set_in(e[a], n));
        }
    }
}

/// Replacing one set of a well-formed edge table by a well-formed set of
/// in-range targets keeps the table well formed.
pub proof fn lemma_edges_update(e: Seq<ValueSet>, i: int, s: ValueSet, n: nat)
    requires
        edges_in(e, n),
        0 <= i < e.len(),
        s.wf(),
        forall|x: usize| #[trigger] s@.contains(x) ==> e[i]@.contains(x) || x < n,
    ensures
        edges_in(e.update(i, s), n),
{
    let e2 = e.update(i, s);
    assert(set_in(e[i], n));
    assert forall|a: int| 0 <= a < e2.len() implies #[trigger] set_in(e2[a], n) by {
        if a != i {
            assert(set_in(e[a], n));
        } else {
            assert forall|j: int| 0 <= j < e2[a]@.len() implies #[trigger] e2[a]@[j] < n by {
                let x = s@[j];
                assert(s@.contains(x));
                if e[i]@.contains(x) {
                    let k = choose|k: int| 0 <= k < e[i]@.len() && e[i]@[k] == x;
                    assert(e[i]@[k] < n);
                }
            }
        }
    }
}

/// A copy of some diagnostics.
pub fn copy_diagnostics(d: &AnalysisDiagnostics) -> (r: AnalysisDiagnostics)
    ensures
        r.external_references@ == d.external_references@,
{
    let mut out: Vec<ExternalReferenceDiagnostic> = Vec::new();
    let mut i: usize = 0;
    while i < d.external_references.len()
        invariant
            i <= d.external_references@.len(),
            out@ == d.external_references@.take(i as int),
        decreases d.external_references.len() - i,
    {
        let e = &d.external_references[i];
        let filename = match &e.source_filename {
            Some(f) => Some(f.clone()),
            None => None,
        };
        let c = ExternalReferenceDiagnostic {
            source_canonical_name: e.source_canonical_name.clone(),
            source_filename: filename,
            source_line: e.source_line,
            kind: e.kind,
            canonical_name: e.canonical_name.clone(),
        };
        out.push(c);
        proof {
            assert(out@ =~= d.external_references@.take(i + 1));
        }
        i = i + 1;
    }
    proof {
        assert(out@ =~= d.external_references@);
    }
    AnalysisDiagnostics { external_references: out }
}

} // verus!
