//! The module-level dependency graph of a call graph: one node per module,
//! and an edge from one module to another when a node of the first uses a
//! node that is, or lies in, the second.

use vstd::prelude::*;

use crate::analyzer::graph::{copy_diagnostics, edges_in, lemma_edges_push, lemma_edges_update, set_in, CallGraph};
use crate::intern::SymId;
use crate::intern::Interner;
use crate::node::{Flavor, Node, NodeId};
use crate::scope::{opt_view, ValueSet};
use crate::text::{char_views, chars_eq, chars_to_string, copy_chars, str_to_chars};

verus! {

/// The module of the first entry for file `f`.
pub open spec fn module_of_file(entries: Seq<(Seq<char>, Seq<char>)>, f: Seq<char>) -> Option<Seq<char>>
    decreases entries.len(),
{
    if entries.len() == 0 {
        None
    } else if entries[0].1 == f {
        Some(entries[0].0)
    } else {
        module_of_file(entries.drop_first(), f)
    }
}

/// The file of the last entry for module `m`.
pub open spec fn file_of_module(entries: Seq<(Seq<char>, Seq<char>)>, m: Seq<char>) -> Option<Seq<char>>
    decreases entries.len(),
{
    if entries.len() == 0 {
        None
    } else if entries.last().0 == m {
        Some(entries.last().1)
    } else {
        file_of_module(entries.drop_last(), m)
    }
}

/// Whether `m` is the module of some entry.
pub open spec fn is_entry_module(entries: Seq<(Seq<char>, Seq<char>)>, m: Seq<char>) -> bool {
    exists|k: int| 0 <= k < entries.len() && (#[trigger] entries[k]).0 == m
}

/// No name occurs twice.
pub open spec fn distinct(names: Seq<Seq<char>>) -> bool {
    forall|i: int, j: int| 0 <= i < names.len() && 0 <= j < names.len() && i != j ==> names[i] != names[j]
}

/// Node `k` is the module node named `names[k]`: an empty namespace, no
/// line, its strings in `interner`.
pub open spec fn module_nodes(nodes: Seq<Node>, names: Seq<Seq<char>>, interner: &Interner) -> bool {
    &&& nodes.len() == names.len()
    &&& forall|k: int|
        0 <= k < nodes.len() ==> {
            &&& (#[trigger] nodes[k]).ids_in(interner)
            &&& nodes[k].flavor == Flavor::Module
            &&& nodes[k].namespace.is_some()
            &&& interner.str_of(nodes[k].namespace.unwrap()) == Seq::<char>::empty()
            &&& interner.str_of(nodes[k].name) == names[k]
            &&& nodes[k].line.is_none()
        }
}

/// The characters of an optional character vector.
pub open spec fn opt_chars(o: Option<Vec<char>>) -> Option<Seq<char>> {
    match o {
        Some(v) => Some(v@),
        None => None,
    }
}

/// Module and file names paired up.
pub open spec fn name_file_pairs(module_names: Seq<Vec<char>>, file_names: Seq<String>) -> Seq<(Seq<char>, Seq<char>)> {
    Seq::new(module_names.len(), |k: int| (module_names[k]@, file_names[k]@))
}

impl CallGraph {
    /// The module name and the file name of each analyzed file, as text.
    pub open spec fn module_entries(&self) -> Seq<(Seq<char>, Seq<char>)> {
        Seq::new(
            self.module_to_filename@.len(),
            |k: int| (self.interner.str_of(self.module_to_filename@[k].0), self.interner.str_of(self.module_to_filename@[k].1)),
        )
    }

    /// The module that node `i` lies in, through its file.
    pub open spec fn home_module(&self, i: int) -> Option<Seq<char>> {
        match self.nodes_arena@[i].filename {
            Some(f) => module_of_file(self.module_entries(), f@),
            None => None,
        }
    }

    /// The module that a use of node `i` reaches: the node's own name when
    /// it is a module, else the module it lies in.
    pub open spec fn used_module(&self, i: int) -> Option<Seq<char>> {
        if self.nodes_arena@[i].flavor == Flavor::Module {
            Some(self.nodes_arena@[i].full_name(&self.interner))
        } else {
            self.home_module(i)
        }
    }

    /// The `q`-th uses edge of node `s` leads from module `a` to module `b`.
    pub open spec fn edge_between(&self, s: int, q: int, a: Seq<char>, b: Seq<char>) -> bool {
        &&& 0 <= s < self.n()
        &&& 0 <= q < self.uses_edges@[s]@.len()
        &&& self.home_module(s) == Some(a)
        &&& self.used_module(self.uses_edges@[s]@[q] as int) == Some(b)
    }

    /// Module `a` depends on another module `b`: a node of `a` uses a node
    /// that is, or lies in, `b`.
    pub open spec fn module_uses(&self, a: Seq<char>, b: Seq<char>) -> bool {
        a != b && exists|s: int, q: int| #[trigger] self.edge_between(s, q, a, b)
    }

    /// As `module_uses`, through the uses edges of the nodes before `src`
    /// and the first `j` uses edges of node `src`.
    pub open spec fn module_uses_before(&self, a: Seq<char>, b: Seq<char>, src: int, j: int) -> bool {
        a != b && exists|s: int, q: int| #[trigger] self.edge_between(s, q, a, b) && (s < src || (s == src && q < j))
    }

    /// `nodes` and `edges` are the module graph of this graph, with the
    /// node names read through `interner`: one module node per name, for
    /// every analyzed module and every module a dependency reaches, each
    /// with the file of its module's entry; and an edge from one node to
    /// another exactly when the first module depends on the second.
    pub open spec fn is_module_graph(&self, nodes: Seq<Node>, edges: Seq<ValueSet>, interner: &Interner) -> bool {
        &&& edges.len() == nodes.len()
        &&& forall|i: int|
            0 <= i < nodes.len() ==> {
                &&& (#[trigger] nodes[i]).flavor == Flavor::Module
                &&& nodes[i].line.is_none()
                &&& opt_view(nodes[i].filename) == file_of_module(self.module_entries(), nodes[i].full_name(interner))
                &&& (is_entry_module(self.module_entries(), nodes[i].full_name(interner))
                    || (exists|b: Seq<char>| self.module_uses(nodes[i].full_name(interner), b))
                    || (exists|a: Seq<char>| self.module_uses(a, nodes[i].full_name(interner))))
            }
        &&& forall|i: int, j: int|
            0 <= i < nodes.len() && 0 <= j < nodes.len() && i != j ==> (#[trigger] nodes[i]).full_name(interner)
                != (#[trigger] nodes[j]).full_name(interner)
        &&& forall|k: int|
            0 <= k < self.module_entries().len() ==> exists|i: int|
                0 <= i < nodes.len() && (#[trigger] nodes[i]).full_name(interner) == (#[trigger] self.module_entries()[k]).0
        &&& forall|a: Seq<char>, b: Seq<char>|
            #[trigger] self.module_uses(a, b) ==> (exists|i: int| 0 <= i < nodes.len() && (#[trigger] nodes[i]).full_name(interner) == a)
                && (exists|j: int| 0 <= j < nodes.len() && (#[trigger] nodes[j]).full_name(interner) == b)
        &&& forall|i: int, j: int|
            #![trigger edges[i]@.contains(j as usize)]
            #![trigger nodes[i], nodes[j]]
            0 <= i < nodes.len() && 0 <= j < nodes.len() ==> (edges[i]@.contains(j as usize)
                <==> self.module_uses(nodes[i].full_name(interner), nodes[j].full_name(interner)))
    }
}

/// A node whose strings are in `a` reads the same through an interner
/// that extends `a`.
proof fn lemma_node_extends(n: Node, a: &Interner, b: &Interner)
    requires
        n.ids_in(a),
        a.extends(b),
    ensures
        n.ids_in(b),
        b.str_of(n.name) == a.str_of(n.name),
        n.namespace.is_some() ==> b.str_of(n.namespace.unwrap()) == a.str_of(n.namespace.unwrap()),
        n.full_name(b) == n.full_name(a),
{
    assert(b@[n.name.0 as int] == a@[n.name.0 as int]);
    if n.namespace.is_some() {
        let ns = n.namespace.unwrap();
        assert(b@[ns.0 as int] == a@[ns.0 as int]);
    }
}

/// Module nodes keep their names through an interner that extends theirs.
proof fn lemma_module_nodes_extend(nodes: Seq<Node>, names: Seq<Seq<char>>, a: &Interner, b: &Interner)
    requires
        module_nodes(nodes, names, a),
        a.extends(b),
    ensures
        module_nodes(nodes, names, b),
{
    assert forall|k: int| 0 <= k < nodes.len() implies {
        &&& (#[trigger] nodes[k]).ids_in(b)
        &&& nodes[k].flavor == Flavor::Module
        &&& nodes[k].namespace.is_some()
        &&& b.str_of(nodes[k].namespace.unwrap()) == Seq::<char>::empty()
        &&& b.str_of(nodes[k].name) == names[k]
        &&& nodes[k].line.is_none()
    } by {
        lemma_node_extends(nodes[k], a, b);
    }
}

/// A module node's full name is its name.
proof fn lemma_module_full_name(nodes: Seq<Node>, names: Seq<Seq<char>>, interner: &Interner, k: int)
    requires
        module_nodes(nodes, names, interner),
        0 <= k < nodes.len(),
    ensures
        nodes[k].full_name(interner) == names[k],
{
    assert(nodes[k].ids_in(interner));
}

/// No entry names `m`: it has no file.
proof fn lemma_no_file(entries: Seq<(Seq<char>, Seq<char>)>, m: Seq<char>)
    requires
        !is_entry_module(entries, m),
    ensures
        file_of_module(entries, m).is_none(),
    decreases entries.len(),
{
    if entries.len() > 0 {
        assert(entries.last() == entries[entries.len() - 1]);
        let d = entries.drop_last();
        assert forall|k: int| 0 <= k < d.len() implies (#[trigger] d[k]).0 != m by {
            assert(d[k] == entries[k]);
        }
        lemma_no_file(d, m);
    }
}

/// The first `i + 1` entries name a module's file as the first `i` do,
/// unless entry `i` is the module's.
proof fn lemma_file_step(entries: Seq<(Seq<char>, Seq<char>)>, i: int, m: Seq<char>)
    requires
        0 <= i < entries.len(),
    ensures
        file_of_module(entries.take(i + 1), m) == if entries[i].0 == m {
            Some(entries[i].1)
        } else {
            file_of_module(entries.take(i), m)
        },
{
    let t = entries.take(i + 1);
    assert(t.last() == entries[i]);
    assert(t.drop_last() =~= entries.take(i));
}

impl CallGraph {
    /// Stepping past the `j`-th uses edge of node `src` adds the dependency
    /// that edge makes, if any.
    proof fn lemma_before_step(&self, src: int, j: int, a: Seq<char>, b: Seq<char>)
        requires
            0 <= src < self.n(),
            0 <= j < self.uses_edges@[src]@.len(),
        ensures
            self.module_uses_before(a, b, src, j + 1) == (self.module_uses_before(a, b, src, j) || (a != b
                && self.edge_between(src, j, a, b))),
    {
        if self.module_uses_before(a, b, src, j + 1) {
            let (s, q) = choose|s: int, q: int| #[trigger] self.edge_between(s, q, a, b) && (s < src || (s == src && q < j + 1));
            if !(s == src && q == j) {
                assert(self.edge_between(s, q, a, b) && (s < src || (s == src && q < j)));
            }
        }
        if self.module_uses_before(a, b, src, j) {
            let (s, q) = choose|s: int, q: int| #[trigger] self.edge_between(s, q, a, b) && (s < src || (s == src && q < j));
            assert(self.edge_between(s, q, a, b) && (s < src || (s == src && q < j + 1)));
        }
        if a != b && self.edge_between(src, j, a, b) {
            assert(self.edge_between(src, j, a, b) && (src < src || (src == src && j < j + 1)));
        }
    }

    /// All the uses edges of node `src` done is node `src + 1` begun.
    proof fn lemma_before_next(&self, src: int, a: Seq<char>, b: Seq<char>)
        requires
            0 <= src < self.n(),
        ensures
            self.module_uses_before(a, b, src + 1, 0) == self.module_uses_before(
                a,
                b,
                src,
                self.uses_edges@[src]@.len() as int,
            ),
    {
        let len = self.uses_edges@[src]@.len() as int;
        if self.module_uses_before(a, b, src + 1, 0) {
            let (s, q) = choose|s: int, q: int| #[trigger] self.edge_between(s, q, a, b) && (s < src + 1 || (s == src + 1 && q < 0));
            assert(self.edge_between(s, q, a, b) && (s < src || (s == src && q < len)));
        }
        if self.module_uses_before(a, b, src, len) {
            let (s, q) = choose|s: int, q: int| #[trigger] self.edge_between(s, q, a, b) && (s < src || (s == src && q < len));
            assert(self.edge_between(s, q, a, b) && (s < src + 1 || (s == src + 1 && q < 0)));
        }
    }

    /// A node in no analyzed module adds no dependency.
    proof fn lemma_before_homeless(&self, src: int, a: Seq<char>, b: Seq<char>)
        requires
            0 <= src < self.n(),
            self.home_module(src).is_none(),
        ensures
            self.module_uses_before(a, b, src + 1, 0) == self.module_uses_before(a, b, src, 0),
    {
        if self.module_uses_before(a, b, src + 1, 0) {
            let (s, q) = choose|s: int, q: int| #[trigger] self.edge_between(s, q, a, b) && (s < src + 1 || (s == src + 1 && q < 0));
            assert(s != src);
            assert(self.edge_between(s, q, a, b) && (s < src || (s == src && q < 0)));
        }
        if self.module_uses_before(a, b, src, 0) {
            let (s, q) = choose|s: int, q: int| #[trigger] self.edge_between(s, q, a, b) && (s < src || (s == src && q < 0));
            assert(self.edge_between(s, q, a, b) && (s < src + 1 || (s == src + 1 && q < 0)));
        }
    }

    /// Past the last node, the dependencies are all there are.
    proof fn lemma_before_all(&self, a: Seq<char>, b: Seq<char>)
        ensures
            self.module_uses_before(a, b, self.n() as int, 0) == self.module_uses(a, b),
    {
        if self.module_uses(a, b) {
            let (s, q) = choose|s: int, q: int| #[trigger] self.edge_between(s, q, a, b);
            assert(self.edge_between(s, q, a, b) && (s < self.n() || (s == self.n() && q < 0)));
        }
        if self.module_uses_before(a, b, self.n() as int, 0) {
            let (s, q) = choose|s: int, q: int| #[trigger] self.edge_between(s, q, a, b) && (s < self.n() || (s == self.n() && q < 0));
            assert(self.edge_between(s, q, a, b));
        }
    }

    /// Nothing comes before the first node.
    proof fn lemma_before_none(&self, a: Seq<char>, b: Seq<char>)
        ensures
            !self.module_uses_before(a, b, 0, 0),
    {
        if self.module_uses_before(a, b, 0, 0) {
            let (s, q) = choose|s: int, q: int| #[trigger] self.edge_between(s, q, a, b) && (s < 0 || (s == 0 && q < 0));
            assert(false);
        }
    }
}

/// Adding the edge `xs -> xt` for the dependency `sm -> tm` that the next
/// uses edge makes keeps the edges exactly the dependencies seen so far,
/// and the names covering their ends.
proof fn lemma_add_dependency(
    g: &CallGraph,
    src: int,
    j: int,
    nv0: Seq<Seq<char>>,
    e0: Seq<ValueSet>,
    nv1: Seq<Seq<char>>,
    e1: Seq<ValueSet>,
    xs: int,
    xt: int,
    sm: Seq<char>,
    tm: Seq<char>,
)
    requires
        distinct(nv1),
        nv1.len() <= usize::MAX,
        nv0.is_prefix_of(nv1),
        e0.len() == nv0.len(),
        e1.len() == nv1.len(),
        edges_in(e0, nv0.len()),
        forall|x: int, y: int|
            #![trigger e0[x]@.contains(y as usize)]
            0 <= x < nv0.len() && 0 <= y < nv0.len() ==> (e0[x]@.contains(y as usize) <==> g.module_uses_before(
                nv0[x],
                nv0[y],
                src,
                j,
            )),
        forall|a: Seq<char>, b: Seq<char>| #[trigger] g.module_uses_before(a, b, src, j) ==> nv0.contains(a) && nv0.contains(b),
        0 <= xs < nv1.len(),
        0 <= xt < nv1.len(),
        nv1[xs] == sm,
        nv1[xt] == tm,
        forall|x: int, y: int|
            #![trigger e1[x]@.contains(y as usize)]
            0 <= x < nv1.len() && 0 <= y < nv1.len() ==> (e1[x]@.contains(y as usize) <==> ((x < nv0.len()
                && e0[x]@.contains(y as usize)) || (x == xs && y == xt))),
        forall|a: Seq<char>, b: Seq<char>|
            #[trigger] g.module_uses_before(a, b, src, j + 1) == (g.module_uses_before(a, b, src, j) || (a == sm && b
                == tm)),
    ensures
        forall|x: int, y: int|
            #![trigger e1[x]@.contains(y as usize)]
            0 <= x < nv1.len() && 0 <= y < nv1.len() ==> (e1[x]@.contains(y as usize) <==> g.module_uses_before(
                nv1[x],
                nv1[y],
                src,
                j + 1,
            )),
        forall|a: Seq<char>, b: Seq<char>| #[trigger] g.module_uses_before(a, b, src, j + 1) ==> nv1.contains(a) && nv1.contains(b),
{
    let len0 = nv0.len() as int;
    assert forall|k: int| len0 <= k < nv1.len() implies !nv0.contains(#[trigger] nv1[k]) by {
        if nv0.contains(nv1[k]) {
            let m = choose|m: int| 0 <= m < nv0.len() && nv0[m] == nv1[k];
            assert(nv1[m] == nv0[m]);
        }
    }
    assert forall|x: int, y: int|
        #![trigger e1[x]@.contains(y as usize)]
        0 <= x < nv1.len() && 0 <= y < nv1.len() implies (e1[x]@.contains(y as usize) <==> g.module_uses_before(
            nv1[x],
            nv1[y],
            src,
            j + 1,
        )) by {
        assert(g.module_uses_before(nv1[x], nv1[y], src, j + 1) == (g.module_uses_before(nv1[x], nv1[y], src, j) || (
        nv1[x] == sm && nv1[y] == tm)));
        assert((x == xs && y == xt) <==> (nv1[x] == sm && nv1[y] == tm));
        assert(e1[x]@.contains(y as usize) <==> ((x < nv0.len() && e0[x]@.contains(y as usize)) || (x == xs && y == xt)));
        if x < len0 && y < len0 {
            assert(nv1[x] == nv0[x]);
            assert(nv1[y] == nv0[y]);
            assert(e0[x]@.contains(y as usize) <==> g.module_uses_before(nv0[x], nv0[y], src, j));
            assert(e1[x]@.contains(y as usize) <==> g.module_uses_before(nv1[x], nv1[y], src, j + 1));
        } else {
            if g.module_uses_before(nv1[x], nv1[y], src, j) {
                assert(nv0.contains(nv1[x]) && nv0.contains(nv1[y]));
            }
            assert(!g.module_uses_before(nv1[x], nv1[y], src, j));
            if x < len0 {
                assert(set_in(e0[x], nv0.len()));
                if e0[x]@.contains(y as usize) {
                    let k = choose|k: int| 0 <= k < e0[x]@.len() && e0[x]@[k] == y as usize;
                    assert(e0[x]@[k] < nv0.len());
                    assert(y < len0);
                    assert(false);
                }
            }
            assert(!(x < nv0.len() && e0[x]@.contains(y as usize)));
            assert(e1[x]@.contains(y as usize) <==> g.module_uses_before(nv1[x], nv1[y], src, j + 1));
        }
    }
    assert forall|a: Seq<char>, b: Seq<char>| #[trigger] g.module_uses_before(a, b, src, j + 1) implies nv1.contains(a)
        && nv1.contains(b) by {
        if g.module_uses_before(a, b, src, j) {
            let ka = choose|k: int| 0 <= k < nv0.len() && nv0[k] == a;
            let kb = choose|k: int| 0 <= k < nv0.len() && nv0[k] == b;
            assert(nv1[ka] == a);
            assert(nv1[kb] == b);
        } else {
            assert(nv1[xs] == a);
            assert(nv1[xt] == b);
        }
    }
}

/// A value pushed onto a sequence is in it, beside what was there.
pub proof fn lemma_push_contains(s: Seq<usize>, v: usize, y: usize)
    ensures
        s.push(v).contains(y) == (s.contains(y) || y == v),
{
    if s.push(v).contains(y) {
        let k = choose|k: int| 0 <= k < s.push(v).len() && s.push(v)[k] == y;
        if k < s.len() {
            assert(s[k] == y);
        }
    }
    if s.contains(y) {
        let k = choose|k: int| 0 <= k < s.len() && s[k] == y;
        assert(s.push(v)[k] == y);
    }
    if y == v {
        assert(s.push(v)[s.len() as int] == y);
    }
}

/// Every name is an analyzed module or an end of a dependency seen so
/// far, as the dependencies seen grow and the names with them.
proof fn lemma_origins(
    g: &CallGraph,
    e: Seq<(Seq<char>, Seq<char>)>,
    nv0: Seq<Seq<char>>,
    nv: Seq<Seq<char>>,
    s0: int,
    j0: int,
    s1: int,
    j1: int,
)
    requires
        nv0.is_prefix_of(nv),
        forall|a: Seq<char>, b: Seq<char>| #[trigger] g.module_uses_before(a, b, s0, j0) ==> g.module_uses_before(a, b, s1, j1),
        forall|x: int|
            0 <= x < nv0.len() ==> is_entry_module(e, #[trigger] nv0[x]) || (exists|b: Seq<char>| g.module_uses_before(nv0[x], b, s0, j0))
                || (exists|a: Seq<char>| g.module_uses_before(a, nv0[x], s0, j0)),
        forall|x: int|
            nv0.len() <= x < nv.len() ==> (exists|b: Seq<char>| g.module_uses_before(#[trigger] nv[x], b, s1, j1)) || (exists|
                a: Seq<char>,
            | g.module_uses_before(a, nv[x], s1, j1)),
    ensures
        forall|x: int|
            0 <= x < nv.len() ==> is_entry_module(e, #[trigger] nv[x]) || (exists|b: Seq<char>| g.module_uses_before(nv[x], b, s1, j1))
                || (exists|a: Seq<char>| g.module_uses_before(a, nv[x], s1, j1)),
{
    assert forall|x: int| 0 <= x < nv.len() implies is_entry_module(e, #[trigger] nv[x]) || (exists|b: Seq<char>|
        g.module_uses_before(nv[x], b, s1, j1)) || (exists|a: Seq<char>| g.module_uses_before(a, nv[x], s1, j1)) by {
        if x < nv0.len() {
            assert(nv[x] == nv0[x]);
            if !is_entry_module(e, nv0[x]) {
                if exists|b: Seq<char>| g.module_uses_before(nv0[x], b, s0, j0) {
                    let b = choose|b: Seq<char>| g.module_uses_before(nv0[x], b, s0, j0);
                    assert(g.module_uses_before(nv[x], b, s1, j1));
                } else {
                    let a = choose|a: Seq<char>| g.module_uses_before(a, nv0[x], s0, j0);
                    assert(g.module_uses_before(a, nv[x], s1, j1));
                }
            }
        }
    }
}

/// The module of a file, through the module and file names of the
/// analyzed files.
fn file_module(filename: &Option<String>, file_names: &Vec<String>, module_names: &Vec<Vec<char>>) -> (r: Option<Vec<char>>)
    requires
        file_names@.len() == module_names@.len(),
    ensures
        opt_chars(r) == (match filename {
            Some(f) => module_of_file(name_file_pairs(module_names@, file_names@), f@),
            None => None,
        }),
{
    match filename {
        Some(f) => {
            let ghost e = name_file_pairs(module_names@, file_names@);
            let fc = str_to_chars(f.as_str());
            let mut i: usize = 0;
            proof {
                assert(e.skip(0) =~= e);
            }
            while i < file_names.len()
                invariant
                    i <= file_names@.len(),
                    file_names@.len() == module_names@.len(),
                    e == name_file_pairs(module_names@, file_names@),
                    fc@ == f@,
                    *filename == Some(*f),
                    module_of_file(e, f@) == module_of_file(e.skip(i as int), f@),
                decreases file_names.len() - i,
            {
                proof {
                    assert(e.skip(i as int)[0] == e[i as int]);
                    assert(e.skip(i as int).drop_first() =~= e.skip(i as int + 1));
                }
                let fi = str_to_chars(file_names[i].as_str());
                if chars_eq(fi.as_slice(), fc.as_slice()) {
                    proof {
                        assert(e[i as int].1 == f@);
                        assert(e.skip(i as int).len() > 0);
                        assert(module_of_file(e.skip(i as int), f@) == Some(e[i as int].0));
                    }
                    let m = copy_chars(module_names[i].as_slice());
                    proof {
                        assert(m@ == e[i as int].0);
                        assert(opt_chars(Some(m)) == module_of_file(e, f@));
                    }
                    return Some(m);
                }
                i = i + 1;
            }
            proof {
                assert(e.skip(i as int).len() == 0);
            }
            None
        },
        None => None,
    }
}

impl CallGraph {
    /// The id of the module node named `name`, created (with an empty
    /// namespace and no edges) if there is none yet.
    #[verifier::loop_isolation(false)]
    fn ensure_module(&mut self, names: &mut Vec<Vec<char>>, nodes: &mut Vec<Node>, edges: &mut Vec<ValueSet>, name: &[char]) -> (r: NodeId)
        requires
            old(self).wf(),
            module_nodes(old(nodes)@, char_views(old(names)@), &old(self).interner),
            distinct(char_views(old(names)@)),
            old(edges)@.len() == old(nodes)@.len(),
            edges_in(old(edges)@, old(nodes)@.len()),
        ensures
            final(self).wf(),
            final(self).nodes_arena == old(self).nodes_arena,
            final(self).uses_edges == old(self).uses_edges,
            final(self).defines_edges == old(self).defines_edges,
            final(self).defined == old(self).defined,
            final(self).diagnostics == old(self).diagnostics,
            final(self).module_to_filename == old(self).module_to_filename,
            old(self).grows_to(final(self)),
            module_nodes(final(nodes)@, char_views(final(names)@), &final(self).interner),
            distinct(char_views(final(names)@)),
            final(edges)@.len() == final(nodes)@.len(),
            edges_in(final(edges)@, final(nodes)@.len()),
            r < final(nodes)@.len(),
            char_views(final(names)@)[r as int] == name@,
            char_views(old(names)@).is_prefix_of(char_views(final(names)@)),
            final(nodes)@.len() <= old(nodes)@.len() + 1,
            char_views(old(names)@).contains(name@) ==> final(nodes)@.len() == old(nodes)@.len()
                && char_views(final(names)@) == char_views(old(names)@),
            !char_views(old(names)@).contains(name@) ==> r == old(nodes)@.len() && char_views(final(names)@)
                == char_views(old(names)@).push(name@),
            forall|k: int| 0 <= k < old(nodes)@.len() ==> #[trigger] final(nodes)@[k] == old(nodes)@[k],
            forall|k: int| 0 <= k < old(nodes)@.len() ==> #[trigger] final(edges)@[k] == old(edges)@[k],
            forall|k: int| old(nodes)@.len() <= k < final(nodes)@.len() ==> (#[trigger] final(edges)@[k])@.len() == 0,
            forall|k: int| old(nodes)@.len() <= k < final(nodes)@.len() ==> (#[trigger] final(nodes)@[k]).filename.is_none(),
    {
        let ghost nv = char_views(names@);
        let mut i: usize = 0;
        while i < names.len()
            invariant
                i <= names@.len(),
                nv == char_views(names@),
                forall|k: int| 0 <= k < i ==> nv[k] != name@,
            decreases names.len() - i,
        {
            if chars_eq(names[i].as_slice(), name) {
                proof {
                    assert(nv.is_prefix_of(nv));
                    assert(nv[i as int] == name@);
                    assert(nv.contains(name@));
                }
                return i;
            }
            i = i + 1;
        }
        let id = nodes.len();
        let ghost n0 = nodes@;
        let ghost e0 = edges@;
        let ghost i0 = self.interner;
        let ns_sym = self.intern("");
        let ghost i1 = self.interner;
        let name_sym = self.intern(chars_to_string(name).as_str());
        proof {
            reveal_strlit("");
            assert(i1.extends(&self.interner));
            assert(i0.extends(&self.interner));
            lemma_module_nodes_extend(n0, nv, &i0, &self.interner);
            assert(self.interner.str_of(ns_sym) == i1.str_of(ns_sym));
            assert(!nv.contains(name@)) by {
                if nv.contains(name@) {
                    let k = choose|k: int| 0 <= k < nv.len() && nv[k] == name@;
                    assert(nv[k] != name@);
                }
            }
        }
        let e = ValueSet::empty();
        proof {
            lemma_edges_push(edges@, nodes@.len(), e);
        }
        let node = Node::new(Some(ns_sym), name_sym, Flavor::Module);
        nodes.push(node);
        names.push(copy_chars(name));
        edges.push(e);
        proof {
            assert(char_views(names@) =~= nv.push(name@));
            assert(nv.is_prefix_of(char_views(names@)));
            assert forall|k: int| 0 <= k < nodes@.len() implies {
                &&& (#[trigger] nodes@[k]).ids_in(&self.interner)
                &&& nodes@[k].flavor == Flavor::Module
                &&& nodes@[k].namespace.is_some()
                &&& self.interner.str_of(nodes@[k].namespace.unwrap()) == Seq::<char>::empty()
                &&& self.interner.str_of(nodes@[k].name) == char_views(names@)[k]
                &&& nodes@[k].line.is_none()
            } by {
                if k < n0.len() {
                    assert(nodes@[k] == n0[k]);
                }
            }
            assert forall|a: int, b: int|
                0 <= a < char_views(names@).len() && 0 <= b < char_views(names@).len() && a != b implies char_views(names@)[a]
                != char_views(names@)[b] by {
                if a < nv.len() && b < nv.len() {
                    assert(nv[a] != nv[b]);
                }
            }
        }
        id
    }
}

impl CallGraph {
    /// The module-level dependency graph (see `is_module_graph`): the
    /// module nodes, their uses edges, and which are defined (all of
    /// them). The new names go into this graph's interner; nothing else of
    /// the graph changes.
    pub fn derive_module_graph(&mut self) -> (r: (Vec<Node>, Vec<ValueSet>, Vec<bool>))
        requires
            old(self).wf(),
        ensures
            final(self).wf(),
            final(self).nodes_arena == old(self).nodes_arena,
            final(self).uses_edges == old(self).uses_edges,
            final(self).defines_edges == old(self).defines_edges,
            final(self).defined == old(self).defined,
            final(self).diagnostics == old(self).diagnostics,
            final(self).module_to_filename == old(self).module_to_filename,
            old(self).grows_to(final(self)),
            old(self).is_module_graph(r.0@, r.1@, &final(self).interner),
            edges_in(r.1@, r.0@.len()),
            r.2@.len() == r.0@.len(),
            forall|i: int| 0 <= i < r.2@.len() ==> #[trigger] r.2@[i],
            forall|i: int| 0 <= i < r.0@.len() ==> #[trigger] r.0@[i].ids_in(&final(self).interner),
    {
        let ghost g = *self;
        let ghost e = g.module_entries();
        let mut module_names: Vec<Vec<char>> = Vec::new();
        let mut file_names: Vec<String> = Vec::new();
        let mut i: usize = 0;
        while i < self.module_to_filename.len()
            invariant
                *self == g,
                g.wf(),
                e == g.module_entries(),
                i <= e.len(),
                module_names@.len() == i,
                file_names@.len() == i,
                forall|k: int| 0 <= k < i ==> (#[trigger] module_names@[k])@ == e[k].0 && file_names@[k]@ == e[k].1,
            decreases self.module_to_filename.len() - i,
        {
            let (m, f) = self.module_to_filename[i];
            proof {
                assert(self.interner.has_id(self.module_to_filename@[i as int].0));
            }
            module_names.push(str_to_chars(self.interner.resolve(m)));
            file_names.push(self.interner.resolve(f).to_owned());
            i = i + 1;
        }
        proof {
            assert(name_file_pairs(module_names@, file_names@) =~= e);
        }
        let mut names: Vec<Vec<char>> = Vec::new();
        let mut nodes: Vec<Node> = Vec::new();
        let mut edges: Vec<ValueSet> = Vec::new();
        let mut i: usize = 0;
        proof {
            assert(char_views(names@) =~= Seq::<Seq<char>>::empty());
        }
        while i < module_names.len()
            invariant
                self.wf(),
                g.wf(),
                self.nodes_arena == g.nodes_arena,
                self.uses_edges == g.uses_edges,
                self.defines_edges == g.defines_edges,
                self.defined == g.defined,
                self.diagnostics == g.diagnostics,
                self.module_to_filename == g.module_to_filename,
                g.grows_to(self),
                e == g.module_entries(),
                name_file_pairs(module_names@, file_names@) == e,
                module_names@.len() == e.len(),
                file_names@.len() == e.len(),
                i <= e.len(),
                module_nodes(nodes@, char_views(names@), &self.interner),
                distinct(char_views(names@)),
                edges@.len() == nodes@.len(),
                edges_in(edges@, nodes@.len()),
                forall|x: int| 0 <= x < edges@.len() ==> (#[trigger] edges@[x])@.len() == 0,
                forall|k: int| 0 <= k < i ==> char_views(names@).contains((#[trigger] e[k]).0),
                forall|x: int| 0 <= x < nodes@.len() ==> is_entry_module(e.take(i as int), #[trigger] char_views(names@)[x]),
                forall|x: int|
                    0 <= x < nodes@.len() ==> opt_view((#[trigger] nodes@[x]).filename) == file_of_module(
                        e.take(i as int),
                        char_views(names@)[x],
                    ),
            decreases module_names.len() - i,
        {
            let ghost nv0 = char_views(names@);
            let ghost n0 = nodes@;
            let ghost ed0 = edges@;
            let ghost t0 = e.take(i as int);
            let ghost t1 = e.take(i as int + 1);
            let id = self.ensure_module(&mut names, &mut nodes, &mut edges, module_names[i].as_slice());
            let ghost nv1 = char_views(names@);
            let ghost n1 = nodes@;
            let nd = Node {
                namespace: nodes[id].namespace,
                name: nodes[id].name,
                flavor: nodes[id].flavor,
                filename: Some(file_names[i].clone()),
                line: nodes[id].line,
            };
            nodes.set(id, nd);
            proof {
                assert(e[i as int].0 == module_names@[i as int]@);
                assert(e[i as int].1 == file_names@[i as int]@);
                assert(nv1[id as int] == e[i as int].0);
                assert(n1[id as int].ids_in(&self.interner));
                assert forall|k: int| 0 <= k < nodes@.len() implies {
                    &&& (#[trigger] nodes@[k]).ids_in(&self.interner)
                    &&& nodes@[k].flavor == Flavor::Module
                    &&& nodes@[k].namespace.is_some()
                    &&& self.interner.str_of(nodes@[k].namespace.unwrap()) == Seq::<char>::empty()
                    &&& self.interner.str_of(nodes@[k].name) == nv1[k]
                    &&& nodes@[k].line.is_none()
                } by {
                    assert(n1[k].ids_in(&self.interner));
                }
                assert forall|x: int| 0 <= x < edges@.len() implies (#[trigger] edges@[x])@.len() == 0 by {
                    if x < ed0.len() {
                        assert(edges@[x] == ed0[x]);
                    }
                }
                assert forall|k: int| 0 <= k < i + 1 implies nv1.contains((#[trigger] e[k]).0) by {
                    if k < i {
                        assert(nv0.contains(e[k].0));
                        let m = choose|m: int| 0 <= m < nv0.len() && nv0[m] == e[k].0;
                        assert(nv1[m] == nv0[m]);
                    } else {
                        assert(nv1[id as int] == e[k].0);
                    }
                }
                assert forall|x: int| 0 <= x < nodes@.len() implies is_entry_module(t1, #[trigger] nv1[x]) by {
                    if x < nv0.len() {
                        assert(nv1[x] == nv0[x]);
                        assert(is_entry_module(t0, nv0[x]));
                        let k = choose|k: int| 0 <= k < t0.len() && (#[trigger] t0[k]).0 == nv0[x];
                        assert(t1[k] == t0[k]);
                    } else {
                        assert(x == id);
                        assert(t1[i as int] == e[i as int]);
                    }
                }
                assert forall|x: int| 0 <= x < nodes@.len() implies opt_view((#[trigger] nodes@[x]).filename) == file_of_module(
                    t1,
                    nv1[x],
                ) by {
                    lemma_file_step(e, i as int, nv1[x]);
                    assert(e.take(i as int + 1) == t1);
                    if x != id {
                        assert(x < nv0.len());
                        assert(nodes@[x] == n0[x]);
                        assert(nv1[x] == nv0[x]);
                        assert(nv1[x] != nv1[id as int]);
                    }
                }
            }
            i = i + 1;
        }
        proof {
            assert(e.take(e.len() as int) =~= e);
            assert forall|a: Seq<char>, b: Seq<char>| !#[trigger] g.module_uses_before(a, b, 0, 0) by {
                g.lemma_before_none(a, b);
            }
            assert forall|x: int, y: int|
                #![trigger edges@[x]@.contains(y as usize)]
                0 <= x < nodes@.len() && 0 <= y < nodes@.len() implies (edges@[x]@.contains(y as usize)
                    <==> g.module_uses_before(char_views(names@)[x], char_views(names@)[y], 0, 0)) by {
                assert(edges@[x]@.len() == 0);
            }
        }
        let n = self.nodes_arena.len();
        let mut src: usize = 0;
        while src < n
            invariant
                self.wf(),
                g.wf(),
                self.nodes_arena == g.nodes_arena,
                self.uses_edges == g.uses_edges,
                self.defines_edges == g.defines_edges,
                self.defined == g.defined,
                self.diagnostics == g.diagnostics,
                self.module_to_filename == g.module_to_filename,
                g.grows_to(self),
                n == g.n(),
                src <= n,
                e == g.module_entries(),
                name_file_pairs(module_names@, file_names@) == e,
                module_names@.len() == e.len(),
                file_names@.len() == e.len(),
                module_nodes(nodes@, char_views(names@), &self.interner),
                distinct(char_views(names@)),
                edges@.len() == nodes@.len(),
                edges_in(edges@, nodes@.len()),
                forall|k: int| 0 <= k < e.len() ==> char_views(names@).contains((#[trigger] e[k]).0),
                forall|x: int|
                    0 <= x < nodes@.len() ==> opt_view((#[trigger] nodes@[x]).filename) == file_of_module(
                        e,
                        char_views(names@)[x],
                    ),
                forall|x: int|
                    0 <= x < nodes@.len() ==> is_entry_module(e, #[trigger] char_views(names@)[x]) || (exists|b: Seq<char>|
                        g.module_uses_before(char_views(names@)[x], b, src as int, 0)) || (exists|a: Seq<char>|
                        g.module_uses_before(a, char_views(names@)[x], src as int, 0)),
                forall|x: int, y: int|
                    #![trigger edges@[x]@.contains(y as usize)]
                    0 <= x < nodes@.len() && 0 <= y < nodes@.len() ==> (edges@[x]@.contains(y as usize)
                        <==> g.module_uses_before(char_views(names@)[x], char_views(names@)[y], src as int, 0)),
                forall|a: Seq<char>, b: Seq<char>|
                    #[trigger] g.module_uses_before(a, b, src as int, 0) ==> char_views(names@).contains(a)
                        && char_views(names@).contains(b),
            decreases n - src,
        {
            let src_mod = file_module(&self.nodes_arena[src].filename, &file_names, &module_names);
            match src_mod {
                None => {
                    proof {
                        assert forall|a: Seq<char>, b: Seq<char>|
                            #[trigger] g.module_uses_before(a, b, src as int + 1, 0) == g.module_uses_before(
                                a,
                                b,
                                src as int,
                                0,
                            ) by {
                            g.lemma_before_homeless(src as int, a, b);
                        }
                        let nv = char_views(names@);
                        lemma_origins(&g, e, nv, nv, src as int, 0, src as int + 1, 0);
                    }
                },
                Some(sm) => {
                    let targets = self.uses_edges[src].iter();
                    let mut j: usize = 0;
                    proof {
                        assert(g.home_module(src as int) == Some(sm@));
                        assert forall|a: Seq<char>, b: Seq<char>|
                            #[trigger] g.module_uses_before(a, b, src as int, 0) == g.module_uses_before(
                                a,
                                b,
                                src as int,
                                0,
                            ) by {}
                    }
                    while j < targets.len()
                        invariant
                            self.wf(),
                            g.wf(),
                            self.nodes_arena == g.nodes_arena,
                            self.uses_edges == g.uses_edges,
                            self.defines_edges == g.defines_edges,
                            self.defined == g.defined,
                            self.diagnostics == g.diagnostics,
                            self.module_to_filename == g.module_to_filename,
                            g.grows_to(self),
                            n == g.n(),
                            src < n,
                            targets@ == g.uses_edges@[src as int]@,
                            j <= targets@.len(),
                            g.home_module(src as int) == Some(sm@),
                            e == g.module_entries(),
                            name_file_pairs(module_names@, file_names@) == e,
                            module_names@.len() == e.len(),
                            file_names@.len() == e.len(),
                            module_nodes(nodes@, char_views(names@), &self.interner),
                            distinct(char_views(names@)),
                            edges@.len() == nodes@.len(),
                            edges_in(edges@, nodes@.len()),
                            forall|k: int| 0 <= k < e.len() ==> char_views(names@).contains((#[trigger] e[k]).0),
                            forall|x: int|
                                0 <= x < nodes@.len() ==> opt_view((#[trigger] nodes@[x]).filename) == file_of_module(
                                    e,
                                    char_views(names@)[x],
                                ),
                            forall|x: int|
                                0 <= x < nodes@.len() ==> is_entry_module(e, #[trigger] char_views(names@)[x]) || (exists|
                                    b: Seq<char>,
                                | g.module_uses_before(char_views(names@)[x], b, src as int, j as int)) || (exists|
                                    a: Seq<char>,
                                | g.module_uses_before(a, char_views(names@)[x], src as int, j as int)),
                            forall|x: int, y: int|
                                #![trigger edges@[x]@.contains(y as usize)]
                                0 <= x < nodes@.len() && 0 <= y < nodes@.len() ==> (edges@[x]@.contains(y as usize)
                                    <==> g.module_uses_before(
                                    char_views(names@)[x],
                                    char_views(names@)[y],
                                    src as int,
                                    j as int,
                                )),
                            forall|a: Seq<char>, b: Seq<char>|
                                #[trigger] g.module_uses_before(a, b, src as int, j as int) ==> char_views(names@).contains(a)
                                    && char_views(names@).contains(b),
                        decreases targets.len() - j,
                    {
                        let tgt = targets[j];
                        proof {
                            assert(set_in(g.uses_edges@[src as int], g.n()));
                            assert(g.uses_edges@[src as int]@[j as int] == tgt);
                            assert(g.interner.extends(&self.interner));
                            assert(g.nodes_arena@[tgt as int].ids_in(&g.interner));
                            lemma_node_extends(g.nodes_arena@[tgt as int], &g.interner, &self.interner);
                        }
                        let tgt_mod: Option<Vec<char>> = if self.nodes_arena[tgt].flavor == Flavor::Module {
                            Some(str_to_chars(self.nodes_arena[tgt].get_name(&self.interner).as_str()))
                        } else {
                            file_module(&self.nodes_arena[tgt].filename, &file_names, &module_names)
                        };
                        proof {
                            assert(opt_chars(tgt_mod) == g.used_module(tgt as int));
                            assert forall|a: Seq<char>, b: Seq<char>|
                                #[trigger] g.module_uses_before(a, b, src as int, j as int + 1) == (g.module_uses_before(
                                    a,
                                    b,
                                    src as int,
                                    j as int,
                                ) || (a != b && g.edge_between(src as int, j as int, a, b))) by {
                                g.lemma_before_step(src as int, j as int, a, b);
                            }
                        }
                        let ghost nv0 = char_views(names@);
                        let ghost e0 = edges@;
                        let ghost n0 = nodes@;
                        let fresh = match &tgt_mod {
                            Some(tm) => !chars_eq(tm.as_slice(), sm.as_slice()),
                            None => false,
                        };
                        if fresh {
                            let tm = tgt_mod.unwrap();
                            let xs = self.ensure_module(&mut names, &mut nodes, &mut edges, sm.as_slice());
                            let ghost nv1 = char_views(names@);
                            let ghost e1 = edges@;
                            let ghost nd1 = nodes@;
                            let xt = self.ensure_module(&mut names, &mut nodes, &mut edges, tm.as_slice());
                            let ghost nv2 = char_views(names@);
                            let ghost e2 = edges@;
                            proof {
                                assert(nv2[xs as int] == nv1[xs as int]);
                                assert(set_in(e2[xs as int], nodes@.len()));
                            }
                            let mut set = edges[xs].duplicate();
                            let _ = set.insert(xt);
                            proof {
                                assert forall|y: usize| #[trigger] set@.contains(y) == (e2[xs as int]@.contains(y) || y == xt) by {
                                    lemma_push_contains(e2[xs as int]@, xt, y);
                                }
                                assert forall|x: usize| #[trigger] set@.contains(x) implies e2[xs as int]@.contains(x)
                                    || x < nodes@.len() by {
                                    if x != xt {
                                        let q = choose|q: int| 0 <= q < set@.len() && set@[q] == x;
                                        if q < e2[xs as int]@.len() {
                                            assert(e2[xs as int]@[q] == x);
                                        }
                                    }
                                }
                                lemma_edges_update(e2, xs as int, set, nodes@.len());
                            }
                            edges.set(xs, set);
                            proof {
                                let nv = char_views(names@);
                                assert(names@.len() == names.len());
                                assert forall|a: Seq<char>, b: Seq<char>|
                                    #[trigger] g.module_uses_before(a, b, src as int, j as int + 1) == (g.module_uses_before(
                                        a,
                                        b,
                                        src as int,
                                        j as int,
                                    ) || (a == sm@ && b == tm@)) by {
                                    if a != b && g.edge_between(src as int, j as int, a, b) {
                                        assert(a == sm@ && b == tm@);
                                    }
                                    if a == sm@ && b == tm@ {
                                        assert(g.edge_between(src as int, j as int, a, b));
                                    }
                                }
                                assert forall|x: int, y: int|
                                    #![trigger edges@[x]@.contains(y as usize)]
                                    0 <= x < nv.len() && 0 <= y < nv.len() implies (edges@[x]@.contains(y as usize) <==> ((
                                    x < nv0.len() && e0[x]@.contains(y as usize)) || (x == xs && y == xt))) by {
                                    if x != xs {
                                        assert(edges@[x] == e2[x]);
                                    }
                                    if x < nv0.len() {
                                        assert(e2[x] == e1[x]);
                                        assert(e1[x] == e0[x]);
                                    } else {
                                        assert(e2[x]@.len() == 0) by {
                                            if x < nv1.len() {
                                                assert(e2[x] == e1[x]);
                                            }
                                        }
                                    }
                                }
                                lemma_add_dependency(&g, src as int, j as int, nv0, e0, nv, edges@, xs as int, xt as int, sm@, tm@);
                                assert forall|x: int| 0 <= x < nodes@.len() implies opt_view((#[trigger] nodes@[x]).filename)
                                    == file_of_module(e, nv[x]) by {
                                    if x < n0.len() {
                                        assert(nodes@[x] == n0[x]);
                                        assert(nv[x] == nv0[x]);
                                    } else {
                                        assert(nodes@[x].filename.is_none()) by {
                                            if x < nd1.len() {
                                                assert(nodes@[x] == nd1[x]);
                                            }
                                        }
                                        assert(!is_entry_module(e, nv[x])) by {
                                            if is_entry_module(e, nv[x]) {
                                                let k = choose|k: int| 0 <= k < e.len() && (#[trigger] e[k]).0 == nv[x];
                                                assert(nv0.contains(e[k].0));
                                                let m = choose|m: int| 0 <= m < nv0.len() && nv0[m] == e[k].0;
                                                assert(nv[m] == nv0[m]);
                                            }
                                        }
                                        lemma_no_file(e, nv[x]);
                                    }
                                }
                                let sv = src as int;
                                let jn = j as int + 1;
                                assert(g.module_uses_before(sm@, tm@, sv, jn));
                                assert forall|x: int| nv0.len() <= x < nv.len() implies (exists|b: Seq<char>|
                                    g.module_uses_before(#[trigger] nv[x], b, sv, jn)) || (exists|a: Seq<char>|
                                    g.module_uses_before(a, nv[x], sv, jn)) by {
                                    if x < nv1.len() {
                                        assert(nv1 == nv0.push(sm@));
                                        assert(nv[x] == nv1[x]);
                                        assert(g.module_uses_before(nv[x], tm@, sv, jn));
                                    } else {
                                        assert(nv == nv1.push(tm@));
                                        assert(g.module_uses_before(sm@, nv[x], sv, jn));
                                    }
                                }
                                lemma_origins(&g, e, nv0, nv, sv, j as int, sv, jn);
                            }
                        } else {
                            proof {
                                assert forall|a: Seq<char>, b: Seq<char>|
                                    #[trigger] g.module_uses_before(a, b, src as int, j as int + 1) == g.module_uses_before(
                                        a,
                                        b,
                                        src as int,
                                        j as int,
                                    ) by {
                                    if a != b && g.edge_between(src as int, j as int, a, b) {
                                        assert(a == sm@);
                                    }
                                }
                                lemma_origins(&g, e, nv0, nv0, src as int, j as int, src as int, j as int + 1);
                            }
                        }
                        j = j + 1;
                    }
                    proof {
                        assert forall|a: Seq<char>, b: Seq<char>|
                            #[trigger] g.module_uses_before(a, b, src as int + 1, 0) == g.module_uses_before(
                                a,
                                b,
                                src as int,
                                targets@.len() as int,
                            ) by {
                            g.lemma_before_next(src as int, a, b);
                        }
                        let nv = char_views(names@);
                        lemma_origins(&g, e, nv, nv, src as int, targets@.len() as int, src as int + 1, 0);
                    }
                },
            }
            src = src + 1;
        }
        let mut defined: Vec<bool> = Vec::new();
        let mut k: usize = 0;
        while k < nodes.len()
            invariant
                k <= nodes@.len(),
                defined@.len() == k,
                forall|a: int| 0 <= a < k ==> #[trigger] defined@[a],
            decreases nodes.len() - k,
        {
            defined.push(true);
            k = k + 1;
        }
        proof {
            let nv = char_views(names@);
            let gi = &self.interner;
            let nn = g.n() as int;
            assert forall|a: Seq<char>, b: Seq<char>| #[trigger] g.module_uses_before(a, b, nn, 0) == g.module_uses(a, b) by {
                g.lemma_before_all(a, b);
            }
            assert forall|i: int| 0 <= i < nodes@.len() implies (#[trigger] nodes@[i]).full_name(gi) == nv[i] by {
                lemma_module_full_name(nodes@, nv, gi, i);
            }
            assert forall|i: int| 0 <= i < nodes@.len() implies {
                &&& (#[trigger] nodes@[i]).flavor == Flavor::Module
                &&& nodes@[i].line.is_none()
                &&& opt_view(nodes@[i].filename) == file_of_module(g.module_entries(), nodes@[i].full_name(gi))
                &&& (is_entry_module(g.module_entries(), nodes@[i].full_name(gi)) || (exists|b: Seq<char>|
                    g.module_uses(nodes@[i].full_name(gi), b)) || (exists|a: Seq<char>| g.module_uses(a, nodes@[i].full_name(gi))))
            } by {
                assert(nodes@[i].full_name(gi) == nv[i]);
                if !is_entry_module(e, nv[i]) {
                    if exists|b: Seq<char>| g.module_uses_before(nv[i], b, nn, 0) {
                        let b = choose|b: Seq<char>| g.module_uses_before(nv[i], b, nn, 0);
                        assert(g.module_uses(nv[i], b));
                    } else {
                        let a = choose|a: Seq<char>| g.module_uses_before(a, nv[i], nn, 0);
                        assert(g.module_uses(a, nv[i]));
                    }
                }
            }
            assert forall|i: int, j: int|
                0 <= i < nodes@.len() && 0 <= j < nodes@.len() && i != j implies (#[trigger] nodes@[i]).full_name(gi)
                != (#[trigger] nodes@[j]).full_name(gi) by {
                assert(nv[i] != nv[j]);
            }
            assert forall|k: int| 0 <= k < g.module_entries().len() implies exists|i: int|
                0 <= i < nodes@.len() && (#[trigger] nodes@[i]).full_name(gi) == (#[trigger] g.module_entries()[k]).0 by {
                assert(nv.contains(e[k].0));
                let i = choose|i: int| 0 <= i < nv.len() && nv[i] == e[k].0;
                assert(nodes@[i].full_name(gi) == nv[i]);
            }
            assert forall|a: Seq<char>, b: Seq<char>| #[trigger] g.module_uses(a, b) implies (exists|i: int|
                0 <= i < nodes@.len() && (#[trigger] nodes@[i]).full_name(gi) == a) && (exists|j: int|
                0 <= j < nodes@.len() && (#[trigger] nodes@[j]).full_name(gi) == b) by {
                assert(g.module_uses_before(a, b, nn, 0));
                let i = choose|i: int| 0 <= i < nv.len() && nv[i] == a;
                let j = choose|j: int| 0 <= j < nv.len() && nv[j] == b;
                assert(nodes@[i].full_name(gi) == nv[i]);
                assert(nodes@[j].full_name(gi) == nv[j]);
            }
            assert forall|i: int, j: int|
                #![trigger edges@[i]@.contains(j as usize)]
                #![trigger nodes@[i], nodes@[j]]
                0 <= i < nodes@.len() && 0 <= j < nodes@.len() implies (edges@[i]@.contains(j as usize)
                    <==> g.module_uses(nodes@[i].full_name(gi), nodes@[j].full_name(gi))) by {
                assert(nodes@[i].full_name(gi) == nv[i]);
                assert(nodes@[j].full_name(gi) == nv[j]);
                assert(edges@[i]@.contains(j as usize) <==> g.module_uses_before(nv[i], nv[j], nn, 0));
            }
            assert forall|i: int| 0 <= i < nodes@.len() implies #[trigger] nodes@[i].ids_in(gi) by {}
        }
        (nodes, edges, defined)
    }
}

impl CallGraph {
    /// The module-level dependency graph as a call graph of its own: the
    /// module nodes and their uses edges, all defined, no defines edges,
    /// with this graph's strings and diagnostics.
    pub fn module_graph(&mut self) -> (r: CallGraph)
        requires
            old(self).wf(),
        ensures
            final(self).wf(),
            r.wf(),
            r.interner@ == final(self).interner@,
            r.diagnostics.external_references@ == final(self).diagnostics.external_references@,
            forall|i: int| 0 <= i < r.nodes_arena@.len() ==> #[trigger] r.defined@[i],
            forall|i: int| 0 <= i < r.nodes_arena@.len() ==> (#[trigger] r.defines_edges@[i])@.len() == 0,
            final(self).nodes_arena == old(self).nodes_arena,
            final(self).uses_edges == old(self).uses_edges,
            final(self).defines_edges == old(self).defines_edges,
            final(self).defined == old(self).defined,
            final(self).diagnostics == old(self).diagnostics,
            final(self).module_to_filename == old(self).module_to_filename,
            old(self).grows_to(final(self)),
            old(self).is_module_graph(r.nodes_arena@, r.uses_edges@, &final(self).interner),
            forall|i: int| 0 <= i < r.nodes_arena@.len() ==> !(#[trigger] r.uses_edges@[i])@.contains(i as usize),
    {
        let (nodes, uses, defined) = self.derive_module_graph();
        let mut defines: Vec<ValueSet> = Vec::new();
        let mut i: usize = 0;
        while i < nodes.len()
            invariant
                i <= nodes@.len(),
                defines@.len() == i,
                forall|k: int| 0 <= k < i ==> (#[trigger] defines@[k])@.len() == 0,
            decreases nodes.len() - i,
        {
            defines.push(ValueSet::empty());
            i = i + 1;
        }
        let mut module_to_filename: Vec<(SymId, SymId)> = Vec::new();
        let mut k: usize = 0;
        while k < self.module_to_filename.len()
            invariant
                self.wf(),
                k <= self.module_to_filename@.len(),
                module_to_filename@ == self.module_to_filename@.take(k as int),
            decreases self.module_to_filename.len() - k,
        {
            module_to_filename.push(self.module_to_filename[k]);
            proof {
                assert(module_to_filename@ =~= self.module_to_filename@.take(k + 1));
            }
            k = k + 1;
        }
        proof {
            assert(module_to_filename@ =~= self.module_to_filename@);
        }
        let r = CallGraph {
            interner: self.interner.duplicate(),
            nodes_arena: nodes,
            defines_edges: defines,
            uses_edges: uses,
            defined,
            diagnostics: copy_diagnostics(&self.diagnostics),
            module_to_filename,
        };
        proof {
            assert(r.interner@ == self.interner@);
            assert forall|i: int| 0 <= i < r.nodes_arena@.len() implies #[trigger] r.nodes_arena@[i].ids_in(&r.interner) by {
                assert(r.nodes_arena@[i].ids_in(&self.interner));
            }
            assert forall|k: int| 0 <= k < r.module_to_filename@.len() implies r.interner.has_id(#[trigger] r.module_to_filename@[k].0)
                && r.interner.has_id(r.module_to_filename@[k].1) by {
                assert(self.interner.has_id(self.module_to_filename@[k].0));
            }
            assert(edges_in(r.defines_edges@, r.nodes_arena@.len())) by {
                assert forall|k: int| 0 <= k < r.defines_edges@.len() implies set_in(#[trigger] r.defines_edges@[k], r.nodes_arena@.len()) by {
                    assert(r.defines_edges@[k]@.len() == 0);
                }
            }
            let gi = &self.interner;
            assert forall|i: int| 0 <= i < r.nodes_arena@.len() implies !(#[trigger] r.uses_edges@[i])@.contains(i as usize) by {
                assert(r.uses_edges@[i]@.contains(i as usize) <==> old(self).module_uses(
                    r.nodes_arena@[i].full_name(gi),
                    r.nodes_arena@[i].full_name(gi),
                ));
            }
        }
        r
    }
}

} // verus!
