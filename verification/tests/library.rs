//! Tests of the library's building blocks: method resolution order, safe
//! labels, nodes and flavors.

use std::collections::HashSet;

use pycg_rs::analyzer::mro::resolve_mro;
use pycg_rs::intern::Interner;
use pycg_rs::node::{Flavor, Node};
use pycg_rs::paths::dotted_module_name;
use pycg_rs::query::{infer_target_kind, TargetKind};
use pycg_rs::scope::ValueSet;
use pycg_rs::visgraph::{make_safe_label, Colorizer, VisualGraph, VisualOptions};
use pycg_rs::writer::{write_dot, write_text, write_tgf};

/// A fill for colored nodes: one shade per group.
fn test_fill(group: usize, _hues: usize, _level: usize) -> String {
    format!("#{:02x}8080b2", (group * 40) % 256)
}

/// No edges for `n` nodes.
fn no_edges(n: usize) -> Vec<ValueSet> {
    (0..n).map(|_| ValueSet::empty()).collect()
}

/// Edge lists for `n` nodes from (source, target) pairs.
fn edge_lists(n: usize, pairs: &[(usize, usize)]) -> Vec<ValueSet> {
    let mut v = no_edges(n);
    for &(a, b) in pairs {
        v[a].insert(b);
    }
    v
}

fn make_test_graph() -> VisualGraph {
    let mut interner = Interner::new();
    let pkg = interner.intern("pkg");
    let other = interner.intern("other");
    let foo = interner.intern("Foo");
    let bar = interner.intern("bar");
    let baz = interner.intern("baz");

    let nodes_arena = vec![
        Node::new(Some(pkg), foo, Flavor::Class).with_location("pkg.py", 1),
        Node::new(Some(pkg), bar, Flavor::Function).with_location("pkg.py", 10),
        Node::new(Some(other), baz, Flavor::Function).with_location("other.py", 5),
    ];
    let defined = vec![true, true, true];
    let uses = edge_lists(3, &[(0, 1), (1, 2)]);
    let defines = edge_lists(3, &[(0, 1)]);

    let options = VisualOptions { draw_defines: true, draw_uses: true, colored: true, grouped: false, annotated: false };

    VisualGraph::from_call_graph(&nodes_arena, &defined, &defines, &uses, &options, &interner, &test_fill)
}

fn mro_of(mro: &[(usize, Vec<usize>)], cls: usize) -> Vec<usize> {
    mro.iter().find(|(k, _)| *k == cls).map(|(_, v)| v.clone()).expect("class has an MRO")
}

#[test]
fn mro_test_resolve_mro_simple() {
    // A -> B -> C (linear chain)
    let bases = vec![(0, vec![1]), (1, vec![2]), (2, vec![])];
    let mro = resolve_mro(&bases);
    assert_eq!(mro_of(&mro, 0), vec![0, 1, 2]);
    assert_eq!(mro_of(&mro, 1), vec![1, 2]);
    assert_eq!(mro_of(&mro, 2), vec![2]);
}

#[test]
fn mro_test_resolve_mro_diamond() {
    // D inherits from B, C; both B and C inherit from A
    let bases = vec![(3, vec![1, 2]), (1, vec![0]), (2, vec![0]), (0, vec![])];
    let mro = resolve_mro(&bases);
    assert_eq!(mro_of(&mro, 3), vec![3, 1, 2, 0]);
}

#[test]
fn mro_deep_diamond_is_c3_in_any_order() {
    // D(B, C), B(A), C(A), A(Z): every class's MRO is its C3 linearization,
    // whichever class is linearized first.
    let orders: Vec<Vec<usize>> = vec![vec![3, 1, 2, 0, 9], vec![9, 0, 2, 1, 3], vec![2, 3, 0, 9, 1]];
    for order in orders {
        let all = vec![(3, vec![1, 2]), (1, vec![0]), (2, vec![0]), (0, vec![9]), (9, vec![])];
        let bases: Vec<(usize, Vec<usize>)> =
            order.iter().map(|k| all.iter().find(|(c, _)| c == k).unwrap().clone()).collect();
        let mro = resolve_mro(&bases);
        assert_eq!(mro_of(&mro, 3), vec![3, 1, 2, 0, 9]);
        assert_eq!(mro_of(&mro, 2), vec![2, 0, 9]);
        assert_eq!(mro_of(&mro, 1), vec![1, 0, 9]);
        assert_eq!(mro_of(&mro, 0), vec![0, 9]);
        assert_eq!(mro_of(&mro, 9), vec![9]);
    }
}

#[test]
fn mro_of_class_without_bases_is_the_class() {
    let bases = vec![(7, vec![]), (8, vec![7])];
    let mro = resolve_mro(&bases);
    assert_eq!(mro_of(&mro, 7), vec![7]);
    assert_eq!(mro_of(&mro, 8), vec![8, 7]);
}

#[test]
fn mro_of_inconsistent_hierarchy_stops_merging() {
    // X(A, B) and Y(B, A) cannot both be linearized under Z(X, Y).
    let bases = vec![(10, vec![11, 12]), (11, vec![]), (12, vec![]), (13, vec![12, 11]), (14, vec![10, 13])];
    let mro = resolve_mro(&bases);
    assert_eq!(mro_of(&mro, 14), vec![14, 10, 13]);
    assert_eq!(mro.len(), 5);
}

#[test]
fn test_make_safe_label() {
    assert_eq!(make_safe_label("my.graph.node"), "my__graphX__nodeX");
    assert_eq!(make_safe_label("digraph"), "digraphXX");
    assert_eq!(make_safe_label("foo*bar"), "foobar");
    assert_eq!(make_safe_label("my-package.mod"), "my_package__mod");
}

#[test]
fn test_node_equality_and_hash() {
    let mut interner = Interner::new();
    let pkg = interner.intern("pkg");
    let other = interner.intern("other");
    let foo = interner.intern("Foo");
    let a = Node::new(Some(pkg), foo, Flavor::Class);
    let b = Node::new(Some(pkg), foo, Flavor::Function);
    let c = Node::new(Some(other), foo, Flavor::Class);
    assert_eq!(a, b, "same namespace+name should be equal regardless of flavor");
    assert_ne!(a, c, "different namespace should not be equal");
    let mut set = HashSet::new();
    set.insert(a.clone());
    assert!(set.contains(&b), "equal nodes must have same hash");
    assert!(!set.contains(&c), "different nodes must not collide");
}

#[test]
fn test_node_specificity_ordering() {
    assert!(Flavor::Function.specificity() > Flavor::Module.specificity());
    assert!(Flavor::Method.specificity() > Flavor::Function.specificity());
    assert!(Flavor::Module.specificity() > Flavor::ImportedItem.specificity());
    assert!(Flavor::ImportedItem.specificity() > Flavor::Name.specificity());
    assert!(Flavor::Unknown.specificity() > Flavor::Unspecified.specificity());
}

#[test]
fn test_flavor_display() {
    assert_eq!(Flavor::Module.to_text(), "module");
    assert_eq!(Flavor::Function.to_text(), "function");
    assert_eq!(Flavor::Class.to_text(), "class");
    assert_eq!(Flavor::Method.to_text(), "method");
}

#[test]
fn node_names_full_and_short() {
    let mut interner = Interner::new();
    let ns = interner.intern("pkg.sub");
    let name = interner.intern("func");
    let n = Node::new(Some(ns), name, Flavor::Function);
    assert_eq!(n.get_name(&interner), "pkg.sub.func");
    assert_eq!(n.get_short_name(&interner), "func");
    let empty = interner.intern("");
    let m = interner.intern("mod");
    let root = Node::new(Some(empty), m, Flavor::Module);
    assert_eq!(root.get_name(&interner), "mod");
    let wild = Node::new(None, name, Flavor::Unknown);
    assert_eq!(wild.get_name(&interner), "func");
}

#[test]
fn interning_is_idempotent() {
    let mut interner = Interner::new();
    let a = interner.intern("alpha");
    let b = interner.intern("beta");
    assert_ne!(a, b);
    assert_eq!(interner.intern("alpha"), a);
    assert_eq!(interner.len(), 2);
    assert_eq!(interner.resolve(b), "beta");
    assert_eq!(interner.lookup("gamma"), None);
}

#[test]
fn test_colorizer_uncolored() {
    let mut interner = Interner::new();
    let ns = interner.intern("ns");
    let name = interner.intern("f");
    let mut c = Colorizer::new(3, false);
    let node = Node::new(Some(ns), name, Flavor::Function);
    let (_, fill, text) = c.make_colors(&node, &interner, &test_fill);
    assert_eq!(fill, "#ffffffb2");
    assert_eq!(text, "#000000");
}

#[test]
fn test_colorizer_wraps() {
    let mut interner = Interner::new();
    let ns = interner.intern("ns");
    let a = interner.intern("a");
    let b = interner.intern("b");
    let c_name = interner.intern("c");
    let mut c = Colorizer::new(2, true);
    let n1 = Node::new(Some(ns), a, Flavor::Function).with_location("file1.py", 1);
    let n2 = Node::new(Some(ns), b, Flavor::Function).with_location("file2.py", 1);
    let n3 = Node::new(Some(ns), c_name, Flavor::Function).with_location("file3.py", 1);
    let (i1, _, _) = c.make_colors(&n1, &interner, &test_fill);
    let (i2, _, _) = c.make_colors(&n2, &interner, &test_fill);
    let (i3, _, _) = c.make_colors(&n3, &interner, &test_fill);
    assert_eq!(i1, 0);
    assert_eq!(i2, 1);
    assert_eq!(i3, 0); // wrapped
}

#[test]
fn colorizer_keeps_the_group_of_a_file() {
    let mut interner = Interner::new();
    let ns = interner.intern("ns");
    let a = interner.intern("a");
    let b = interner.intern("b");
    let mut c = Colorizer::new(4, true);
    let n1 = Node::new(Some(ns), a, Flavor::Function).with_location("same.py", 1);
    let n2 = Node::new(Some(ns), b, Flavor::Function).with_location("same.py", 9);
    let (i1, f1, t1) = c.make_colors(&n1, &interner, &test_fill);
    let (i2, f2, _) = c.make_colors(&n2, &interner, &test_fill);
    assert_eq!(i1, i2);
    assert_eq!(f1, f2);
    assert_eq!(f1, test_fill(0, 4, 1));
    assert_eq!(t1, "#000000");
}

#[test]
fn test_from_call_graph_basic() {
    let mut interner = Interner::new();
    let pkg = interner.intern("pkg");
    let a = interner.intern("A");
    let b = interner.intern("B");
    let nodes_arena = vec![
        Node::new(Some(pkg), a, Flavor::Class).with_location("pkg.py", 1),
        Node::new(Some(pkg), b, Flavor::Function).with_location("pkg.py", 10),
    ];
    let defined = vec![true, true];
    let uses_edges = edge_lists(2, &[(0, 1)]);

    let options = VisualOptions { draw_defines: false, draw_uses: true, colored: true, grouped: false, annotated: false };

    let vg = VisualGraph::from_call_graph(&nodes_arena, &defined, &no_edges(2), &uses_edges, &options, &interner, &test_fill);

    assert_eq!(vg.nodes.len(), 2);
    assert_eq!(vg.edges.len(), 1);
    assert_eq!(vg.edges[0].flavor, "uses");
    assert_eq!(vg.subgraphs.len(), 0);
}

#[test]
fn test_from_call_graph_grouped() {
    let mut interner = Interner::new();
    let pkg = interner.intern("pkg");
    let other = interner.intern("other");
    let a = interner.intern("A");
    let b = interner.intern("B");
    let nodes_arena = vec![
        Node::new(Some(pkg), a, Flavor::Class).with_location("pkg.py", 1),
        Node::new(Some(other), b, Flavor::Function).with_location("other.py", 5),
    ];
    let defined = vec![true, true];

    let options = VisualOptions { draw_defines: false, draw_uses: false, colored: false, grouped: true, annotated: false };

    let vg = VisualGraph::from_call_graph(&nodes_arena, &defined, &no_edges(2), &no_edges(2), &options, &interner, &test_fill);

    assert!(vg.grouped);
    assert_eq!(vg.subgraphs.len(), 2);
    // Each subgraph should have exactly one node.
    assert_eq!(vg.subgraphs[0].nodes.len(), 1);
    assert_eq!(vg.subgraphs[1].nodes.len(), 1);
}

#[test]
fn test_from_call_graph_grouped_annotated_labels_include_locations() {
    let mut interner = Interner::new();
    let pkg = interner.intern("pkg");
    let a = interner.intern("A");
    let nodes_arena = vec![Node::new(Some(pkg), a, Flavor::Class).with_location("pkg.py", 7)];
    let defined = vec![true];

    let options = VisualOptions { draw_defines: false, draw_uses: false, colored: false, grouped: true, annotated: true };

    let vg = VisualGraph::from_call_graph(&nodes_arena, &defined, &no_edges(1), &no_edges(1), &options, &interner, &test_fill);

    let label = &vg.subgraphs[0].nodes[0].label;
    assert!(label.contains("A"));
    assert!(label.contains("pkg.py:7"));
}

#[test]
fn from_call_graph_leaves_out_undefined_nodes_and_their_edges() {
    let mut interner = Interner::new();
    let pkg = interner.intern("pkg");
    let a = interner.intern("a");
    let b = interner.intern("b");
    let c = interner.intern("c");
    let nodes_arena = vec![
        Node::new(Some(pkg), c, Flavor::Function),
        Node::new(Some(pkg), a, Flavor::Function),
        Node::new(None, b, Flavor::Unknown),
    ];
    let defined = vec![true, true, false];
    let uses = edge_lists(3, &[(1, 0), (1, 2)]);
    let defines = edge_lists(3, &[(0, 1)]);
    let options = VisualOptions { draw_defines: true, draw_uses: true, colored: false, grouped: false, annotated: false };
    let vg = VisualGraph::from_call_graph(&nodes_arena, &defined, &defines, &uses, &options, &interner, &test_fill);
    // Nodes in name order: pkg.a, then pkg.c.
    assert_eq!(vg.nodes.len(), 2);
    assert_eq!(vg.nodes[0].label, "a");
    assert_eq!(vg.nodes[1].label, "c");
    // The defines edge comes first, then the uses edge; the edge to the
    // undefined node is gone.
    assert_eq!(vg.edges.len(), 2);
    assert_eq!(vg.edges[0].flavor, "defines");
    assert_eq!((vg.edges[0].source_idx, vg.edges[0].target_idx), (1, 0));
    assert_eq!(vg.edges[1].flavor, "uses");
    assert_eq!((vg.edges[1].source_idx, vg.edges[1].target_idx), (0, 1));
}

#[test]
fn test_dot_output_structure() {
    let g = make_test_graph();
    let dot = write_dot(&g, &vec!["rankdir=TB".to_string()]);
    assert!(dot.starts_with("digraph G {"));
    assert!(dot.contains("rankdir=TB"));
    assert!(dot.contains("style=\"filled\""));
    assert!(dot.ends_with("}\n"));
}

#[test]
fn test_dot_grouped() {
    let mut interner = Interner::new();
    let pkg = interner.intern("pkg");
    let other = interner.intern("other");
    let a = interner.intern("A");
    let b = interner.intern("B");

    let nodes_arena = vec![
        Node::new(Some(pkg), a, Flavor::Class).with_location("pkg.py", 1),
        Node::new(Some(other), b, Flavor::Function).with_location("other.py", 5),
    ];
    let defined = vec![true, true];

    let options = VisualOptions { draw_defines: false, draw_uses: false, colored: false, grouped: true, annotated: false };

    let g = VisualGraph::from_call_graph(&nodes_arena, &defined, &no_edges(2), &no_edges(2), &options, &interner, &test_fill);
    let dot = write_dot(&g, &vec![]);
    assert!(dot.contains("subgraph cluster_"));
    assert!(dot.contains("clusterrank=\"local\""));
}

#[test]
fn test_tgf_output() {
    let g = make_test_graph();
    let tgf = write_tgf(&g);
    // Should contain node lines, separator, and edge lines.
    assert!(tgf.contains("#\n"));
    // Nodes are 1-indexed.
    assert!(tgf.contains("1 "));
}

#[test]
fn tgf_output_lists_nodes_then_edges() {
    let mut interner = Interner::new();
    let pkg = interner.intern("pkg");
    let other = interner.intern("other");
    let foo = interner.intern("Foo");
    let bar = interner.intern("bar");
    let baz = interner.intern("baz");
    let nodes_arena = vec![
        Node::new(Some(pkg), foo, Flavor::Class),
        Node::new(Some(pkg), bar, Flavor::Function),
        Node::new(Some(other), baz, Flavor::Function),
    ];
    let defined = vec![true, true, true];
    let defines = edge_lists(3, &[(0, 1)]);
    let uses = edge_lists(3, &[(1, 2)]);
    let options = VisualOptions { draw_defines: true, draw_uses: true, colored: false, grouped: false, annotated: false };
    let g = VisualGraph::from_call_graph(&nodes_arena, &defined, &defines, &uses, &options, &interner, &test_fill);
    // Nodes in (namespace, name) order: other.baz, pkg.Foo, pkg.bar.
    assert_eq!(write_tgf(&g), "1 baz\n2 Foo\n3 bar\n#\n2 3 D\n3 1 U\n");
    assert_eq!(write_text(&g), "Foo\n    [D] bar\nbar\n    [U] baz\n");
}

#[test]
fn test_text_output() {
    let g = make_test_graph();
    let text = write_text(&g);
    // Should contain [U] and [D] tags.
    assert!(text.contains("[U]") || text.contains("[D]"));
}

fn names(parts: &[&str]) -> Vec<String> {
    parts.iter().map(|p| p.to_string()).collect()
}

#[test]
fn dotted_module_name_starts_at_the_outermost_package() {
    // `src` holds no `__init__.py`: the name starts at `pkg`.
    let parts = names(&["src", "pkg", "sub", "mod"]);
    assert_eq!(dotted_module_name(&parts, &[false, true, true, true]), "pkg.sub.mod");
    // Every entry is part of the name when all are packages.
    assert_eq!(dotted_module_name(&parts, &[true, true, true, true]), "src.pkg.sub.mod");
}

#[test]
fn dotted_module_name_keeps_the_module_itself() {
    let parts = names(&["scripts", "tool"]);
    assert_eq!(dotted_module_name(&parts, &[false, true]), "tool");
    assert_eq!(dotted_module_name(&names(&["tool"]), &[false]), "tool");
    assert_eq!(dotted_module_name(&[], &[]), "");
}

#[test]
fn target_kind_follows_the_given_kind_first() {
    assert_eq!(infer_target_kind("pkg/mod.py", Some(TargetKind::Module), false), TargetKind::Module);
    assert_eq!(infer_target_kind("pkg.mod", Some(TargetKind::Path), false), TargetKind::Path);
}

#[test]
fn target_kind_reads_paths_from_their_shape() {
    assert_eq!(infer_target_kind("mod.py", None, false), TargetKind::Path);
    assert_eq!(infer_target_kind("tests/test_code", None, false), TargetKind::Path);
    assert_eq!(infer_target_kind("pkg\\mod", None, false), TargetKind::Path);
    assert_eq!(infer_target_kind("pkg", None, true), TargetKind::Path);
    assert_eq!(infer_target_kind("test_code.features", None, false), TargetKind::Module);
}

#[test]
fn module_graph_options_draw_uses_only() {
    let options = VisualOptions::from_flags(true, false, true, false, true);
    let m = options.for_module_graph();
    assert!(!m.draw_defines);
    assert!(m.draw_uses);
    assert!(m.colored && !m.grouped && m.annotated);
}
