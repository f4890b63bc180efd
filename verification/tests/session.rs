// Tests of the analysis session: node lookup, edges, returns, scopes and
// the postprocessing steps, on small hand-built states.

use pycg_rs::analyzer::pipeline::SourceFile;
use pycg_rs::analyzer::session::{AnalysisSession, ScopeInfo};
use pycg_rs::node::Flavor;
use pycg_rs::scope::ValueSet;

fn chars(s: &str) -> Vec<char> {
    s.chars().collect()
}

fn new_session() -> AnalysisSession {
    let files: Vec<SourceFile> = Vec::new();
    AnalysisSession::new(&files)
}

fn node(session: &mut AnalysisSession, ns: Option<&str>, name: &str, flavor: Flavor) -> usize {
    let name = chars(name);
    match ns {
        Some(ns) => {
            let ns = chars(ns);
            session.get_node(Some(ns.as_slice()), name.as_slice(), flavor)
        }
        None => session.get_node(None, name.as_slice(), flavor),
    }
}

fn uses_of(session: &AnalysisSession, id: usize) -> Vec<usize> {
    session.graph.uses_edges[id].iter()
}

#[test]
fn get_node_reuses_identity_and_only_upgrades_flavor() {
    let mut session = new_session();
    session.filename = session.graph.intern("fixture.py");

    let id = node(&mut session, Some("pkg.mod"), "thing", Flavor::Namespace);
    let upgraded = node(&mut session, Some("pkg.mod"), "thing", Flavor::Method);
    let downgraded = node(&mut session, Some("pkg.mod"), "thing", Flavor::Name);

    assert_eq!(id, upgraded, "node lookup should reuse the same node id");
    assert_eq!(id, downgraded, "node lookup should stay keyed by namespace+name");
    assert_eq!(session.graph.nodes_arena[id].flavor, Flavor::Method);
}

#[test]
fn record_function_return_sets_dirty_flag_only_for_new_values() {
    let mut session = new_session();
    let func = node(&mut session, Some("pkg.mod"), "factory", Flavor::Function);
    let ret = node(&mut session, Some("pkg.mod"), "Product", Flavor::Class);

    assert!(session.record_function_return(func, ret));
    assert!(session.function_returns_changed, "new return discoveries should mark the pass dirty");

    session.function_returns_changed = false;
    assert!(!session.record_function_return(func, ret), "re-inserting an existing return should be a no-op");
    assert!(!session.function_returns_changed, "duplicate return discoveries should not keep the pass dirty");
}

#[test]
fn add_uses_edge_replaces_matching_wildcard_only() {
    let mut session = new_session();

    let caller = node(&mut session, Some("pkg.mod"), "caller", Flavor::Function);
    let wildcard_foo = node(&mut session, None, "foo", Flavor::Name);
    let wildcard_bar = node(&mut session, None, "bar", Flavor::Name);
    let concrete_foo = node(&mut session, Some("pkg.mod"), "foo", Flavor::Function);

    assert!(session.add_uses_edge(caller, wildcard_foo));
    assert!(session.add_uses_edge(caller, wildcard_bar));
    assert!(session.add_uses_edge(caller, concrete_foo));

    let edges = uses_of(&session, caller);
    assert!(!edges.contains(&wildcard_foo), "concrete resolution should remove the matching wildcard edge");
    assert!(edges.contains(&wildcard_bar), "unrelated wildcard edges should remain");
    assert!(edges.contains(&concrete_foo), "concrete target should remain after wildcard cleanup");
}

#[test]
fn merge_scopes_preserves_existing_exports() {
    let mut session = new_session();
    let kept_sym = session.graph.intern("kept");
    let added_sym = session.graph.intern("added");
    let ns_sym = session.graph.intern("pkg.mod");
    let mut existing = ScopeInfo::new();
    existing.defs.push((kept_sym, ValueSet::empty()));
    existing.all_exports = Some(vec![kept_sym]);
    session.scopes.push((ns_sym, existing));

    let mut incoming = ScopeInfo::new();
    incoming.defs.push((added_sym, ValueSet::empty()));

    session.merge_scopes(&vec![(ns_sym, incoming)]);

    let merged = &session.scopes.iter().find(|(k, _)| *k == ns_sym).expect("merged scope should exist").1;
    assert!(merged.defs.iter().any(|(k, _)| *k == kept_sym));
    assert!(merged.defs.iter().any(|(k, _)| *k == added_sym));
    assert_eq!(
        merged.all_exports,
        Some(vec![kept_sym]),
        "existing __all__ exports should not be overwritten by None"
    );
}

#[test]
fn expand_unknowns_replaces_wildcard_uses_with_concrete_candidates() {
    let mut session = new_session();
    let caller = node(&mut session, Some("pkg"), "caller", Flavor::Function);
    let unknown = node(&mut session, None, "work", Flavor::Unknown);
    let worker_a = node(&mut session, Some("pkg.WorkerA"), "work", Flavor::Method);
    let worker_b = node(&mut session, Some("pkg.WorkerB"), "work", Flavor::Method);

    session.add_uses_edge(caller, unknown);
    session.expand_unknowns();

    let targets = uses_of(&session, caller);
    assert!(targets.contains(&worker_a));
    assert!(targets.contains(&worker_b));
    assert!(!targets.contains(&unknown), "wildcard edge should be replaced by concrete candidates");
    assert!(!session.graph.defined[unknown], "wildcard nodes should be marked undefined after expansion");
}

#[test]
fn resolve_imports_remaps_scope_backed_imported_items() {
    let mut session = new_session();
    let caller = node(&mut session, Some("app"), "caller", Flavor::Function);
    let imported = node(&mut session, Some("lib"), "item", Flavor::ImportedItem);
    let concrete = node(&mut session, Some("lib.impl"), "item", Flavor::Function);

    let lib_sym = session.graph.intern("lib");
    let item_sym = session.graph.intern("item");
    let mut scope = ScopeInfo::new();
    let mut values = ValueSet::empty();
    values.insert(concrete);
    scope.defs.push((item_sym, values));
    session.scopes.push((lib_sym, scope));
    session.add_uses_edge(caller, imported);

    session.resolve_imports();

    let targets = uses_of(&session, caller);
    assert!(targets.contains(&concrete));
    assert!(!targets.contains(&imported), "import placeholder should be remapped to the concrete target");
}

#[test]
fn contract_nonexistents_records_external_references_before_wildcarding() {
    let mut session = new_session();
    let caller = node(&mut session, Some("app"), "caller", Flavor::Function);
    let file = session.graph.intern("app.py");
    session.associate_node(caller, file, 12);
    let external = node(&mut session, Some("numpy"), "array", Flavor::ImportedItem);
    session.add_uses_edge(caller, external);

    session.contract_nonexistents();

    assert_eq!(session.graph.diagnostics.external_references.len(), 1);
    let diagnostic = &session.graph.diagnostics.external_references[0];
    assert_eq!(diagnostic.source_canonical_name, "app.caller");
    assert_eq!(diagnostic.source_filename.as_deref(), Some("app.py"));
    assert_eq!(diagnostic.source_line, Some(12));
    assert_eq!(diagnostic.kind.as_str(), "import");
    assert_eq!(diagnostic.canonical_name, "numpy.array");
}

#[test]
fn cull_inherited_removes_redundant_parent_method_edges() {
    let mut session = new_session();
    let caller = node(&mut session, Some("pkg"), "caller", Flavor::Function);
    let parent = node(&mut session, Some("pkg"), "Parent", Flavor::Class);
    let child = node(&mut session, Some("pkg"), "Child", Flavor::Class);
    let parent_method = node(&mut session, Some("pkg.Parent"), "shared", Flavor::Method);
    let child_method = node(&mut session, Some("pkg.Child"), "shared", Flavor::Method);

    session.add_uses_edge(child, parent);
    session.add_uses_edge(caller, parent_method);
    session.add_uses_edge(caller, child_method);

    session.cull_inherited();

    let targets = uses_of(&session, caller);
    assert!(!targets.contains(&parent_method), "redundant inherited edge should be removed");
    assert!(targets.contains(&child_method));
}

#[test]
fn contract_nonexistents_replaces_edge_with_unknown_of_same_name() {
    let mut session = new_session();
    let caller = node(&mut session, Some("app"), "caller", Flavor::Function);
    let external = node(&mut session, Some("numpy"), "array", Flavor::ImportedItem);
    session.add_uses_edge(caller, external);

    session.contract_nonexistents();

    let targets = uses_of(&session, caller);
    assert!(!targets.contains(&external), "the edge to the undefined node should be gone");
    assert!(
        targets.iter().any(|&w| session.graph.nodes_arena[w].namespace.is_none()
            && session.text(session.graph.nodes_arena[w].name) == chars("array")),
        "the caller should use the unknown node of the same name"
    );
}
