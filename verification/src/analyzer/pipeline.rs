//! The analysis pipeline: scopes, two visiting passes with base-class
//! resolution between them, return-value propagation to a fixpoint, and
//! postprocessing.

use vstd::prelude::*;

use crate::analyzer::graph::CallGraph;
use crate::analyzer::postprocess::{is_inner_label, keeps_named_defined};
use crate::analyzer::state::{defines_named, lemma_defines_stable};
use crate::analyzer::visit::def_name;
use crate::analyzer::session::{scope_pos, AnalysisSession, ScopeInfo};
use crate::intern::{Interner, SymId};
use crate::pyast::PyModule;
use crate::text::str_to_chars;

verus! {

/// A parsed source file: its file name, its dotted module name and its
/// syntax tree.
#[derive(Debug)]
pub struct SourceFile {
    pub filename: String,
    pub module_name: String,
    pub module: PyModule,
}

/// A defined module node stays one as the session evolves without
/// undefining nodes.
pub proof fn lemma_module_stable(a: AnalysisSession, b: AnalysisSession, name: Seq<char>)
    requires
        a.wf(),
        a.evolves_up(&b),
        a.graph.defines_module(name),
    ensures
        b.graph.defines_module(name),
{
    let m = choose|m: int|
        0 <= m < a.graph.n() && a.graph.interner.str_of(#[trigger] a.graph.nodes_arena@[m].name) == name && (
        a.graph.nodes_arena@[m].namespace matches Some(x) && a.graph.interner.str_of(x) == Seq::<char>::empty())
            && a.graph.defined@[m];
    let nd = a.graph.nodes_arena@[m];
    assert(nd.ids_in(&a.graph.interner));
    assert(b.graph.nodes_arena@[m].name == nd.name);
    assert(b.graph.interner@[nd.name.0 as int] == a.graph.interner@[nd.name.0 as int]);
    let x = nd.namespace.unwrap();
    assert(b.graph.interner@[x.0 as int] == a.graph.interner@[x.0 as int]);
    assert(b.graph.defined@[m]);
}

/// A defined module node not named like a lambda or comprehension stays
/// defined through postprocessing.
pub proof fn lemma_module_kept(a: AnalysisSession, b: AnalysisSession, name: Seq<char>)
    requires
        a.wf(),
        a.evolves(&b),
        keeps_named_defined(&a, &b),
        !is_inner_label(name),
        a.graph.defines_module(name),
    ensures
        b.graph.defines_module(name),
{
    let m = choose|m: int|
        0 <= m < a.graph.n() && a.graph.interner.str_of(#[trigger] a.graph.nodes_arena@[m].name) == name && (
        a.graph.nodes_arena@[m].namespace matches Some(x) && a.graph.interner.str_of(x) == Seq::<char>::empty())
            && a.graph.defined@[m];
    let nd = a.graph.nodes_arena@[m];
    assert(nd.ids_in(&a.graph.interner));
    assert(b.graph.nodes_arena@[m].name == nd.name);
    assert(b.graph.interner@[nd.name.0 as int] == a.graph.interner@[nd.name.0 as int]);
    let x = nd.namespace.unwrap();
    assert(b.graph.interner@[x.0 as int] == a.graph.interner@[x.0 as int]);
    assert(b.graph.defined@[m]);
}

/// A defined node with a namespace stays one while nodes are not
/// undefined, and, unless named like a lambda or comprehension, through
/// postprocessing.
pub proof fn lemma_def_kept(a: AnalysisSession, b: AnalysisSession, name: Seq<char>)
    requires
        a.wf(),
        a.evolves(&b),
        a.evolves_up(&b) || (keeps_named_defined(&a, &b) && !is_inner_label(name)),
        a.graph.has_defined(name),
    ensures
        b.graph.has_defined(name),
{
    let f = choose|f: int|
        0 <= f < a.graph.n() && #[trigger] a.graph.defined@[f] && a.graph.interner.str_of(a.graph.nodes_arena@[f].name) == name
            && a.graph.nodes_arena@[f].namespace is Some;
    let nd = a.graph.nodes_arena@[f];
    assert(nd.ids_in(&a.graph.interner));
    assert(b.graph.nodes_arena@[f].name == nd.name && b.graph.nodes_arena@[f].namespace == nd.namespace);
    assert(b.graph.interner@[nd.name.0 as int] == a.graph.interner@[nd.name.0 as int]);
    assert(b.graph.defined@[f]);
}

/// Interned pairs stay interned, with the same strings, in an extended
/// interner.
pub proof fn lemma_syms_kept(a: Interner, b: Interner, syms: Seq<(SymId, SymId)>)
    requires
        a.extends(&b),
        forall|k: int| 0 <= k < syms.len() ==> a.has_id((#[trigger] syms[k]).0) && a.has_id(syms[k].1),
    ensures
        forall|k: int| 0 <= k < syms.len() ==> b.has_id((#[trigger] syms[k]).0) && b.has_id(syms[k].1),
        forall|k: int| 0 <= k < syms.len() ==> b.str_of((#[trigger] syms[k]).1) == a.str_of(syms[k].1),
{
    assert forall|k: int| 0 <= k < syms.len() implies b.has_id((#[trigger] syms[k]).0) && b.has_id(syms[k].1)
        && b.str_of(syms[k].1) == a.str_of(syms[k].1) by {
        assert(a.has_id(syms[k].0));
        assert(b@[syms[k].1.0 as int] == a@[syms[k].1.0 as int]);
    }
}

/// The most passes spent propagating return values.
pub const MAX_PROPAGATION_PASSES: usize = 8;

/// A session whose interner grew (keeping every string) and whose other
/// parts are unchanged is still well formed.
pub proof fn lemma_interner_extends(s: AnalysisSession, t: AnalysisSession)
    requires
        s.wf(),
        t.graph.interner.wf(),
        s.graph.interner.extends(&t.graph.interner),
        t.graph.nodes_arena == s.graph.nodes_arena,
        t.graph.uses_edges == s.graph.uses_edges,
        t.graph.defines_edges == s.graph.defines_edges,
        t.graph.defined == s.graph.defined,
        t.graph.module_to_filename == s.graph.module_to_filename,
        t.name_stack == s.name_stack,
        t.fqn_cache == s.fqn_cache,
        t.scope_stack == s.scope_stack,
        t.module_name == s.module_name,
        t.filename == s.filename,
    ensures
        t.wf(),
        s.evolves(&t),
{
    assert forall|i: int| 0 <= i < t.graph.n() implies #[trigger] t.graph.nodes_arena@[i].ids_in(&t.graph.interner) by {
        assert(s.graph.nodes_arena@[i].ids_in(&s.graph.interner));
    }
    assert forall|k: int| 0 <= k < t.graph.module_to_filename@.len() implies t.graph.interner.has_id(
        #[trigger] t.graph.module_to_filename@[k].0,
    ) && t.graph.interner.has_id(t.graph.module_to_filename@[k].1) by {
        assert(s.graph.interner.has_id(s.graph.module_to_filename@[k].0));
    }
}

impl AnalysisSession {
    /// A fresh session for the given files: each module name is mapped to
    /// its file name (a later file of the same module wins).
    #[verifier::spinoff_prover]
    pub fn new(files: &Vec<SourceFile>) -> (r: Self)
        ensures
            r.wf(),
            r.graph.n() == 0,
            r.name_stack@.len() == 0,
            r.scope_stack@.len() == 0,
    {
        let mut interner = Interner::new();
        let mut module_to_filename: Vec<(SymId, SymId)> = Vec::new();
        let mut i: usize = 0;
        while i < files.len()
            invariant
                interner.wf(),
                forall|k: int|
                    0 <= k < module_to_filename@.len() ==> interner.has_id(#[trigger] module_to_filename@[k].0)
                        && interner.has_id(module_to_filename@[k].1),
            decreases files.len() - i,
        {
            let mod_sym = interner.intern(files[i].module_name.as_str());
            let file_sym = interner.intern(files[i].filename.as_str());
            let mut pos: Option<usize> = None;
            let mut k: usize = 0;
            while k < module_to_filename.len()
                invariant
                    pos matches Some(p) ==> p < module_to_filename@.len(),
                decreases module_to_filename.len() - k,
            {
                if module_to_filename[k].0 == mod_sym {
                    pos = Some(k);
                    break;
                }
                k = k + 1;
            }
            let ghost m0 = module_to_filename@;
            match pos {
                Some(p) => {
                    module_to_filename.set(p, (mod_sym, file_sym));
                },
                None => {
                    module_to_filename.push((mod_sym, file_sym));
                },
            }
            proof {
                assert forall|k: int| 0 <= k < module_to_filename@.len() implies interner.has_id(
                    #[trigger] module_to_filename@[k].0,
                ) && interner.has_id(module_to_filename@[k].1) by {
                    if k < m0.len() && module_to_filename@[k] != (mod_sym, file_sym) {
                        assert(module_to_filename@[k] == m0[k]);
                    }
                }
            }
            i = i + 1;
        }
        let empty = interner.intern("");
        let ghost i2 = interner;
        proof {
            assert forall|k: int| 0 <= k < module_to_filename@.len() implies i2.has_id(
                #[trigger] module_to_filename@[k].0,
            ) && i2.has_id(module_to_filename@[k].1) by {}
        }
        let graph = CallGraph::empty(interner, module_to_filename);
        AnalysisSession {
            graph,
            scopes: Vec::new(),
            class_base_ast_info: Vec::new(),
            class_base_nodes: Vec::new(),
            mro: Vec::new(),
            function_returns: Vec::new(),
            function_returns_changed: false,
            module_name: empty,
            filename: empty,
            name_stack: Vec::new(),
            fqn_cache: Vec::new(),
            scope_stack: Vec::new(),
            class_stack: Vec::new(),
            context_stack: Vec::new(),
        }
    }

    /// Visit one file as module `module_name`.
    #[verifier::loop_isolation(false)]
    pub fn process_one(&mut self, filename: SymId, module_name: SymId, module: &PyModule)
        requires
            old(self).wf(),
            old(self).graph.interner.has_id(filename),
            old(self).graph.interner.has_id(module_name),
        ensures
            old(self).evolves_up(final(self)),
            final(self).graph.defines_module(old(self).graph.interner.str_of(module_name)),
            forall|j: int| 0 <= j < module.body@.len() ==> (def_name(#[trigger] module.body@[j]) matches Some(n) ==> defines_named(&*final(self), n)),
    {
        self.filename = filename;
        self.module_name = module_name;
        self.visit_module(module);
        let ghost s1 = *self;
        let empty = self.sym("");
        proof {
            lemma_module_stable(s1, *self, old(self).graph.interner.str_of(module_name));
            assert forall|j: int| 0 <= j < module.body@.len() implies (def_name(#[trigger] module.body@[j]) matches Some(n)
                ==> defines_named(&*self, n)) by {
                if let Some(n) = def_name(module.body@[j]) {
                    lemma_defines_stable(s1, *self, n);
                }
            }
        }
        self.module_name = empty;
        self.filename = empty;
    }

    /// Visit every file once, in order.
    #[verifier::loop_isolation(false)]
    fn visit_all(&mut self, files: &Vec<SourceFile>, syms: &Vec<(SymId, SymId)>)
        requires
            old(self).wf(),
            forall|k: int| 0 <= k < syms@.len() ==> old(self).graph.interner.has_id((#[trigger] syms@[k]).0)
                && old(self).graph.interner.has_id(syms@[k].1),
        ensures
            old(self).evolves_up(final(self)),
            forall|k: int| 0 <= k < files@.len() && 0 <= k < syms@.len() ==> final(self).graph.defines_module(
                old(self).graph.interner.str_of(#[trigger] syms@[k].1),
            ),
            forall|k: int, j: int| 0 <= k < files@.len() && 0 <= k < syms@.len() && 0 <= j < files@[k].module.body@.len() ==> (
                def_name(#[trigger] files@[k].module.body@[j]) matches Some(n) ==> defines_named(&*final(self), n)),
    {
        let mut i: usize = 0;
        while i < files.len() && i < syms.len()
            invariant
                old(self).evolves_up(self),
                i <= files@.len(),
                forall|k: int| 0 <= k < i && k < syms@.len() ==> self.graph.defines_module(
                    old(self).graph.interner.str_of(#[trigger] syms@[k].1),
                ),
                forall|k: int, j: int| 0 <= k < i && k < syms@.len() && 0 <= j < files@[k].module.body@.len() ==> (
                    def_name(#[trigger] files@[k].module.body@[j]) matches Some(n) ==> defines_named(&*self, n)),
            decreases files.len() - i,
        {
            proof {
                assert(old(self).graph.interner.has_id(syms@[i as int].0));
            }
            let ghost s0 = *self;
            self.process_one(syms[i].0, syms[i].1, &files[i].module);
            proof {
                let t = syms@[i as int].1;
                assert(old(self).graph.interner.has_id(t));
                assert(s0.graph.interner@[t.0 as int] == old(self).graph.interner@[t.0 as int]);
                assert forall|k: int| 0 <= k < i + 1 && k < syms@.len() implies self.graph.defines_module(
                    old(self).graph.interner.str_of(#[trigger] syms@[k].1),
                ) by {
                    if k < i {
                        lemma_module_stable(s0, *self, old(self).graph.interner.str_of(syms@[k].1));
                    }
                }
                assert forall|k: int, j: int| 0 <= k < i + 1 && k < syms@.len() && 0 <= j < files@[k].module.body@.len() implies (
                    def_name(#[trigger] files@[k].module.body@[j]) matches Some(n) ==> defines_named(&*self, n)) by {
                    if k < i {
                        if let Some(n) = def_name(files@[k].module.body@[j]) {
                            lemma_defines_stable(s0, *self, n);
                        }
                    }
                }
            }
            i = i + 1;
        }
    }

    /// The whole analysis of `files`: gather and merge their scopes, visit
    /// them twice (resolving base classes and MROs after the first pass),
    /// re-visit until no function gains a return value (at most
    /// `MAX_PROPAGATION_PASSES` times), then postprocess.
    #[verifier::loop_isolation(false)]
    #[verifier::spinoff_prover]
    pub fn process(&mut self, files: &Vec<SourceFile>)
        requires
            old(self).wf(),
        ensures
            old(self).evolves(final(self)),
            forall|k: int| 0 <= k < files@.len() && !is_inner_label((#[trigger] files@[k]).module_name@)
                ==> final(self).graph.defines_module(files@[k].module_name@),
            forall|k: int, j: int| 0 <= k < files@.len() && 0 <= j < files@[k].module.body@.len() ==> (
                def_name(#[trigger] files@[k].module.body@[j]) matches Some(n) ==> (!is_inner_label(n) ==> final(self).graph.has_defined(n))),
    {
        let mut syms: Vec<(SymId, SymId)> = Vec::new();
        let mut all_scopes: Vec<Vec<(SymId, ScopeInfo)>> = Vec::new();
        let mut i: usize = 0;
        while i < files.len()
            invariant
                old(self).evolves(self),
                forall|k: int| 0 <= k < syms@.len() ==> self.graph.interner.has_id((#[trigger] syms@[k]).0)
                    && self.graph.interner.has_id(syms@[k].1),
                i <= files@.len(),
                syms@.len() == i,
                forall|k: int| 0 <= k < syms@.len() ==> self.graph.interner.str_of((#[trigger] syms@[k]).1) == files@[k].module_name@,
            decreases files.len() - i,
        {
            let ghost t0 = self.graph.interner;
            let file_sym = self.sym(files[i].filename.as_str());
            let ghost t1 = self.graph.interner;
            let mod_sym = self.sym(files[i].module_name.as_str());
            let ns = str_to_chars(files[i].module_name.as_str());
            let ghost before = *self;
            let scopes = Self::build_scopes(&files[i].module, ns.as_slice(), &mut self.graph.interner);
            proof {
                lemma_interner_extends(before, *self);
                assert(self.graph.interner@[mod_sym.0 as int] == before.graph.interner@[mod_sym.0 as int]);
                lemma_syms_kept(t0, t1, syms@);
                lemma_syms_kept(t1, before.graph.interner, syms@);
                lemma_syms_kept(before.graph.interner, self.graph.interner, syms@);
            }
            let ghost syms0 = syms@;
            syms.push((file_sym, mod_sym));
            proof {
                assert forall|k: int| 0 <= k < syms@.len() implies self.graph.interner.str_of((#[trigger] syms@[k]).1) == files@[k].module_name@ by {
                    if k < syms0.len() {
                        assert(syms@[k] == syms0[k]);
                    }
                }
            }
            all_scopes.push(scopes);
            i = i + 1;
        }
        let mut i: usize = 0;
        while i < all_scopes.len()
            invariant
                old(self).evolves(self),
                forall|k: int| 0 <= k < syms@.len() ==> self.graph.interner.has_id((#[trigger] syms@[k]).0)
                    && self.graph.interner.has_id(syms@[k].1),
                syms@.len() == files@.len(),
                forall|k: int| 0 <= k < syms@.len() ==> self.graph.interner.str_of((#[trigger] syms@[k]).1) == files@[k].module_name@,
            decreases all_scopes.len() - i,
        {
            let ghost t0 = self.graph.interner;
            self.merge_scopes(&all_scopes[i]);
            proof {
                lemma_syms_kept(t0, self.graph.interner, syms@);
            }
            i = i + 1;
        }
        let ghost s0 = *self;
        self.visit_all(files, &syms);
        let ghost s1 = *self;
        proof {
            lemma_syms_kept(s0.graph.interner, self.graph.interner, syms@);
            assert forall|k: int, j: int| 0 <= k < files@.len() && 0 <= j < files@[k].module.body@.len() implies (
                def_name(#[trigger] files@[k].module.body@[j]) matches Some(n) ==> self.graph.has_defined(n)) by {
                if let Some(n) = def_name(files@[k].module.body@[j]) {
                    assert(defines_named(&*self, n));
                }
            }
            assert forall|k: int| 0 <= k < files@.len() implies self.graph.defines_module((#[trigger] files@[k]).module_name@) by {
                assert(s0.graph.interner.str_of(syms@[k].1) == files@[k].module_name@);
                assert(self.graph.defines_module(s0.graph.interner.str_of(syms@[k].1)));
            }
        }
        self.resolve_base_classes();
        proof {
            lemma_syms_kept(s1.graph.interner, self.graph.interner, syms@);
            assert forall|k: int| 0 <= k < files@.len() implies self.graph.defines_module((#[trigger] files@[k]).module_name@) by {
                lemma_module_stable(s1, *self, files@[k].module_name@);
            }
            assert forall|k: int, j: int| 0 <= k < files@.len() && 0 <= j < files@[k].module.body@.len() implies (
                def_name(#[trigger] files@[k].module.body@[j]) matches Some(n) ==> self.graph.has_defined(n)) by {
                if let Some(n) = def_name(files@[k].module.body@[j]) {
                    lemma_def_kept(s1, *self, n);
                }
            }
        }
        let ghost s2 = *self;
        self.visit_all(files, &syms);
        proof {
            lemma_syms_kept(s2.graph.interner, self.graph.interner, syms@);
            assert forall|k: int| 0 <= k < files@.len() implies self.graph.defines_module((#[trigger] files@[k]).module_name@) by {
                lemma_module_stable(s2, *self, files@[k].module_name@);
            }
            assert forall|k: int, j: int| 0 <= k < files@.len() && 0 <= j < files@[k].module.body@.len() implies (
                def_name(#[trigger] files@[k].module.body@[j]) matches Some(n) ==> self.graph.has_defined(n)) by {
                if let Some(n) = def_name(files@[k].module.body@[j]) {
                    lemma_def_kept(s2, *self, n);
                }
            }
        }
        let mut pass: usize = 0;
        while pass < MAX_PROPAGATION_PASSES
            invariant
                old(self).evolves(self),
                forall|k: int| 0 <= k < syms@.len() ==> self.graph.interner.has_id((#[trigger] syms@[k]).0)
                    && self.graph.interner.has_id(syms@[k].1),
                forall|k: int| 0 <= k < files@.len() ==> self.graph.defines_module((#[trigger] files@[k]).module_name@),
                forall|k: int, j: int| 0 <= k < files@.len() && 0 <= j < files@[k].module.body@.len() ==> (
                    def_name(#[trigger] files@[k].module.body@[j]) matches Some(n) ==> self.graph.has_defined(n)),
            decreases MAX_PROPAGATION_PASSES - pass,
        {
            self.function_returns_changed = false;
            let ghost s3 = *self;
            self.visit_all(files, &syms);
            proof {
                lemma_syms_kept(s3.graph.interner, self.graph.interner, syms@);
                assert forall|k: int| 0 <= k < files@.len() implies self.graph.defines_module((#[trigger] files@[k]).module_name@) by {
                    lemma_module_stable(s3, *self, files@[k].module_name@);
                }
                assert forall|k: int, j: int| 0 <= k < files@.len() && 0 <= j < files@[k].module.body@.len() implies (
                def_name(#[trigger] files@[k].module.body@[j]) matches Some(n) ==> self.graph.has_defined(n)) by {
                if let Some(n) = def_name(files@[k].module.body@[j]) {
                    lemma_def_kept(s3, *self, n);
                }
            }
            }
            if !self.function_returns_changed {
                break;
            }
            pass = pass + 1;
        }
        let ghost s4 = *self;
        self.postprocess();
        proof {
            assert forall|k: int| 0 <= k < files@.len() && !is_inner_label((#[trigger] files@[k]).module_name@)
                implies self.graph.defines_module(files@[k].module_name@) by {
                lemma_module_kept(s4, *self, files@[k].module_name@);
            }
            assert forall|k: int, j: int| 0 <= k < files@.len() && 0 <= j < files@[k].module.body@.len() implies (
                def_name(#[trigger] files@[k].module.body@[j]) matches Some(n) ==> (!is_inner_label(n) ==> self.graph.has_defined(n))) by {
                if let Some(n) = def_name(files@[k].module.body@[j]) {
                    if !is_inner_label(n) {
                        lemma_def_kept(s4, *self, n);
                    }
                }
            }
        }
    }
}

impl CallGraph {
    /// The call graph of the given parsed files. Each module is a defined
    /// node (named by its module name, in the empty namespace), and so is
    /// each class or function defined at a module's top level, unless its
    /// name is that of a lambda or comprehension namespace. With no files
    /// the graph is empty.
    pub fn from_modules(files: &Vec<SourceFile>) -> (r: CallGraph)
        ensures
            r.wf(),
            forall|k: int| 0 <= k < files@.len() && !is_inner_label((#[trigger] files@[k]).module_name@)
                ==> r.defines_module(files@[k].module_name@),
            forall|k: int, j: int| 0 <= k < files@.len() && 0 <= j < files@[k].module.body@.len() ==> (
                def_name(#[trigger] files@[k].module.body@[j]) matches Some(n) ==> (!is_inner_label(n) ==> r.has_defined(n))),
            files@.len() == 0 ==> r.n() == 0,
    {
        let mut session = AnalysisSession::new(files);
        if files.len() > 0 {
            session.process(files);
        }
        session.graph
    }
}

} // verus!
