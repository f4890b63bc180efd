//! The syntax-tree walk: definitions, bindings and uses edges for every
//! statement and expression of a module.

use vstd::prelude::*;

use crate::analyzer::resolution::{is_name, push_unique};
use crate::analyzer::session::{assoc_pos, scope_pos, AnalysisSession, BaseClassRef, Ctx, ScopeInfo};
use crate::analyzer::state::{defines_named, first_of, lemma_bound_value_visible, lemma_defines_after, lemma_defines_stable, lemma_named_stable, opt_chars};
use crate::analyzer::util::{collect_attr_parts, collect_target_names_from_expr};
use crate::analyzer::graph::argument_sentinel;
use crate::analyzer::prepass::{declared_local, grows_locals, lemma_declare_step, lemma_grows_refl, param_names};
use crate::intern::SymId;
use crate::node::{Flavor, NodeId};
use crate::pyast::{CompKind, PyExpr, PyModule, PyParams, PyPattern, PyStmt};
use crate::text::{dot_join, str_to_chars};

verus! {

/// A value that reading a name makes a uses edge to: a node with a
/// namespace that is not the class being analyzed.
pub open spec fn uses_target(s: &AnalysisSession, v: usize) -> bool {
    &&& v < s.graph.n()
    &&& s.graph.nodes_arena@[v as int].namespace is Some
    &&& !(s.class_stack@.len() > 0 && s.class_stack@.last() == v)
}

/// Some node has a uses edge to `v`.
pub open spec fn used_by_some(s: &AnalysisSession, v: usize) -> bool {
    exists|f: int| 0 <= f < s.graph.n() && (#[trigger] s.graph.uses_edges@[f])@.contains(v)
}

/// The name a statement defines: a function's or a class's.
pub open spec fn def_name(s: PyStmt) -> Option<Seq<char>> {
    match s {
        PyStmt::FunctionDef { name, .. } => Some(name@),
        PyStmt::ClassDef { name, .. } => Some(name@),
        _ => None,
    }
}

impl AnalysisSession {
    /// The qualified name of the current namespace (the empty symbol
    /// outside any namespace).
    #[verifier::loop_isolation(false)]
    fn current_fqn_or_empty(&mut self) -> (r: SymId)
        requires
            old(self).wf(),
        ensures
            old(self).evolves_up(final(self)),
            final(self).graph.interner.has_id(r),
            final(self).graph.n() == old(self).graph.n(),
            old(self).fqn_cache@.len() > 0 ==> r == old(self).fqn_cache@.last() && *final(self) == *old(self),
            old(self).fqn_cache@.len() == 0 ==> final(self).graph.interner.str_of(r) == Seq::<char>::empty(),
    {
        proof {
            reveal_strlit("");
        }
        match self.current_fqn() {
            Some(s) => s,
            None => self.sym(""),
        }
    }

    /// Visit a module: its module node, then its statements inside its
    /// namespace and scope.
    #[verifier::loop_isolation(false)]
    pub fn visit_module(&mut self, module: &PyModule)
        requires
            old(self).wf(),
        ensures
            old(self).evolves_up(final(self)),
            final(self).graph.defines_module(old(self).graph.interner.str_of(old(self).module_name)),
            forall|k: int| 0 <= k < module.body@.len() ==> (def_name(#[trigger] module.body@[k]) matches Some(n) ==> defines_named(&*final(self), n)),
    {
        let mod_name = self.text(self.module_name);
        let fname = self.filename;
        let empty: Vec<char> = Vec::new();
        let es = empty.as_slice();
        let module_node = self.get_node(Some(es), mod_name.as_slice(), Flavor::Module);
        let ghost s1 = *self;
        proof {
            assert(es@ =~= Seq::<char>::empty());
            assert(opt_chars(Some(es)) == Some(Seq::<char>::empty()));
            if exists|i: int| #[trigger] old(self).node_named(i, opt_chars(Some(es)), mod_name@) {
                lemma_named_stable(*old(self), s1, module_node as int, Some(Seq::<char>::empty()), mod_name@);
            }
            assert(s1.node_named(module_node as int, Some(Seq::<char>::empty()), mod_name@));
        }
        self.associate_node(module_node, fname, module.line);
        let ns_sym = self.module_name;
        self.push_name(ns_sym);
        self.scope_stack.push(ns_sym);
        self.context_stack.push(Ctx::Module);
        self.visit_body(&module.body);
        let ghost sv = *self;
        self.context_stack.pop();
        self.scope_stack.pop();
        self.pop_name();
        let ghost s2 = *self;
        let _ = self.add_defines_edge(module_node, None);
        proof {
            lemma_named_stable(s1, s2, module_node as int, Some(Seq::<char>::empty()), mod_name@);
            lemma_named_stable(s2, *self, module_node as int, Some(Seq::<char>::empty()), mod_name@);
            assert(self.graph.nodes_arena@[module_node as int].name == self.graph.nodes_arena@[module_node as int].name);
            assert forall|k: int| 0 <= k < module.body@.len() implies (def_name(#[trigger] module.body@[k]) matches Some(n)
                ==> defines_named(&*self, n)) by {
                if let Some(n) = def_name(module.body@[k]) {
                    lemma_defines_stable(sv, *self, n);
                }
            }
        }
    }

    /// Visit each statement of a block.
    #[verifier::loop_isolation(false)]
    pub fn visit_body(&mut self, stmts: &Vec<PyStmt>)
        requires
            old(self).wf(),
        ensures
            old(self).evolves_up(final(self)),
            forall|k: int| 0 <= k < stmts@.len() ==> (def_name(#[trigger] stmts@[k]) matches Some(n) ==> defines_named(&*final(self), n)),
        decreases stmts, 5int,
    {
        let mut i: usize = 0;
        while i < stmts.len()
            invariant
                old(self).evolves_up(self),
                i <= stmts@.len(),
                forall|k: int| 0 <= k < i ==> (def_name(#[trigger] stmts@[k]) matches Some(n) ==> defines_named(&*self, n)),
            decreases stmts.len() - i,
        {
            proof {
                assert(decreases_to!(*stmts => stmts@));
                assert(decreases_to!(stmts@ => stmts@[i as int]));
            }
            let ghost s0 = *self;
            self.visit_stmt(&stmts[i]);
            proof {
                assert forall|k: int| 0 <= k < i + 1 implies (def_name(#[trigger] stmts@[k]) matches Some(n) ==> defines_named(&*self, n)) by {
                    if k < i {
                        if let Some(n) = def_name(stmts@[k]) {
                            lemma_defines_stable(s0, *self, n);
                        }
                    }
                }
            }
            i = i + 1;
        }
    }

    /// Visit a statement.
    #[verifier::loop_isolation(false)]
    pub fn visit_stmt(&mut self, s: &PyStmt)
        requires
            old(self).wf(),
        ensures
            old(self).evolves_up(final(self)),
            def_name(*s) matches Some(n) ==> defines_named(&*final(self), n),
        decreases s, 4int,
    {
        match s {
            PyStmt::ClassDef { .. } => self.visit_class_def(s),
            PyStmt::FunctionDef { .. } => self.visit_function_def(s),
            PyStmt::Import { .. } => self.visit_import(s),
            PyStmt::ImportFrom { .. } => self.visit_import_from(s),
            PyStmt::Assign { targets, value } => {
                let mut i: usize = 0;
                while i < targets.len()
                    invariant
                        old(self).evolves_up(self),
                    decreases targets.len() - i,
                {
                    self.analyze_binding_with_rhs(&targets[i], value);
                    i = i + 1;
                }
            },
            PyStmt::AugAssign { target, value } => {
                let value_node = self.visit_expr(value);
                self.analyze_binding_simple(target, value_node);
            },
            PyStmt::AnnAssign { target, annotation, value } => {
                match value {
                    Some(v) => {
                        let value_node = self.visit_expr(v);
                        self.analyze_binding_simple(target, value_node);
                        let shallow = self.resolve_shallow_value(v);
                        self.bind_target_to_shallow_value(target, &shallow);
                    },
                    None => {
                        self.bind_target_to_value(target, None);
                    },
                }
                let _ = self.visit_expr(annotation);
            },
            PyStmt::For { .. } => self.visit_for(s),
            PyStmt::While { test, body, orelse } => {
                let _ = self.visit_expr(test);
                self.visit_body(body);
                self.visit_body(orelse);
            },
            PyStmt::If { test, body, clauses } => {
                let _ = self.visit_expr(test);
                self.visit_body(body);
                let mut i: usize = 0;
                while i < clauses.len()
                    invariant
                        old(self).evolves_up(self),
                    decreases clauses.len() - i,
                {
                    proof {
                        assert(decreases_to!(*s => s->If_clauses));
                        assert(decreases_to!(*clauses => clauses@));
                        assert(decreases_to!(clauses@ => clauses@[i as int]));
                        assert(decreases_to!(clauses@[i as int] => clauses@[i as int].body));
                    }
                    if let Some(t) = &clauses[i].test {
                        let _ = self.visit_expr(t);
                    }
                    self.visit_body(&clauses[i].body);
                    i = i + 1;
                }
            },
            PyStmt::With { .. } => self.visit_with(s),
            PyStmt::Return { value } => {
                if let Some(v) = value {
                    self.visit_return(v);
                }
            },
            PyStmt::Delete { .. } => self.visit_delete(s),
            PyStmt::Expr { value } => {
                let _ = self.visit_expr(value);
            },
            PyStmt::Try { body, handlers, orelse, finalbody } => {
                self.visit_body(body);
                let mut i: usize = 0;
                while i < handlers.len()
                    invariant
                        old(self).evolves_up(self),
                    decreases handlers.len() - i,
                {
                    proof {
                        assert(decreases_to!(*s => s->Try_handlers));
                        assert(decreases_to!(*handlers => handlers@));
                        assert(decreases_to!(handlers@ => handlers@[i as int]));
                        assert(decreases_to!(handlers@[i as int] => handlers@[i as int].body));
                    }
                    if let Some(t) = &handlers[i].type_ {
                        let _ = self.visit_expr(t);
                    }
                    self.visit_body(&handlers[i].body);
                    i = i + 1;
                }
                self.visit_body(orelse);
                self.visit_body(finalbody);
            },
            PyStmt::Raise { exc, cause } => {
                if let Some(e) = exc {
                    let _ = self.visit_expr(e);
                }
                if let Some(c) = cause {
                    let _ = self.visit_expr(c);
                }
            },
            PyStmt::Assert { test, msg } => {
                let _ = self.visit_expr(test);
                if let Some(m) = msg {
                    let _ = self.visit_expr(m);
                }
            },
            PyStmt::Match { subject, cases } => {
                let _ = self.visit_expr(subject);
                let mut i: usize = 0;
                while i < cases.len()
                    invariant
                        old(self).evolves_up(self),
                    decreases cases.len() - i,
                {
                    proof {
                        assert(decreases_to!(*s => s->Match_cases));
                        assert(decreases_to!(*cases => cases@));
                        assert(decreases_to!(cases@ => cases@[i as int]));
                        assert(decreases_to!(cases@[i as int] => cases@[i as int].body));
                    }
                    self.visit_pattern(&cases[i].pattern);
                    if let Some(g) = &cases[i].guard {
                        let _ = self.visit_expr(g);
                    }
                    self.visit_body(&cases[i].body);
                    i = i + 1;
                }
            },
            PyStmt::TypeAlias { name, value, line } => {
                if let PyExpr::Name { id, .. } = name {
                    let alias_name = str_to_chars(id.as_str());
                    let from_node = self.get_node_of_current_namespace();
                    let ns = self.node_name(from_node);
                    let to_node = self.get_node(Some(ns.as_slice()), alias_name.as_slice(), Flavor::Name);
                    let _ = self.add_defines_edge(from_node, Some(to_node));
                    let fname = self.filename;
                    self.associate_node(to_node, fname, *line);
                    self.set_value(alias_name.as_slice(), Some(to_node));
                }
                let _ = self.visit_expr(value);
            },
            PyStmt::Other => {},
        }
    }

    /// `return value`: record, for the enclosing function, each concrete
    /// value the returned expression may have (argument placeholders and
    /// unknown names excepted).
    #[verifier::loop_isolation(false)]
    fn visit_return(&mut self, value: &PyExpr)
        requires
            old(self).wf(),
        ensures
            old(self).evolves_up(final(self)),
    {
        let ret_val = self.visit_expr(value);
        let mut ret_ids = self.resolve_shallow_value(value).values.iter();
        if let Some(r) = ret_val {
            push_unique(&mut ret_ids, r);
        }
        let sentinel = argument_sentinel();
        let sentinel_sym = self.sym_chars(sentinel.as_slice());
        let mut i: usize = 0;
        while i < ret_ids.len()
            invariant
                old(self).evolves_up(self),
            decreases ret_ids.len() - i,
        {
            let ret_id = ret_ids[i];
            if self.valid(ret_id) {
                let is_sentinel = self.graph.nodes_arena[ret_id].name == sentinel_sym;
                let is_unknown = self.graph.nodes_arena[ret_id].namespace.is_none();
                if !is_sentinel && !is_unknown {
                    let fn_node = self.get_node_of_current_namespace();
                    let _ = self.record_function_return(fn_node, ret_id);
                }
            }
            i = i + 1;
        }
    }

    /// A class definition: its node (defined by the current namespace,
    /// bound to its name), its base classes as written, and its body in
    /// its own namespace and scope.
    #[verifier::loop_isolation(false)]
    #[verifier::spinoff_prover]
    pub fn visit_class_def(&mut self, s: &PyStmt)
        requires
            old(self).wf(),
        ensures
            old(self).evolves_up(final(self)),
            s matches PyStmt::ClassDef { name, .. } ==> defines_named(&*final(self), name@),
        decreases s, 3int,
    {
        if let PyStmt::ClassDef { name, line, bases, body } = s {
            let class_name = str_to_chars(name.as_str());
            let from_node = self.get_node_of_current_namespace();
            let ns = self.node_name(from_node);
            let ghost sa = *self;
            let nss = ns.as_slice();
            let to_node = self.get_node(Some(nss), class_name.as_slice(), Flavor::Class);
            let ghost sb = *self;
            proof {
                assert(opt_chars(Some(nss)) == Some(ns@));
                if exists|i: int| #[trigger] sa.node_named(i, opt_chars(Some(nss)), class_name@) {
                    lemma_named_stable(sa, sb, to_node as int, Some(ns@), class_name@);
                }
            }
            let _ = self.add_defines_edge(from_node, Some(to_node));
            proof {
                lemma_defines_after(sa, sb, *self, from_node as int, to_node as int, ns@, class_name@);
            }
            let ghost sc = *self;
            let fname = self.filename;
            self.associate_node(to_node, fname, *line);
            self.set_value(class_name.as_slice(), Some(to_node));
            self.class_stack.push(to_node);
            let class_sym = self.sym(name.as_str());
            self.push_name(class_sym);
            let _inner = self.get_node_of_current_namespace();
            let inner_ns_sym = self.current_fqn_or_empty();
            self.scope_stack.push(inner_ns_sym);
            self.context_stack.push(Ctx::Class);
            let entry = match assoc_pos(&self.class_base_ast_info, to_node) {
                Some(p) => {
                    self.class_base_ast_info[p].1 = Vec::new();
                    p
                },
                None => {
                    self.class_base_ast_info.push((to_node, Vec::new()));
                    self.class_base_ast_info.len() - 1
                },
            };
            let mut i: usize = 0;
            while i < bases.len()
                invariant
                    old(self).evolves_up(self),
                    sc.evolves_up(self),
                decreases bases.len() - i,
            {
                let base = &bases[i];
                match base {
                    PyExpr::Name { id, .. } => {
                        if entry < self.class_base_ast_info.len() {
                            self.class_base_ast_info[entry].1.push(BaseClassRef::Name(str_to_chars(id.as_str())));
                        }
                    },
                    PyExpr::Attribute { .. } => {
                        if entry < self.class_base_ast_info.len() {
                            self.class_base_ast_info[entry].1.push(BaseClassRef::Attribute(collect_attr_parts(base)));
                        }
                    },
                    _ => {},
                }
                let _ = self.visit_expr(base);
                i = i + 1;
            }
            self.visit_body(body);
            self.context_stack.pop();
            self.scope_stack.pop();
            self.pop_name();
            self.class_stack.pop();
            proof {
                lemma_defines_stable(sc, *self, class_name@);
            }
        }
    }

    /// Visit a function's decorators and decide its flavor: a method,
    /// class method or static method inside a class body, else a function.
    /// Returns the name of the `self`/`cls` parameter (for methods and
    /// class methods), the flavor, and the decorators' nodes.
    #[verifier::loop_isolation(false)]
    pub fn analyze_function_def(&mut self, s: &PyStmt) -> (r: (Option<Vec<char>>, Flavor, Vec<NodeId>))
        requires
            old(self).wf(),
        ensures
            old(self).evolves_up(final(self)),
            !(r.1 == Flavor::Method || r.1 == Flavor::ClassMethod) ==> r.0 is None,
            !(s is FunctionDef) ==> r.0 is None && r.1 == Flavor::Function && r.2@.len() == 0 && *final(self) == *old(self),
            s matches PyStmt::FunctionDef { params, decorators, .. } ==> {
                &&& (r.1 == Flavor::Method || r.1 == Flavor::ClassMethod) ==> (r.0 is Some <==> params.args@.len() > 0)
                &&& r.0 matches Some(v) ==> params.args@.len() > 0 && v@ == params.args@[0].name@
                &&& r.2@.len() <= decorators@.len()
                &&& forall|k: int| 0 <= k < r.2@.len() ==> #[trigger] r.2@[k] < final(self).graph.n()
            },
    {
        let mut deco_names: Vec<SymId> = Vec::new();
        let mut deco_ids: Vec<NodeId> = Vec::new();
        if let PyStmt::FunctionDef { decorators, params, .. } = s {
            let mut i: usize = 0;
            while i < decorators.len()
                invariant
                    old(self).evolves_up(self),
                    i <= decorators@.len(),
                    deco_ids@.len() <= i,
                    deco_ids@.len() == deco_names@.len(),
                    forall|k: int| 0 <= k < deco_ids@.len() ==> #[trigger] deco_ids@[k] < self.graph.n(),
                decreases decorators.len() - i,
            {
                if let Some(did) = self.visit_expr(&decorators[i]) {
                    if self.valid(did) {
                        deco_names.push(self.graph.nodes_arena[did].name);
                        deco_ids.push(did);
                    }
                }
                i = i + 1;
            }
            let in_class_ns = self.context_stack.len() > 0 && self.context_stack[self.context_stack.len() - 1] == Ctx::Class;
            let staticmethod_sym = self.sym("staticmethod");
            let classmethod_sym = self.sym("classmethod");
            let mut has_static = false;
            let mut has_class = false;
            let mut k: usize = 0;
            while k < deco_names.len()
                decreases deco_names.len() - k,
            {
                if deco_names[k] == staticmethod_sym {
                    has_static = true;
                }
                if deco_names[k] == classmethod_sym {
                    has_class = true;
                }
                k = k + 1;
            }
            let flavor = if !in_class_ns {
                Flavor::Function
            } else if has_static {
                Flavor::StaticMethod
            } else if has_class {
                Flavor::ClassMethod
            } else {
                Flavor::Method
            };
            let self_name = if flavor == Flavor::Method || flavor == Flavor::ClassMethod {
                if params.args.len() > 0 {
                    Some(str_to_chars(params.args[0].name.as_str()))
                } else {
                    None
                }
            } else {
                None
            };
            (self_name, flavor, deco_ids)
        } else {
            (None, Flavor::Function, deco_ids)
        }
    }

    /// Bind parameters that have default values to the default's value.
    #[verifier::loop_isolation(false)]
    pub fn analyze_arguments(&mut self, params: &PyParams)
        requires
            old(self).wf(),
        ensures
            old(self).evolves_up(final(self)),
        decreases params, 5int,
    {
        let mut i: usize = 0;
        while i < params.args.len()
            invariant
                old(self).evolves_up(self),
            decreases params.args.len() - i,
        {
            proof {
                assert(decreases_to!(*params => params.args));
                assert(decreases_to!(params.args => params.args@));
                assert(decreases_to!(params.args@ => params.args@[i as int]));
                assert(decreases_to!(params.args@[i as int] => params.args@[i as int].default));
            }
            if let Some(d) = &params.args[i].default {
                let val = self.visit_expr(d);
                self.set_value(str_to_chars(params.args[i].name.as_str()).as_slice(), val);
            }
            i = i + 1;
        }
        let mut i: usize = 0;
        while i < params.kwonlyargs.len()
            invariant
                old(self).evolves_up(self),
            decreases params.kwonlyargs.len() - i,
        {
            proof {
                assert(decreases_to!(*params => params.kwonlyargs));
                assert(decreases_to!(params.kwonlyargs => params.kwonlyargs@));
                assert(decreases_to!(params.kwonlyargs@ => params.kwonlyargs@[i as int]));
                assert(decreases_to!(params.kwonlyargs@[i as int] => params.kwonlyargs@[i as int].default));
            }
            if let Some(d) = &params.kwonlyargs[i].default {
                let val = self.visit_expr(d);
                self.set_value(str_to_chars(params.kwonlyargs[i].name.as_str()).as_slice(), val);
            }
            i = i + 1;
        }
    }

    /// Visit the annotation of each parameter.
    #[verifier::loop_isolation(false)]
    fn visit_annotations(&mut self, params: &PyParams)
        requires
            old(self).wf(),
        ensures
            old(self).evolves_up(final(self)),
    {
        let mut i: usize = 0;
        while i < params.args.len()
            invariant
                old(self).evolves_up(self),
            decreases params.args.len() - i,
        {
            if let Some(a) = &params.args[i].annotation {
                let _ = self.visit_expr(a);
            }
            i = i + 1;
        }
        let mut i: usize = 0;
        while i < params.posonlyargs.len()
            invariant
                old(self).evolves_up(self),
            decreases params.posonlyargs.len() - i,
        {
            if let Some(a) = &params.posonlyargs[i].annotation {
                let _ = self.visit_expr(a);
            }
            i = i + 1;
        }
        let mut i: usize = 0;
        while i < params.kwonlyargs.len()
            invariant
                old(self).evolves_up(self),
            decreases params.kwonlyargs.len() - i,
        {
            if let Some(a) = &params.kwonlyargs[i].annotation {
                let _ = self.visit_expr(a);
            }
            i = i + 1;
        }
        if let Some(va) = &params.vararg {
            if let Some(a) = &va.annotation {
                let _ = self.visit_expr(a);
            }
        }
        if let Some(kw) = &params.kwarg {
            if let Some(a) = &kw.annotation {
                let _ = self.visit_expr(a);
            }
        }
    }

    /// A function definition: its node (with the flavor its decorators
    /// give it, defined by the current namespace and used by each concrete
    /// decorator), its parameters bound to argument placeholders (`self`
    /// to the enclosing class), defaults, annotations and body.
    #[verifier::loop_isolation(false)]
    #[verifier::spinoff_prover]
    #[verifier::rlimit(40)]
    pub fn visit_function_def(&mut self, s: &PyStmt)
        requires
            old(self).wf(),
        ensures
            old(self).evolves_up(final(self)),
            s matches PyStmt::FunctionDef { name, .. } ==> defines_named(&*final(self), name@),
        decreases s, 3int,
    {
        if let PyStmt::FunctionDef { name, line, params, return_annotation, body, .. } = s {
            let func_name = str_to_chars(name.as_str());
            let (self_name, flavor, deco_ids) = self.analyze_function_def(s);
            let from_node = self.get_node_of_current_namespace();
            let ns = self.node_name(from_node);
            let ghost sa = *self;
            let nss = ns.as_slice();
            let to_node = self.get_node(Some(nss), func_name.as_slice(), flavor);
            let ghost sb = *self;
            proof {
                assert(opt_chars(Some(nss)) == Some(ns@));
                if exists|i: int| #[trigger] sa.node_named(i, opt_chars(Some(nss)), func_name@) {
                    lemma_named_stable(sa, sb, to_node as int, Some(ns@), func_name@);
                }
            }
            let _ = self.add_defines_edge(from_node, Some(to_node));
            proof {
                lemma_defines_after(sa, sb, *self, from_node as int, to_node as int, ns@, func_name@);
            }
            let ghost sc = *self;
            let fname = self.filename;
            self.associate_node(to_node, fname, *line);
            self.set_value(func_name.as_slice(), Some(to_node));
            let mut i: usize = 0;
            while i < deco_ids.len()
                invariant
                    old(self).evolves_up(self),
                    sc.evolves_up(self),
                decreases deco_ids.len() - i,
            {
                if self.has_ns(deco_ids[i]) {
                    let _ = self.add_uses_edge(deco_ids[i], to_node);
                }
                i = i + 1;
            }
            let func_sym = self.sym(name.as_str());
            self.push_name(func_sym);
            let _inner = self.get_node_of_current_namespace();
            let inner_ns_sym = self.current_fqn_or_empty();
            self.scope_stack.push(inner_ns_sym);
            self.context_stack.push(Ctx::Function);
            let inner_ns = self.text(inner_ns_sym);
            self.generate_args_nodes(params, inner_ns.as_slice());
            if let Some(sname) = self_name {
                if let Some(class_id) = self.get_current_class() {
                    let sname_sym = self.sym_chars(sname.as_slice());
                    if let Some(p) = scope_pos(&self.scopes, inner_ns_sym) {
                        self.scopes[p].1.bind(sname_sym, Some(class_id));
                    }
                }
            }
            self.analyze_arguments(params);
            if let Some(r) = return_annotation {
                let _ = self.visit_expr(r);
            }
            self.visit_annotations(params);
            self.visit_body(body);
            self.context_stack.pop();
            self.scope_stack.pop();
            self.pop_name();
            proof {
                lemma_defines_stable(sc, *self, func_name@);
            }
        }
    }

    /// Bind an assignment target to its right-hand side. Tuple or list
    /// literals on both sides are matched position by position; otherwise
    /// the target gets the value of the right-hand side, its shallow value
    /// and, for a call, every return value the callee may have.
    #[verifier::loop_isolation(false)]
    pub fn analyze_binding_with_rhs(&mut self, target: &PyExpr, rhs: &PyExpr)
        requires
            old(self).wf(),
        ensures
            old(self).evolves_up(final(self)),
    {
        let target_seq = matches!(target, PyExpr::Tuple { .. } | PyExpr::List { .. });
        let rhs_seq = matches!(rhs, PyExpr::Tuple { .. } | PyExpr::List { .. });
        if target_seq && rhs_seq {
            self.bind_positional_tuple_elts(target, rhs);
        } else {
            let value_node = self.visit_expr(rhs);
            self.analyze_binding_simple(target, value_node);
            let shallow = self.resolve_shallow_value(rhs);
            self.bind_target_to_shallow_value(target, &shallow);
            if let PyExpr::Call { func, .. } = rhs {
                let func_cands = self.get_obj_ids_for_expr(func);
                let mut all_rets: Vec<NodeId> = Vec::new();
                let mut i: usize = 0;
                while i < func_cands.len()
                    decreases func_cands.len() - i,
                {
                    let rets = self.returns_of(func_cands[i]).iter();
                    let mut j: usize = 0;
                    while j < rets.len()
                        decreases rets.len() - j,
                    {
                        if Some(rets[j]) != value_node {
                            push_unique(&mut all_rets, rets[j]);
                        }
                        j = j + 1;
                    }
                    i = i + 1;
                }
                let mut k: usize = 0;
                while k < all_rets.len()
                    invariant
                        old(self).evolves_up(self),
                    decreases all_rets.len() - k,
                {
                    self.analyze_binding_simple(target, Some(all_rets[k]));
                    k = k + 1;
                }
            }
        }
    }

    /// Position-by-position binding of a tuple/list target to a
    /// tuple/list literal. Targets before a starred target take the
    /// elements from the left, those after it from the right, and the
    /// starred target every element in between.
    #[verifier::loop_isolation(false)]
    pub fn bind_positional_tuple_elts(&mut self, target: &PyExpr, rhs: &PyExpr)
        requires
            old(self).wf(),
        ensures
            old(self).evolves_up(final(self)),
    {
        let targets = match target {
            PyExpr::Tuple { elts } => elts,
            PyExpr::List { elts } => elts,
            _ => return,
        };
        let rhs_elts = match rhs {
            PyExpr::Tuple { elts } => elts,
            PyExpr::List { elts } => elts,
            _ => return,
        };
        let n_rhs = rhs_elts.len();
        let mut star_idx: Option<usize> = None;
        let mut i: usize = 0;
        while i < targets.len()
            invariant
                star_idx matches Some(p) ==> p < targets@.len(),
            decreases targets.len() - i,
        {
            if matches!(targets[i], PyExpr::Starred { .. }) {
                star_idx = Some(i);
                break;
            }
            i = i + 1;
        }
        match star_idx {
            Some(star_pos) => {
                let n_pre = star_pos;
                let n_post = targets.len() - star_pos - 1;
                let mut i: usize = 0;
                while i < n_pre
                    invariant
                        old(self).evolves_up(self),
                    decreases n_pre - i,
                {
                    if i < n_rhs {
                        let _ = self.visit_expr(&rhs_elts[i]);
                        let shallow = self.resolve_shallow_value(&rhs_elts[i]);
                        self.bind_target_to_shallow_value(&targets[i], &shallow);
                    }
                    i = i + 1;
                }
                let base = if n_rhs >= n_post {
                    n_rhs - n_post
                } else {
                    0
                };
                let mut j: usize = 0;
                while j < n_post
                    invariant
                        old(self).evolves_up(self),
                    decreases n_post - j,
                {
                    let t_idx = star_pos + 1 + j;
                    let r_idx = base + j;
                    if r_idx < n_rhs && r_idx >= n_pre {
                        let _ = self.visit_expr(&rhs_elts[r_idx]);
                        let shallow = self.resolve_shallow_value(&rhs_elts[r_idx]);
                        self.bind_target_to_shallow_value(&targets[t_idx], &shallow);
                    }
                    j = j + 1;
                }
                if let PyExpr::Starred { value: inner } = &targets[star_pos] {
                    let middle_end = base;
                    let mut k: usize = n_pre;
                    while k < middle_end && k < n_rhs
                        invariant
                            old(self).evolves_up(self),
                        decreases n_rhs - k,
                    {
                        let _ = self.visit_expr(&rhs_elts[k]);
                        let shallow = self.resolve_shallow_value(&rhs_elts[k]);
                        self.bind_target_to_shallow_value(inner, &shallow);
                        k = k + 1;
                    }
                }
            },
            None => {
                let mut i: usize = 0;
                while i < targets.len()
                    invariant
                        old(self).evolves_up(self),
                    decreases targets.len() - i,
                {
                    if i < n_rhs {
                        let _ = self.visit_expr(&rhs_elts[i]);
                        let shallow = self.resolve_shallow_value(&rhs_elts[i]);
                        self.bind_target_to_shallow_value(&targets[i], &shallow);
                    }
                    i = i + 1;
                }
            },
        }
    }

    /// The iterator protocol methods, or their async forms.
    fn iter_protocol(&mut self, obj: Option<NodeId>, is_async: bool)
        requires
            old(self).wf(),
        ensures
            old(self).evolves_up(final(self)),
            !(obj matches Some(o) && exists|i: int| 0 <= i < old(self).class_base_ast_info@.len()
                && old(self).class_base_ast_info@[i].0 == o) ==> *final(self) == *old(self),
    {
        if let Some(obj_id) = obj {
            if self.is_class(obj_id) {
                if is_async {
                    self.emit_protocol_edges(obj_id, &["__aiter__", "__anext__"]);
                } else {
                    self.emit_protocol_edges(obj_id, &["__iter__", "__next__"]);
                }
            }
        }
    }

    /// A `for` loop: the iterable (with iterator protocol edges for a known
    /// class), the target binding, body and `else` block.
    #[verifier::loop_isolation(false)]
    pub fn visit_for(&mut self, s: &PyStmt)
        requires
            old(self).wf(),
        ensures
            old(self).evolves_up(final(self)),
        decreases s, 3int,
    {
        if let PyStmt::For { is_async, target, iter, body, orelse } = s {
            let iter_node = self.visit_expr(iter);
            self.iter_protocol(iter_node, *is_async);
            self.bind_iteration_target(target, iter, iter_node);
            self.visit_body(body);
            self.visit_body(orelse);
        }
    }

    /// A `with` statement: each context manager (with context-manager
    /// protocol edges for a known class), its `as` name, then the body.
    #[verifier::loop_isolation(false)]
    pub fn visit_with(&mut self, s: &PyStmt)
        requires
            old(self).wf(),
        ensures
            old(self).evolves_up(final(self)),
        decreases s, 3int,
    {
        if let PyStmt::With { is_async, items, body } = s {
            let mut i: usize = 0;
            while i < items.len()
                invariant
                    old(self).evolves_up(self),
                decreases items.len() - i,
            {
                let _ = self.visit_with_item(s, i);
                i = i + 1;
            }
            self.visit_body(body);
        }
    }

    /// Item `i` of a `with` statement: its context manager (with
    /// context-manager protocol edges for a known class), then its `as`
    /// name bound to the manager's value, as an assignment would bind it.
    /// Returns the manager's value. In a scope, reading the `as` name then
    /// finds that value.
    #[verifier::loop_isolation(false)]
    pub fn visit_with_item(&mut self, s: &PyStmt, i: usize) -> (r: Option<NodeId>)
        requires
            old(self).wf(),
        ensures
            old(self).evolves_up(final(self)),
            s matches PyStmt::With { items, .. } ==> i < items@.len() ==> (items@[i as int].context_expr matches PyExpr::Name {
                id,
                load,
            } ==> (load ==> (first_of(old(self).name_values(id@)) matches Some(w) ==> r == Some(w)))),
            s matches PyStmt::With { items, .. } ==> i < items@.len() ==> (items@[i as int].optional_vars matches Some(
                PyExpr::Name { id, .. },
            ) ==> (r matches Some(v) ==> (final(self).in_scope() ==> final(self).name_values(id@).contains(v)))),
    {
        if let PyStmt::With { is_async, items, .. } = s {
            if i < items.len() {
                let cm_node = self.visit_expr(&items[i].context_expr);
                if let Some(obj_id) = cm_node {
                    if self.is_class(obj_id) {
                        if *is_async {
                            self.emit_protocol_edges(obj_id, &["__aenter__", "__aexit__"]);
                        } else {
                            self.emit_protocol_edges(obj_id, &["__enter__", "__exit__"]);
                        }
                    }
                }
                if let Some(vars) = &items[i].optional_vars {
                    let ghost before = *self;
                    if matches!(vars, PyExpr::Name { .. }) {
                        self.analyze_binding_simple(vars, cm_node);
                        proof {
                            if let PyExpr::Name { id, .. } = vars {
                                if let Some(v) = cm_node {
                                    if self.in_scope() {
                                        lemma_bound_value_visible(before, *self, id@, v);
                                    }
                                }
                            }
                        }
                    } else {
                        let _ = self.visit_expr(vars);
                    }
                }
                return cm_node;
            }
        }
        None
    }

    /// `del`: `__delattr__` / `__delitem__` protocol edges for known
    /// classes; a deleted name is only visited.
    #[verifier::loop_isolation(false)]
    pub fn visit_delete(&mut self, s: &PyStmt)
        requires
            old(self).wf(),
        ensures
            old(self).evolves_up(final(self)),
    {
        if let PyStmt::Delete { targets } = s {
            let mut i: usize = 0;
            while i < targets.len()
                invariant
                    old(self).evolves_up(self),
                decreases targets.len() - i,
            {
                let t = &targets[i];
                match t {
                    PyExpr::Attribute { value, .. } => {
                        let obj_ids = self.get_obj_ids_for_expr(value);
                        let mut k: usize = 0;
                        while k < obj_ids.len()
                            invariant
                                old(self).evolves_up(self),
                            decreases obj_ids.len() - k,
                        {
                            if self.is_class(obj_ids[k]) {
                                self.emit_protocol_edges(obj_ids[k], &["__delattr__"]);
                            }
                            k = k + 1;
                        }
                    },
                    PyExpr::Subscript { value, slice } => {
                        let obj_ids = self.get_obj_ids_for_expr(value);
                        let mut k: usize = 0;
                        while k < obj_ids.len()
                            invariant
                                old(self).evolves_up(self),
                            decreases obj_ids.len() - k,
                        {
                            if self.is_class(obj_ids[k]) {
                                self.emit_protocol_edges(obj_ids[k], &["__delitem__"]);
                            }
                            k = k + 1;
                        }
                        let _ = self.visit_expr(slice);
                    },
                    _ => {
                        let _ = self.visit_expr(t);
                    },
                }
                i = i + 1;
            }
        }
    }

    /// A `match` pattern: value expressions and class patterns are
    /// visited; capture names are declared.
    #[verifier::loop_isolation(false)]
    pub fn visit_pattern(&mut self, p: &PyPattern)
        requires
            old(self).wf(),
        ensures
            old(self).evolves_up(final(self)),
        decreases p,
    {
        match p {
            PyPattern::Value { value } => {
                let _ = self.visit_expr(value);
            },
            PyPattern::Singleton => {},
            PyPattern::Sequence { patterns } | PyPattern::Or { patterns } => {
                let mut i: usize = 0;
                while i < patterns.len()
                    invariant
                        old(self).evolves_up(self),
                    decreases patterns.len() - i,
                {
                    proof {
                        assert(decreases_to!(*patterns => patterns@));
                        assert(decreases_to!(patterns@ => patterns@[i as int]));
                        if p is Sequence {
                            assert(*patterns == p->Sequence_patterns);
                            assert(decreases_to!(*p => p->Sequence_patterns));
                        } else {
                            assert(*patterns == p->Or_patterns);
                            assert(decreases_to!(*p => p->Or_patterns));
                        }
                    }
                    self.visit_pattern(&patterns[i]);
                    i = i + 1;
                }
            },
            PyPattern::Mapping { keys, patterns, rest } => {
                let mut i: usize = 0;
                while i < keys.len()
                    invariant
                        old(self).evolves_up(self),
                    decreases keys.len() - i,
                {
                    let _ = self.visit_expr(&keys[i]);
                    i = i + 1;
                }
                let mut i: usize = 0;
                while i < patterns.len()
                    invariant
                        old(self).evolves_up(self),
                    decreases patterns.len() - i,
                {
                    proof {
                        assert(decreases_to!(*p => p->Mapping_patterns));
                        assert(decreases_to!(*patterns => patterns@));
                        assert(decreases_to!(patterns@ => patterns@[i as int]));
                    }
                    self.visit_pattern(&patterns[i]);
                    i = i + 1;
                }
                if let Some(r) = rest {
                    self.set_value(str_to_chars(r.as_str()).as_slice(), None);
                }
            },
            PyPattern::Class { cls, patterns, kw_patterns } => {
                let _ = self.visit_expr(cls);
                let mut i: usize = 0;
                while i < patterns.len()
                    invariant
                        old(self).evolves_up(self),
                    decreases patterns.len() - i,
                {
                    proof {
                        assert(decreases_to!(*p => p->Class_patterns));
                        assert(decreases_to!(*patterns => patterns@));
                        assert(decreases_to!(patterns@ => patterns@[i as int]));
                    }
                    self.visit_pattern(&patterns[i]);
                    i = i + 1;
                }
                let mut i: usize = 0;
                while i < kw_patterns.len()
                    invariant
                        old(self).evolves_up(self),
                    decreases kw_patterns.len() - i,
                {
                    proof {
                        assert(decreases_to!(*p => p->Class_kw_patterns));
                        assert(decreases_to!(*kw_patterns => kw_patterns@));
                        assert(decreases_to!(kw_patterns@ => kw_patterns@[i as int]));
                    }
                    self.visit_pattern(&kw_patterns[i]);
                    i = i + 1;
                }
            },
            PyPattern::Star { name } => {
                if let Some(n) = name {
                    self.set_value(str_to_chars(n.as_str()).as_slice(), None);
                }
            },
            PyPattern::As { pattern, name } => {
                if let Some(inner) = pattern {
                    self.visit_pattern(inner);
                }
                if let Some(n) = name {
                    self.set_value(str_to_chars(n.as_str()).as_slice(), None);
                }
            },
        }
    }

    /// Visit each expression of a list; returns the last one's node.
    #[verifier::loop_isolation(false)]
    fn visit_exprs(&mut self, es: &Vec<PyExpr>) -> (r: Option<NodeId>)
        requires
            old(self).wf(),
        ensures
            old(self).evolves_up(final(self)),
            es@.len() == 0 ==> r is None && *final(self) == *old(self),
            es@.len() > 0 && (es@.last() is Dict || es@.last() is SetDisplay || es@.last() is List || es@.last() is Compare
                || es@.last() is Slice || es@.last() is FString || es@.last() is StrLit || es@.last() is IntLit
                || es@.last() is OtherLit) ==> r is None,
        decreases es, 3int,
    {
        let mut last: Option<NodeId> = None;
        let mut i: usize = 0;
        while i < es.len()
            invariant
                old(self).evolves_up(self),
                i <= es@.len(),
                i == 0 ==> last is None && *self == *old(self),
                i > 0 && (es@[i - 1] is Dict || es@[i - 1] is SetDisplay || es@[i - 1] is List || es@[i - 1] is Compare
                    || es@[i - 1] is Slice || es@[i - 1] is FString || es@[i - 1] is StrLit || es@[i - 1] is IntLit
                    || es@[i - 1] is OtherLit) ==> last is None,
            decreases es.len() - i,
        {
            proof {
                assert(decreases_to!(*es => es@));
                assert(decreases_to!(es@ => es@[i as int]));
            }
            last = self.visit_expr(&es[i]);
            i = i + 1;
        }
        proof {
            if es@.len() > 0 {
                assert(es@.last() == es@[es@.len() - 1]);
            }
        }
        last
    }

    /// Visit an expression: emit the uses edges it makes and return the
    /// node it evaluates to, when one is known.
    #[verifier::loop_isolation(false)]
    pub fn visit_expr(&mut self, e: &PyExpr) -> (r: Option<NodeId>)
        requires
            old(self).wf(),
        ensures
            old(self).evolves_up(final(self)),
            (e is StrLit || e is IntLit || e is OtherLit) ==> r is None,
            (e is Dict || e is SetDisplay || e is List || e is Compare || e is Slice || e is FString) ==> r is None,
            e matches PyExpr::Name { id, load } ==> if !*load {
                r is None
            } else {
                match first_of(old(self).name_values(id@)) {
                    Some(v) => r == Some(v),
                    None => if old(self).local_name(id@) {
                        r is None
                    } else {
                        r matches Some(x) && x < final(self).graph.n()
                            && final(self).graph.interner.str_of(final(self).graph.nodes_arena@[x as int].name) == id@
                            && final(self).graph.nodes_arena@[x as int].namespace is None
                    },
                }
            },
            e is Lambda ==> (r matches Some(x) && x < final(self).graph.n() && final(self).graph.defined@[x as int]
                && final(self).graph.interner.str_of(final(self).graph.nodes_arena@[x as int].name) == "lambda"@),
            e matches PyExpr::Name { id, load } ==> (*load ==> forall|k: int|
                0 <= k < old(self).name_values(id@).len() && uses_target(&*old(self), #[trigger] old(self).name_values(id@)[k])
                    ==> used_by_some(&*final(self), old(self).name_values(id@)[k])),
        decreases e, 2int,
    {
        match e {
            PyExpr::Name { .. } => self.visit_name(e),
            PyExpr::Attribute { .. } => self.visit_attribute(e),
            PyExpr::Call { .. } => self.visit_call(e),
            PyExpr::Lambda { .. } => self.visit_lambda(e),
            PyExpr::Comp { .. } => self.analyze_comprehension(e),
            PyExpr::BoolOp { values } => self.visit_exprs(values),
            PyExpr::BinOp { left, right } => {
                let _ = self.visit_expr(left);
                self.visit_expr(right)
            },
            PyExpr::UnaryOp { operand, .. } => self.visit_expr(operand),
            PyExpr::IfExp { test, body, orelse } => {
                let _ = self.visit_expr(test);
                let body_val = self.visit_expr(body);
                let _ = self.visit_expr(orelse);
                body_val
            },
            PyExpr::Dict { items } => {
                let mut i: usize = 0;
                while i < items.len()
                    invariant
                        old(self).evolves_up(self),
                    decreases items.len() - i,
                {
                    proof {
                        assert(decreases_to!(*e => e->Dict_items));
                        assert(decreases_to!(*items => items@));
                        assert(decreases_to!(items@ => items@[i as int]));
                        assert(decreases_to!(items@[i as int] => items@[i as int].key));
                        assert(decreases_to!(items@[i as int] => items@[i as int].value));
                    }
                    if let Some(k) = &items[i].key {
                        let _ = self.visit_expr(k);
                    }
                    let _ = self.visit_expr(&items[i].value);
                    i = i + 1;
                }
                None
            },
            PyExpr::SetDisplay { elts } | PyExpr::List { elts } => {
                let _ = self.visit_exprs(elts);
                None
            },
            PyExpr::Tuple { elts } => self.visit_exprs(elts),
            PyExpr::Subscript { value, slice } => {
                let resolved = self.resolve_subscript_value(e);
                if !resolved.values.is_empty() {
                    let from_node = self.get_node_of_current_namespace();
                    let vals = resolved.values.iter();
                    let mut i: usize = 0;
                    while i < vals.len()
                        invariant
                            old(self).evolves_up(self),
                        decreases vals.len() - i,
                    {
                        let _ = self.add_uses_edge(from_node, vals[i]);
                        i = i + 1;
                    }
                }
                let val = self.visit_expr(value);
                let _ = self.visit_expr(slice);
                match resolved.first_value() {
                    Some(f) => Some(f),
                    None => val,
                }
            },
            PyExpr::Starred { value } => self.visit_expr(value),
            PyExpr::Await { value } => self.visit_expr(value),
            PyExpr::Yield { value } => {
                match value {
                    Some(v) => self.visit_expr(v),
                    None => None,
                }
            },
            PyExpr::Compare { left, comparators } => {
                let _ = self.visit_expr(left);
                let _ = self.visit_exprs(comparators);
                None
            },
            PyExpr::Slice { lower, upper, step } => {
                if let Some(x) = lower {
                    let _ = self.visit_expr(x);
                }
                if let Some(x) = upper {
                    let _ = self.visit_expr(x);
                }
                if let Some(x) = step {
                    let _ = self.visit_expr(x);
                }
                None
            },
            PyExpr::Named { target, value } => {
                let val = self.visit_expr(value);
                self.bind_target_to_value(target, val);
                let shallow = self.resolve_shallow_value(value);
                self.bind_target_to_shallow_value(target, &shallow);
                val
            },
            PyExpr::FString { exprs } => {
                let _ = self.visit_exprs(exprs);
                None
            },
            PyExpr::StrLit { .. } | PyExpr::IntLit { .. } | PyExpr::OtherLit => None,
        }
    }

    /// A name being read: a uses edge from the current namespace to each
    /// value bound to it (except the enclosing class itself); an unbound
    /// non-local name gets an unknown (wildcard) node. Returns the first
    /// value (or the wildcard).
    #[verifier::loop_isolation(false)]
    pub fn visit_name(&mut self, e: &PyExpr) -> (r: Option<NodeId>)
        requires
            old(self).wf(),
        ensures
            old(self).evolves_up(final(self)),
            !(e is Name && e->Name_load) ==> r is None,
            e matches PyExpr::Name { id, load } ==> (*load ==> match first_of(old(self).name_values(id@)) {
                Some(v) => r == Some(v),
                None => if old(self).local_name(id@) {
                    r is None
                } else {
                    r matches Some(x) && x < final(self).graph.n()
                        && final(self).graph.interner.str_of(final(self).graph.nodes_arena@[x as int].name) == id@
                        && final(self).graph.nodes_arena@[x as int].namespace is None
                        && exists|f: int| 0 <= f < final(self).graph.n() && (#[trigger] final(self).graph.uses_edges@[f])@.contains(x)
                },
            }),
            e matches PyExpr::Name { id, load } ==> (*load ==> forall|k: int|
                0 <= k < old(self).name_values(id@).len() && uses_target(&*old(self), #[trigger] old(self).name_values(id@)[k])
                    ==> used_by_some(&*final(self), old(self).name_values(id@)[k])),
    {
        if let PyExpr::Name { id, load } = e {
            if !*load {
                return None;
            }
            let tgt_name = str_to_chars(id.as_str());
            let values = self.get_values(tgt_name.as_slice()).iter();
            let current_class = self.get_current_class();
            if values.len() == 0 {
                if self.is_local(tgt_name.as_slice()) {
                    return None;
                }
                let to_id = self.get_node(None, tgt_name.as_slice(), Flavor::Unknown);
                let ghost g1 = self.graph;
                let from_node = self.get_node_of_current_namespace();
                let _ = self.add_uses_edge(from_node, to_id);
                proof {
                    assert(self.graph.uses_edges@[from_node as int]@.contains(to_id));
                    let nm = g1.nodes_arena@[to_id as int].name;
                    assert(self.graph.nodes_arena@[to_id as int].name == nm);
                    assert(self.graph.interner@[nm.0 as int] == g1.interner@[nm.0 as int]);
                }
                return Some(to_id);
            }
            let from_node = self.get_node_of_current_namespace();
            let ghost gf = self.graph;
            let mut first: Option<NodeId> = None;
            let mut i: usize = 0;
            while i < values.len()
                invariant
                    old(self).evolves_up(self),
                    first == (if i == 0 { None } else { Some(values@[0]) }),
                    from_node < self.graph.n(),
                    i <= values@.len(),
                    forall|x: int| 0 <= x < old(self).graph.n() ==> (#[trigger] self.graph.nodes_arena@[x]).namespace == old(self).graph.nodes_arena@[x].namespace,
                    forall|jj: int| 0 <= jj < i && uses_target(&*old(self), #[trigger] values@[jj])
                        ==> self.graph.uses_edges@[from_node as int]@.contains(values@[jj]),
                decreases values.len() - i,
            {
                let to = values[i];
                let ghost g0 = self.graph;
                if current_class == Some(to) {
                    if first.is_none() {
                        first = Some(to);
                    }
                } else {
                    let added = self.add_uses_edge(from_node, to);
                    proof {
                        if added {
                            assert forall|x: usize| g0.uses_edges@[from_node as int]@.contains(x) && g0.nodes_arena@[x as int].namespace is Some
                                implies self.graph.uses_edges@[from_node as int]@.contains(x) by {
                                if g0.drops_on_add(from_node, to, x) {
                                    assert(g0.is_wild(x, g0.nodes_arena@[to as int].name));
                                }
                            }
                        }
                    }
                    if first.is_none() {
                        first = Some(to);
                    }
                }
                proof {
                    assert forall|jj: int| 0 <= jj < i + 1 && uses_target(&*old(self), #[trigger] values@[jj])
                        implies self.graph.uses_edges@[from_node as int]@.contains(values@[jj]) by {
                        let v = values@[jj];
                        if jj < i {
                            assert(g0.uses_edges@[from_node as int]@.contains(v));
                            assert(g0.nodes_arena@[v as int].namespace is Some);
                        } else {
                            assert(v == to);
                            assert(current_class != Some(to));
                        }
                    }
                }
                i = i + 1;
            }
            proof {
                assert forall|k: int| 0 <= k < values@.len() && uses_target(&*old(self), #[trigger] values@[k])
                    implies used_by_some(&*self, values@[k]) by {
                    assert(self.graph.uses_edges@[from_node as int]@.contains(values@[k]));
                }
            }
            first
        } else {
            None
        }
    }

    /// An attribute being read: for each object the base may be, a uses
    /// edge to the attribute found in its scope (or along its MRO), else to
    /// a placeholder attribute node; the matching wildcard edge is dropped.
    /// The base expression is visited too.
    #[verifier::loop_isolation(false)]
    pub fn visit_attribute(&mut self, e: &PyExpr) -> (r: Option<NodeId>)
        requires
            old(self).wf(),
        ensures
            old(self).evolves_up(final(self)),
        decreases e, 1int,
    {
        if let PyExpr::Attribute { value, attr, load } = e {
            if !*load {
                return None;
            }
            let attr_name = str_to_chars(attr.as_str());
            let from_node = self.get_node_of_current_namespace();
            let obj_ids = self.get_obj_ids_for_expr(value);
            if obj_ids.len() > 0 {
                let mut first_result: Option<NodeId> = None;
                let mut found_any = false;
                let mut i: usize = 0;
                while i < obj_ids.len()
                    invariant
                        old(self).evolves_up(self),
                    decreases obj_ids.len() - i,
                {
                    let obj_id = obj_ids[i];
                    i = i + 1;
                    if !self.has_ns(obj_id) {
                        continue;
                    }
                    let ns = self.node_name(obj_id);
                    let mut attr_result = self.lookup_in_scope(ns.as_slice(), attr_name.as_slice());
                    if attr_result.is_none() {
                        let mro = self.mro_of(obj_id);
                        let mut k: usize = 1;
                        while k < mro.len()
                            decreases mro.len() - k,
                        {
                            let base_ns = self.node_name(mro[k]);
                            let found = self.lookup_in_scope(base_ns.as_slice(), attr_name.as_slice());
                            if found.is_some() {
                                attr_result = found;
                                break;
                            }
                            k = k + 1;
                        }
                    }
                    let emit_id = match attr_result {
                        Some(attr_id) => {
                            let _ = self.add_uses_edge(from_node, attr_id);
                            if self.has_ns(attr_id) {
                                let attr_sym = self.sym_chars(attr_name.as_slice());
                                self.remove_wild(from_node, attr_id, attr_sym);
                            }
                            attr_id
                        },
                        None => {
                            let attr_node = self.get_node(Some(ns.as_slice()), attr_name.as_slice(), Flavor::Attribute);
                            let _ = self.add_uses_edge(from_node, attr_node);
                            let attr_sym = self.sym_chars(attr_name.as_slice());
                            self.remove_wild(from_node, obj_id, attr_sym);
                            attr_node
                        },
                    };
                    found_any = true;
                    if first_result.is_none() {
                        first_result = Some(emit_id);
                    }
                }
                if found_any {
                    let _ = self.visit_expr(value);
                    return first_result;
                }
            }
            self.visit_expr(value)
        } else {
            None
        }
    }

    /// A call: its arguments are visited; `super()` resolves to the next
    /// class in the MRO; calling a known class adds a uses edge to its
    /// `__init__` and evaluates to the class; otherwise each recorded
    /// return value of each possible callee gets a uses edge and the first
    /// is the call's value (else the callee's node).
    #[verifier::loop_isolation(false)]
    pub fn visit_call(&mut self, e: &PyExpr) -> (r: Option<NodeId>)
        requires
            old(self).wf(),
        ensures
            old(self).evolves_up(final(self)),
        decreases e, 1int,
    {
        if let PyExpr::Call { func, args, keywords } = e {
            let _ = self.visit_exprs(args);
            let _ = self.visit_exprs(keywords);
            if let Some(result_id) = self.resolve_builtins_from_call(e) {
                let from_node = self.get_node_of_current_namespace();
                let _ = self.add_uses_edge(from_node, result_id);
                return Some(result_id);
            }
            let func_node = self.visit_expr(func);
            if let Some(fid) = func_node {
                if self.is_class(fid) {
                    let from_node = self.get_node_of_current_namespace();
                    let func_name = self.node_name(fid);
                    let init: Vec<char> = str_to_chars("__init__");
                    let init_node = self.get_node(Some(func_name.as_slice()), init.as_slice(), Flavor::Method);
                    let _ = self.add_uses_edge(from_node, init_node);
                    return func_node;
                }
            }
            let mut cands = self.get_obj_ids_for_expr(func);
            if let Some(fid) = func_node {
                push_unique(&mut cands, fid);
            }
            let from_node = self.get_node_of_current_namespace();
            let mut first_ret: Option<NodeId> = None;
            let mut i: usize = 0;
            while i < cands.len()
                invariant
                    old(self).evolves_up(self),
                decreases cands.len() - i,
            {
                let rets = self.returns_of(cands[i]).iter();
                let mut j: usize = 0;
                while j < rets.len()
                    invariant
                        old(self).evolves_up(self),
                    decreases rets.len() - j,
                {
                    let _ = self.add_uses_edge(from_node, rets[j]);
                    if first_ret.is_none() {
                        first_ret = Some(rets[j]);
                    }
                    j = j + 1;
                }
                i = i + 1;
            }
            if first_ret.is_some() {
                return first_ret;
            }
            func_node
        } else {
            None
        }
    }

    /// Intern `name` and declare it as a local of `scope`.
    fn declare_param(&mut self, scope: &mut ScopeInfo, name: &str)
        requires
            old(self).wf(),
        ensures
            old(self).evolves_up(final(self)),
            old(self).graph.interner.extends(&final(self).graph.interner),
            final(self).graph.n() == old(self).graph.n(),
            grows_locals(*old(scope), *final(scope), &final(self).graph.interner, set![name@]),
            declared_local(*final(scope), &final(self).graph.interner, name@),
    {
        let sym = self.sym(name);
        let ghost s0 = *scope;
        let r = scope.declare(sym);
        let ghost s1 = *scope;
        scope.add_local(sym);
        proof {
            let interner = &self.graph.interner;
            assert(scope.defs@[r as int].0 == sym);
            assert(scope.locals@.contains(sym)) by {
                if !s1.locals@.contains(sym) {
                    assert(scope.locals@[scope.locals@.len() - 1] == sym);
                }
            }
            assert(s0.defs@.is_prefix_of(scope.defs@));
            assert(s0.locals@.is_prefix_of(scope.locals@));
            assert forall|i: int| s0.locals@.len() <= i < scope.locals@.len() implies interner.has_id(#[trigger] scope.locals@[i])
                && set![name@].contains(interner.str_of(scope.locals@[i])) by {
                assert(scope.locals@[i] == sym);
            }
        }
    }

    /// Declare the parameters of a lambda as locals of `scope`.
    #[verifier::loop_isolation(false)]
    fn declare_lambda_params(&mut self, params: &PyParams, scope: &mut ScopeInfo)
        requires
            old(self).wf(),
        ensures
            old(self).evolves_up(final(self)),
            final(self).graph.n() == old(self).graph.n(),
            grows_locals(*old(scope), *final(scope), &final(self).graph.interner, param_names(*params)),
            forall|n: Seq<char>| #[trigger] param_names(*params).contains(n) ==> declared_local(*final(scope), &final(self).graph.interner, n),
    {
        let ghost pn = param_names(*params);
        proof {
            lemma_grows_refl(*scope, &self.graph.interner, pn);
        }
        let mut i: usize = 0;
        while i < params.args.len()
            invariant
                old(self).evolves_up(self),
                self.graph.n() == old(self).graph.n(),
                old(self).graph.interner.extends(&self.graph.interner),
                grows_locals(*old(scope), *scope, &self.graph.interner, pn),
                forall|k: int| 0 <= k < i ==> declared_local(*scope, &self.graph.interner, (#[trigger] params.args@[k]).name@),
            decreases params.args.len() - i,
        {
            let ghost s0 = *scope;
            let ghost i0 = self.graph.interner;
            self.declare_param(scope, params.args[i].name.as_str());
            proof {
                assert(pn.contains(params.args@[i as int].name@));
                lemma_declare_step(*old(scope), s0, *scope, &i0, &self.graph.interner, pn, params.args@[i as int].name@);
            }
            i = i + 1;
        }
        let mut i: usize = 0;
        while i < params.posonlyargs.len()
            invariant
                old(self).evolves_up(self),
                self.graph.n() == old(self).graph.n(),
                old(self).graph.interner.extends(&self.graph.interner),
                grows_locals(*old(scope), *scope, &self.graph.interner, pn),
                forall|k: int| 0 <= k < params.args@.len() ==> declared_local(*scope, &self.graph.interner, (#[trigger] params.args@[k]).name@),
                forall|k: int| 0 <= k < i ==> declared_local(*scope, &self.graph.interner, (#[trigger] params.posonlyargs@[k]).name@),
            decreases params.posonlyargs.len() - i,
        {
            let ghost s0 = *scope;
            let ghost i0 = self.graph.interner;
            self.declare_param(scope, params.posonlyargs[i].name.as_str());
            proof {
                assert(pn.contains(params.posonlyargs@[i as int].name@));
                lemma_declare_step(*old(scope), s0, *scope, &i0, &self.graph.interner, pn, params.posonlyargs@[i as int].name@);
            }
            i = i + 1;
        }
        let mut i: usize = 0;
        while i < params.kwonlyargs.len()
            invariant
                old(self).evolves_up(self),
                self.graph.n() == old(self).graph.n(),
                old(self).graph.interner.extends(&self.graph.interner),
                grows_locals(*old(scope), *scope, &self.graph.interner, pn),
                forall|k: int| 0 <= k < params.args@.len() ==> declared_local(*scope, &self.graph.interner, (#[trigger] params.args@[k]).name@),
                forall|k: int| 0 <= k < params.posonlyargs@.len() ==> declared_local(*scope, &self.graph.interner, (#[trigger] params.posonlyargs@[k]).name@),
                forall|k: int| 0 <= k < i ==> declared_local(*scope, &self.graph.interner, (#[trigger] params.kwonlyargs@[k]).name@),
            decreases params.kwonlyargs.len() - i,
        {
            let ghost s0 = *scope;
            let ghost i0 = self.graph.interner;
            self.declare_param(scope, params.kwonlyargs[i].name.as_str());
            proof {
                assert(pn.contains(params.kwonlyargs@[i as int].name@));
                lemma_declare_step(*old(scope), s0, *scope, &i0, &self.graph.interner, pn, params.kwonlyargs@[i as int].name@);
            }
            i = i + 1;
        }
        if let Some(va) = &params.vararg {
            let ghost s0 = *scope;
            let ghost i0 = self.graph.interner;
            self.declare_param(scope, va.name.as_str());
            proof {
                assert(pn.contains(va.name@));
                lemma_declare_step(*old(scope), s0, *scope, &i0, &self.graph.interner, pn, va.name@);
            }
        }
        if let Some(kw) = &params.kwarg {
            let ghost s0 = *scope;
            let ghost i0 = self.graph.interner;
            self.declare_param(scope, kw.name.as_str());
            proof {
                assert(pn.contains(kw.name@));
                lemma_declare_step(*old(scope), s0, *scope, &i0, &self.graph.interner, pn, kw.name@);
                if params.vararg is Some {
                    assert(declared_local(s0, &i0, params.vararg.unwrap().name@));
                }
            }
        }
        proof {
            let interner = &self.graph.interner;
            assert forall|n: Seq<char>| #[trigger] pn.contains(n) implies declared_local(*scope, interner, n) by {
                if exists|i: int| 0 <= i < params.posonlyargs@.len() && (#[trigger] params.posonlyargs@[i]).name@ == n {
                    let i = choose|i: int| 0 <= i < params.posonlyargs@.len() && (#[trigger] params.posonlyargs@[i]).name@ == n;
                    assert(declared_local(*scope, interner, params.posonlyargs@[i].name@));
                } else if exists|i: int| 0 <= i < params.args@.len() && (#[trigger] params.args@[i]).name@ == n {
                    let i = choose|i: int| 0 <= i < params.args@.len() && (#[trigger] params.args@[i]).name@ == n;
                    assert(declared_local(*scope, interner, params.args@[i].name@));
                } else if exists|i: int| 0 <= i < params.kwonlyargs@.len() && (#[trigger] params.kwonlyargs@[i]).name@ == n {
                    let i = choose|i: int| 0 <= i < params.kwonlyargs@.len() && (#[trigger] params.kwonlyargs@[i]).name@ == n;
                    assert(declared_local(*scope, interner, params.kwonlyargs@[i].name@));
                }
            }
        }
    }

    /// A lambda: its parameters and body in a `lambda` namespace under the
    /// current one, which defines (and evaluates to) the lambda's node.
    #[verifier::loop_isolation(false)]
    pub fn visit_lambda(&mut self, e: &PyExpr) -> (r: Option<NodeId>)
        requires
            old(self).wf(),
        ensures
            old(self).evolves_up(final(self)),
            e is Lambda ==> r is Some,
            !(e is Lambda) ==> r is None,
            r matches Some(x) ==> {
                &&& x < final(self).graph.n()
                &&& final(self).graph.defined@[x as int]
                &&& final(self).graph.interner.str_of(final(self).graph.nodes_arena@[x as int].name) == "lambda"@
                &&& exists|f: int| 0 <= f < final(self).graph.n() && (#[trigger] final(self).graph.defines_edges@[f])@.contains(x)
            },
        decreases e, 1int,
    {
        if let PyExpr::Lambda { params, body } = e {
            let label: Vec<char> = str_to_chars("lambda");
            let parent_fqn = self.current_fqn_or_empty();
            let parent_ns = self.text(parent_fqn);
            let inner_ns = dot_join(parent_ns.as_slice(), label.as_slice());
            let inner_ns_sym = self.sym_chars(inner_ns.as_slice());
            if scope_pos(&self.scopes, inner_ns_sym).is_none() {
                let mut scope = ScopeInfo::new();
                if let Some(p) = params {
                    self.declare_lambda_params(p, &mut scope);
                }
                self.scopes.push((inner_ns_sym, scope));
            }
            let label_sym = self.sym_chars(label.as_slice());
            self.push_name(label_sym);
            self.scope_stack.push(inner_ns_sym);
            self.context_stack.push(Ctx::Inner);
            if let Some(p) = params {
                proof {
                    assert(decreases_to!(*e => e->Lambda_params));
                }
                self.generate_args_nodes(p, inner_ns.as_slice());
                self.analyze_arguments(p);
            }
            let _ = self.visit_expr(body);
            self.context_stack.pop();
            self.scope_stack.pop();
            self.pop_name();
            let from_node = self.get_node_of_current_namespace();
            let from_name = self.node_name(from_node);
            let to_node = self.get_node(Some(from_name.as_slice()), label.as_slice(), Flavor::Namespace);
            let _ = self.add_defines_edge(from_node, Some(to_node));
            proof {
                assert(self.graph.defines_edges@[from_node as int]@.contains(to_node));
            }
            Some(to_node)
        } else {
            None
        }
    }

    /// A comprehension or generator expression: the outermost iterable in
    /// the current scope, then targets, conditions, inner generators and
    /// the element expression(s) in a namespace named after its kind, which
    /// defines (and evaluates to) the comprehension's node.
    #[verifier::loop_isolation(false)]
    pub fn analyze_comprehension(&mut self, e: &PyExpr) -> (r: Option<NodeId>)
        requires
            old(self).wf(),
        ensures
            old(self).evolves_up(final(self)),
        decreases e, 1int,
    {
        if let PyExpr::Comp { kind, elt, value, generators } = e {
            if generators.len() == 0 {
                return None;
            }
            let label: Vec<char> = match kind {
                CompKind::ListComp => str_to_chars("listcomp"),
                CompKind::SetComp => str_to_chars("setcomp"),
                CompKind::DictComp => str_to_chars("dictcomp"),
                CompKind::GeneratorExp => str_to_chars("genexpr"),
            };
            proof {
                assert(decreases_to!(*e => e->Comp_generators));
                assert(decreases_to!(*generators => generators@));
                assert(decreases_to!(generators@ => generators@[0]));
                assert(decreases_to!(generators@[0] => generators@[0].iter));
            }
            let outermost = &generators[0];
            let iter_node = self.visit_expr(&outermost.iter);
            self.iter_protocol(iter_node, outermost.is_async);
            let parent_fqn = self.current_fqn_or_empty();
            let parent_ns = self.text(parent_fqn);
            let inner_ns = dot_join(parent_ns.as_slice(), label.as_slice());
            let inner_ns_sym = self.sym_chars(inner_ns.as_slice());
            if scope_pos(&self.scopes, inner_ns_sym).is_none() {
                let mut names: Vec<Vec<char>> = Vec::new();
                let mut g: usize = 0;
                while g < generators.len()
                    decreases generators.len() - g,
                {
                    collect_target_names_from_expr(&generators[g].target, &mut names);
                    g = g + 1;
                }
                let mut scope = ScopeInfo::new();
                let mut k: usize = 0;
                while k < names.len()
                    invariant
                        old(self).evolves_up(self),
                        self.graph.interner.has_id(inner_ns_sym),
                    decreases names.len() - k,
                {
                    let sym = self.sym_chars(names[k].as_slice());
                    let _ = scope.declare(sym);
                    scope.add_local(sym);
                    k = k + 1;
                }
                self.scopes.push((inner_ns_sym, scope));
            }
            let label_sym = self.sym_chars(label.as_slice());
            self.push_name(label_sym);
            self.scope_stack.push(inner_ns_sym);
            self.context_stack.push(Ctx::Inner);
            self.bind_iteration_target(&outermost.target, &outermost.iter, iter_node);
            let _ = self.visit_exprs(&outermost.ifs);
            let mut g: usize = 1;
            while g < generators.len()
                invariant
                    old(self).evolves_up(self),
                decreases generators.len() - g,
            {
                proof {
                    assert(decreases_to!(generators@ => generators@[g as int]));
                    assert(decreases_to!(generators@[g as int] => generators@[g as int].iter));
                    assert(decreases_to!(generators@[g as int] => generators@[g as int].ifs));
                }
                let comp = &generators[g];
                let val = self.visit_expr(&comp.iter);
                self.iter_protocol(val, comp.is_async);
                self.bind_iteration_target(&comp.target, &comp.iter, val);
                let _ = self.visit_exprs(&comp.ifs);
                g = g + 1;
            }
            let _ = self.visit_expr(elt);
            if let Some(v) = value {
                let _ = self.visit_expr(v);
            }
            self.context_stack.pop();
            self.scope_stack.pop();
            self.pop_name();
            let from_node = self.get_node_of_current_namespace();
            let from_name = self.node_name(from_node);
            let to_node = self.get_node(Some(from_name.as_slice()), label.as_slice(), Flavor::Namespace);
            let _ = self.add_defines_edge(from_node, Some(to_node));
            Some(to_node)
        } else {
            None
        }
    }
}

} // verus!
