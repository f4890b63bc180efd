//! Binding assignment targets, imports, argument placeholders and
//! protocol (dunder method) edges.

use vstd::prelude::*;

use crate::analyzer::resolution::{is_name, push_unique, str_is};
use crate::analyzer::session::{resolve_subscript, scope_pos, AnalysisSession, ShallowValue};
use crate::analyzer::graph::argument_sentinel;
use crate::intern::SymId;
use crate::node::{Flavor, NodeId};
use crate::pyast::{PyExpr, PyParams, PyStmt};
use crate::scope::ValueSet;
use crate::text::{dot_join, dotted, join, join_dots, split_dots, split_on, str_to_chars};

verus! {

/// The characters of `s` before its first `.` (all of `s` if it has none).
pub fn first_segment(s: &[char]) -> (r: Vec<char>)
    ensures
        r@.len() <= s@.len(),
        r@ == s@.take(r@.len() as int),
        !r@.contains('.'),
        r@.len() < s@.len() ==> s@[r@.len() as int] == '.',
{
    let mut out: Vec<char> = Vec::new();
    let mut i: usize = 0;
    while i < s.len()
        invariant
            i <= s@.len(),
            out@ == s@.take(i as int),
            !out@.contains('.'),
        decreases s.len() - i,
    {
        if s[i] == '.' {
            return out;
        }
        out.push(s[i]);
        i = i + 1;
        assert(out@ =~= s@.take(i as int));
    }
    out
}

impl AnalysisSession {
    /// Bind every name of an assignment target to `value` (through
    /// tuples, lists and starred targets).
    #[verifier::loop_isolation(false)]
    pub fn analyze_binding_simple(&mut self, target: &PyExpr, value: Option<NodeId>)
        requires
            old(self).wf(),
        ensures
            old(self).evolves_up(final(self)),
            target matches PyExpr::Name { id, .. } ==> old(self).value_set_as(&*final(self), id@, value),
            target is Name ==> final(self).scope_stack == old(self).scope_stack,
            target is Attribute ==> if value is Some {
                old(self).attr_bound(&*final(self), *target, value)
            } else {
                *final(self) == *old(self)
            },
            !(target is Name || target is Attribute || target is Tuple || target is List || target is Starred)
                ==> *final(self) == *old(self),
        decreases target,
    {
        match target {
            PyExpr::Tuple { elts } | PyExpr::List { elts } => {
                let mut i: usize = 0;
                while i < elts.len()
                    invariant
                        old(self).evolves_up(self),
                    decreases elts.len() - i,
                {
                    proof {
                        assert(decreases_to!(elts@ => elts@[i as int]));
                        assert(decreases_to!(*elts => elts@));
                        if target is Tuple {
                            assert(*elts == target->Tuple_elts);
                            assert(decreases_to!(*target => target->Tuple_elts));
                        } else {
                            assert(*elts == target->List_elts);
                            assert(decreases_to!(*target => target->List_elts));
                        }
                    }
                    self.analyze_binding_simple(&elts[i], value);
                    i = i + 1;
                }
            },
            PyExpr::Starred { value: inner } => {
                self.analyze_binding_simple(inner, value);
            },
            _ => {
                self.bind_target_to_value(target, value);
            },
        }
    }

    /// Bind one target to a value: a name in its scope, an attribute in
    /// its object's scope (when a value is given), and the parts of a
    /// tuple, list or starred target.
    #[verifier::loop_isolation(false)]
    pub fn bind_target_to_value(&mut self, target: &PyExpr, value: Option<NodeId>)
        requires
            old(self).wf(),
        ensures
            old(self).evolves_up(final(self)),
            target matches PyExpr::Name { id, .. } ==> old(self).value_set_as(&*final(self), id@, value),
            target is Attribute ==> if value is Some {
                old(self).attr_bound(&*final(self), *target, value)
            } else {
                *final(self) == *old(self)
            },
            !(target is Name || target is Attribute || target is Tuple || target is List || target is Starred)
                ==> *final(self) == *old(self),
            (target is Name || target is Attribute) ==> {
                &&& final(self).graph.nodes_arena == old(self).graph.nodes_arena
                &&& final(self).graph.uses_edges == old(self).graph.uses_edges
                &&& final(self).graph.defines_edges == old(self).graph.defines_edges
                &&& final(self).scope_stack == old(self).scope_stack
                &&& final(self).name_stack == old(self).name_stack
            },
        decreases target,
    {
        match target {
            PyExpr::Name { id, .. } => {
                self.set_value(str_to_chars(id.as_str()).as_slice(), value);
            },
            PyExpr::Attribute { .. } => {
                if value.is_some() {
                    let _ = self.set_attribute(target, value);
                }
            },
            PyExpr::Tuple { elts } | PyExpr::List { elts } => {
                let mut i: usize = 0;
                while i < elts.len()
                    invariant
                        old(self).evolves_up(self),
                    decreases elts.len() - i,
                {
                    proof {
                        assert(decreases_to!(elts@ => elts@[i as int]));
                        assert(decreases_to!(*elts => elts@));
                        if target is Tuple {
                            assert(*elts == target->Tuple_elts);
                            assert(decreases_to!(*target => target->Tuple_elts));
                        } else {
                            assert(*elts == target->List_elts);
                            assert(decreases_to!(*target => target->List_elts));
                        }
                    }
                    self.bind_target_to_value(&elts[i], value);
                    i = i + 1;
                }
            },
            PyExpr::Starred { value: inner } => {
                self.bind_target_to_value(inner, value);
            },
            _ => {},
        }
    }

    /// Bind a target to a shallow value: a name gets every value and the
    /// container facts, an attribute is bound in its object's scope.
    #[verifier::loop_isolation(false)]
    pub fn bind_target_to_shallow_value(&mut self, target: &PyExpr, value: &ShallowValue)
        requires
            old(self).wf(),
        ensures
            old(self).evolves_up(final(self)),
            target is Attribute ==> old(self).attr_shallow_bound(&*final(self), *target, *value),
            !(target is Name || target is Attribute || target is Tuple || target is List || target is Starred)
                ==> *final(self) == *old(self),
        decreases target,
    {
        match target {
            PyExpr::Name { id, .. } => {
                let name = str_to_chars(id.as_str());
                self.set_value(name.as_slice(), value.first_value());
                self.set_containers(name.as_slice(), &value.containers);
                let vals = value.values.iter();
                let mut i: usize = 1;
                while i < vals.len()
                    invariant
                        old(self).evolves_up(self),
                    decreases vals.len() - i,
                {
                    self.set_value(name.as_slice(), Some(vals[i]));
                    i = i + 1;
                }
            },
            PyExpr::Attribute { .. } => {
                let _ = self.set_attribute_shallow_value(target, value);
            },
            PyExpr::Tuple { elts } | PyExpr::List { elts } => {
                let mut i: usize = 0;
                while i < elts.len()
                    invariant
                        old(self).evolves_up(self),
                    decreases elts.len() - i,
                {
                    proof {
                        assert(decreases_to!(elts@ => elts@[i as int]));
                        assert(decreases_to!(*elts => elts@));
                        if target is Tuple {
                            assert(*elts == target->Tuple_elts);
                            assert(decreases_to!(*target => target->Tuple_elts));
                        } else {
                            assert(*elts == target->List_elts);
                            assert(decreases_to!(*target => target->List_elts));
                        }
                    }
                    self.bind_target_to_shallow_value(&elts[i], value);
                    i = i + 1;
                }
            },
            PyExpr::Starred { value: inner } => {
                self.bind_target_to_shallow_value(inner, value);
            },
            _ => {},
        }
    }

    /// Bind a loop (or comprehension) target: to the element values of the
    /// iterated container when its literal is known, else to the iterator.
    #[verifier::loop_isolation(false)]
    pub fn bind_iteration_target(&mut self, target: &PyExpr, iter_expr: &PyExpr, iter_node: Option<NodeId>)
        requires
            old(self).wf(),
        ensures
            old(self).evolves_up(final(self)),
    {
        let container = self.resolve_shallow_value(iter_expr);
        let iterated = resolve_subscript(&container.containers, &None);
        if !iterated.values.is_empty() || iterated.containers.len() > 0 {
            self.bind_target_to_shallow_value(target, &iterated);
        } else {
            self.analyze_binding_simple(target, iter_node);
        }
    }

    /// Uses edges from the current namespace to the protocol methods
    /// `method_names` of class `obj_id`: each looked up in the class's
    /// scope, else along its MRO.
    #[verifier::loop_isolation(false)]
    pub fn emit_protocol_edges(&mut self, obj_id: NodeId, method_names: &[&str])
        requires
            old(self).wf(),
        ensures
            old(self).evolves_up(final(self)),
    {
        let from_node = self.get_node_of_current_namespace();
        let class_ns = self.node_name(obj_id);
        let mut i: usize = 0;
        while i < method_names.len()
            invariant
                old(self).evolves_up(self),
            decreases method_names.len() - i,
        {
            let method = str_to_chars(method_names[i]);
            match self.lookup_in_scope(class_ns.as_slice(), method.as_slice()) {
                Some(mid) => {
                    let _ = self.add_uses_edge(from_node, mid);
                },
                None => {
                    let mro = self.mro_of(obj_id);
                    let mut k: usize = 1;
                    while k < mro.len()
                        invariant
                            old(self).evolves_up(self),
                        decreases mro.len() - k,
                    {
                        let base_ns = self.node_name(mro[k]);
                        if let Some(mid) = self.lookup_in_scope(base_ns.as_slice(), method.as_slice()) {
                            let _ = self.add_uses_edge(from_node, mid);
                            break;
                        }
                        k = k + 1;
                    }
                },
            }
            i = i + 1;
        }
    }

    /// The built-in calls the analyzer understands: `super()` resolves to
    /// the next class in the MRO; `str(x)` and `repr(x)` emit `__str__` /
    /// `__repr__` protocol edges for the classes `x` may be.
    #[verifier::loop_isolation(false)]
    pub fn resolve_builtins_from_call(&mut self, call: &PyExpr) -> (r: Option<NodeId>)
        requires
            old(self).wf(),
        ensures
            old(self).evolves_up(final(self)),
            (call matches PyExpr::Call { func, .. } && (**func matches PyExpr::Name { id, .. } && id@ == "super"@))
                ==> r == old(self).super_class() && *final(self) == *old(self),
            !(call matches PyExpr::Call { func, .. } && (**func matches PyExpr::Name { id, .. } && id@ == "super"@))
                ==> r is None,
            !(call matches PyExpr::Call { func, .. } && (**func matches PyExpr::Name { id, .. } && (id@ == "str"@
                || id@ == "repr"@))) ==> *final(self) == *old(self),
    {
        if let PyExpr::Call { func, args, .. } = call {
            if let PyExpr::Name { id, .. } = &**func {
                if str_is(id, "super") {
                    return self.resolve_super();
                }
                let is_str = str_is(id, "str");
                if is_str || str_is(id, "repr") {
                    if args.len() > 0 {
                        let obj_ids = self.get_obj_ids_for_expr(&args[0]);
                        let mut i: usize = 0;
                        while i < obj_ids.len()
                            invariant
                                old(self).evolves_up(self),
                            decreases obj_ids.len() - i,
                        {
                            if self.is_class(obj_ids[i]) {
                                if is_str {
                                    self.emit_protocol_edges(obj_ids[i], &["__str__"]);
                                } else {
                                    self.emit_protocol_edges(obj_ids[i], &["__repr__"]);
                                }
                            }
                            i = i + 1;
                        }
                    }
                    return None;
                }
            }
        }
        None
    }

    /// Bind every parameter of a function (or lambda) in namespace
    /// `inner_ns` to the argument placeholder node of that namespace.
    #[verifier::loop_isolation(false)]
    pub fn generate_args_nodes(&mut self, params: &PyParams, inner_ns: &[char])
        requires
            old(self).wf(),
        ensures
            old(self).evolves_up(final(self)),
    {
        let sentinel = argument_sentinel();
        let nonsense_node = self.get_node(Some(inner_ns), sentinel.as_slice(), Flavor::Unspecified);
        let inner_ns_sym = self.sym_chars(inner_ns);
        let mut syms: Vec<SymId> = Vec::new();
        let mut i: usize = 0;
        while i < params.args.len()
            invariant
                old(self).evolves_up(self),
            decreases params.args.len() - i,
        {
            syms.push(self.sym(params.args[i].name.as_str()));
            i = i + 1;
        }
        let mut i: usize = 0;
        while i < params.posonlyargs.len()
            invariant
                old(self).evolves_up(self),
            decreases params.posonlyargs.len() - i,
        {
            syms.push(self.sym(params.posonlyargs[i].name.as_str()));
            i = i + 1;
        }
        if let Some(va) = &params.vararg {
            syms.push(self.sym(va.name.as_str()));
        }
        let mut i: usize = 0;
        while i < params.kwonlyargs.len()
            invariant
                old(self).evolves_up(self),
            decreases params.kwonlyargs.len() - i,
        {
            syms.push(self.sym(params.kwonlyargs[i].name.as_str()));
            i = i + 1;
        }
        if let Some(kw) = &params.kwarg {
            syms.push(self.sym(kw.name.as_str()));
        }
        if let Some(p) = scope_pos(&self.scopes, inner_ns_sym) {
            let mut k: usize = 0;
            while k < syms.len()
                invariant
                    p < self.scopes@.len(),
                    old(self).evolves_up(self),
                decreases syms.len() - k,
            {
                self.scopes[p].1.bind(syms[k], Some(nonsense_node));
                k = k + 1;
            }
        }
    }

    /// `import a.b as c`: a uses edge to each imported module, bound to its
    /// alias (or the first part of its dotted name).
    #[verifier::loop_isolation(false)]
    pub fn visit_import(&mut self, s: &PyStmt)
        requires
            old(self).wf(),
        ensures
            old(self).evolves_up(final(self)),
    {
        if let PyStmt::Import { names } = s {
            let mut i: usize = 0;
            while i < names.len()
                invariant
                    old(self).evolves_up(self),
                decreases names.len() - i,
            {
                let src_name = str_to_chars(names[i].name.as_str());
                let from_node = self.get_node_of_current_namespace();
                let empty: Vec<char> = Vec::new();
                let mod_node = self.get_node(Some(empty.as_slice()), src_name.as_slice(), Flavor::Module);
                let alias_name = match &names[i].asname {
                    Some(a) => str_to_chars(a.as_str()),
                    None => first_segment(src_name.as_slice()),
                };
                let _ = self.add_uses_edge(from_node, mod_node);
                self.set_value(alias_name.as_slice(), Some(mod_node));
                i = i + 1;
            }
        }
    }

    /// The absolute module that `from <module> import ...` names at relative
    /// import `level` from the current module (see `import_target_name`).
    pub open spec fn import_target(&self, module: Option<String>, level: u32) -> Seq<char> {
        let name = if self.graph.interner.has_id(self.module_name) {
            self.graph.interner.str_of(self.module_name)
        } else {
            Seq::empty()
        };
        let parts = split_on(name, '.');
        let base = join(parts.take(parts.len() - level), seq!['.']);
        match module {
            Some(m) => if level > 0 && level <= parts.len() {
                if m@.len() == 0 {
                    base
                } else if base.len() == 0 {
                    m@
                } else {
                    dotted(base, m@)
                }
            } else {
                m@
            },
            None => if level <= parts.len() {
                base
            } else {
                Seq::empty()
            },
        }
    }

    /// The absolute module that `from <module> import ...` names, given
    /// the relative import `level`: the current module's name without its
    /// last `level` parts, then `module`.
    pub fn import_target_name(&self, module: &Option<String>, level: u32) -> (r: Vec<char>)
        ensures
            r@ == self.import_target(*module, level),
    {
        let module_name = self.text(self.module_name);
        let parts = split_dots(module_name.as_slice());
        let lvl = level as usize;
        match module {
            Some(m) => {
                let module_str = str_to_chars(m.as_str());
                if level > 0 {
                    if lvl <= parts.len() {
                        let base = join_dots(&parts, parts.len() - lvl);
                        if module_str.len() == 0 {
                            base
                        } else if base.len() == 0 {
                            module_str
                        } else {
                            dot_join(base.as_slice(), module_str.as_slice())
                        }
                    } else {
                        module_str
                    }
                } else {
                    module_str
                }
            },
            None => {
                if lvl <= parts.len() {
                    join_dots(&parts, parts.len() - lvl)
                } else {
                    Vec::new()
                }
            },
        }
    }

    /// `from m import a as b`: an imported analyzed submodule binds to its
    /// module node; a name the source module's scope binds is bound to the
    /// same values; otherwise to an imported-item placeholder. Each gets a
    /// uses edge. `from m import *` goes to `handle_star_import`.
    #[verifier::loop_isolation(false)]
    pub fn visit_import_from(&mut self, s: &PyStmt)
        requires
            old(self).wf(),
        ensures
            old(self).evolves_up(final(self)),
    {
        if let PyStmt::ImportFrom { module, level, names } = s {
            let from_node = self.get_node_of_current_namespace();
            let tgt_name = self.import_target_name(module, *level);
            if names.len() == 1 && str_is(&names[0].name, "*") {
                self.handle_star_import(from_node, tgt_name.as_slice());
                return;
            }
            let mut i: usize = 0;
            while i < names.len()
                invariant
                    old(self).evolves_up(self),
                decreases names.len() - i,
            {
                let item_name = str_to_chars(names[i].name.as_str());
                let alias_name = match &names[i].asname {
                    Some(a) => str_to_chars(a.as_str()),
                    None => str_to_chars(names[i].name.as_str()),
                };
                let full_name = dot_join(tgt_name.as_slice(), item_name.as_slice());
                let full_sym = self.sym_chars(full_name.as_slice());
                if self.module_file(full_sym).is_some() {
                    let empty: Vec<char> = Vec::new();
                    let mod_node = self.get_node(Some(empty.as_slice()), full_name.as_slice(), Flavor::Module);
                    self.set_value(alias_name.as_slice(), Some(mod_node));
                    let _ = self.add_uses_edge(from_node, mod_node);
                } else {
                    let resolved = self.lookup_values_in_scope(tgt_name.as_slice(), item_name.as_slice()).iter();
                    if resolved.len() > 0 {
                        let mut k: usize = 0;
                        while k < resolved.len()
                            invariant
                                old(self).evolves_up(self),
                            decreases resolved.len() - k,
                        {
                            self.set_value(alias_name.as_slice(), Some(resolved[k]));
                            let _ = self.add_uses_edge(from_node, resolved[k]);
                            k = k + 1;
                        }
                    } else {
                        let to_node = self.get_node(Some(tgt_name.as_slice()), item_name.as_slice(), Flavor::ImportedItem);
                        self.set_value(alias_name.as_slice(), Some(to_node));
                        let _ = self.add_uses_edge(from_node, to_node);
                    }
                }
                i = i + 1;
            }
        }
    }

    /// `from tgt_module import *`: bind here every non-empty name of the
    /// source module's scope that its literal `__all__` lists (or, without
    /// one, that does not start with `_`), with a uses edge to each value.
    #[verifier::loop_isolation(false)]
    pub fn handle_star_import(&mut self, from_node: NodeId, tgt_module: &[char])
        requires
            old(self).wf(),
        ensures
            old(self).evolves_up(final(self)),
    {
        let tgt_sym = self.sym_chars(tgt_module);
        let mut bindings: Vec<(SymId, ValueSet)> = Vec::new();
        if let Some(p) = scope_pos(&self.scopes, tgt_sym) {
            let scope = &self.scopes[p].1;
            let mut i: usize = 0;
            while i < scope.defs.len()
                decreases scope.defs.len() - i,
            {
                let name_sym = scope.defs[i].0;
                let vs = &scope.defs[i].1;
                if !vs.is_empty() {
                    let keep = if scope.all_exports.is_some() {
                        scope.exports_contains(name_sym)
                    } else {
                        let name = self.text(name_sym);
                        !(name.len() > 0 && name[0] == '_')
                    };
                    if keep {
                        bindings.push((name_sym, vs.duplicate()));
                    }
                }
                i = i + 1;
            }
        }
        let mut i: usize = 0;
        while i < bindings.len()
            invariant
                old(self).evolves_up(self),
            decreases bindings.len() - i,
        {
            let name = self.text(bindings[i].0);
            let values = bindings[i].1.iter();
            let mut k: usize = 0;
            while k < values.len()
                invariant
                    old(self).evolves_up(self),
                decreases values.len() - k,
            {
                self.set_value(name.as_slice(), Some(values[k]));
                let _ = self.add_uses_edge(from_node, values[k]);
                k = k + 1;
            }
            i = i + 1;
        }
    }
}

} // verus!
