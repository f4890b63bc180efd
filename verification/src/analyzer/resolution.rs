//! What expressions refer to: scope lookups, attribute and call
//! resolution, shallow container values, `super()` and base classes.

use vstd::prelude::*;

use crate::analyzer::mro::resolve_mro;
use crate::analyzer::session::{
    assoc_pos, clone_facts, resolve_subscript, scope_pos, AnalysisSession, BaseClassRef, ContainerFact,
    LiteralKey, ShallowValue, key_eq,
};
use crate::analyzer::util::{dotted_name, get_ast_node_name, literal_key_from_expr};
use crate::analyzer::session::same_fact;
use crate::analyzer::state::{first_key, first_of, lemma_def_index, lemma_first_key_unique, lemma_scope_index, scope_index};
use crate::intern::SymId;
use crate::node::NodeId;
use crate::pyast::PyExpr;
use crate::scope::ValueSet;
use crate::text::{char_views, chars_eq, chars_to_string, join, join_dots, split_dots, split_on, str_to_chars};

verus! {

/// Whether the string `a` spells `b`.
pub fn str_is(a: &String, b: &str) -> (r: bool)
    ensures
        r == (a@ == b@),
{
    let x = str_to_chars(a.as_str());
    let y = str_to_chars(b);
    chars_eq(x.as_slice(), y.as_slice())
}

/// Whether `e` is the bare name `name`.
pub fn is_name(e: &PyExpr, name: &str) -> (r: bool)
    ensures
        r == (e matches PyExpr::Name { id, .. } && id@ == name@),
{
    match e {
        PyExpr::Name { id, .. } => str_is(id, name),
        _ => false,
    }
}

/// Add `id` to `v` unless it is already there.
pub fn push_unique(v: &mut Vec<NodeId>, id: NodeId)
    ensures
        final(v)@.contains(id),
        old(v)@.contains(id) ==> final(v)@ == old(v)@,
        !old(v)@.contains(id) ==> final(v)@ == old(v)@.push(id),
{
    let mut i: usize = 0;
    while i < v.len()
        invariant
            i <= v@.len(),
            v@ == old(v)@,
            forall|j: int| 0 <= j < i ==> v@[j] != id,
        decreases v.len() - i,
    {
        if v[i] == id {
            assert(v@[i as int] == id);
            return;
        }
        i = i + 1;
    }
    v.push(id);
    assert(v@[v@.len() - 1] == id);
}

/// A dotted name that reaches nothing through its first `i` parts reaches
/// nothing through more.
proof fn lemma_chain_none(s: &AnalysisSession, parts: Seq<Seq<char>>, i: int, k: int)
    requires
        1 <= i <= k,
        s.attr_chain(parts, i) is None,
    ensures
        s.attr_chain(parts, k) is None,
    decreases k - i,
{
    if i < k {
        lemma_chain_none(s, parts, i + 1, k);
    }
}

impl AnalysisSession {
    /// The values bound to `name` in the scope of namespace `ns` (empty when
    /// either is unknown).
    pub fn lookup_values_in_scope(&self, ns: &[char], name: &[char]) -> (r: ValueSet)
        ensures
            !(self.graph.interner@.contains(ns@) && self.graph.interner@.contains(name@)) ==> r@.len() == 0,
            self.graph.interner@.contains(ns@) && self.graph.interner@.contains(name@) ==> exists|a: SymId, b: SymId|
                {
                    &&& self.graph.interner.has_id(a) && self.graph.interner.str_of(a) == ns@
                    &&& self.graph.interner.has_id(b) && self.graph.interner.str_of(b) == name@
                    &&& r@ == self.scope_values(a, b)
                },
            r@ == self.text_values(ns@, name@),
    {
        let ns_s = chars_to_string(ns);
        let name_s = chars_to_string(name);
        let ns_sym = match self.graph.interner.lookup(ns_s.as_str()) {
            Some(s) => s,
            None => return ValueSet::empty(),
        };
        let name_sym = match self.graph.interner.lookup(name_s.as_str()) {
            Some(s) => s,
            None => return ValueSet::empty(),
        };
        let pos = scope_pos(&self.scopes, ns_sym);
        proof {
            lemma_scope_index(self.scopes@, ns_sym, pos);
        }
        let r = match pos {
            Some(p) => match self.scopes[p].1.get_def(name_sym) {
                Some(vs) => {
                    proof {
                        let sc = self.scopes@[p as int].1;
                        let k = choose|k: int| 0 <= k < sc.defs@.len() && sc.defs@[k].0 == name_sym && *vs == sc.defs@[k].1
                            && forall|j: int| 0 <= j < k ==> sc.defs@[j].0 != name_sym;
                        lemma_def_index(sc, name_sym, k);
                    }
                    vs.duplicate()
                },
                None => {
                    proof {
                        let sc = self.scopes@[p as int].1;
                        if sc.def_index(name_sym) is Some {
                            let c = choose|c: int| sc.first_def(name_sym, c);
                            assert(sc.defs@[c].0 == name_sym);
                        }
                    }
                    ValueSet::empty()
                },
            },
            None => ValueSet::empty(),
        };
        proof {
            assert(ns_s@ == ns@ && name_s@ == name@);
            assert(r@ =~= self.scope_values(ns_sym, name_sym));
        }
        r
    }

    /// The first value bound to `name` in the scope of namespace `ns`.
    pub fn lookup_in_scope(&self, ns: &[char], name: &[char]) -> (r: Option<NodeId>)
        ensures
            !(self.graph.interner@.contains(ns@) && self.graph.interner@.contains(name@)) ==> r is None,
            self.graph.interner@.contains(ns@) && self.graph.interner@.contains(name@) ==> exists|a: SymId, b: SymId|
                {
                    &&& self.graph.interner.has_id(a) && self.graph.interner.str_of(a) == ns@
                    &&& self.graph.interner.has_id(b) && self.graph.interner.str_of(b) == name@
                    &&& self.scope_values(a, b).len() == 0 ==> r is None
                    &&& self.scope_values(a, b).len() > 0 ==> r == Some(self.scope_values(a, b)[0])
                },
            r == first_of(self.text_values(ns@, name@)),
    {
        self.lookup_values_in_scope(ns, name).first()
    }

    /// The container facts of `name` in the scope of namespace `ns`.
    #[verifier::rlimit(40)]
    pub fn lookup_containers_in_scope(&self, ns: &[char], name: &[char]) -> (r: Vec<ContainerFact>)
        ensures
            !(self.graph.interner@.contains(ns@) && self.graph.interner@.contains(name@)) ==> r@.len() == 0,
            self.graph.interner@.contains(ns@) && self.graph.interner@.contains(name@) ==> exists|a: SymId, b: SymId|
                {
                    &&& self.graph.interner.has_id(a) && self.graph.interner.str_of(a) == ns@
                    &&& self.graph.interner.has_id(b) && self.graph.interner.str_of(b) == name@
                    &&& r@.len() == self.scope_containers(a, b).len()
                    &&& forall|j: int| 0 <= j < r@.len() ==> same_fact(#[trigger] self.scope_containers(a, b)[j], r@[j])
                },
    {
        let ns_s = chars_to_string(ns);
        let name_s = chars_to_string(name);
        let ns_sym = match self.graph.interner.lookup(ns_s.as_str()) {
            Some(s) => s,
            None => return Vec::new(),
        };
        let name_sym = match self.graph.interner.lookup(name_s.as_str()) {
            Some(s) => s,
            None => return Vec::new(),
        };
        proof {
            assert(ns_s@ == ns@ && name_s@ == name@);
        }
        let pos = scope_pos(&self.scopes, ns_sym);
        proof {
            lemma_scope_index(self.scopes@, ns_sym, pos);
        }
        let r = match pos {
            Some(p) => match self.scopes[p].1.get_containers(name_sym) {
                Some(f) => {
                    proof {
                        let sc = self.scopes@[p as int].1;
                        let k = choose|k: int| 0 <= k < sc.containers@.len() && sc.containers@[k].0 == name_sym && *f
                            == sc.containers@[k].1 && forall|j: int| 0 <= j < k ==> sc.containers@[j].0 != name_sym;
                        assert(sc.first_containers(name_sym, k));
                        let c = choose|c: int| sc.first_containers(name_sym, c);
                        if c < k {
                            assert(sc.containers@[c].0 != name_sym);
                        }
                        if c > k {
                            assert(sc.containers@[k].0 != name_sym);
                        }
                        assert(sc.containers_index(name_sym) == Some(k));
                        assert(self.scope_containers(ns_sym, name_sym) == f@);
                    }
                    let c = clone_facts(f);
                    proof {
                        assert(forall|j: int| 0 <= j < c@.len() ==> same_fact(#[trigger] self.scope_containers(ns_sym, name_sym)[j], c@[j]));
                    }
                    c
                },
                None => {
                    proof {
                        let sc = self.scopes@[p as int].1;
                        if sc.containers_index(name_sym) is Some {
                            let c = choose|c: int| sc.first_containers(name_sym, c);
                            assert(sc.containers@[c].0 == name_sym);
                        }
                        assert(self.scope_containers(ns_sym, name_sym).len() == 0);
                    }
                    Vec::new()
                },
            },
            None => Vec::new(),
        };
        proof {
            assert(r@.len() == self.scope_containers(ns_sym, name_sym).len());
            assert(forall|j: int| 0 <= j < r@.len() ==> same_fact(#[trigger] self.scope_containers(ns_sym, name_sym)[j], r@[j]));
        }
        r
    }

    /// The method resolution order recorded for `cls` (empty if none).
    pub fn mro_of(&self, cls: NodeId) -> (r: Vec<NodeId>)
        ensures
            r@.len() > 0 ==> exists|p: int| 0 <= p < self.mro@.len() && self.mro@[p].0 == cls && self.mro@[p].1@ == r@,
            r@ == self.mro_spec(cls),
    {
        let pos = assoc_pos(&self.mro, cls);
        proof {
            if let Some(p) = pos {
                assert(first_key(self.mro@, cls, p as int));
                lemma_first_key_unique(self.mro@, cls, p as int);
            } else {
                if exists|p: int| first_key(self.mro@, cls, p) {
                    let p = choose|p: int| first_key(self.mro@, cls, p);
                    assert(self.mro@[p].0 == cls);
                }
            }
        }
        match pos {
            Some(p) => {
                let m = &self.mro[p].1;
                let mut out: Vec<NodeId> = Vec::new();
                let mut i: usize = 0;
                while i < m.len()
                    invariant
                        i <= m@.len(),
                        out@ == m@.take(i as int),
                    decreases m.len() - i,
                {
                    out.push(m[i]);
                    i = i + 1;
                    assert(out@ =~= m@.take(i as int));
                }
                assert(m@.take(m@.len() as int) =~= m@);
                out
            },
            None => Vec::new(),
        }
    }

    /// The class after the current class in its MRO: what `super()`
    /// stands for. `None` outside a class or when the MRO has no second
    /// entry.
    pub fn resolve_super(&self) -> (r: Option<NodeId>)
        ensures
            r == self.super_class(),
            self.class_stack@.len() == 0 ==> r is None,
            r matches Some(x) ==> self.class_stack@.len() > 0 && exists|p: int|
                0 <= p < self.mro@.len() && self.mro@[p].0 == self.class_stack@.last() && self.mro@[p].1@.len() > 1
                    && self.mro@[p].1@[1] == x,
    {
        let class_id = match self.get_current_class() {
            Some(c) => c,
            None => return None,
        };
        let pos = assoc_pos(&self.mro, class_id);
        proof {
            if let Some(p) = pos {
                assert(first_key(self.mro@, class_id, p as int));
                lemma_first_key_unique(self.mro@, class_id, p as int);
            } else {
                if exists|p: int| first_key(self.mro@, class_id, p) {
                    let p = choose|p: int| first_key(self.mro@, class_id, p);
                    assert(self.mro@[p].0 == class_id);
                }
            }
        }
        let p = match pos {
            Some(p) => p,
            None => return None,
        };
        if self.mro[p].1.len() > 1 {
            Some(self.mro[p].1[1])
        } else {
            None
        }
    }

    /// `super()` resolved, when `call` is a call of the bare name `super`.
    pub fn resolve_builtins(&self, call: &PyExpr) -> (r: Option<NodeId>)
        ensures
            !(call matches PyExpr::Call { func, .. } && (**func matches PyExpr::Name { id, .. } && id@ == "super"@))
                ==> r is None,
            (call matches PyExpr::Call { func, .. } && (**func matches PyExpr::Name { id, .. } && id@ == "super"@))
                ==> r == self.super_class(),
    {
        match call {
            PyExpr::Call { func, .. } => {
                if is_name(func, "super") {
                    self.resolve_super()
                } else {
                    None
                }
            },
            _ => None,
        }
    }

    /// The object whose scope holds attribute `e`: for `a.b.c`, `b` looked
    /// up in the scope of what `a.b`'s object is (when that node has a
    /// namespace); for `f().c`, `super()` resolved; otherwise the first
    /// value bound to the base's dotted name.
    pub open spec fn attr_target(&self, e: PyExpr) -> Option<NodeId>
        decreases e,
    {
        match e {
            PyExpr::Attribute { value, .. } => match *value {
                PyExpr::Attribute { attr: inner, .. } => match self.attr_target(*value) {
                    Some(o) => if o < self.graph.n() && self.graph.nodes_arena@[o as int].namespace is Some {
                        first_of(self.text_values(self.node_text(o), inner@))
                    } else {
                        None
                    },
                    None => None,
                },
                PyExpr::Call { func, .. } => if (*func matches PyExpr::Name { id, .. } && id@ == "super"@) {
                    self.super_class()
                } else {
                    None
                },
                _ => first_of(self.name_values(dotted_name(*value))),
            },
            _ => None,
        }
    }

    /// The node whose scope an assignment to attribute `e` binds in: its
    /// `attr_target`, when that node has a namespace.
    pub open spec fn attr_scope_node(&self, e: PyExpr) -> Option<NodeId> {
        match self.attr_target(e) {
            Some(o) => if o < self.graph.n() && self.graph.nodes_arena@[o as int].namespace is Some {
                Some(o)
            } else {
                None
            },
            None => None,
        }
    }

    /// `next` is this session after binding attribute `e` to `value` (see
    /// `set_attribute`): in the scope of its `attr_scope_node`, when that
    /// scope exists; otherwise no scope changes.
    pub open spec fn attr_bound(&self, next: &Self, e: PyExpr, value: Option<NodeId>) -> bool {
        match self.attr_scope_node(e) {
            Some(o) => exists|s: SymId, a: SymId|
                {
                    &&& next.graph.interner.has_id(s)
                    &&& next.graph.interner.str_of(s) == self.node_text(o)
                    &&& next.graph.interner.has_id(a)
                    &&& next.graph.interner.str_of(a) == e->Attribute_attr@
                    &&& match scope_index(self.scopes@, s) {
                        Some(p) => {
                            &&& next.scopes@.len() == self.scopes@.len()
                            &&& next.scopes@[p].0 == self.scopes@[p].0
                            &&& self.scopes@[p].1.binds_after(
                                next.scopes@[p].1,
                                a,
                                match value {
                                    Some(id) => set![id],
                                    None => Set::empty(),
                                },
                            )
                            &&& forall|q: int| 0 <= q < self.scopes@.len() && q != p ==> #[trigger] next.scopes@[q] == self.scopes@[q]
                        },
                        None => next.scopes == self.scopes,
                    }
                },
            None => next.scopes == self.scopes,
        }
    }

    /// `next` is this session after binding attribute `e` to the shallow
    /// value `v` (see `set_attribute_shallow_value`).
    pub open spec fn attr_shallow_bound(&self, next: &Self, e: PyExpr, v: ShallowValue) -> bool {
        match self.attr_scope_node(e) {
            Some(o) => exists|s: SymId, a: SymId|
                {
                    &&& next.graph.interner.has_id(s)
                    &&& next.graph.interner.str_of(s) == self.node_text(o)
                    &&& next.graph.interner.has_id(a)
                    &&& next.graph.interner.str_of(a) == e->Attribute_attr@
                    &&& match scope_index(self.scopes@, s) {
                        Some(p) => {
                            &&& next.scopes@.len() == self.scopes@.len()
                            &&& next.scopes@[p].0 == self.scopes@[p].0
                            &&& self.scopes@[p].1.assigns_shallow(next.scopes@[p].1, a, v)
                            &&& forall|q: int| 0 <= q < self.scopes@.len() && q != p ==> #[trigger] next.scopes@[q] == self.scopes@[q]
                        },
                        None => next.scopes == self.scopes,
                    }
                },
            None => next.scopes == self.scopes,
        }
    }

    /// The object an attribute expression's base refers to, and the
    /// attribute's name. For `a.b.c` the object is `b` looked up in the
    /// scope of what `a` refers to; for `f().c` it is a resolved `super()`;
    /// otherwise it is the value bound to the base's dotted name.
    pub fn resolve_attribute(&self, e: &PyExpr) -> (r: (Option<NodeId>, Vec<char>))
        requires
            self.wf(),
        ensures
            e matches PyExpr::Attribute { attr, .. } ==> r.1@ == attr@,
            !(e is Attribute) ==> r.0 is None,
            r.0 == self.attr_target(*e),
        decreases e,
    {
        match e {
            PyExpr::Attribute { value, attr, .. } => {
                let attr_name = str_to_chars(attr.as_str());
                match &**value {
                    PyExpr::Attribute { .. } => {
                        let (obj, inner_name) = self.resolve_attribute(value);
                        if let Some(o) = obj {
                            if self.has_ns(o) {
                                let ns = self.node_name(o);
                                if let Some(v) = self.lookup_in_scope(ns.as_slice(), inner_name.as_slice()) {
                                    return (Some(v), attr_name);
                                }
                            }
                        }
                        (None, attr_name)
                    },
                    PyExpr::Call { .. } => (self.resolve_builtins(value), attr_name),
                    _ => {
                        let obj_name = get_ast_node_name(value);
                        (self.get_value(obj_name.as_slice()), attr_name)
                    },
                }
            },
            _ => (None, Vec::new()),
        }
    }

    /// Every node an expression may evaluate to: a name's bound values, an
    /// attribute looked up in each object's scope (then along its MRO), a
    /// call's class or recorded return values, a subscript's resolved
    /// element values (else its container's).
    #[verifier::loop_isolation(false)]
    pub fn get_obj_ids_for_expr(&self, e: &PyExpr) -> (r: Vec<NodeId>)
        requires
            self.wf(),
        ensures
            (e is Name && !e->Name_load) ==> r@.len() == 0,
            e matches PyExpr::Name { id, load } ==> (*load ==> r@ == self.name_values(id@)),
            e matches PyExpr::Call { func, .. } ==> ((**func matches PyExpr::Name { id, .. } && id@ == "super"@)
                ==> (self.super_class() matches Some(x) ==> r@ == seq![x])),
            !(e is Name || e is Attribute || e is Call || e is Subscript) ==> r@.len() == 0,
        decreases e, 2int,
    {
        match e {
            PyExpr::Name { id, load } => {
                if *load {
                    self.get_values(str_to_chars(id.as_str()).as_slice()).iter()
                } else {
                    Vec::new()
                }
            },
            PyExpr::Attribute { value, attr, .. } => {
                let attr_name = str_to_chars(attr.as_str());
                let obj_ids = self.get_obj_ids_for_expr(value);
                let mut results: Vec<NodeId> = Vec::new();
                let mut i: usize = 0;
                while i < obj_ids.len()
                    decreases obj_ids.len() - i,
                {
                    let obj_id = obj_ids[i];
                    i = i + 1;
                    if !self.has_ns(obj_id) {
                        continue;
                    }
                    let ns = self.node_name(obj_id);
                    let values = self.lookup_values_in_scope(ns.as_slice(), attr_name.as_slice());
                    if values.is_empty() {
                        let mro = self.mro_of(obj_id);
                        let mut k: usize = 1;
                        while k < mro.len()
                            decreases mro.len() - k,
                        {
                            let base_ns = self.node_name(mro[k]);
                            let base_values = self.lookup_values_in_scope(base_ns.as_slice(), attr_name.as_slice()).iter();
                            let mut j: usize = 0;
                            while j < base_values.len()
                                decreases base_values.len() - j,
                            {
                                push_unique(&mut results, base_values[j]);
                                j = j + 1;
                            }
                            if base_values.len() > 0 {
                                break;
                            }
                            k = k + 1;
                        }
                    } else {
                        let vs = values.iter();
                        let mut j: usize = 0;
                        while j < vs.len()
                            decreases vs.len() - j,
                        {
                            push_unique(&mut results, vs[j]);
                            j = j + 1;
                        }
                    }
                }
                results
            },
            PyExpr::Call { func, .. } => {
                if let Some(id) = self.resolve_builtins(e) {
                    return vec![id];
                }
                let func_ids = self.get_obj_ids_for_expr(func);
                let mut results: Vec<NodeId> = Vec::new();
                let mut i: usize = 0;
                while i < func_ids.len()
                    decreases func_ids.len() - i,
                {
                    let fid = func_ids[i];
                    if self.is_class(fid) {
                        push_unique(&mut results, fid);
                    }
                    let rets = self.returns_of(fid).iter();
                    let mut j: usize = 0;
                    while j < rets.len()
                        decreases rets.len() - j,
                    {
                        push_unique(&mut results, rets[j]);
                        j = j + 1;
                    }
                    i = i + 1;
                }
                results
            },
            PyExpr::Subscript { value, .. } => {
                let resolved = self.resolve_subscript_value(e);
                if !resolved.values.is_empty() {
                    resolved.values.iter()
                } else {
                    self.get_obj_ids_for_expr(value)
                }
            },
            _ => Vec::new(),
        }
    }

    /// The shallow value of an expression: bound values and container
    /// facts of a name or attribute, a call's class or return values, the
    /// element values of a tuple, list or dict literal, or a subscript's
    /// resolved element.
    #[verifier::loop_isolation(false)]
    pub fn resolve_shallow_value(&self, e: &PyExpr) -> (r: ShallowValue)
        requires
            self.wf(),
        ensures
            !(e is Name || e is Attribute || e is Call || e is Tuple || e is List || e is Dict || e is Subscript)
                ==> r.values@.len() == 0 && r.containers@.len() == 0,
            e matches PyExpr::Name { id, load } ==> if *load {
                &&& r.values@ == self.name_values(id@)
                &&& r.containers@.len() == self.name_containers(id@).len()
                &&& forall|j: int| 0 <= j < r.containers@.len() ==> same_fact(#[trigger] self.name_containers(id@)[j], r.containers@[j])
            } else {
                r.values@.len() == 0 && r.containers@.len() == 0
            },
            (e is Tuple || e is List) ==> {
                &&& r.values@.len() == 0
                &&& r.containers@.len() == 1
                &&& r.containers@[0] matches ContainerFact::Sequence(items) && items@.len() == (if e is Tuple {
                    e->Tuple_elts@.len()
                } else {
                    e->List_elts@.len()
                })
            },
            e is Dict ==> r.values@.len() == 0 && r.containers@.len() <= 1 && (r.containers@.len() == 1 ==> r.containers@[0] is Mapping),
        decreases e, 2int,
    {
        match e {
            PyExpr::Name { id, load } => {
                if *load {
                    let name = str_to_chars(id.as_str());
                    ShallowValue { values: self.get_values(name.as_slice()), containers: self.get_containers(name.as_slice()) }
                } else {
                    ShallowValue::empty()
                }
            },
            PyExpr::Attribute { value, attr, load } => {
                let mut resolved = ShallowValue::empty();
                if !*load {
                    return resolved;
                }
                let attr_name = str_to_chars(attr.as_str());
                let obj_ids = self.get_obj_ids_for_expr(value);
                let mut i: usize = 0;
                while i < obj_ids.len()
                    decreases obj_ids.len() - i,
                {
                    let obj_id = obj_ids[i];
                    i = i + 1;
                    if !self.has_ns(obj_id) {
                        continue;
                    }
                    let ns = self.node_name(obj_id);
                    let direct_values = self.lookup_values_in_scope(ns.as_slice(), attr_name.as_slice());
                    let direct_containers = self.lookup_containers_in_scope(ns.as_slice(), attr_name.as_slice());
                    if direct_values.is_empty() && direct_containers.len() == 0 {
                        let mro = self.mro_of(obj_id);
                        let mut k: usize = 1;
                        while k < mro.len()
                            decreases mro.len() - k,
                        {
                            let base_ns = self.node_name(mro[k]);
                            let base_values = self.lookup_values_in_scope(base_ns.as_slice(), attr_name.as_slice());
                            let base_containers = self.lookup_containers_in_scope(
                                base_ns.as_slice(),
                                attr_name.as_slice(),
                            );
                            if !base_values.is_empty() || base_containers.len() > 0 {
                                let _ = resolved.values.union_with(&base_values);
                                let _ = crate::analyzer::session::facts_union(&mut resolved.containers, &base_containers);
                                break;
                            }
                            k = k + 1;
                        }
                    } else {
                        let _ = resolved.values.union_with(&direct_values);
                        let _ = crate::analyzer::session::facts_union(&mut resolved.containers, &direct_containers);
                    }
                }
                resolved
            },
            PyExpr::Call { func, .. } => {
                let mut resolved = ShallowValue::empty();
                let func_ids = self.get_obj_ids_for_expr(func);
                let mut i: usize = 0;
                while i < func_ids.len()
                    decreases func_ids.len() - i,
                {
                    let fid = func_ids[i];
                    if self.is_class(fid) {
                        let _ = resolved.values.insert(fid);
                    }
                    let rets = self.returns_of(fid).iter();
                    let mut j: usize = 0;
                    while j < rets.len()
                        decreases rets.len() - j,
                    {
                        let _ = resolved.values.insert(rets[j]);
                        j = j + 1;
                    }
                    i = i + 1;
                }
                resolved
            },
            PyExpr::Tuple { elts } | PyExpr::List { elts } => {
                let mut items: Vec<ShallowValue> = Vec::new();
                let mut i: usize = 0;
                while i < elts.len()
                    invariant
                        i <= elts@.len(),
                        items@.len() == i,
                    decreases elts.len() - i,
                {
                    proof {
                        assert(decreases_to!(elts@ => elts@[i as int]));
                        assert(decreases_to!(*elts => elts@));
                        if e is Tuple {
                            assert(*elts == e->Tuple_elts);
                            assert(decreases_to!(*e => e->Tuple_elts));
                        } else {
                            assert(*elts == e->List_elts);
                            assert(decreases_to!(*e => e->List_elts));
                        }
                    }
                    items.push(self.resolve_shallow_value(&elts[i]));
                    i = i + 1;
                }
                let mut containers: Vec<ContainerFact> = Vec::new();
                containers.push(ContainerFact::Sequence(items));
                ShallowValue { values: ValueSet::empty(), containers }
            },
            PyExpr::Dict { items } => {
                let mut mapping: Vec<(LiteralKey, ShallowValue)> = Vec::new();
                let mut i: usize = 0;
                while i < items.len()
                    decreases items.len() - i,
                {
                    proof {
                        assert(decreases_to!(items@[i as int] => items@[i as int].value));
                        assert(decreases_to!(items@ => items@[i as int]));
                        assert(decreases_to!(*items => items@));
                        assert(*items == e->Dict_items);
                        assert(decreases_to!(*e => e->Dict_items));
                    }
                    let item = &items[i];
                    if let Some(key_expr) = &item.key {
                        if let Some(key) = literal_key_from_expr(key_expr) {
                            let v = self.resolve_shallow_value(&item.value);
                            let mut pos: Option<usize> = None;
                            let mut j: usize = 0;
                            while j < mapping.len()
                                invariant
                                    j <= mapping@.len(),
                                    pos matches Some(q) ==> q < mapping@.len(),
                                decreases mapping.len() - j,
                            {
                                if key_eq(&mapping[j].0, &key) {
                                    pos = Some(j);
                                    break;
                                }
                                j = j + 1;
                            }
                            match pos {
                                Some(q) => {
                                    let _ = mapping[q].1.union_with(&v);
                                },
                                None => {
                                    mapping.push((key, v));
                                },
                            }
                        }
                    }
                    i = i + 1;
                }
                let mut containers: Vec<ContainerFact> = Vec::new();
                if mapping.len() > 0 {
                    containers.push(ContainerFact::Mapping(mapping));
                }
                ShallowValue { values: ValueSet::empty(), containers }
            },
            PyExpr::Subscript { .. } => self.resolve_subscript_value(e),
            _ => ShallowValue::empty(),
        }
    }

    /// The shallow value of `container[key]` for a subscript expression,
    /// through the container facts of its base and a literal key.
    pub fn resolve_subscript_value(&self, e: &PyExpr) -> (r: ShallowValue)
        requires
            self.wf(),
        ensures
            !(e is Subscript) ==> r.values@.len() == 0 && r.containers@.len() == 0,
        decreases e, 1int,
    {
        match e {
            PyExpr::Subscript { value, slice } => {
                let container = self.resolve_shallow_value(value);
                let key = literal_key_from_expr(slice);
                resolve_subscript(&container.containers, &key)
            },
            _ => ShallowValue::empty(),
        }
    }

    /// Bind attribute `e` (as assignment target) to `value` in the scope of
    /// the object it resolves to; returns whether that scope exists.
    #[verifier::loop_isolation(false)]
    pub fn set_attribute(&mut self, e: &PyExpr, value: Option<NodeId>) -> (r: bool)
        requires
            old(self).wf(),
        ensures
            old(self).evolves_up(final(self)),
            final(self).graph.n() == old(self).graph.n(),
            !(e is Attribute) ==> !r,
            final(self).graph.nodes_arena == old(self).graph.nodes_arena,
            final(self).graph.uses_edges == old(self).graph.uses_edges,
            final(self).graph.defines_edges == old(self).graph.defines_edges,
            final(self).scope_stack == old(self).scope_stack,
            final(self).name_stack == old(self).name_stack,
            match old(self).attr_scope_node(*e) {
                Some(o) => exists|s: SymId, a: SymId|
                    {
                        &&& final(self).graph.interner.has_id(s)
                        &&& final(self).graph.interner.str_of(s) == old(self).node_text(o)
                        &&& final(self).graph.interner.has_id(a)
                        &&& final(self).graph.interner.str_of(a) == e->Attribute_attr@
                        &&& match scope_index(old(self).scopes@, s) {
                            Some(p) => {
                                &&& r
                                &&& final(self).scopes@.len() == old(self).scopes@.len()
                                &&& final(self).scopes@[p].0 == old(self).scopes@[p].0
                                &&& old(self).scopes@[p].1.binds_after(
                                    final(self).scopes@[p].1,
                                    a,
                                    match value {
                                        Some(id) => set![id],
                                        None => Set::empty(),
                                    },
                                )
                                &&& forall|q: int| 0 <= q < old(self).scopes@.len() && q != p ==> #[trigger] final(self).scopes@[q] == old(self).scopes@[q]
                            },
                            None => !r && final(self).scopes == old(self).scopes,
                        }
                    },
                None => !r && final(self).scopes == old(self).scopes,
            },
    {
        let (obj, attr_name) = self.resolve_attribute(e);
        if let Some(o) = obj {
            if self.has_ns(o) {
                let ns = self.node_name(o);
                let ns_sym = self.sym_chars(ns.as_slice());
                let ghost i1 = self.graph.interner;
                let attr_sym = self.sym_chars(attr_name.as_slice());
                let ghost mid = *self;
                let pos = scope_pos(&self.scopes, ns_sym);
                proof {
                    lemma_scope_index(self.scopes@, ns_sym, pos);
                    assert(self.graph.interner@[ns_sym.0 as int] == i1@[ns_sym.0 as int]);
                    assert(self.graph.interner.has_id(ns_sym));
                    assert(self.graph.interner.str_of(ns_sym) == old(self).node_text(o));
                    assert(old(self).attr_scope_node(*e) == Some(o));
                    assert(attr_name@ == e->Attribute_attr@);
                }
                if let Some(p) = pos {
                    self.scopes[p].1.bind(attr_sym, value);
                    proof {
                        assert forall|q: int| 0 <= q < old(self).scopes@.len() && q != p implies #[trigger] self.scopes@[q] == old(self).scopes@[q] by {
                            assert(self.scopes@[q] == mid.scopes@[q]);
                        }
                    }
                    return true;
                }
            }
        }
        false
    }

    /// Bind attribute `e` to a shallow value in the scope of the object it
    /// resolves to; returns whether that scope exists.
    #[verifier::loop_isolation(false)]
    pub fn set_attribute_shallow_value(&mut self, e: &PyExpr, value: &ShallowValue) -> (r: bool)
        requires
            old(self).wf(),
        ensures
            old(self).evolves_up(final(self)),
            final(self).graph.n() == old(self).graph.n(),
            !(e is Attribute) ==> !r,
            final(self).graph.nodes_arena == old(self).graph.nodes_arena,
            final(self).graph.uses_edges == old(self).graph.uses_edges,
            final(self).graph.defines_edges == old(self).graph.defines_edges,
            final(self).scope_stack == old(self).scope_stack,
            final(self).name_stack == old(self).name_stack,
            match old(self).attr_scope_node(*e) {
                Some(o) => exists|s: SymId, a: SymId|
                    {
                        &&& final(self).graph.interner.has_id(s)
                        &&& final(self).graph.interner.str_of(s) == old(self).node_text(o)
                        &&& final(self).graph.interner.has_id(a)
                        &&& final(self).graph.interner.str_of(a) == e->Attribute_attr@
                        &&& match scope_index(old(self).scopes@, s) {
                            Some(p) => {
                                &&& r
                                &&& final(self).scopes@.len() == old(self).scopes@.len()
                                &&& final(self).scopes@[p].0 == old(self).scopes@[p].0
                                &&& old(self).scopes@[p].1.assigns_shallow(final(self).scopes@[p].1, a, *value)
                                &&& forall|q: int| 0 <= q < old(self).scopes@.len() && q != p ==> #[trigger] final(self).scopes@[q] == old(self).scopes@[q]
                            },
                            None => !r && final(self).scopes == old(self).scopes,
                        }
                    },
                None => !r && final(self).scopes == old(self).scopes,
            },
    {
        let (obj, attr_name) = self.resolve_attribute(e);
        if let Some(o) = obj {
            if self.has_ns(o) {
                let ns = self.node_name(o);
                let ns_sym = self.sym_chars(ns.as_slice());
                let ghost i1 = self.graph.interner;
                let attr_sym = self.sym_chars(attr_name.as_slice());
                let ghost mid = *self;
                let pos = scope_pos(&self.scopes, ns_sym);
                proof {
                    lemma_scope_index(self.scopes@, ns_sym, pos);
                    assert(self.graph.interner@[ns_sym.0 as int] == i1@[ns_sym.0 as int]);
                    assert(self.graph.interner.has_id(ns_sym));
                    assert(self.graph.interner.str_of(ns_sym) == old(self).node_text(o));
                    assert(old(self).attr_scope_node(*e) == Some(o));
                    assert(attr_name@ == e->Attribute_attr@);
                }
                if let Some(p) = pos {
                    self.scopes[p].1.bind_all(attr_sym, &value.values);
                    let ghost m = self.scopes@[p as int].1;
                    if value.containers.len() > 0 {
                        self.scopes[p].1.add_containers(attr_sym, &value.containers);
                    }
                    proof {
                        assert(mid.scopes@[p as int].1.binds_after(m, attr_sym, value.values@.to_set()));
                        assert(old(self).scopes@[p as int].1.assigns_shallow(self.scopes@[p as int].1, attr_sym, *value));
                        assert forall|q: int| 0 <= q < old(self).scopes@.len() && q != p implies #[trigger] self.scopes@[q] == old(self).scopes@[q] by {
                            assert(self.scopes@[q] == mid.scopes@[q]);
                        }
                    }
                    return true;
                }
            }
        }
        false
    }

    /// A base class written as a bare name: looked up in the enclosing
    /// namespace, then in each enclosing prefix of it, innermost first.
    #[verifier::rlimit(40)]
    pub fn lookup_base_by_name(&self, enclosing_ns: &[char], name: &[char]) -> (r: Option<NodeId>)
        ensures
            r == match first_of(self.text_values(enclosing_ns@, name@)) {
                Some(v) => Some(v),
                None => self.base_by_name(enclosing_ns@, name@, split_on(enclosing_ns@, '.').len() as int),
            },
    {
        if let Some(v) = self.lookup_in_scope(enclosing_ns, name) {
            return Some(v);
        }
        let parts = split_dots(enclosing_ns);
        let ghost total = split_on(enclosing_ns@, '.').len() as int;
        let mut i = parts.len();
        while i > 0
            invariant
                i <= parts@.len(),
                char_views(parts@) == split_on(enclosing_ns@, '.'),
                total == parts@.len(),
                self.base_by_name(enclosing_ns@, name@, total) == self.base_by_name(enclosing_ns@, name@, i as int),
                first_of(self.text_values(enclosing_ns@, name@)) is None,
            decreases i,
        {
            let ns = join_dots(&parts, i);
            let found = self.lookup_in_scope(ns.as_slice(), name);
            proof {
                assert(ns@ == join(split_on(enclosing_ns@, '.').take(i as int), seq!['.']));
                assert(self.base_by_name(enclosing_ns@, name@, i as int) == match first_of(self.text_values(ns@, name@)) {
                    Some(v) => Some(v),
                    None => self.base_by_name(enclosing_ns@, name@, i - 1),
                });
            }
            if let Some(v) = found {
                return Some(v);
            }
            i = i - 1;
        }
        None
    }

    /// The first value of `name` in the scope of the longest of the first
    /// `i` dotted prefixes of `ens` that binds it.
    pub open spec fn base_by_name(&self, ens: Seq<char>, name: Seq<char>, i: int) -> Option<NodeId>
        decreases i,
    {
        if i <= 0 {
            None
        } else {
            let ns = join(split_on(ens, '.').take(i), seq!['.']);
            match first_of(self.text_values(ns, name)) {
                Some(v) => Some(v),
                None => self.base_by_name(ens, name, i - 1),
            }
        }
    }

    /// The node a dotted name reaches through its first `i` parts: the
    /// value of the first part, then each further part looked up in the
    /// scope of the node reached so far.
    pub open spec fn attr_chain(&self, parts: Seq<Seq<char>>, i: int) -> Option<NodeId>
        decreases i,
    {
        if i <= 0 {
            None
        } else if i == 1 {
            first_of(self.name_values(parts[0]))
        } else {
            match self.attr_chain(parts, i - 1) {
                Some(c) => first_of(self.text_values(self.node_text(c), parts[i - 1])),
                None => None,
            }
        }
    }

    /// A base class written as a dotted name `a.b.c`: the value of `a`,
    /// then each further part looked up in the scope of the previous one.
    pub fn lookup_base_by_attr_parts(&self, parts: &Vec<Vec<char>>) -> (r: Option<NodeId>)
        requires
            self.wf(),
        ensures
            parts@.len() == 0 ==> r is None,
            r == self.attr_chain(char_views(parts@), parts@.len() as int),
    {
        if parts.len() == 0 {
            return None;
        }
        let ghost pv = char_views(parts@);
        let mut current = match self.get_value(parts[0].as_slice()) {
            Some(c) => c,
            None => {
                proof {
                    lemma_chain_none(self, pv, 1, parts@.len() as int);
                }
                return None;
            },
        };
        let mut i: usize = 1;
        while i < parts.len()
            invariant
                self.wf(),
                1 <= i <= parts@.len(),
                pv == char_views(parts@),
                self.attr_chain(pv, i as int) == Some(current),
            decreases parts.len() - i,
        {
            let ns = self.node_name(current);
            proof {
                assert(ns@ == self.node_text(current));
            }
            match self.lookup_in_scope(ns.as_slice(), parts[i].as_slice()) {
                Some(v) => {
                    current = v;
                },
                None => {
                    proof {
                        lemma_chain_none(self, pv, i as int + 1, parts@.len() as int);
                    }
                    return None;
                },
            }
            i = i + 1;
        }
        Some(current)
    }

    /// Resolve the base classes of every analyzed class, then compute each
    /// class's method resolution order.
    #[verifier::loop_isolation(false)]
    pub fn resolve_base_classes(&mut self)
        requires
            old(self).wf(),
        ensures
            old(self).evolves_up(final(self)),
            final(self).graph == old(self).graph,
            final(self).class_base_nodes@.len() == old(self).class_base_ast_info@.len(),
            forall|i: int| 0 <= i < final(self).class_base_nodes@.len() ==> (#[trigger] final(self).class_base_nodes@[i]).0
                == old(self).class_base_ast_info@[i].0,
            final(self).mro@.len() == final(self).class_base_nodes@.len(),
            forall|i: int| 0 <= i < final(self).mro@.len() ==> (#[trigger] final(self).mro@[i]).0
                == final(self).class_base_nodes@[i].0 && final(self).mro@[i].1@.len() >= 1
                && final(self).mro@[i].1@[0] == final(self).class_base_nodes@[i].0,
    {
        let mut class_base_nodes: Vec<(NodeId, Vec<NodeId>)> = Vec::new();
        let mut i: usize = 0;
        while i < self.class_base_ast_info.len()
            invariant
                i <= self.class_base_ast_info@.len(),
                class_base_nodes@.len() == i,
                forall|a: int| 0 <= a < i ==> (#[trigger] class_base_nodes@[a]).0 == self.class_base_ast_info@[a].0,
            decreases self.class_base_ast_info.len() - i,
        {
            let cls_id = self.class_base_ast_info[i].0;
            let cls_ns: Vec<char> = if self.valid(cls_id) {
                match self.graph.nodes_arena[cls_id].namespace {
                    Some(s) => self.text(s),
                    None => Vec::new(),
                }
            } else {
                Vec::new()
            };
            let refs = &self.class_base_ast_info[i].1;
            let mut bases: Vec<NodeId> = Vec::new();
            let mut k: usize = 0;
            while k < refs.len()
                decreases refs.len() - k,
            {
                let base_id = match &refs[k] {
                    BaseClassRef::Name(name) => self.lookup_base_by_name(cls_ns.as_slice(), name.as_slice()),
                    BaseClassRef::Attribute(parts) => self.lookup_base_by_attr_parts(parts),
                };
                if let Some(b) = base_id {
                    if self.has_ns(b) {
                        bases.push(b);
                    }
                }
                k = k + 1;
            }
            class_base_nodes.push((cls_id, bases));
            i = i + 1;
        }
        self.class_base_nodes = class_base_nodes;
        self.mro = resolve_mro(&self.class_base_nodes);
    }
}

} // verus!
