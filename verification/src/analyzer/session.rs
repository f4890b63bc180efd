//! The analysis session: the work-in-progress state behind a call graph,
//! and the operations that read and update name bindings.

use vstd::prelude::*;

use crate::analyzer::graph::CallGraph;
use crate::intern::SymId;
use crate::node::{Flavor, NodeId};
use crate::scope::{merged, ValueSet};
use crate::text::{chars_eq, chars_to_string, copy_chars, str_to_chars};

verus! {

/// A literal key that a subscript can be resolved through.
#[derive(Debug)]
pub enum LiteralKey {
    Int(i64),
    Str(String),
}

/// A shallow fact about a container literal bound to a name.
#[derive(Debug)]
pub enum ContainerFact {
    /// A list or tuple literal, element by element.
    Sequence(Vec<ShallowValue>),
    /// A dict literal with literal keys.
    Mapping(Vec<(LiteralKey, ShallowValue)>),
}

/// A shallow abstract value: node ids plus the container literals known
/// for the binding.
#[derive(Debug)]
pub struct ShallowValue {
    pub values: ValueSet,
    pub containers: Vec<ContainerFact>,
}

/// Scope information for one namespace.
#[derive(Debug)]
pub struct ScopeInfo {
    /// Each declared name with the set of nodes it may point to.
    pub defs: Vec<(SymId, ValueSet)>,
    /// Container facts for locally bound names.
    pub containers: Vec<(SymId, Vec<ContainerFact>)>,
    /// Names bound locally in this scope.
    pub locals: Vec<SymId>,
    /// The statically known `__all__` of a module scope.
    pub all_exports: Option<Vec<SymId>>,
}

/// How a base class was written in a class statement.
#[derive(Debug)]
pub enum BaseClassRef {
    Name(Vec<char>),
    Attribute(Vec<Vec<char>>),
}

/// The kind of the innermost enclosing definition.
#[derive(Debug, Clone, Copy, PartialEq, Eq, Structural)]
pub enum Ctx {
    Module,
    Class,
    Function,
    Inner,
}

/// Work-in-progress state needed to build a [`CallGraph`].
#[derive(Debug)]
pub struct AnalysisSession {
    pub graph: CallGraph,
    /// Scope information by namespace symbol.
    pub scopes: Vec<(SymId, ScopeInfo)>,
    /// Each analyzed class with its base classes as written.
    pub class_base_ast_info: Vec<(NodeId, Vec<BaseClassRef>)>,
    /// Each analyzed class with its resolved base classes.
    pub class_base_nodes: Vec<(NodeId, Vec<NodeId>)>,
    /// The method resolution order of each class.
    pub mro: Vec<(NodeId, Vec<NodeId>)>,
    /// The values each function may return.
    pub function_returns: Vec<(NodeId, ValueSet)>,
    pub function_returns_changed: bool,
    pub module_name: SymId,
    pub filename: SymId,
    pub name_stack: Vec<SymId>,
    pub fqn_cache: Vec<SymId>,
    pub scope_stack: Vec<SymId>,
    pub class_stack: Vec<NodeId>,
    pub context_stack: Vec<Ctx>,
}

/// Whether two literal keys are the same: both integers and equal, or
/// both strings with the same characters.
pub open spec fn key_same(a: LiteralKey, b: LiteralKey) -> bool {
    match a {
        LiteralKey::Int(x) => b matches LiteralKey::Int(y) && x == y,
        LiteralKey::Str(x) => b matches LiteralKey::Str(y) && x@ == y@,
    }
}

/// A copy of a literal key.
pub fn clone_key(k: &LiteralKey) -> (r: LiteralKey)
    ensures
        r == *k,
{
    match k {
        LiteralKey::Int(i) => LiteralKey::Int(*i),
        LiteralKey::Str(s) => LiteralKey::Str(s.clone()),
    }
}

/// Whether two literal keys are equal.
pub fn key_eq(a: &LiteralKey, b: &LiteralKey) -> (r: bool)
    ensures
        r == key_same(*a, *b),
{
    match (a, b) {
        (LiteralKey::Int(x), LiteralKey::Int(y)) => *x == *y,
        (LiteralKey::Str(x), LiteralKey::Str(y)) => *x == *y,
        _ => false,
    }
}

/// `b` holds the same values and container facts as `a`.
pub open spec fn same_shallow(a: ShallowValue, b: ShallowValue) -> bool
    decreases a,
{
    &&& b.values@ == a.values@
    &&& b.containers@.len() == a.containers@.len()
    &&& forall|i: int| 0 <= i < a.containers@.len() ==> same_fact(#[trigger] a.containers@[i], b.containers@[i])
}

/// `b` is the same container fact as `a`.
pub open spec fn same_fact(a: ContainerFact, b: ContainerFact) -> bool
    decreases a,
{
    match a {
        ContainerFact::Sequence(xs) => b matches ContainerFact::Sequence(ys) && ys@.len() == xs@.len() && forall|i: int|
            0 <= i < xs@.len() ==> same_shallow(#[trigger] xs@[i], ys@[i]),
        ContainerFact::Mapping(xs) => b matches ContainerFact::Mapping(ys) && ys@.len() == xs@.len() && forall|i: int|
            0 <= i < xs@.len() ==> (#[trigger] xs@[i]).0 == ys@[i].0 && same_shallow(xs@[i].1, ys@[i].1),
    }
}

/// `c` is `a` followed by copies of the facts of `b`.
pub open spec fn facts_appended(a: Seq<ContainerFact>, b: Seq<ContainerFact>, c: Seq<ContainerFact>) -> bool {
    &&& c.len() == a.len() + b.len()
    &&& forall|j: int| 0 <= j < a.len() ==> #[trigger] c[j] == a[j]
    &&& forall|j: int| 0 <= j < b.len() ==> same_fact(#[trigger] b[j], c[a.len() + j])
}

/// A deep copy of a shallow value.
#[verifier::loop_isolation(false)]
pub fn clone_shallow(v: &ShallowValue) -> (r: ShallowValue)
    ensures
        same_shallow(*v, r),
    decreases v,
{
    let mut containers: Vec<ContainerFact> = Vec::new();
    let mut i: usize = 0;
    while i < v.containers.len()
        invariant
            i <= v.containers@.len(),
            containers@.len() == i,
            forall|j: int| 0 <= j < i ==> same_fact(#[trigger] v.containers@[j], containers@[j]),
        decreases v.containers.len() - i,
    {
        proof {
            assert(decreases_to!(v.containers@ => v.containers@[i as int]));
            assert(decreases_to!(v.containers => v.containers@));
            assert(decreases_to!(*v => v.containers));
        }
        containers.push(clone_fact(&v.containers[i]));
        i = i + 1;
    }
    ShallowValue { values: v.values.duplicate(), containers }
}

/// A deep copy of a container fact.
#[verifier::loop_isolation(false)]
pub fn clone_fact(f: &ContainerFact) -> (r: ContainerFact)
    ensures
        same_fact(*f, r),
    decreases f,
{
    match f {
        ContainerFact::Sequence(items) => {
            let mut out: Vec<ShallowValue> = Vec::new();
            let mut i: usize = 0;
            while i < items.len()
                invariant
                    i <= items@.len(),
                    out@.len() == i,
                    forall|j: int| 0 <= j < i ==> same_shallow(#[trigger] items@[j], out@[j]),
                decreases items.len() - i,
            {
                proof {
                    assert(decreases_to!(items@ => items@[i as int]));
                    assert(decreases_to!(*items => items@));
                    assert(*items == f->Sequence_0);
                    assert(decreases_to!(*f => f->Sequence_0));
                }
                out.push(clone_shallow(&items[i]));
                i = i + 1;
            }
            ContainerFact::Sequence(out)
        },
        ContainerFact::Mapping(items) => {
            let mut out: Vec<(LiteralKey, ShallowValue)> = Vec::new();
            let mut i: usize = 0;
            while i < items.len()
                invariant
                    i <= items@.len(),
                    out@.len() == i,
                    forall|j: int| 0 <= j < i ==> (#[trigger] items@[j]).0 == out@[j].0 && same_shallow(items@[j].1, out@[j].1),
                decreases items.len() - i,
            {
                proof {
                    assert(decreases_to!(items@ => items@[i as int]));
                    assert(decreases_to!(items@[i as int] => items@[i as int].1));
                    assert(decreases_to!(*items => items@));
                    assert(*items == f->Mapping_0);
                    assert(decreases_to!(*f => f->Mapping_0));
                }
                out.push((clone_key(&items[i].0), clone_shallow(&items[i].1)));
                i = i + 1;
            }
            ContainerFact::Mapping(out)
        },
    }
}

/// Copies of a list of container facts.
pub fn clone_facts(v: &Vec<ContainerFact>) -> (r: Vec<ContainerFact>)
    ensures
        r@.len() == v@.len(),
        forall|j: int| 0 <= j < v@.len() ==> same_fact(#[trigger] v@[j], r@[j]),
{
    let mut out: Vec<ContainerFact> = Vec::new();
    let mut i: usize = 0;
    while i < v.len()
        invariant
            i <= v@.len(),
            out@.len() == i,
            forall|j: int| 0 <= j < i ==> same_fact(#[trigger] v@[j], out@[j]),
        decreases v.len() - i,
    {
        out.push(clone_fact(&v[i]));
        i = i + 1;
    }
    out
}

impl ShallowValue {
    pub fn empty() -> (r: Self)
        ensures
            r.values.wf(),
            r.values@.len() == 0,
            r.containers@.len() == 0,
    {
        ShallowValue { values: ValueSet::empty(), containers: Vec::new() }
    }

    /// Union `other` into `self`; returns whether anything was added.
    pub fn union_with(&mut self, other: &ShallowValue) -> (r: bool)
        ensures
            old(self).values.wf() ==> final(self).values.wf(),
            final(self).values@.to_set() == old(self).values@.to_set() + other.values@.to_set(),
            final(self).values@ == merged(old(self).values@, other.values@),
            old(self).values@.is_prefix_of(final(self).values@),
            facts_appended(old(self).containers@, other.containers@, final(self).containers@),
            r == (final(self).values@.len() > old(self).values@.len() || other.containers@.len() > 0),
    {
        let a = self.values.union_with(&other.values);
        let mut b = false;
        let mut i: usize = 0;
        let ghost c0 = self.containers@;
        while i < other.containers.len()
            invariant
                i <= other.containers@.len(),
                b == (i > 0),
                old(self).values.wf() ==> self.values.wf(),
                self.values@.to_set() == old(self).values@.to_set() + other.values@.to_set(),
                old(self).values@.is_prefix_of(self.values@),
                a == (self.values@.len() > old(self).values@.len()),
                self.values@ == merged(old(self).values@, other.values@),
                c0 == old(self).containers@,
                facts_appended(c0, other.containers@.take(i as int), self.containers@),
            decreases other.containers.len() - i,
        {
            let ghost before = self.containers@;
            self.containers.push(clone_fact(&other.containers[i]));
            proof {
                let t = other.containers@.take(i as int + 1);
                assert forall|j: int| 0 <= j < t.len() implies same_fact(#[trigger] t[j], self.containers@[c0.len() + j]) by {
                    if j < i {
                        assert(t[j] == other.containers@.take(i as int)[j]);
                        assert(self.containers@[c0.len() + j] == before[c0.len() + j]);
                    }
                }
            }
            b = true;
            i = i + 1;
        }
        proof {
            assert(other.containers@.take(other.containers@.len() as int) =~= other.containers@);
        }
        a || b
    }

    pub fn first_value(&self) -> (r: Option<NodeId>)
        ensures
            self.values@.len() > 0 ==> r == Some(self.values@[0]),
            self.values@.len() == 0 ==> r.is_none(),
    {
        self.values.first()
    }
}

/// Union container facts `other` into `dst`; returns whether anything was added.
pub fn facts_union(dst: &mut Vec<ContainerFact>, other: &Vec<ContainerFact>) -> (r: bool)
    ensures
        facts_appended(old(dst)@, other@, final(dst)@),
        r == (other@.len() > 0),
{
    let mut b = false;
    let mut i: usize = 0;
    let ghost c0 = dst@;
    while i < other.len()
        invariant
            i <= other@.len(),
            b == (i > 0),
            c0 == old(dst)@,
            facts_appended(c0, other@.take(i as int), dst@),
        decreases other.len() - i,
    {
        let ghost before = dst@;
        dst.push(clone_fact(&other[i]));
        proof {
            let t = other@.take(i as int + 1);
            assert forall|j: int| 0 <= j < t.len() implies same_fact(#[trigger] t[j], dst@[c0.len() + j]) by {
                if j < i {
                    assert(t[j] == other@.take(i as int)[j]);
                    assert(dst@[c0.len() + j] == before[c0.len() + j]);
                }
            }
        }
        b = true;
        i = i + 1;
    }
    proof {
        assert(other@.take(other@.len() as int) =~= other@);
    }
    b
}

/// The position an integer subscript `i` selects in a sequence of `n`
/// elements (negative positions count from the end), if in range.
pub open spec fn seq_index(i: i64, n: nat) -> Option<int> {
    if i >= 0 {
        if i < n {
            Some(i as int)
        } else {
            None
        }
    } else if -i <= n {
        Some(n + i)
    } else {
        None
    }
}

/// Entry `j` is the first whose key is `k`.
pub open spec fn first_key_match(items: Seq<(LiteralKey, ShallowValue)>, k: LiteralKey, j: int) -> bool {
    &&& 0 <= j < items.len()
    &&& key_same(items[j].0, k)
    &&& forall|q: int| 0 <= q < j ==> !key_same(items[q].0, k)
}

/// The elements a subscript with `key` selects from container fact `f`:
/// the element at an integer position, the value of the first entry with
/// the key, or every element when the key is unknown.
pub open spec fn fact_picks(f: ContainerFact, key: Option<LiteralKey>) -> Seq<ShallowValue> {
    match f {
        ContainerFact::Sequence(items) => match key {
            Some(LiteralKey::Int(i)) => match seq_index(i, items@.len()) {
                Some(k) => seq![items@[k]],
                None => Seq::empty(),
            },
            Some(LiteralKey::Str(_)) => Seq::empty(),
            None => items@,
        },
        ContainerFact::Mapping(items) => match key {
            Some(k) => if exists|j: int| first_key_match(items@, k, j) {
                seq![items@[choose|j: int| first_key_match(items@, k, j)].1]
            } else {
                Seq::empty()
            },
            None => items@.map_values(|p: (LiteralKey, ShallowValue)| p.1),
        },
    }
}

/// The elements a subscript with `key` selects from all of `facts`, in order.
pub open spec fn all_picks(facts: Seq<ContainerFact>, key: Option<LiteralKey>) -> Seq<ShallowValue>
    decreases facts.len(),
{
    if facts.len() == 0 {
        Seq::empty()
    } else {
        all_picks(facts.drop_last(), key) + fact_picks(facts.last(), key)
    }
}

/// The values of the selected elements, together.
pub open spec fn picked_values(sel: Seq<ShallowValue>) -> Set<usize>
    decreases sel.len(),
{
    if sel.len() == 0 {
        Set::empty()
    } else {
        picked_values(sel.drop_last()) + sel.last().values@.to_set()
    }
}

/// The values of the selected elements, in order of first occurrence.
pub open spec fn picked_seq(sel: Seq<ShallowValue>) -> Seq<usize>
    decreases sel.len(),
{
    if sel.len() == 0 {
        Seq::empty()
    } else {
        merged(picked_seq(sel.drop_last()), sel.last().values@)
    }
}

/// The container facts of the selected elements, in order.
pub open spec fn picked_facts(sel: Seq<ShallowValue>) -> Seq<ContainerFact>
    decreases sel.len(),
{
    if sel.len() == 0 {
        Seq::empty()
    } else {
        picked_facts(sel.drop_last()) + sel.last().containers@
    }
}

/// `b` is a copy of `a`, fact by fact.
pub open spec fn same_facts(a: Seq<ContainerFact>, b: Seq<ContainerFact>) -> bool {
    &&& b.len() == a.len()
    &&& forall|i: int| 0 <= i < a.len() ==> same_fact(#[trigger] a[i], b[i])
}

/// `r` holds what the elements `sel` hold together.
pub open spec fn holds_picks(r: ShallowValue, sel: Seq<ShallowValue>) -> bool {
    &&& r.values@.to_set() == picked_values(sel)
    &&& r.values@ == picked_seq(sel)
    &&& same_facts(picked_facts(sel), r.containers@)
}

/// Taking one more element in keeps `holds_picks`.
proof fn lemma_pick_push(prev: ShallowValue, next: ShallowValue, sel: Seq<ShallowValue>, v: ShallowValue)
    requires
        holds_picks(prev, sel),
        next.values@.to_set() == prev.values@.to_set() + v.values@.to_set(),
        next.values@ == merged(prev.values@, v.values@),
        facts_appended(prev.containers@, v.containers@, next.containers@),
    ensures
        holds_picks(next, sel.push(v)),
{
    assert(sel.push(v).drop_last() =~= sel);
    assert(sel.push(v).last() == v);
    let pf = picked_facts(sel);
    let nf = picked_facts(sel.push(v));
    assert(nf == pf + v.containers@);
    assert forall|i: int| 0 <= i < nf.len() implies same_fact(#[trigger] nf[i], next.containers@[i]) by {
        if i < pf.len() {
            assert(next.containers@[i] == prev.containers@[i]);
        } else {
            assert(nf[i] == v.containers@[i - pf.len()]);
        }
    }
}

/// Resolve `container[key]` (or any element, when `key` is unknown)
/// through the container facts.
pub fn resolve_subscript(facts: &Vec<ContainerFact>, key: &Option<LiteralKey>) -> (r: ShallowValue)
    ensures
        holds_picks(r, all_picks(facts@, *key)),
{
    let mut resolved = ShallowValue::empty();
    let ghost mut sel: Seq<ShallowValue> = Seq::empty();
    proof {
        assert(resolved.values@.to_set() =~= Set::empty());
        assert(resolved.values@ =~= picked_seq(sel));
        assert(facts@.take(0) =~= Seq::<ContainerFact>::empty());
    }
    let mut i: usize = 0;
    while i < facts.len()
        invariant
            i <= facts@.len(),
            sel == all_picks(facts@.take(i as int), *key),
            holds_picks(resolved, sel),
        decreases facts.len() - i,
    {
        proof {
            assert(facts@.take(i as int + 1).drop_last() =~= facts@.take(i as int));
            assert(facts@.take(i as int + 1).last() == facts@[i as int]);
        }
        let ghost base = sel;
        match &facts[i] {
            ContainerFact::Sequence(items) => {
                match key {
                    Some(LiteralKey::Int(index)) => {
                        let n = items.len();
                        let idx: Option<usize> = if *index >= 0 {
                            let u = *index as u64;
                            if (u as u128) < (n as u128) {
                                Some(u as usize)
                            } else {
                                None
                            }
                        } else {
                            // Negative index counts from the end.
                            let back = (-(*index as i128)) as u128;
                            if back <= n as u128 {
                                Some((n as u128 - back) as usize)
                            } else {
                                None
                            }
                        };
                        proof {
                            match seq_index(*index, items@.len()) {
                                Some(k) => assert(idx == Some(k as usize)),
                                None => assert(idx is None),
                            }
                        }
                        if let Some(k) = idx {
                            if k < items.len() {
                                let ghost prev = resolved;
                                resolved.union_with(&items[k]);
                                proof {
                                    lemma_pick_push(prev, resolved, sel, items@[k as int]);
                                    sel = sel.push(items@[k as int]);
                                    assert(seq![items@[k as int]] =~= Seq::empty().push(items@[k as int]));
                                    assert(sel =~= base + fact_picks(facts@[i as int], *key));
                                }
                            }
                        } else {
                            proof {
                                assert(base + fact_picks(facts@[i as int], *key) =~= base);
                            }
                        }
                    },
                    Some(LiteralKey::Str(_)) => {
                        proof {
                            assert(base + fact_picks(facts@[i as int], *key) =~= base);
                        }
                    },
                    None => {
                        let mut j: usize = 0;
                        while j < items.len()
                            invariant
                                j <= items@.len(),
                                sel == base + items@.take(j as int),
                                holds_picks(resolved, sel),
                            decreases items.len() - j,
                        {
                            let ghost prev = resolved;
                            resolved.union_with(&items[j]);
                            proof {
                                lemma_pick_push(prev, resolved, sel, items@[j as int]);
                                sel = sel.push(items@[j as int]);
                                assert(sel =~= base + items@.take(j as int + 1));
                            }
                            j = j + 1;
                        }
                        proof {
                            assert(items@.take(items@.len() as int) =~= items@);
                        }
                    },
                }
            },
            ContainerFact::Mapping(items) => {
                match key {
                    Some(k) => {
                        let mut j: usize = 0;
                        let mut done = false;
                        while j < items.len() && !done
                            invariant
                                j <= items@.len(),
                                i < facts@.len(),
                                facts@[i as int] == ContainerFact::Mapping(*items),
                                *key == Some(*k),
                                holds_picks(resolved, sel),
                                !done ==> sel == base && forall|q: int| 0 <= q < j ==> !key_same(items@[q].0, *k),
                                done ==> sel == base + fact_picks(facts@[i as int], *key),
                            decreases items.len() - j,
                        {
                            if key_eq(&items[j].0, k) {
                                let ghost prev = resolved;
                                resolved.union_with(&items[j].1);
                                proof {
                                    lemma_pick_push(prev, resolved, sel, items@[j as int].1);
                                    sel = sel.push(items@[j as int].1);
                                    assert(first_key_match(items@, *k, j as int));
                                    let c = choose|c: int| first_key_match(items@, *k, c);
                                    if c < j {
                                        assert(!key_same(items@[c].0, *k));
                                    }
                                    if c > j {
                                        assert(!key_same(items@[j as int].0, *k));
                                    }
                                    assert(c == j);
                                    assert(fact_picks(facts@[i as int], *key) == seq![items@[j as int].1]);
                                    assert(sel =~= base + seq![items@[j as int].1]);
                                }
                                done = true;
                            }
                            j = j + 1;
                        }
                        proof {
                            if !done {
                                if exists|c: int| first_key_match(items@, *k, c) {
                                    let c = choose|c: int| first_key_match(items@, *k, c);
                                    assert(key_same(items@[c].0, *k));
                                }
                                assert(base + fact_picks(facts@[i as int], *key) =~= base);
                            }
                        }
                    },
                    None => {
                        let ghost vals = items@.map_values(|p: (LiteralKey, ShallowValue)| p.1);
                        let mut j: usize = 0;
                        while j < items.len()
                            invariant
                                j <= items@.len(),
                                vals == items@.map_values(|p: (LiteralKey, ShallowValue)| p.1),
                                sel == base + vals.take(j as int),
                                holds_picks(resolved, sel),
                            decreases items.len() - j,
                        {
                            let ghost prev = resolved;
                            resolved.union_with(&items[j].1);
                            proof {
                                lemma_pick_push(prev, resolved, sel, items@[j as int].1);
                                sel = sel.push(items@[j as int].1);
                                assert(vals[j as int] == items@[j as int].1);
                                assert(sel =~= base + vals.take(j as int + 1));
                            }
                            j = j + 1;
                        }
                        proof {
                            assert(vals.take(vals.len() as int) =~= vals);
                        }
                    },
                }
            },
        }
        proof {
            assert(sel == all_picks(facts@.take(i as int + 1), *key));
        }
        i = i + 1;
    }
    proof {
        assert(facts@.take(facts@.len() as int) =~= facts@);
    }
    resolved
}

impl ScopeInfo {
    /// The first def of `name` is at `i`.
    pub open spec fn first_def(&self, name: SymId, i: int) -> bool {
        &&& 0 <= i < self.defs@.len()
        &&& self.defs@[i].0 == name
        &&& forall|j: int| 0 <= j < i ==> self.defs@[j].0 != name
    }

    /// The position of the first def of `name`, if declared.
    pub open spec fn def_index(&self, name: SymId) -> Option<int> {
        if exists|i: int| self.first_def(name, i) {
            Some(choose|i: int| self.first_def(name, i))
        } else {
            None
        }
    }

    /// The first container entry of `name` is at `i`.
    pub open spec fn first_containers(&self, name: SymId, i: int) -> bool {
        &&& 0 <= i < self.containers@.len()
        &&& self.containers@[i].0 == name
        &&& forall|j: int| 0 <= j < i ==> self.containers@[j].0 != name
    }

    /// The position of the first container entry of `name`, if any.
    pub open spec fn containers_index(&self, name: SymId) -> Option<int> {
        if exists|i: int| self.first_containers(name, i) {
            Some(choose|i: int| self.first_containers(name, i))
        } else {
            None
        }
    }

    /// `next` is this scope with `name` declared (if it was not) and the
    /// values `added` added to its first def; nothing else changed.
    pub open spec fn binds_after(&self, next: ScopeInfo, name: SymId, added: Set<usize>) -> bool {
        &&& exists|p: int|
            {
                &&& next.first_def(name, p)
                &&& p < self.defs@.len() ==> self.defs@[p].0 == name
                &&& next.defs@[p].1@.to_set() == (if p < self.defs@.len() {
                    self.defs@[p].1@.to_set()
                } else {
                    Set::empty()
                }) + added
                &&& forall|j: int| 0 <= j < next.defs@.len() && j != p ==> next.defs@[j] == self.defs@[j]
                &&& next.defs@.len() == if p < self.defs@.len() {
                    self.defs@.len()
                } else {
                    self.defs@.len() + 1
                }
            }
        &&& next.containers == self.containers
        &&& next.locals == self.locals
        &&& next.all_exports == self.all_exports
    }

    /// `next` is this scope after binding `name` to the values of `v` and
    /// adding the container facts of `v` (if any) to it.
    pub open spec fn assigns_shallow(&self, next: ScopeInfo, name: SymId, v: ShallowValue) -> bool {
        exists|m: ScopeInfo|
            {
                &&& self.binds_after(m, name, v.values@.to_set())
                &&& if v.containers@.len() > 0 {
                    m.containers_added(next, name, v.containers@)
                } else {
                    next == m
                }
            }
    }

    /// `next` is this scope with copies of `facts` added to the first
    /// container entry of `name` (a new entry when there is none); nothing
    /// else changed.
    pub open spec fn containers_added(&self, next: ScopeInfo, name: SymId, facts: Seq<ContainerFact>) -> bool {
        &&& next.defs == self.defs
        &&& next.locals == self.locals
        &&& next.all_exports == self.all_exports
        &&& (forall|i: int| 0 <= i < self.containers@.len() ==> self.containers@[i].0 != name) ==> {
            &&& next.containers@.len() == self.containers@.len() + 1
            &&& next.containers@.last().0 == name
            &&& facts_appended(Seq::empty(), facts, next.containers@.last().1@)
            &&& forall|k: int| 0 <= k < self.containers@.len() ==> #[trigger] next.containers@[k] == self.containers@[k]
        }
        &&& forall|i: int|
            self.first_containers(name, i) ==> {
                &&& next.containers@.len() == self.containers@.len()
                &&& next.containers@[i].0 == name
                &&& facts_appended(self.containers@[i].1@, facts, next.containers@[i].1@)
                &&& forall|k: int| 0 <= k < self.containers@.len() && k != i ==> #[trigger] next.containers@[k] == self.containers@[k]
            }
    }

    pub fn new() -> (r: Self)
        ensures
            r.defs@.len() == 0,
            r.containers@.len() == 0,
            r.locals@.len() == 0,
            r.all_exports is None,
    {
        ScopeInfo { defs: Vec::new(), containers: Vec::new(), locals: Vec::new(), all_exports: None }
    }

    /// Position of `name` among the defs.
    pub fn def_pos(&self, name: SymId) -> (r: Option<usize>)
        ensures
            r matches Some(i) ==> i < self.defs@.len() && self.defs@[i as int].0 == name && forall|j: int|
                0 <= j < i ==> self.defs@[j].0 != name,
            r is None ==> forall|i: int| 0 <= i < self.defs@.len() ==> self.defs@[i].0 != name,
    {
        let mut i: usize = 0;
        while i < self.defs.len()
            invariant
                i <= self.defs.len(),
                forall|j: int| 0 <= j < i ==> self.defs@[j].0 != name,
            decreases self.defs.len() - i,
        {
            if self.defs[i].0 == name {
                return Some(i);
            }
            i = i + 1;
        }
        None
    }

    /// The value set bound to `name`, if declared.
    pub fn get_def(&self, name: SymId) -> (r: Option<&ValueSet>)
        ensures
            r matches Some(v) ==> exists|i: int|
                0 <= i < self.defs@.len() && self.defs@[i].0 == name && *v == self.defs@[i].1 && forall|j: int|
                    0 <= j < i ==> self.defs@[j].0 != name,
            r is None ==> forall|i: int| 0 <= i < self.defs@.len() ==> self.defs@[i].0 != name,
    {
        match self.def_pos(name) {
            Some(i) => Some(&self.defs[i].1),
            None => None,
        }
    }

    /// Whether `name` is declared here.
    pub fn has_def(&self, name: SymId) -> (r: bool)
        ensures
            r == exists|i: int| 0 <= i < self.defs@.len() && self.defs@[i].0 == name,
    {
        self.def_pos(name).is_some()
    }

    /// Declare `name` (with an empty value set) if it is not declared.
    pub fn declare(&mut self, name: SymId) -> (r: usize)
        ensures
            r < final(self).defs@.len(),
            final(self).defs@[r as int].0 == name,
            forall|j: int| 0 <= j < r ==> final(self).defs@[j].0 != name,
            r < old(self).defs@.len() ==> final(self).defs@ == old(self).defs@,
            r >= old(self).defs@.len() ==> r == old(self).defs@.len() && final(self).defs@.len() == r + 1
                && final(self).defs@.take(r as int) == old(self).defs@ && final(self).defs@[r as int].1@.len() == 0
                && final(self).defs@[r as int].1.wf(),
            final(self).containers == old(self).containers,
            final(self).locals == old(self).locals,
            final(self).all_exports == old(self).all_exports,
    {
        match self.def_pos(name) {
            Some(i) => i,
            None => {
                self.defs.push((name, ValueSet::empty()));
                proof {
                    assert(self.defs@.take(old(self).defs@.len() as int) =~= old(self).defs@);
                }
                self.defs.len() - 1
            },
        }
    }

    /// Declare `name` and add `value` to its set, if given.
    pub fn bind(&mut self, name: SymId, value: Option<NodeId>)
        ensures
            old(self).binds_after(
                *final(self),
                name,
                match value {
                    Some(id) => set![id],
                    None => Set::empty(),
                },
            ),
    {
        let i = self.declare(name);
        let ghost d1 = self.defs@;
        if let Some(id) = value {
            let _ = self.defs[i].1.insert(id);
            proof {
                assert(self.defs@[i as int].1@.to_set() =~= d1[i as int].1@.to_set() + set![id]) by {
                    if d1[i as int].1@.contains(id) {
                        assert(self.defs@[i as int].1@ == d1[i as int].1@);
                    } else {
                        assert(self.defs@[i as int].1@ == d1[i as int].1@.push(id));
                        assert forall|x: usize| self.defs@[i as int].1@.to_set().contains(x) <==> (d1[i as int].1@.to_set() + set![id]).contains(x) by {
                            crate::analyzer::modgraph::lemma_push_contains(d1[i as int].1@, id, x);
                        }
                    }
                }
            }
        } else {
            proof {
                assert(self.defs@[i as int].1@.to_set() =~= d1[i as int].1@.to_set() + Set::empty());
            }
        }
        proof {
            if (i as int) < old(self).defs@.len() {
                assert(d1 == old(self).defs@);
            } else {
                assert(d1[i as int].1@.to_set() =~= Set::empty());
                assert forall|j: int| 0 <= j < self.defs@.len() && j != i implies self.defs@[j] == old(self).defs@[j] by {
                    assert(d1[j] == d1.take(i as int)[j]);
                }
            }
            assert(self.defs@[i as int].0 == name);
            assert forall|j: int| 0 <= j < i implies self.defs@[j].0 != name by {
                assert(self.defs@[j] == d1[j]);
            }
            assert(self.first_def(name, i as int));
        }
    }

    /// Declare `name` and add all of `values` to its set.
    pub fn bind_all(&mut self, name: SymId, values: &ValueSet)
        ensures
            old(self).binds_after(*final(self), name, values@.to_set()),
    {
        let i = self.declare(name);
        let ghost d1 = self.defs@;
        let _ = self.defs[i].1.union_with(values);
        proof {
            if (i as int) < old(self).defs@.len() {
                assert(d1 == old(self).defs@);
            } else {
                assert(d1[i as int].1@.to_set() =~= Set::empty());
                assert forall|j: int| 0 <= j < self.defs@.len() && j != i implies self.defs@[j] == old(self).defs@[j] by {
                    assert(d1[j] == d1.take(i as int)[j]);
                }
            }
            assert(self.defs@[i as int].0 == name);
            assert forall|j: int| 0 <= j < i implies self.defs@[j].0 != name by {
                assert(self.defs@[j] == d1[j]);
            }
            assert(self.first_def(name, i as int));
        }
    }

    /// Record `name` as local.
    pub fn add_local(&mut self, name: SymId)
        ensures
            final(self).locals@ == if old(self).locals@.contains(name) {
                old(self).locals@
            } else {
                old(self).locals@.push(name)
            },
            final(self).defs == old(self).defs,
            final(self).containers == old(self).containers,
            final(self).all_exports == old(self).all_exports,
    {
        let mut i: usize = 0;
        while i < self.locals.len()
            invariant
                i <= self.locals@.len(),
                self.locals == old(self).locals,
                self.defs == old(self).defs,
                self.containers == old(self).containers,
                self.all_exports == old(self).all_exports,
                forall|j: int| 0 <= j < i ==> self.locals@[j] != name,
            decreases self.locals.len() - i,
        {
            if self.locals[i] == name {
                proof {
                    assert(self.locals@.contains(name));
                }
                return;
            }
            i = i + 1;
        }
        self.locals.push(name);
    }

    /// Whether `name` is local.
    pub fn is_local(&self, name: SymId) -> (r: bool)
        ensures
            r == self.locals@.contains(name),
    {
        let mut i: usize = 0;
        while i < self.locals.len()
            invariant
                i <= self.locals@.len(),
                forall|j: int| 0 <= j < i ==> self.locals@[j] != name,
            decreases self.locals.len() - i,
        {
            if self.locals[i] == name {
                proof {
                    assert(self.locals@[i as int] == name);
                }
                return true;
            }
            i = i + 1;
        }
        false
    }

    /// The container facts bound to `name`, if any.
    pub fn get_containers(&self, name: SymId) -> (r: Option<&Vec<ContainerFact>>)
        ensures
            r matches Some(v) ==> exists|i: int|
                0 <= i < self.containers@.len() && self.containers@[i].0 == name && *v == self.containers@[i].1 && forall|j: int|
                    0 <= j < i ==> self.containers@[j].0 != name,
            r is None ==> forall|i: int| 0 <= i < self.containers@.len() ==> self.containers@[i].0 != name,
    {
        let mut i: usize = 0;
        while i < self.containers.len()
            invariant
                i <= self.containers@.len(),
                forall|j: int| 0 <= j < i ==> self.containers@[j].0 != name,
            decreases self.containers.len() - i,
        {
            if self.containers[i].0 == name {
                return Some(&self.containers[i].1);
            }
            i = i + 1;
        }
        None
    }

    /// Add container facts for `name`.
    pub fn add_containers(&mut self, name: SymId, facts: &Vec<ContainerFact>)
        ensures
            old(self).containers_added(*final(self), name, facts@),
    {
        let mut i: usize = 0;
        while i < self.containers.len()
            invariant
                i <= self.containers@.len(),
                *self == *old(self),
                forall|j: int| 0 <= j < i ==> self.containers@[j].0 != name,
            decreases self.containers.len() - i,
        {
            if self.containers[i].0 == name {
                let ghost c0 = self.containers@;
                let _ = facts_union(&mut self.containers[i].1, facts);
                proof {
                    assert(self.containers@.len() == c0.len());
                    assert forall|k: int| 0 <= k < c0.len() && k != i implies #[trigger] self.containers@[k] == c0[k] by {}
                }
                return;
            }
            i = i + 1;
        }
        let copies = clone_facts(facts);
        let ghost c0 = self.containers@;
        self.containers.push((name, copies));
        proof {
            assert forall|j: int| 0 <= j < facts@.len() implies same_fact(#[trigger] facts@[j], copies@[Seq::<ContainerFact>::empty().len() + j]) by {}
        }
    }

    /// Whether `__all__` lists `name` (false when there is no `__all__`).
    pub fn exports_contains(&self, name: SymId) -> (r: bool)
        ensures
            r == (self.all_exports matches Some(v) && v@.contains(name)),
    {
        match &self.all_exports {
            Some(v) => {
                let mut i: usize = 0;
                while i < v.len()
                    invariant
                        i <= v@.len(),
                        self.all_exports == Some(*v),
                        forall|j: int| 0 <= j < i ==> v@[j] != name,
                    decreases v.len() - i,
                {
                    if v[i] == name {
                        proof {
                            assert(v@[i as int] == name);
                        }
                        return true;
                    }
                    i = i + 1;
                }
                false
            },
            None => false,
        }
    }
}

/// `b` holds the same bindings, container facts, locals and exports as `a`.
pub open spec fn same_scope(a: ScopeInfo, b: ScopeInfo) -> bool {
    &&& b.defs@.len() == a.defs@.len()
    &&& forall|i: int| 0 <= i < a.defs@.len() ==> (#[trigger] b.defs@[i]).0 == a.defs@[i].0 && b.defs@[i].1@ == a.defs@[i].1@
    &&& b.containers@.len() == a.containers@.len()
    &&& forall|i: int|
        0 <= i < a.containers@.len() ==> (#[trigger] b.containers@[i]).0 == a.containers@[i].0 && b.containers@[i].1@.len()
            == a.containers@[i].1@.len() && forall|j: int|
            0 <= j < a.containers@[i].1@.len() ==> same_fact(#[trigger] a.containers@[i].1@[j], b.containers@[i].1@[j])
    &&& b.locals@ == a.locals@
    &&& match a.all_exports {
        Some(v) => b.all_exports matches Some(w) && w@ == v@,
        None => b.all_exports is None,
    }
}

/// A deep copy of a scope.
pub fn clone_scope_info(s: &ScopeInfo) -> (r: ScopeInfo)
    ensures
        same_scope(*s, r),
{
    let mut defs: Vec<(SymId, ValueSet)> = Vec::new();
    let mut i: usize = 0;
    while i < s.defs.len()
        invariant
            i <= s.defs@.len(),
            defs@.len() == i,
            forall|k: int| 0 <= k < i ==> (#[trigger] defs@[k]).0 == s.defs@[k].0 && defs@[k].1@ == s.defs@[k].1@,
        decreases s.defs.len() - i,
    {
        defs.push((s.defs[i].0, s.defs[i].1.duplicate()));
        i = i + 1;
    }
    let mut containers: Vec<(SymId, Vec<ContainerFact>)> = Vec::new();
    let mut i: usize = 0;
    while i < s.containers.len()
        invariant
            i <= s.containers@.len(),
            containers@.len() == i,
            forall|k: int|
                0 <= k < i ==> (#[trigger] containers@[k]).0 == s.containers@[k].0 && containers@[k].1@.len()
                    == s.containers@[k].1@.len() && forall|j: int|
                    0 <= j < s.containers@[k].1@.len() ==> same_fact(#[trigger] s.containers@[k].1@[j], containers@[k].1@[j]),
        decreases s.containers.len() - i,
    {
        containers.push((s.containers[i].0, clone_facts(&s.containers[i].1)));
        i = i + 1;
    }
    let mut locals: Vec<SymId> = Vec::new();
    let mut i: usize = 0;
    while i < s.locals.len()
        invariant
            i <= s.locals@.len(),
            locals@ == s.locals@.take(i as int),
        decreases s.locals.len() - i,
    {
        locals.push(s.locals[i]);
        proof {
            assert(locals@ =~= s.locals@.take(i as int + 1));
        }
        i = i + 1;
    }
    proof {
        assert(s.locals@.take(s.locals@.len() as int) =~= s.locals@);
    }
    let all_exports = match &s.all_exports {
        Some(v) => {
            let mut out: Vec<SymId> = Vec::new();
            let mut i: usize = 0;
            while i < v.len()
                invariant
                    i <= v@.len(),
                    out@ == v@.take(i as int),
                decreases v.len() - i,
            {
                out.push(v[i]);
                proof {
                    assert(out@ =~= v@.take(i as int + 1));
                }
                i = i + 1;
            }
            proof {
                assert(v@.take(v@.len() as int) =~= v@);
            }
            Some(out)
        },
        None => None,
    };
    ScopeInfo { defs, containers, locals, all_exports }
}

/// Position of `key` in an association list of scopes.
pub fn scope_pos(scopes: &Vec<(SymId, ScopeInfo)>, key: SymId) -> (r: Option<usize>)
    ensures
        r matches Some(i) ==> i < scopes@.len() && scopes@[i as int].0 == key && forall|j: int|
            0 <= j < i ==> scopes@[j].0 != key,
        r is None ==> forall|j: int| 0 <= j < scopes@.len() ==> scopes@[j].0 != key,
{
    let mut i: usize = 0;
    while i < scopes.len()
        invariant
            i <= scopes@.len(),
            forall|j: int| 0 <= j < i ==> scopes@[j].0 != key,
        decreases scopes.len() - i,
    {
        if scopes[i].0 == key {
            return Some(i);
        }
        i = i + 1;
    }
    None
}

/// The entry of `key` in an association list keyed by node id.
pub fn assoc_pos<T>(v: &Vec<(NodeId, T)>, key: NodeId) -> (r: Option<usize>)
    ensures
        r matches Some(i) ==> i < v@.len() && v@[i as int].0 == key && forall|j: int| 0 <= j < i ==> v@[j].0 != key,
        r is None ==> forall|j: int| 0 <= j < v@.len() ==> v@[j].0 != key,
{
    let mut i: usize = 0;
    while i < v.len()
        invariant
            i <= v@.len(),
            forall|j: int| 0 <= j < i ==> v@[j].0 != key,
        decreases v.len() - i,
    {
        if v[i].0 == key {
            return Some(i);
        }
        i = i + 1;
    }
    None
}

impl AnalysisSession {
    /// The graph is well formed and every symbol the session holds is
    /// interned.
    pub open spec fn wf(&self) -> bool {
        &&& self.graph.wf()
        &&& self.name_stack@.len() == self.fqn_cache@.len()
        &&& forall|k: int| 0 <= k < self.name_stack@.len() ==> self.graph.interner.has_id(#[trigger] self.name_stack@[k])
        &&& forall|k: int| 0 <= k < self.fqn_cache@.len() ==> self.graph.interner.has_id(#[trigger] self.fqn_cache@[k])
        &&& forall|k: int| 0 <= k < self.scope_stack@.len() ==> self.graph.interner.has_id(#[trigger] self.scope_stack@[k])
        &&& self.graph.interner.has_id(self.module_name)
        &&& self.graph.interner.has_id(self.filename)
    }

    /// `evolves`, every node defined in `self` is still defined, and every
    /// defines edge of `self` is still there.
    pub open spec fn evolves_up(&self, next: &Self) -> bool {
        &&& self.evolves(next)
        &&& forall|i: int| 0 <= i < self.graph.n() && self.graph.defined@[i] ==> #[trigger] next.graph.defined@[i]
        &&& forall|i: int, x: usize| 0 <= i < self.graph.n() && self.graph.defines_edges@[i]@.contains(x)
            ==> #[trigger] next.graph.defines_edges@[i]@.contains(x)
    }

    /// `next` is a well-formed successor of `self`: nodes and interned
    /// strings are only ever added, and nodes keep their names.
    pub open spec fn evolves(&self, next: &Self) -> bool {
        &&& next.wf()
        &&& self.graph.n() <= next.graph.n()
        &&& self.graph.interner@.len() <= next.graph.interner@.len()
        &&& self.graph.interner.extends(&next.graph.interner)
        &&& forall|i: int| 0 <= i < self.graph.n() ==> (#[trigger] next.graph.nodes_arena@[i]).name == self.graph.nodes_arena@[i].name
            && next.graph.nodes_arena@[i].namespace == self.graph.nodes_arena@[i].namespace
    }

    /// Whether `id` names a node.
    pub fn valid(&self, id: NodeId) -> (r: bool)
        ensures
            r == (id < self.graph.n()),
    {
        id < self.graph.nodes_arena.len()
    }

    /// Intern a string.
    pub fn sym(&mut self, s: &str) -> (r: SymId)
        requires
            old(self).wf(),
        ensures
            old(self).evolves_up(final(self)),
            final(self).graph.interner.has_id(r),
            final(self).graph.interner.str_of(r) == s@,
            final(self).graph.n() == old(self).graph.n(),
            final(self).name_stack == old(self).name_stack,
            final(self).fqn_cache == old(self).fqn_cache,
            final(self).scope_stack == old(self).scope_stack,
            final(self).scopes == old(self).scopes,
            final(self).graph.nodes_arena == old(self).graph.nodes_arena,
            final(self).graph.uses_edges == old(self).graph.uses_edges,
            final(self).graph.defines_edges == old(self).graph.defines_edges,
            final(self).graph.defined == old(self).graph.defined,
            old(self).same_but_graph(final(self)),
            final(self).graph.diagnostics == old(self).graph.diagnostics,
            old(self).graph.interner.extends(&final(self).graph.interner),
    {
        self.graph.intern(s)
    }

    /// Intern a character sequence.
    pub fn sym_chars(&mut self, s: &[char]) -> (r: SymId)
        requires
            old(self).wf(),
        ensures
            old(self).evolves_up(final(self)),
            final(self).graph.interner.has_id(r),
            final(self).graph.interner.str_of(r) == s@,
            final(self).graph.n() == old(self).graph.n(),
            final(self).name_stack == old(self).name_stack,
            final(self).fqn_cache == old(self).fqn_cache,
            final(self).scope_stack == old(self).scope_stack,
            final(self).scopes == old(self).scopes,
            final(self).graph.nodes_arena == old(self).graph.nodes_arena,
            final(self).graph.uses_edges == old(self).graph.uses_edges,
            final(self).graph.defines_edges == old(self).graph.defines_edges,
            final(self).graph.defined == old(self).graph.defined,
            old(self).same_but_graph(final(self)),
            final(self).graph.diagnostics == old(self).graph.diagnostics,
            old(self).graph.interner.extends(&final(self).graph.interner),
    {
        let st = chars_to_string(s);
        self.graph.intern(st.as_str())
    }

    /// The characters of an interned symbol (empty for an unknown id).
    pub fn text(&self, id: SymId) -> (r: Vec<char>)
        ensures
            self.graph.interner.has_id(id) ==> r@ == self.graph.interner.str_of(id),
            !self.graph.interner.has_id(id) ==> r@.len() == 0,
    {
        if id.0 < self.graph.interner.len() {
            str_to_chars(self.graph.interner.resolve(id))
        } else {
            Vec::new()
        }
    }

    /// The fully qualified name of node `id` (empty for an unknown id).
    pub fn node_name(&self, id: NodeId) -> (r: Vec<char>)
        requires
            self.wf(),
        ensures
            id < self.graph.n() ==> r@ == self.graph.nodes_arena@[id as int].full_name(&self.graph.interner),
            id >= self.graph.n() ==> r@.len() == 0,
    {
        if id < self.graph.nodes_arena.len() {
            proof {
                assert(self.graph.nodes_arena@[id as int].ids_in(&self.graph.interner));
            }
            str_to_chars(self.graph.nodes_arena[id].get_name(&self.graph.interner).as_str())
        } else {
            Vec::new()
        }
    }

    /// Whether node `id` has a namespace (false for an unknown id).
    pub fn has_ns(&self, id: NodeId) -> (r: bool)
        ensures
            r == (id < self.graph.n() && self.graph.nodes_arena@[id as int].namespace is Some),
    {
        id < self.graph.nodes_arena.len() && self.graph.nodes_arena[id].namespace.is_some()
    }

    /// Whether node `id` is an analyzed class.
    pub fn is_class(&self, id: NodeId) -> (r: bool)
        ensures
            r == exists|i: int| 0 <= i < self.class_base_ast_info@.len() && self.class_base_ast_info@[i].0 == id,
    {
        assoc_pos(&self.class_base_ast_info, id).is_some()
    }

    /// The file name recorded for a module symbol, if it is an analyzed module.
    pub fn module_file(&self, module: SymId) -> (r: Option<SymId>)
        requires
            self.wf(),
        ensures
            r matches Some(f) ==> self.graph.interner.has_id(f),
            r matches Some(f) ==> exists|i: int|
                0 <= i < self.graph.module_to_filename@.len() && self.graph.module_to_filename@[i] == (module, f) && forall|j: int|
                    0 <= j < i ==> self.graph.module_to_filename@[j].0 != module,
            r is None ==> forall|j: int| 0 <= j < self.graph.module_to_filename@.len() ==> self.graph.module_to_filename@[j].0 != module,
    {
        let mut i: usize = 0;
        while i < self.graph.module_to_filename.len()
            invariant
                self.wf(),
                i <= self.graph.module_to_filename@.len(),
                forall|j: int| 0 <= j < i ==> self.graph.module_to_filename@[j].0 != module,
            decreases self.graph.module_to_filename.len() - i,
        {
            if self.graph.module_to_filename[i].0 == module {
                proof {
                    assert(self.graph.interner.has_id(self.graph.module_to_filename@[i as int].1));
                }
                return Some(self.graph.module_to_filename[i].1);
            }
            i = i + 1;
        }
        None
    }
}

} // verus!
