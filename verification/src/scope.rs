//! Name bindings: abstract value sets, lexical scopes and scope stacks.

use vstd::prelude::*;

use crate::text::{chars_eq, chars_to_string, join, push_all, str_to_chars};

verus! {

/// `a` followed by each element of `b`, in order, that is not already
/// there: what inserting the elements of `b` one by one into `a` gives.
pub open spec fn merged(a: Seq<usize>, b: Seq<usize>) -> Seq<usize>
    decreases b.len(),
{
    if b.len() == 0 {
        a
    } else {
        let m = merged(a, b.drop_last());
        if m.contains(b.last()) {
            m
        } else {
            m.push(b.last())
        }
    }
}

/// Merging elements that are all present already changes nothing.
proof fn lemma_merged_present(a: Seq<usize>, b: Seq<usize>)
    requires
        forall|k: int| 0 <= k < b.len() ==> a.contains(#[trigger] b[k]),
    ensures
        merged(a, b) == a,
    decreases b.len(),
{
    if b.len() > 0 {
        lemma_merged_present(a, b.drop_last());
    }
}

/// Uniting the same set twice: the second union changes nothing, so it
/// returns `false`.
pub proof fn lemma_union_again(a: Seq<usize>, b: Seq<usize>)
    requires
        merged(a, b).to_set() == a.to_set() + b.to_set(),
    ensures
        merged(merged(a, b), b) == merged(a, b),
        merged(merged(a, b), b).len() == merged(a, b).len(),
{
    let m = merged(a, b);
    assert forall|k: int| 0 <= k < b.len() implies m.contains(#[trigger] b[k]) by {
        assert(b.to_set().contains(b[k]));
        assert(m.to_set().contains(b[k]));
    }
    lemma_merged_present(m, b);
}

/// A compact set of abstract values (node ids) for a name binding.
///
/// Kept in insertion order without duplicates, so that `first` is the
/// earliest value added.
#[derive(Debug, Clone, Default)]
pub struct ValueSet(Vec<usize>);

impl ValueSet {
    /// The values, in insertion order.
    pub closed spec fn view(&self) -> Seq<usize> {
        self.0@
    }

    /// No value occurs twice.
    pub open spec fn wf(&self) -> bool {
        self@.no_duplicates()
    }

    /// Create an empty set (name declared but unresolved).
    pub fn empty() -> (r: Self)
        ensures
            r.wf(),
            r@ == Seq::<usize>::empty(),
    {
        Self(Vec::new())
    }

    /// Create a singleton set.
    pub fn singleton(id: usize) -> (r: Self)
        ensures
            r.wf(),
            r@ == seq![id],
    {
        let r = Self(vec![id]);
        assert(r@ =~= seq![id]);
        r
    }

    /// Whether `id` is in the set.
    pub fn contains(&self, id: usize) -> (r: bool)
        ensures
            r == self@.contains(id),
    {
        let mut i: usize = 0;
        while i < self.0.len()
            invariant
                i <= self.0.len(),
                forall|j: int| 0 <= j < i ==> self.0@[j] != id,
            decreases self.0.len() - i,
        {
            if self.0[i] == id {
                assert(self@[i as int] == id);
                return true;
            }
            i = i + 1;
        }
        false
    }

    /// Add a value. Returns `true` if the set changed (id was not already
    /// present).
    pub fn insert(&mut self, id: usize) -> (r: bool)
        ensures
            old(self).wf() ==> final(self).wf(),
            r == !old(self)@.contains(id),
            r ==> final(self)@ == old(self)@.push(id),
            !r ==> final(self)@ == old(self)@,
    {
        if !self.contains(id) {
            self.0.push(id);
            proof {
                if old(self).wf() {
                assert forall|i: int, j: int|
                    0 <= i < self@.len() && 0 <= j < self@.len() && i != j implies self@[i]
                    != self@[j] by {
                    if i == self@.len() - 1 {
                        assert(old(self)@.contains(self@[j]) || j == i);
                    }
                    if j == self@.len() - 1 {
                        assert(old(self)@.contains(self@[i]) || j == i);
                    }
                }
                }
            }
            true
        } else {
            false
        }
    }

    /// Union `other` into `self`. Returns `true` if `self` changed.
    pub fn union_with(&mut self, other: &ValueSet) -> (r: bool)
        ensures
            old(self).wf() ==> final(self).wf(),
            final(self)@ == merged(old(self)@, other@),
            final(self)@.to_set() == old(self)@.to_set() + other@.to_set(),
            old(self)@.is_prefix_of(final(self)@),
            r == (final(self)@.len() > old(self)@.len()),
    {
        let mut changed = false;
        let mut i: usize = 0;
        while i < other.0.len()
            invariant
                i <= other.0.len(),
                old(self).wf() ==> self.wf(),
                self@.to_set() == old(self)@.to_set() + other@.subrange(0, i as int).to_set(),
                old(self)@.is_prefix_of(self@),
                changed == (self@.len() > old(self)@.len()),
                self@ == merged(old(self)@, other@.take(i as int)),
            decreases other.0.len() - i,
        {
            let ghost before = self@;
            let c = self.insert(other.0[i]);
            changed = changed || c;
            proof {
                assert(other@.take(i + 1).drop_last() =~= other@.take(i as int));
                assert(other@.take(i + 1).last() == other@[i as int]);
                assert(other@.subrange(0, i + 1) =~= other@.subrange(0, i as int).push(
                    other@[i as int],
                ));
                other@.subrange(0, i as int).lemma_push_to_set_commute(other@[i as int]);
                before.lemma_push_to_set_commute(other@[i as int]);
                assert(self@.to_set() =~= old(self)@.to_set() + other@.subrange(
                    0,
                    i + 1,
                ).to_set());
                assert(old(self)@.is_prefix_of(self@)) by {
                    assert forall|k: int| 0 <= k < old(self)@.len() implies old(self)@[k]
                        == self@[k] by {
                        assert(before[k] == self@[k]);
                    }
                }
            }
            i = i + 1;
        }
        proof {
            assert(other@.subrange(0, other@.len() as int) =~= other@);
            assert(other@.take(other@.len() as int) =~= other@);
        }
        changed
    }

    pub fn is_empty(&self) -> (r: bool)
        ensures
            r == (self@.len() == 0),
    {
        self.0.is_empty()
    }

    /// Remove a value. Returns `true` if it was present.
    pub fn remove(&mut self, id: usize) -> (r: bool)
        requires
            old(self).wf(),
        ensures
            final(self).wf(),
            r == old(self)@.contains(id),
            forall|x: usize| final(self)@.contains(x) <==> (old(self)@.contains(x) && x != id),
            final(self)@.len() <= old(self)@.len(),
    {
        let mut i: usize = 0;
        while i < self.0.len()
            invariant
                i <= self.0.len(),
                self.0@ == old(self).0@,
                self.wf(),
                forall|j: int| 0 <= j < i ==> self.0@[j] != id,
            decreases self.0.len() - i,
        {
            if self.0[i] == id {
                let ghost before = self@;
                self.0.remove(i);
                proof {
                    assert(self@ =~= before.subrange(0, i as int) + before.subrange(i + 1, before.len() as int));
                    assert forall|a: int, b: int|
                        0 <= a < self@.len() && 0 <= b < self@.len() && a != b implies self@[a] != self@[b] by {
                        let a2 = if a < i { a } else { a + 1 };
                        let b2 = if b < i { b } else { b + 1 };
                        assert(self@[a] == before[a2]);
                        assert(self@[b] == before[b2]);
                    }
                    assert forall|x: usize| self@.contains(x) <==> (old(self)@.contains(x) && x != id) by {
                        if self@.contains(x) {
                            let k = choose|k: int| 0 <= k < self@.len() && self@[k] == x;
                            let k2 = if k < i { k } else { k + 1 };
                            assert(before[k2] == x);
                            assert(k2 != i);
                        }
                        if old(self)@.contains(x) && x != id {
                            let k = choose|k: int| 0 <= k < before.len() && before[k] == x;
                            assert(k != i);
                            let k2 = if k < i { k } else { k - 1 };
                            assert(self@[k2] == x);
                        }
                    }
                    assert(old(self)@[i as int] == id);
                }
                return true;
            }
            i = i + 1;
        }
        proof {
            assert forall|x: usize| self@.contains(x) <==> (old(self)@.contains(x) && x != id) by {
                if self@.contains(x) {
                    let k = choose|k: int| 0 <= k < self@.len() && self@[k] == x;
                    assert(self@[k] != id);
                }
            }
        }
        false
    }

    pub fn len(&self) -> (r: usize)
        ensures
            r == self@.len(),
    {
        self.0.len()
    }

    /// First value (insertion-order), if any.
    pub fn first(&self) -> (r: Option<usize>)
        ensures
            self@.len() == 0 ==> r.is_none(),
            self@.len() > 0 ==> r == Some(self@[0]),
    {
        if self.0.len() == 0 {
            None
        } else {
            Some(self.0[0])
        }
    }

    /// All values, in insertion order.
    pub fn iter(&self) -> (r: Vec<usize>)
        ensures
            r@ == self@,
    {
        self.0.clone()
    }

    /// A copy of the set.
    pub fn duplicate(&self) -> (r: ValueSet)
        ensures
            r@ == self@,
    {
        ValueSet(self.0.clone())
    }

    /// All values as a slice.
    pub fn as_slice(&self) -> (r: &[usize])
        ensures
            r@ == self@,
    {
        self.0.as_slice()
    }
}

/// Adding a value twice changes nothing the second time.
pub proof fn lemma_insert_idempotent(s: Seq<usize>, id: usize)
    requires
        s.no_duplicates(),
    ensures
        s.push(id).contains(id),
        s.contains(id) ==> s.to_set() == s.to_set().insert(id),
{
    assert(s.push(id)[s.len() as int] == id);
    if s.contains(id) {
        assert(s.to_set() =~= s.to_set().insert(id));
    }
}

/// Tracks name bindings within a lexical scope.
#[derive(Debug, Clone)]
pub struct Scope {
    /// The fully qualified name of this scope (e.g., "module.Class.method").
    pub name: String,
    /// Names defined (bound) in this scope, each with an optional
    /// fully qualified target; no name occurs twice.
    pub defs: Vec<(String, Option<String>)>,
    /// Names that are local-only (assigned in this scope); no name occurs
    /// twice.
    pub locals: Vec<String>,
}

/// The view of an optional string.
pub open spec fn opt_view(o: Option<String>) -> Option<Seq<char>> {
    match o {
        Some(s) => Some(s@),
        None => None,
    }
}

impl Scope {
    /// The bound names, in binding order.
    pub open spec fn def_names(&self) -> Seq<Seq<char>> {
        self.defs@.map_values(|d: (String, Option<String>)| d.0@)
    }

    /// Whether `name` is bound here.
    pub open spec fn binds(&self, name: Seq<char>) -> bool {
        self.def_names().contains(name)
    }

    /// Index of the binding of `name`.
    pub open spec fn def_index(&self, name: Seq<char>) -> int {
        choose|i: int| 0 <= i < self.defs@.len() && self.defs@[i].0@ == name
    }

    /// The target that `name` is bound to (meaningful when `binds(name)`).
    pub open spec fn target_of(&self, name: Seq<char>) -> Option<Seq<char>> {
        opt_view(self.defs@[self.def_index(name)].1)
    }

    /// The local names, as character sequences.
    pub open spec fn local_names(&self) -> Seq<Seq<char>> {
        self.locals@.map_values(|s: String| s@)
    }

    /// No name is bound twice and no local is listed twice.
    pub open spec fn wf(&self) -> bool {
        &&& forall|i: int, j: int|
            0 <= i < self.defs@.len() && 0 <= j < self.defs@.len() && i != j
                ==> self.defs@[i].0@ != self.defs@[j].0@
        &&& forall|i: int, j: int|
            0 <= i < self.locals@.len() && 0 <= j < self.locals@.len() && i != j
                ==> self.locals@[i]@ != self.locals@[j]@
    }

    pub fn new(name: &str) -> (r: Self)
        ensures
            r.wf(),
            r.name@ == name@,
            r.defs@.len() == 0,
            r.locals@.len() == 0,
    {
        Self { name: name.to_owned(), defs: Vec::new(), locals: Vec::new() }
    }

    /// Position of the binding of `name`.
    fn find_def(&self, name: &String) -> (r: Option<usize>)
        ensures
            match r {
                Some(i) => i < self.defs@.len() && self.defs@[i as int].0@ == name@,
                None => forall|j: int| 0 <= j < self.defs@.len() ==> self.defs@[j].0@ != name@,
            },
    {
        let mut i: usize = 0;
        while i < self.defs.len()
            invariant
                i <= self.defs.len(),
                forall|j: int| 0 <= j < i ==> self.defs@[j].0@ != name@,
            decreases self.defs.len() - i,
        {
            if self.defs[i].0 == *name {
                return Some(i);
            }
            i = i + 1;
        }
        None
    }

    /// Bind a name in this scope, optionally to a fully qualified target.
    /// A name bound before is rebound; the name is recorded as local.
    pub fn bind(&mut self, name: &str, target: Option<&str>)
        requires
            old(self).wf(),
        ensures
            final(self).wf(),
            final(self).name == old(self).name,
            final(self).binds(name@),
            final(self).target_of(name@) == (match target {
                Some(t) => Some(t@),
                None => None,
            }),
            forall|n: Seq<char>|
                n != name@ ==> (final(self).binds(n) == old(self).binds(n)) && (old(self).binds(n)
                    ==> final(self).target_of(n) == old(self).target_of(n)),
            final(self).local_names().to_set() == old(self).local_names().to_set().insert(name@),
    {
        let key = name.to_owned();
        let value: Option<String> = match target {
            Some(t) => Some(t.to_owned()),
            None => None,
        };
        let ghost old_defs = self.defs@;
        match self.find_def(&key) {
            Some(i) => {
                self.defs.set(i, (key.clone(), value));
                proof {
                    assert(self.defs@[i as int].0@ == name@);
                    assert(self.def_index(name@) == i) by {
                        let k = self.def_index(name@);
                        assert(0 <= k < self.defs@.len() && self.defs@[k].0@ == name@) by {
                            assert(self.defs@[i as int].0@ == name@);
                        }
                        if k != i {
                            assert(old_defs[k].0@ == self.defs@[k].0@);
                        }
                    }
                }
            },
            None => {
                self.defs.push((key.clone(), value));
                proof {
                    let last = self.defs@.len() - 1;
                    assert(self.defs@[last].0@ == name@);
                    assert(self.def_index(name@) == last) by {
                        let k = self.def_index(name@);
                        assert(0 <= k < self.defs@.len() && self.defs@[k].0@ == name@) by {
                            assert(self.defs@[last].0@ == name@);
                        }
                        if k != last {
                            assert(old_defs[k].0@ == self.defs@[k].0@);
                        }
                    }
                }
            },
        }
        proof {
            assert(self.def_names().contains(name@)) by {
                let k = self.def_index(name@);
                assert(self.def_names()[k] == name@);
            }
            assert forall|n: Seq<char>| n != name@ implies (self.binds(n) == old(self).binds(n))
                && (old(self).binds(n) ==> self.target_of(n) == old(self).target_of(n)) by {
                if self.binds(n) {
                    let k = choose|k: int| 0 <= k < self.def_names().len() && self.def_names()[k] == n;
                    assert(k < old_defs.len());
                    assert(old(self).def_names()[k] == n);
                }
                if old(self).binds(n) {
                    let k = choose|k: int|
                        0 <= k < old(self).def_names().len() && old(self).def_names()[k] == n;
                    assert(self.def_names()[k] == n);
                    let a = self.def_index(n);
                    let b = old(self).def_index(n);
                    assert(self.defs@[k].0@ == n);
                    assert(old_defs[b].0@ == n);
                    assert(self.defs@[b].0@ == n);
                }
            }
        }
        let mut found = false;
        let mut j: usize = 0;
        while j < self.locals.len()
            invariant
                j <= self.locals.len(),
                key@ == name@,
                self.locals@ == old(self).locals@,
                found ==> (exists|k: int| 0 <= k < j && self.locals@[k]@ == name@),
                !found ==> (forall|k: int| 0 <= k < j ==> self.locals@[k]@ != name@),
            decreases self.locals.len() - j,
        {
            if self.locals[j] == key {
                found = true;
            }
            proof {
                if found {
                    if self.locals@[j as int]@ == name@ {
                        assert(exists|k: int| 0 <= k < j + 1 && self.locals@[k]@ == name@);
                    } else {
                        let k = choose|k: int| 0 <= k < j && self.locals@[k]@ == name@;
                        assert(0 <= k < j + 1 && self.locals@[k]@ == name@);
                    }
                }
            }
            j = j + 1;
        }
        let ghost old_locals = self.locals@;
        if !found {
            self.locals.push(key);
            proof {
                assert(self.local_names() =~= old(self).local_names().push(name@));
                old(self).local_names().lemma_push_to_set_commute(name@);
            }
        } else {
            proof {
                let k = choose|k: int| 0 <= k < j && self.locals@[k]@ == name@;
                assert(self.local_names()[k] == name@);
                assert(self.local_names() =~= old(self).local_names());
            }
        }
        proof {
            assert(self.local_names().to_set() =~= old(self).local_names().to_set().insert(name@));
        }
    }

    /// Look up a name in this scope.
    pub fn get(&self, name: &str) -> (r: Option<&Option<String>>)
        requires
            self.wf(),
        ensures
            r.is_some() == self.binds(name@),
            r matches Some(t) ==> opt_view(*t) == self.target_of(name@),
    {
        let key = name.to_owned();
        match self.find_def(&key) {
            Some(i) => {
                proof {
                    assert(self.def_names()[i as int] == name@);
                    let k = self.def_index(name@);
                    assert(self.defs@[k].0@ == name@);
                }
                Some(&self.defs[i].1)
            },
            None => {
                proof {
                    if self.binds(name@) {
                        let k = choose|k: int| 0 <= k < self.def_names().len() && self.def_names()[k] == name@;
                        assert(self.defs@[k].0@ == name@);
                    }
                }
                None
            },
        }
    }

    /// Check if a name is defined in this scope.
    pub fn has(&self, name: &str) -> (r: bool)
        requires
            self.wf(),
        ensures
            r == self.binds(name@),
    {
        self.get(name).is_some()
    }
}

/// A stack of scopes for lexical name resolution.
#[derive(Debug)]
pub struct ScopeStack {
    scopes: Vec<Scope>,
}

/// What `name` resolves to in `scopes`, searched from the innermost
/// (last) scope outward: `None` when no scope binds it, otherwise the
/// innermost binding's target (which may itself be `None`).
pub open spec fn resolve_in(scopes: Seq<Scope>, name: Seq<char>) -> Option<Option<Seq<char>>>
    decreases scopes.len(),
{
    if scopes.len() == 0 {
        None
    } else if scopes.last().binds(name) {
        Some(scopes.last().target_of(name))
    } else {
        resolve_in(scopes.drop_last(), name)
    }
}

impl ScopeStack {
    /// The scopes, outermost first.
    pub closed spec fn view(&self) -> Seq<Scope> {
        self.scopes@
    }

    /// Every scope is well formed.
    pub open spec fn wf(&self) -> bool {
        forall|i: int| 0 <= i < self@.len() ==> #[trigger] self@[i].wf()
    }

    pub fn new() -> (r: Self)
        ensures
            r.wf(),
            r@ == Seq::<Scope>::empty(),
    {
        Self { scopes: Vec::new() }
    }

    pub fn push(&mut self, scope: Scope)
        ensures
            final(self)@ == old(self)@.push(scope),
    {
        self.scopes.push(scope);
    }

    pub fn pop(&mut self) -> (r: Option<Scope>)
        ensures
            old(self)@.len() == 0 ==> r.is_none() && final(self)@ == old(self)@,
            old(self)@.len() > 0 ==> r == Some(old(self)@.last()) && final(self)@ == old(self)@.drop_last(),
    {
        self.scopes.pop()
    }

    pub fn current(&self) -> (r: Option<&Scope>)
        ensures
            self@.len() == 0 ==> r.is_none(),
            self@.len() > 0 ==> r == Some(&self@.last()),
    {
        if self.scopes.len() == 0 {
            None
        } else {
            Some(&self.scopes[self.scopes.len() - 1])
        }
    }

    /// A mutable handle on the innermost scope, if there is one.
    pub fn current_mut(&mut self) -> (r: Option<&mut Scope>)
        ensures
            old(self)@.len() == 0 ==> r.is_none() && final(self)@ == old(self)@,
            old(self)@.len() > 0 ==> (r matches Some(s) && *s == old(self)@.last() && final(self)@ == old(self)@.drop_last().push(*final(s))),
    {
        let n = self.scopes.len();
        if n == 0 {
            None
        } else {
            Some(&mut self.scopes[n - 1])
        }
    }

    /// Look up a name by walking scopes from innermost to outermost.
    /// Returns the fully qualified target if bound, or None.
    pub fn resolve(&self, name: &str) -> (r: Option<String>)
        requires
            self.wf(),
        ensures
            opt_view(r) == (match resolve_in(self@, name@) {
                Some(t) => t,
                None => None,
            }),
    {
        let mut i = self.scopes.len();
        assert(self@.subrange(0, i as int) =~= self@);
        while i > 0
            invariant
                i <= self.scopes.len(),
                self.wf(),
                resolve_in(self@, name@) == resolve_in(self@.subrange(0, i as int), name@),
            decreases i,
        {
            proof {
                assert(self@.subrange(0, i as int).drop_last() =~= self@.subrange(0, i - 1));
                assert(self@.subrange(0, i as int).last() == self@[i - 1]);
                assert(self@[i - 1].wf());
            }
            if let Some(target) = self.scopes[i - 1].get(name) {
                return target.clone();
            }
            i = i - 1;
        }
        None
    }

    /// Check if a name is defined in any scope.
    pub fn is_defined(&self, name: &str) -> (r: bool)
        requires
            self.wf(),
        ensures
            r == resolve_in(self@, name@).is_some(),
    {
        let mut i = self.scopes.len();
        assert(self@.subrange(0, i as int) =~= self@);
        while i > 0
            invariant
                i <= self.scopes.len(),
                self.wf(),
                resolve_in(self@, name@).is_some() == resolve_in(
                    self@.subrange(0, i as int),
                    name@,
                ).is_some(),
            decreases i,
        {
            proof {
                assert(self@.subrange(0, i as int).drop_last() =~= self@.subrange(0, i - 1));
                assert(self@.subrange(0, i as int).last() == self@[i - 1]);
                assert(self@[i - 1].wf());
            }
            if self.scopes[i - 1].has(name) {
                return true;
            }
            i = i - 1;
        }
        false
    }

    /// The scope names, outermost first.
    pub open spec fn names(&self) -> Seq<Seq<char>> {
        self@.map_values(|s: Scope| s.name@)
    }

    /// Get the current namespace (fully qualified scope name).
    pub fn current_namespace(&self) -> (r: String)
        ensures
            r@ == join(self.names(), seq!['.']),
    {
        let mut out: Vec<char> = Vec::new();
        let mut i: usize = 0;
        while i < self.scopes.len()
            invariant
                i <= self.scopes.len(),
                out@ == join(self.names().subrange(0, i as int), seq!['.']),
            decreases self.scopes.len() - i,
        {
            let part = str_to_chars(self.scopes[i].name.as_str());
            proof {
                let p = self.names().subrange(0, i + 1);
                assert(p.drop_last() =~= self.names().subrange(0, i as int));
                assert(p.last() == part@);
            }
            if i > 0 {
                out.push('.');
            } else {
                assert(out@ =~= Seq::<char>::empty());
            }
            push_all(&mut out, part.as_slice());
            i = i + 1;
        }
        assert(self.names().subrange(0, self.scopes.len() as int) =~= self.names());
        chars_to_string(out.as_slice())
    }

    pub fn depth(&self) -> (r: usize)
        ensures
            r == self@.len(),
    {
        self.scopes.len()
    }
}

} // verus!
