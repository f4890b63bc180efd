//! String interning: every distinct string gets one small, copyable id.

use vstd::prelude::*;

verus! {

/// An interned symbol identifier: an index into the interner's table.
#[derive(Clone, Copy, PartialEq, Eq, Structural, PartialOrd, Ord, Hash, Debug)]
pub struct SymId(pub usize);

/// A string interner: deduplicates strings and hands out `SymId` handles.
///
/// The table holds each interned string once; a string's id is its
/// position in the table.
#[derive(Debug)]
pub struct Interner {
    vec: Vec<String>,
}

/// The strings of `v`, as character sequences.
pub open spec fn strings_view(v: Seq<String>) -> Seq<Seq<char>> {
    v.map_values(|s: String| s@)
}

impl Interner {
    /// The interned strings, indexed by id.
    pub closed spec fn view(&self) -> Seq<Seq<char>> {
        strings_view(self.vec@)
    }

    /// No string occurs twice.
    pub open spec fn wf(&self) -> bool {
        &&& forall|i: int, j: int|
            0 <= i < self@.len() && 0 <= j < self@.len() && i != j ==> self@[i] != self@[j]
    }

    /// Whether `id` names an interned string.
    pub open spec fn has_id(&self, id: SymId) -> bool {
        (id.0 as int) < self@.len()
    }

    /// The string that `id` names.
    pub open spec fn str_of(&self, id: SymId) -> Seq<char> {
        self@[id.0 as int]
    }

    /// `other` keeps every string of `self` under the same id.
    pub open spec fn extends(&self, other: &Interner) -> bool {
        &&& self@.len() <= other@.len()
        &&& forall|i: int| 0 <= i < self@.len() ==> #[trigger] other@[i] == self@[i]
    }

    pub fn new() -> (r: Self)
        ensures
            r.wf(),
            r@ == Seq::<Seq<char>>::empty(),
    {
        let r = Interner { vec: Vec::new() };
        assert(r@ =~= Seq::<Seq<char>>::empty());
        r
    }

    /// Position of `s` in the table, if it is there.
    fn find(&self, s: &String) -> (r: Option<usize>)
        ensures
            match r {
                Some(i) => i < self@.len() && self@[i as int] == s@ && forall|j: int| 0 <= j < i ==> self@[j] != s@,
                None => !self@.contains(s@),
            },
    {
        let mut i: usize = 0;
        while i < self.vec.len()
            invariant
                i <= self.vec.len(),
                self@.len() == self.vec.len(),
                forall|j: int| 0 <= j < i ==> self@[j] != s@,
            decreases self.vec.len() - i,
        {
            if self.vec[i] == *s {
                return Some(i);
            }
            i = i + 1;
        }
        assert forall|j: int| 0 <= j < self@.len() implies self@[j] != s@ by {}
        None
    }

    /// Intern a string, returning its `SymId`. A string seen before gets
    /// its old id; a new one is appended to the table.
    pub fn intern(&mut self, s: &str) -> (r: SymId)
        requires
            old(self).wf(),
        ensures
            final(self).wf(),
            final(self).has_id(r),
            final(self).str_of(r) == s@,
            old(self).extends(final(self)),
            old(self)@.contains(s@) ==> final(self)@ == old(self)@,
            !old(self)@.contains(s@) ==> final(self)@ == old(self)@.push(s@),
    {
        let owned = s.to_owned();
        match self.find(&owned) {
            Some(i) => SymId(i),
            None => {
                let id = self.vec.len();
                self.vec.push(owned);
                assert(self@ =~= old(self)@.push(s@));
                SymId(id)
            },
        }
    }

    /// The id of the first entry holding `t`, if any.
    pub open spec fn first_sym(&self, t: Seq<char>) -> Option<SymId> {
        if self@.contains(t) {
            Some(SymId(choose|i: usize| i < self@.len() && self@[i as int] == t && forall|j: int| 0 <= j < i ==> self@[j] != t))
        } else {
            None
        }
    }

    /// Look up a string without creating a new entry.
    pub fn lookup(&self, s: &str) -> (r: Option<SymId>)
        ensures
            match r {
                Some(id) => self.has_id(id) && self.str_of(id) == s@,
                None => !self@.contains(s@),
            },
            r == self.first_sym(s@),
    {
        let owned = s.to_owned();
        match self.find(&owned) {
            Some(i) => {
                proof {
                    assert(self@.contains(s@));
                    let c = choose|c: usize| c < self@.len() && self@[c as int] == s@ && forall|j: int| 0 <= j < c ==> self@[j] != s@;
                    assert(i < self@.len() && self@[i as int] == s@ && forall|j: int| 0 <= j < i ==> self@[j] != s@);
                    if c < i {
                        assert(self@[c as int] != s@);
                    }
                    if c > i {
                        assert(self@[i as int] != s@);
                    }
                }
                Some(SymId(i))
            },
            None => None,
        }
    }

    /// Resolve a `SymId` back to its string.
    pub fn resolve(&self, id: SymId) -> (r: &str)
        requires
            self.has_id(id),
        ensures
            r@ == self.str_of(id),
    {
        self.vec[id.0].as_str()
    }

    /// A copy of the table, with the same ids.
    pub fn duplicate(&self) -> (r: Interner)
        ensures
            r@ == self@,
    {
        let mut vec: Vec<String> = Vec::new();
        let mut i: usize = 0;
        while i < self.vec.len()
            invariant
                i <= self.vec@.len(),
                strings_view(vec@) == strings_view(self.vec@).take(i as int),
            decreases self.vec.len() - i,
        {
            let ghost v0 = strings_view(vec@);
            let c = self.vec[i].clone();
            vec.push(c);
            proof {
                assert(strings_view(vec@) =~= v0.push(c@));
                assert(strings_view(vec@) =~= strings_view(self.vec@).take(i + 1));
            }
            i = i + 1;
        }
        proof {
            assert(strings_view(self.vec@).take(self.vec@.len() as int) =~= strings_view(self.vec@));
        }
        Interner { vec }
    }

    /// Number of interned strings.
    pub fn len(&self) -> (r: usize)
        ensures
            r == self@.len(),
    {
        self.vec.len()
    }
}

/// Interning is idempotent: interning a string twice gives the same id
/// and leaves the table as the first call left it.
pub proof fn lemma_intern_idempotent(t: &Interner, s: Seq<char>, id: SymId)
    requires
        t.wf(),
        t.has_id(id),
        t.str_of(id) == s,
    ensures
        t@.contains(s),
        forall|j: int| 0 <= j < t@.len() && t@[j] == s ==> j == id.0,
{
}

} // verus!
