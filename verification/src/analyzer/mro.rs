//! Method resolution order by C3 linearization.

use vstd::prelude::*;

use crate::analyzer::state::{first_key, lemma_first_key_unique};
use crate::node::NodeId;

verus! {

/// `x` is a class or a base class named somewhere in the hierarchy.
pub open spec fn mentions(cbn: Seq<(NodeId, Vec<NodeId>)>, x: NodeId) -> bool {
    exists|i: int| 0 <= i < cbn.len() && (cbn[i].0 == x || cbn[i].1@.contains(x))
}

/// No entry of the hierarchy gives `k` a base class.
pub open spec fn has_no_bases(cbn: Seq<(NodeId, Vec<NodeId>)>, k: NodeId) -> bool {
    forall|i: int| 0 <= i < cbn.len() && cbn[i].0 == k ==> cbn[i].1@.len() == 0
}

/// Every element of `s` occurs in `u`.
pub open spec fn all_in(s: Seq<NodeId>, u: Seq<NodeId>) -> bool {
    forall|j: int| 0 <= j < s.len() ==> u.contains(#[trigger] s[j])
}

/// Every list of `ls` lies within `u`.
pub open spec fn lists_in(ls: Seq<Vec<NodeId>>, u: Seq<NodeId>) -> bool {
    forall|i: int| 0 <= i < ls.len() ==> all_in(#[trigger] ls[i]@, u)
}

/// The number of elements over all lists.
pub open spec fn total(ls: Seq<Vec<NodeId>>) -> nat
    decreases ls.len(),
{
    if ls.len() == 0 {
        0
    } else {
        total(ls.drop_last()) + ls.last()@.len()
    }
}

/// `u` holds every class and base of the hierarchy, and nothing else.
pub open spec fn universe_ok(cbn: Seq<(NodeId, Vec<NodeId>)>, u: Seq<NodeId>) -> bool {
    &&& forall|i: int| 0 <= i < cbn.len() ==> u.contains(#[trigger] cbn[i].0)
    &&& forall|i: int, j: int| 0 <= i < cbn.len() && 0 <= j < cbn[i].1@.len() ==> u.contains(#[trigger] cbn[i].1@[j])
    &&& forall|j: int| 0 <= j < u.len() ==> mentions(cbn, #[trigger] u[j])
}

/// Each memoized linearization starts with its class, stays within `u`,
/// and is the class alone when the class has no bases.
pub open spec fn memo_ok(memo: Seq<(NodeId, Vec<NodeId>)>, cbn: Seq<(NodeId, Vec<NodeId>)>, u: Seq<NodeId>) -> bool {
    forall|i: int| 0 <= i < memo.len() ==> {
        let (k, v) = #[trigger] memo[i];
        &&& v@.len() >= 1
        &&& v@[0] == k
        &&& all_in(v@, u)
        &&& has_no_bases(cbn, k) ==> v@ == seq![k]
    }
}

proof fn lemma_total_take(ls: Seq<Vec<NodeId>>, j: int)
    requires
        0 <= j < ls.len(),
    ensures
        total(ls.take(j + 1)) == total(ls.take(j)) + ls[j]@.len(),
{
    assert(ls.take(j + 1).drop_last() =~= ls.take(j));
}

/// A duplicate-free sequence drawn from `u` is no longer than `u`.
proof fn lemma_seen_bound(s: Seq<NodeId>, u: Seq<NodeId>)
    requires
        s.no_duplicates(),
        all_in(s, u),
    ensures
        s.len() <= u.len(),
{
    s.unique_seq_to_set();
    u.lemma_cardinality_of_set();
    assert(s.to_set().subset_of(u.to_set())) by {
        assert forall|x: NodeId| s.to_set().contains(x) implies u.to_set().contains(x) by {
            let j = choose|j: int| 0 <= j < s.len() && s[j] == x;
            assert(u.contains(s[j]));
        }
    }
    vstd::set_lib::lemma_len_subset(s.to_set(), u.to_set());
}

fn contains_id(v: &Vec<NodeId>, x: NodeId) -> (r: bool)
    ensures
        r == v@.contains(x),
{
    let mut i: usize = 0;
    while i < v.len()
        invariant
            i <= v@.len(),
            forall|j: int| 0 <= j < i ==> v@[j] != x,
        decreases v.len() - i,
    {
        if v[i] == x {
            return true;
        }
        i = i + 1;
    }
    false
}

fn copy_ids(v: &Vec<NodeId>) -> (r: Vec<NodeId>)
    ensures
        r@ == v@,
{
    let mut r: Vec<NodeId> = Vec::new();
    let mut i: usize = 0;
    while i < v.len()
        invariant
            i <= v@.len(),
            r@ == v@.take(i as int),
        decreases v.len() - i,
    {
        r.push(v[i]);
        i = i + 1;
        assert(r@ =~= v@.take(i as int));
    }
    assert(v@.take(v@.len() as int) =~= v@);
    r
}

/// `l` without any occurrence of `x`, in order.
pub open spec fn without(l: Seq<NodeId>, x: NodeId) -> Seq<NodeId>
    decreases l.len(),
{
    if l.len() == 0 {
        l
    } else if l.last() == x {
        without(l.drop_last(), x)
    } else {
        without(l.drop_last(), x).push(l.last())
    }
}

/// The list without any occurrence of `x`.
fn remove_all(l: &Vec<NodeId>, x: NodeId) -> (r: Vec<NodeId>)
    ensures
        r@ == without(l@, x),
        r@.len() <= l@.len(),
        l@.len() > 0 && l@[0] == x ==> r@.len() < l@.len(),
        forall|j: int| 0 <= j < r@.len() ==> r@[j] != x && l@.contains(#[trigger] r@[j]),
{
    let mut r: Vec<NodeId> = Vec::new();
    let mut i: usize = 0;
    while i < l.len()
        invariant
            i <= l@.len(),
            r@.len() <= i,
            i >= 1 && l@[0] == x ==> r@.len() < i,
            forall|j: int| 0 <= j < r@.len() ==> r@[j] != x && l@.contains(#[trigger] r@[j]),
            r@ == without(l@.take(i as int), x),
        decreases l.len() - i,
    {
        proof {
            assert(l@.take(i as int + 1).drop_last() =~= l@.take(i as int));
            assert(l@.take(i as int + 1).last() == l@[i as int]);
        }
        if l[i] != x {
            r.push(l[i]);
            proof {
                assert(l@.contains(l@[i as int]));
            }
        }
        i = i + 1;
    }
    proof {
        assert(l@.take(l@.len() as int) =~= l@);
    }
    r
}

/// The contents of each list.
pub open spec fn list_views(ls: Seq<Vec<NodeId>>) -> Seq<Seq<NodeId>> {
    ls.map_values(|l: Vec<NodeId>| l@)
}

/// `x` occurs in the tail (all but the first element) of some list.
pub open spec fn in_tail(ls: Seq<Seq<NodeId>>, x: NodeId) -> bool {
    exists|i: int, j: int| 0 <= i < ls.len() && 1 <= j < ls[i].len() && ls[i][j] == x
}

/// List `k` is non-empty and its head occurs in no list tail.
pub open spec fn good_head(ls: Seq<Seq<NodeId>>, k: int) -> bool {
    0 <= k < ls.len() && ls[k].len() > 0 && !in_tail(ls, ls[k][0])
}

/// `h` is the head of the first list whose head is good.
pub open spec fn first_good_head(ls: Seq<Seq<NodeId>>, h: NodeId) -> bool {
    exists|k: int| good_head(ls, k) && ls[k][0] == h && forall|k2: int| 0 <= k2 < k ==> !good_head(ls, k2)
}

/// Every list with each occurrence of `h` removed.
pub open spec fn remove_head(ls: Seq<Seq<NodeId>>, h: NodeId) -> Seq<Seq<NodeId>> {
    Seq::new(ls.len(), |i: int| without(ls[i], h))
}

/// `out` is the C3 merge of `ls`: the first good head, then the merge of
/// the lists with that head removed; nothing once no head is good.
pub open spec fn merges_to(ls: Seq<Seq<NodeId>>, out: Seq<NodeId>) -> bool
    decreases out.len(),
{
    if out.len() == 0 {
        forall|k: int| !good_head(ls, k)
    } else {
        first_good_head(ls, out[0]) && merges_to(remove_head(ls, out[0]), out.drop_first())
    }
}

/// Whether `x` occurs in the tail (all but the first element) of some list.
fn in_some_tail(lists: &Vec<Vec<NodeId>>, x: NodeId) -> (r: bool)
    ensures
        r == exists|i: int, j: int| 0 <= i < lists@.len() && 1 <= j < lists@[i]@.len() && lists@[i]@[j] == x,
{
    let mut i: usize = 0;
    while i < lists.len()
        invariant
            i <= lists@.len(),
            forall|a: int, b: int| 0 <= a < i && 1 <= b < lists@[a]@.len() ==> lists@[a]@[b] != x,
        decreases lists.len() - i,
    {
        let l = &lists[i];
        let mut j: usize = 1;
        while j < l.len()
            invariant
                1 <= j,
                i < lists@.len(),
                *l == lists@[i as int],
                forall|a: int, b: int| 0 <= a < i && 1 <= b < lists@[a]@.len() ==> lists@[a]@[b] != x,
                forall|b: int| 1 <= b < j && b < l@.len() ==> l@[b] != x,
            decreases l.len() - j,
        {
            if l[j] == x {
                proof {
                    assert(lists@[i as int]@[j as int] == x);
                }
                return true;
            }
            j = j + 1;
        }
        i = i + 1;
    }
    false
}

/// The C3 merge of `lists`: repeatedly take the first list head that does
/// not occur in any list tail, and remove it from every list; stop when
/// the lists are empty or no head qualifies.
#[verifier::loop_isolation(false)]
fn c3_merge(lists: Vec<Vec<NodeId>>, Ghost(u): Ghost<Seq<NodeId>>) -> (out: Vec<NodeId>)
    requires
        lists_in(lists@, u),
    ensures
        all_in(out@, u),
        merges_to(list_views(lists@), out@),
{
    let ghost orig = list_views(lists@);
    let mut lists = lists;
    let mut out: Vec<NodeId> = Vec::new();
    loop
        invariant
            lists_in(lists@, u),
            all_in(out@, u),
            forall|rest: Seq<NodeId>| #[trigger] merges_to(list_views(lists@), rest) ==> merges_to(orig, out@ + rest),
        decreases total(lists@),
    {
        let ghost cur = list_views(lists@);
        let ghost out0 = out@;
        assert(forall|rest: Seq<NodeId>| #[trigger] merges_to(cur, rest) ==> merges_to(orig, out0 + rest));
        let mut found: Option<usize> = None;
        let mut k: usize = 0;
        while k < lists.len()
            invariant
                k <= lists@.len(),
                cur == list_views(lists@),
                found is None,
                forall|k2: int| 0 <= k2 < k ==> !good_head(cur, k2),
            decreases lists.len() - k,
        {
            if lists[k].len() > 0 {
                let h = lists[k][0];
                let t = in_some_tail(&lists, h);
                proof {
                    assert(cur[k as int] == lists@[k as int]@);
                    if t {
                        let (i, j) = choose|i: int, j: int| 0 <= i < lists@.len() && 1 <= j < lists@[i]@.len() && lists@[i]@[j] == h;
                        assert(cur[i] == lists@[i]@);
                        assert(in_tail(cur, h));
                    } else {
                        assert forall|i: int, j: int| 0 <= i < cur.len() && 1 <= j < cur[i].len() implies cur[i][j] != h by {
                            assert(cur[i] == lists@[i]@);
                        }
                    }
                }
                if !t {
                    found = Some(k);
                    break;
                }
            } else {
                proof {
                    assert(cur[k as int] == lists@[k as int]@);
                }
            }
            k = k + 1;
        }
        let k = match found {
            None => {
                proof {
                    assert forall|k2: int| !good_head(cur, k2) by {}
                    assert(merges_to(cur, Seq::<NodeId>::empty()));
                    assert(out@ + Seq::<NodeId>::empty() =~= out@);
                }
                break;
            },
            Some(k) => k,
        };
        let hd = lists[k][0];
        proof {
            assert(all_in(lists@[k as int]@, u));
            assert(u.contains(lists@[k as int]@[0]));
        }
        out.push(hd);
        let mut next: Vec<Vec<NodeId>> = Vec::new();
        let mut j: usize = 0;
        while j < lists.len()
            invariant
                j <= lists@.len(),
                next@.len() == j,
                total(next@) <= total(lists@.take(j as int)),
                j > k ==> total(next@) < total(lists@.take(j as int)),
                lists_in(next@, u),
                forall|a: int| 0 <= a < j ==> (#[trigger] next@[a])@ == without(lists@[a]@, hd),
            decreases lists.len() - j,
        {
            let filtered = remove_all(&lists[j], hd);
            proof {
                lemma_total_take(lists@, j as int);
                assert(next@.push(filtered).drop_last() =~= next@);
                assert(all_in(lists@[j as int]@, u));
                assert forall|a: int| 0 <= a < filtered@.len() implies u.contains(#[trigger] filtered@[a]) by {
                    let b = choose|b: int| 0 <= b < lists@[j as int]@.len() && lists@[j as int]@[b] == filtered@[a];
                    assert(u.contains(lists@[j as int]@[b]));
                }
            }
            next.push(filtered);
            j = j + 1;
        }
        proof {
            assert(lists@.take(lists@.len() as int) =~= lists@);
            let nxt = list_views(next@);
            assert(nxt =~= remove_head(cur, hd)) by {
                assert forall|a: int| 0 <= a < nxt.len() implies nxt[a] == remove_head(cur, hd)[a] by {
                    assert(next@[a]@ == without(lists@[a]@, hd));
                }
            }
            assert(first_good_head(cur, hd)) by {
                assert(cur[k as int] == lists@[k as int]@);
                assert(good_head(cur, k as int));
                assert(cur[k as int][0] == hd);
                assert(forall|k2: int| 0 <= k2 < k ==> !good_head(cur, k2));
            }
            assert forall|rest: Seq<NodeId>| #[trigger] merges_to(nxt, rest) implies merges_to(orig, out@ + rest) by {
                let r2 = seq![hd] + rest;
                assert(r2.drop_first() =~= rest);
                assert(r2[0] == hd);
                assert(merges_to(cur, r2));
                assert(out0 + r2 =~= out@ + rest);
            }
        }
        lists = next;
    }
    out
}

fn bases_pos(cbn: &Vec<(NodeId, Vec<NodeId>)>, node: NodeId) -> (r: Option<usize>)
    ensures
        r matches Some(i) ==> i < cbn@.len() && cbn@[i as int].0 == node && forall|j: int| 0 <= j < i ==> cbn@[j].0 != node,
        r is None ==> forall|j: int| 0 <= j < cbn@.len() ==> cbn@[j].0 != node,
{
    let mut i: usize = 0;
    while i < cbn.len()
        invariant
            i <= cbn@.len(),
            forall|j: int| 0 <= j < i ==> cbn@[j].0 != node,
        decreases cbn.len() - i,
    {
        if cbn[i].0 == node {
            return Some(i);
        }
        i = i + 1;
    }
    None
}

fn memo_pos(memo: &Vec<(NodeId, Vec<NodeId>)>, node: NodeId) -> (r: Option<usize>)
    ensures
        r matches Some(i) ==> i < memo@.len() && memo@[i as int].0 == node && forall|j: int| 0 <= j < i ==> memo@[j].0 != node,
        r is None ==> forall|j: int| 0 <= j < memo@.len() ==> memo@[j].0 != node,
{
    let mut i: usize = 0;
    while i < memo.len()
        invariant
            i <= memo@.len(),
            forall|j: int| 0 <= j < i ==> memo@[j].0 != node,
        decreases memo.len() - i,
    {
        if memo[i].0 == node {
            return Some(i);
        }
        i = i + 1;
    }
    None
}

/// The index of the first entry for `k`, if any.
pub open spec fn entry_of(v: Seq<(NodeId, Vec<NodeId>)>, k: NodeId) -> Option<int> {
    if exists|i: int| first_key(v, k, i) {
        Some(choose|i: int| first_key(v, k, i))
    } else {
        None
    }
}

/// The direct bases of `c`: those of its first entry, none without one.
pub open spec fn bases_of(cbn: Seq<(NodeId, Vec<NodeId>)>, c: NodeId) -> Seq<NodeId> {
    match entry_of(cbn, c) {
        Some(i) => cbn[i].1@,
        None => Seq::empty(),
    }
}

/// The linearization `m` records for `b`: its first entry, or `b` alone.
pub open spec fn lin_in(m: Seq<(NodeId, Vec<NodeId>)>, b: NodeId) -> Seq<NodeId> {
    match entry_of(m, b) {
        Some(i) => m[i].1@,
        None => seq![b],
    }
}

/// The lists C3 merges for `c`: the linearization of each direct base, in
/// order, then the list of direct bases.
pub open spec fn c3_lists(cbn: Seq<(NodeId, Vec<NodeId>)>, m: Seq<(NodeId, Vec<NodeId>)>, c: NodeId) -> Seq<Seq<NodeId>> {
    let bs = bases_of(cbn, c);
    Seq::new(bs.len(), |j: int| lin_in(m, bs[j])).push(bs)
}

/// `l` is the C3 linearization of `c` given the linearizations `m` of its
/// bases: `c` followed by the C3 merge of `c3_lists`.
pub open spec fn c3_entry(cbn: Seq<(NodeId, Vec<NodeId>)>, m: Seq<(NodeId, Vec<NodeId>)>, c: NodeId, l: Seq<NodeId>) -> bool {
    &&& l.len() >= 1
    &&& l[0] == c
    &&& merges_to(c3_lists(cbn, m, c), l.drop_first())
}

/// Every base class ranks below its class: the hierarchy has no cycle.
pub open spec fn ranked(cbn: Seq<(NodeId, Vec<NodeId>)>, rank: spec_fn(NodeId) -> nat) -> bool {
    forall|i: int, j: int| 0 <= i < cbn.len() && 0 <= j < cbn[i].1@.len() ==> rank(#[trigger] cbn[i].1@[j]) < rank(cbn[i].0)
}

/// No class is its own (transitive) base.
pub open spec fn acyclic(cbn: Seq<(NodeId, Vec<NodeId>)>) -> bool {
    exists|rank: spec_fn(NodeId) -> nat| ranked(cbn, rank)
}

/// `m` has an entry for `k`.
pub open spec fn has_entry(m: Seq<(NodeId, Vec<NodeId>)>, k: NodeId) -> bool {
    exists|q: int| 0 <= q < m.len() && m[q].0 == k
}

/// The memo of linearizations: keys are distinct, each entry is the C3
/// linearization of its class over the entries of its bases, which are
/// all present.
pub open spec fn memo_c3(m: Seq<(NodeId, Vec<NodeId>)>, cbn: Seq<(NodeId, Vec<NodeId>)>) -> bool {
    &&& forall|i: int, j: int| 0 <= i < j < m.len() ==> (#[trigger] m[i]).0 != (#[trigger] m[j]).0
    &&& forall|i: int| 0 <= i < m.len() ==> c3_entry(cbn, m, (#[trigger] m[i]).0, m[i].1@)
    &&& forall|i: int, j: int| 0 <= i < m.len() && 0 <= j < bases_of(cbn, (#[trigger] m[i]).0).len()
        ==> has_entry(m, #[trigger] bases_of(cbn, m[i].0)[j])
}

/// An entry at `q` that no earlier entry shares is what `entry_of` finds.
proof fn lemma_entry_at(v: Seq<(NodeId, Vec<NodeId>)>, k: NodeId, q: int)
    requires
        first_key(v, k, q),
    ensures
        entry_of(v, k) == Some(q),
{
    lemma_first_key_unique(v, k, q);
}

/// With distinct keys, an entry found is the first one.
proof fn lemma_entry_distinct(v: Seq<(NodeId, Vec<NodeId>)>, k: NodeId, q: int)
    requires
        0 <= q < v.len(),
        v[q].0 == k,
        forall|i: int, j: int| 0 <= i < j < v.len() ==> (#[trigger] v[i]).0 != (#[trigger] v[j]).0,
    ensures
        entry_of(v, k) == Some(q),
{
    assert forall|j: int| 0 <= j < q implies v[j].0 != k by {
        assert(v[j].0 != v[q].0);
    }
    lemma_entry_at(v, k, q);
}

/// Entries present in `m1` are found alike in any extension `m2`.
proof fn lemma_lin_prefix(m1: Seq<(NodeId, Vec<NodeId>)>, m2: Seq<(NodeId, Vec<NodeId>)>, b: NodeId)
    requires
        m1.is_prefix_of(m2),
        has_entry(m1, b),
    ensures
        lin_in(m2, b) == lin_in(m1, b),
        has_entry(m2, b),
{
    let q0 = choose|q: int| 0 <= q < m1.len() && m1[q].0 == b;
    assert(exists|q: int| first_key(m1, b, q)) by {
        lemma_first_exists(m1, b, q0);
    }
    let f = choose|q: int| first_key(m1, b, q);
    lemma_entry_at(m1, b, f);
    assert(first_key(m2, b, f)) by {
        assert forall|j: int| 0 <= j < f implies m2[j].0 != b by {
            assert(m2[j] == m1[j]);
        }
        assert(m2[f] == m1[f]);
    }
    lemma_entry_at(m2, b, f);
    assert(m2[f] == m1[f]);
}

/// An entry for `k` means a first entry for `k`.
proof fn lemma_first_exists(v: Seq<(NodeId, Vec<NodeId>)>, k: NodeId, q: int)
    requires
        0 <= q < v.len(),
        v[q].0 == k,
    ensures
        exists|i: int| first_key(v, k, i),
    decreases q,
{
    if exists|j: int| 0 <= j < q && v[j].0 == k {
        let j = choose|j: int| 0 <= j < q && v[j].0 == k;
        lemma_first_exists(v, k, j);
    } else {
        assert(first_key(v, k, q));
    }
}

/// The lists merged for `c` are alike in any extension of a memo that has
/// entries for all bases of `c`.
proof fn lemma_lists_prefix(
    cbn: Seq<(NodeId, Vec<NodeId>)>,
    m1: Seq<(NodeId, Vec<NodeId>)>,
    m2: Seq<(NodeId, Vec<NodeId>)>,
    c: NodeId,
)
    requires
        m1.is_prefix_of(m2),
        forall|j: int| 0 <= j < bases_of(cbn, c).len() ==> has_entry(m1, #[trigger] bases_of(cbn, c)[j]),
    ensures
        c3_lists(cbn, m2, c) == c3_lists(cbn, m1, c),
{
    let bs = bases_of(cbn, c);
    assert forall|j: int| 0 <= j < bs.len() implies lin_in(m2, bs[j]) == lin_in(m1, bs[j]) by {
        assert(has_entry(m1, bs[j]));
        lemma_lin_prefix(m1, m2, bs[j]);
    }
    assert(c3_lists(cbn, m2, c) =~= c3_lists(cbn, m1, c));
}

/// Adding the linearization of a class not yet recorded, whose bases are
/// all recorded, keeps the memo good.
proof fn lemma_memo_push(m: Seq<(NodeId, Vec<NodeId>)>, cbn: Seq<(NodeId, Vec<NodeId>)>, k: NodeId, v: Vec<NodeId>)
    requires
        memo_c3(m, cbn),
        !has_entry(m, k),
        forall|j: int| 0 <= j < bases_of(cbn, k).len() ==> has_entry(m, #[trigger] bases_of(cbn, k)[j]),
        c3_entry(cbn, m, k, v@),
    ensures
        memo_c3(m.push((k, v)), cbn),
        lin_in(m.push((k, v)), k) == v@,
{
    let m2 = m.push((k, v));
    assert(m.is_prefix_of(m2)) by {
        assert(m2.subrange(0, m.len() as int) =~= m);
    }
    assert forall|i: int, j: int| 0 <= i < j < m2.len() implies (#[trigger] m2[i]).0 != (#[trigger] m2[j]).0 by {
        if j == m.len() {
            assert(m2[i] == m[i]);
        } else {
            assert(m2[i] == m[i] && m2[j] == m[j]);
        }
    }
    assert forall|i: int| 0 <= i < m2.len() implies c3_entry(cbn, m2, (#[trigger] m2[i]).0, m2[i].1@) by {
        let c = m2[i].0;
        if i < m.len() {
            assert(m2[i] == m[i]);
            assert(c3_entry(cbn, m, m[i].0, m[i].1@));
            assert forall|j: int| 0 <= j < bases_of(cbn, c).len() implies has_entry(m, #[trigger] bases_of(cbn, c)[j]) by {
                assert(has_entry(m, bases_of(cbn, m[i].0)[j]));
            }
            lemma_lists_prefix(cbn, m, m2, c);
        } else {
            lemma_lists_prefix(cbn, m, m2, k);
        }
    }
    assert forall|i: int, j: int| 0 <= i < m2.len() && 0 <= j < bases_of(cbn, (#[trigger] m2[i]).0).len() implies has_entry(
        m2,
        #[trigger] bases_of(cbn, m2[i].0)[j],
    ) by {
        let b = bases_of(cbn, m2[i].0)[j];
        if i < m.len() {
            assert(m2[i] == m[i]);
            assert(has_entry(m, bases_of(cbn, m[i].0)[j]));
        } else {
            assert(has_entry(m, b));
        }
        let q = choose|q: int| 0 <= q < m.len() && m[q].0 == b;
        assert(m2[q] == m[q]);
    }
    lemma_entry_distinct(m2, k, m.len() as int);
}

/// The C3 linearization of `node`: the node followed by the merge of its
/// bases' linearizations (those not on the current path `seen`, which
/// guards against cycles) and its list of bases. Results are memoized.
/// When `rank` orders the hierarchy, the result is the C3 linearization.
#[verifier::loop_isolation(false)]
fn c3_linearize(
    node: NodeId,
    cbn: &Vec<(NodeId, Vec<NodeId>)>,
    u: &Vec<NodeId>,
    memo: &mut Vec<(NodeId, Vec<NodeId>)>,
    seen: &mut Vec<NodeId>,
    Ghost(rank): Ghost<spec_fn(NodeId) -> nat>,
    Ghost(acyc): Ghost<bool>,
) -> (r: Vec<NodeId>)
    requires
        universe_ok(cbn@, u@),
        u@.contains(node),
        !old(seen)@.contains(node),
        old(seen)@.no_duplicates(),
        all_in(old(seen)@, u@),
        memo_ok(old(memo)@, cbn@, u@),
        acyc ==> ranked(cbn@, rank) && memo_c3(old(memo)@, cbn@),
        acyc ==> forall|j: int| 0 <= j < old(seen)@.len() ==> rank(#[trigger] old(seen)@[j]) > rank(node),
    ensures
        r@.len() >= 1,
        r@[0] == node,
        all_in(r@, u@),
        has_no_bases(cbn@, node) ==> r@ == seq![node],
        memo_ok(final(memo)@, cbn@, u@),
        final(seen)@ == old(seen)@,
        acyc ==> {
            &&& memo_c3(final(memo)@, cbn@)
            &&& old(memo)@.is_prefix_of(final(memo)@)
            &&& forall|q: int| old(memo)@.len() <= q < final(memo)@.len() ==> rank((#[trigger] final(memo)@[q]).0) <= rank(node)
            &&& has_entry(final(memo)@, node)
            &&& r@ == lin_in(final(memo)@, node)
        },
    decreases u@.len() - old(seen)@.len(),
{
    let ghost seen0 = seen@;
    seen.push(node);
    proof {
        assert(seen@.no_duplicates()) by {
            assert forall|a: int, b: int| 0 <= a < b < seen@.len() implies seen@[a] != seen@[b] by {
                if b == seen@.len() - 1 {
                    assert(seen0.contains(seen0[a]));
                }
            }
        }
        assert(all_in(seen@, u@)) by {
            assert forall|j: int| 0 <= j < seen@.len() implies u@.contains(#[trigger] seen@[j]) by {
                if j < seen0.len() {
                    assert(u@.contains(seen0[j]));
                }
            }
        }
        lemma_seen_bound(seen@, u@);
    }
    if let Some(p) = memo_pos(memo, node) {
        proof {
            assert(memo_ok(memo@, cbn@, u@));
            let e = memo@[p as int];
            assert(e.1@.len() >= 1);
            if acyc {
                lemma_entry_at(memo@, node, p as int);
                assert(old(memo)@.is_prefix_of(memo@));
            }
        }
        let _ = seen.pop();
        proof {
            assert(seen@ =~= seen0);
        }
        return copy_ids(&memo[p].1);
    }
    let ghost memo0 = memo@;
    let bp = bases_pos(cbn, node);
    proof {
        if let Some(p) = bp {
            lemma_entry_at(cbn@, node, p as int);
        } else {
            if exists|i: int| first_key(cbn@, node, i) {
                let i = choose|i: int| first_key(cbn@, node, i);
                assert(cbn@[i].0 == node);
            }
        }
    }
    let result: Vec<NodeId> = match bp {
        None => {
            proof {
                if acyc {
                    assert(c3_lists(cbn@, memo@, node) =~= seq![Seq::<NodeId>::empty()]);
                    assert(seq![node].drop_first() =~= Seq::<NodeId>::empty());
                    assert forall|k: int| !good_head(c3_lists(cbn@, memo@, node), k) by {}
                }
            }
            vec![node]
        },
        Some(p) => {
            if cbn[p].1.len() == 0 {
                proof {
                    if acyc {
                        assert(bases_of(cbn@, node) =~= Seq::<NodeId>::empty());
                        assert(c3_lists(cbn@, memo@, node) =~= seq![Seq::<NodeId>::empty()]);
                        assert(seq![node].drop_first() =~= Seq::<NodeId>::empty());
                        assert forall|k: int| !good_head(c3_lists(cbn@, memo@, node), k) by {}
                    }
                }
                vec![node]
            } else {
                let bases = &cbn[p].1;
                let mut lists: Vec<Vec<NodeId>> = Vec::new();
                let mut i: usize = 0;
                while i < bases.len()
                    invariant
                        i <= bases@.len(),
                        bases@ == cbn@[p as int].1@,
                        memo_ok(memo@, cbn@, u@),
                        seen@ == seen0.push(node),
                        seen@.no_duplicates(),
                        all_in(seen@, u@),
                        lists_in(lists@, u@),
                        acyc ==> {
                            &&& memo_c3(memo@, cbn@)
                            &&& memo0.is_prefix_of(memo@)
                            &&& forall|q: int| memo0.len() <= q < memo@.len() ==> rank((#[trigger] memo@[q]).0) < rank(node)
                            &&& lists@.len() == i
                            &&& forall|j: int| 0 <= j < i ==> (#[trigger] lists@[j])@ == lin_in(memo@, bases@[j])
                            &&& forall|j: int| 0 <= j < i ==> has_entry(memo@, #[trigger] bases@[j])
                        },
                    decreases bases.len() - i,
                {
                    let base = bases[i];
                    let in_seen = contains_id(seen, base);
                    proof {
                        if acyc {
                            assert(rank(cbn@[p as int].1@[i as int]) < rank(cbn@[p as int].0));
                            if in_seen {
                                let w = choose|w: int| 0 <= w < seen@.len() && seen@[w] == base;
                                if w < seen0.len() {
                                    assert(seen0[w] == seen@[w]);
                                }
                            }
                        }
                    }
                    if !in_seen {
                        proof {
                            assert(u@.contains(cbn@[p as int].1@[i as int]));
                            lemma_seen_bound(seen@, u@);
                            if acyc {
                                assert forall|j: int| 0 <= j < seen@.len() implies rank(#[trigger] seen@[j]) > rank(base) by {
                                    if j < seen0.len() {
                                        assert(seen@[j] == seen0[j]);
                                    }
                                }
                            }
                        }
                        let ghost m1 = memo@;
                        let lin = c3_linearize(base, cbn, u, memo, seen, Ghost(rank), Ghost(acyc));
                        proof {
                            assert(lists@.push(lin).drop_last() =~= lists@);
                            if acyc {
                                assert(memo0.is_prefix_of(memo@)) by {
                                    assert forall|q: int| 0 <= q < memo0.len() implies memo@[q] == memo0[q] by {
                                        assert(memo@[q] == m1[q]);
                                    }
                                }
                                assert forall|q: int| memo0.len() <= q < memo@.len() implies rank((#[trigger] memo@[q]).0) < rank(node) by {
                                    if q < m1.len() {
                                        assert(memo@[q] == m1[q]);
                                    }
                                }
                                assert forall|j: int| 0 <= j < i implies has_entry(memo@, #[trigger] bases@[j])
                                    && lin_in(memo@, bases@[j]) == lin_in(m1, bases@[j]) by {
                                    lemma_lin_prefix(m1, memo@, bases@[j]);
                                }
                            }
                        }
                        lists.push(lin);
                        proof {
                            if acyc {
                                assert forall|j: int| 0 <= j < i + 1 implies (#[trigger] lists@[j])@ == lin_in(memo@, bases@[j]) by {
                                    if j < i {
                                        assert(lists@[j] == lists@.drop_last()[j]);
                                    }
                                }
                            }
                        }
                    }
                    i = i + 1;
                }
                let own = copy_ids(bases);
                proof {
                    assert forall|j: int| 0 <= j < own@.len() implies u@.contains(#[trigger] own@[j]) by {
                        assert(u@.contains(cbn@[p as int].1@[j]));
                    }
                }
                let ghost lists0 = lists@;
                lists.push(own);
                proof {
                    if acyc {
                        assert(bases_of(cbn@, node) == bases@);
                        assert(list_views(lists@) =~= c3_lists(cbn@, memo@, node)) by {
                            assert forall|j: int| 0 <= j < lists0.len() implies list_views(lists@)[j] == c3_lists(cbn@, memo@, node)[j] by {
                                assert(lists@[j] == lists0[j]);
                            }
                        }
                    }
                }
                let merged = c3_merge(lists, Ghost(u@));
                let mut result: Vec<NodeId> = vec![node];
                let mut j: usize = 0;
                while j < merged.len()
                    invariant
                        j <= merged@.len(),
                        result@.len() == j + 1,
                        result@[0] == node,
                        result@.drop_first() == merged@.take(j as int),
                        all_in(result@, u@),
                    decreases merged.len() - j,
                {
                    result.push(merged[j]);
                    j = j + 1;
                    proof {
                        assert(result@.drop_first() =~= merged@.take(j as int));
                    }
                }
                proof {
                    assert(merged@.take(merged@.len() as int) =~= merged@);
                }
                result
            }
        },
    };
    proof {
        assert(result@[0] == node);
        if has_no_bases(cbn@, node) {
            assert(result@ =~= seq![node]);
        }
    }
    let kept = copy_ids(&result);
    let ghost m0 = memo@;
    proof {
        if acyc {
            assert(c3_entry(cbn@, m0, node, kept@));
            assert(!has_entry(m0, node)) by {
                if has_entry(m0, node) {
                    let q = choose|q: int| 0 <= q < m0.len() && m0[q].0 == node;
                    if q < memo0.len() {
                        assert(m0[q] == memo0[q]);
                    }
                }
            }
            if let Some(p) = bp {
                if cbn@[p as int].1@.len() > 0 {
                    assert(bases_of(cbn@, node) == cbn@[p as int].1@);
                }
            }
            assert forall|j: int| 0 <= j < bases_of(cbn@, node).len() implies has_entry(m0, #[trigger] bases_of(cbn@, node)[j]) by {
                if let Some(p) = bp {
                    assert(bases_of(cbn@, node) == cbn@[p as int].1@);
                }
            }
            lemma_memo_push(m0, cbn@, node, kept);
        }
    }
    memo.push((node, kept));
    proof {
        assert forall|i: int| 0 <= i < memo@.len() implies {
            let (k, v) = #[trigger] memo@[i];
            &&& v@.len() >= 1
            &&& v@[0] == k
            &&& all_in(v@, u@)
            &&& has_no_bases(cbn@, k) ==> v@ == seq![k]
        } by {
            if i < m0.len() {
                assert(memo@[i] == m0[i]);
            }
        }
        if acyc {
            assert(memo@ == m0.push((node, kept)));
            assert(old(memo)@.is_prefix_of(memo@)) by {
                assert forall|q: int| 0 <= q < memo0.len() implies memo@[q] == memo0[q] by {
                    assert(memo@[q] == m0[q]);
                }
            }
            assert forall|q: int| memo0.len() <= q < memo@.len() implies rank((#[trigger] memo@[q]).0) <= rank(node) by {
                if q < m0.len() {
                    assert(memo@[q] == m0[q]);
                }
            }
            assert(memo@[m0.len() as int].0 == node);
        }
    }
    let _ = seen.pop();
    proof {
        assert(seen@ =~= seen0);
    }
    result
}

/// The method resolution order of every class of the hierarchy, by C3
/// linearization. `class_base_nodes` lists each class with its direct base
/// classes; the result lists each class, in the same order, with its MRO.
///
/// Every MRO starts with its class, is the class alone when the class has
/// no bases, and names only classes that the hierarchy mentions. When no
/// class is its own base, each MRO is the C3 linearization: the class
/// followed by the C3 merge of its direct bases' MROs and its list of
/// direct bases, whatever order the classes are listed in.
pub fn resolve_mro(class_base_nodes: &Vec<(NodeId, Vec<NodeId>)>) -> (r: Vec<(NodeId, Vec<NodeId>)>)
    ensures
        r@.len() == class_base_nodes@.len(),
        forall|i: int| 0 <= i < r@.len() ==> (#[trigger] r@[i]).0 == class_base_nodes@[i].0,
        forall|i: int| 0 <= i < r@.len() ==> (#[trigger] r@[i]).1@.len() >= 1 && r@[i].1@[0] == class_base_nodes@[i].0,
        forall|i: int|
            0 <= i < r@.len() && has_no_bases(class_base_nodes@, class_base_nodes@[i].0)
                ==> (#[trigger] r@[i]).1@ == seq![class_base_nodes@[i].0],
        forall|i: int, j: int|
            0 <= i < r@.len() && 0 <= j < r@[i].1@.len() ==> mentions(class_base_nodes@, #[trigger] r@[i].1@[j]),
        acyclic(class_base_nodes@) ==> forall|i: int|
            0 <= i < r@.len() ==> c3_entry(class_base_nodes@, r@, (#[trigger] class_base_nodes@[i]).0, r@[i].1@),
{
    let cbn = class_base_nodes;
    let mut u: Vec<NodeId> = Vec::new();
    let mut i: usize = 0;
    while i < cbn.len()
        invariant
            i <= cbn@.len(),
            forall|a: int| 0 <= a < i ==> u@.contains(#[trigger] cbn@[a].0),
            forall|a: int, b: int| 0 <= a < i && 0 <= b < cbn@[a].1@.len() ==> u@.contains(#[trigger] cbn@[a].1@[b]),
            forall|j: int| 0 <= j < u@.len() ==> mentions(cbn@, #[trigger] u@[j]),
        decreases cbn.len() - i,
    {
        let ghost u0 = u@;
        u.push(cbn[i].0);
        proof {
            assert(u@[u@.len() - 1] == cbn@[i as int].0);
            assert forall|a: int| 0 <= a <= i implies u@.contains(#[trigger] cbn@[a].0) by {
                if a < i {
                    let w = choose|w: int| 0 <= w < u0.len() && u0[w] == cbn@[a].0;
                    assert(u@[w] == cbn@[a].0);
                }
            }
            assert forall|a: int, c: int| 0 <= a < i && 0 <= c < cbn@[a].1@.len() implies u@.contains(#[trigger] cbn@[a].1@[c]) by {
                let w = choose|w: int| 0 <= w < u0.len() && u0[w] == cbn@[a].1@[c];
                assert(u@[w] == cbn@[a].1@[c]);
            }
        }
        let bases = &cbn[i].1;
        assert(bases@ == cbn@[i as int].1@);
        let mut b: usize = 0;
        while b < bases.len()
            invariant
                b <= bases@.len(),
                i < cbn@.len(),
                bases@ == cbn@[i as int].1@,
                forall|a: int| 0 <= a <= i ==> u@.contains(#[trigger] cbn@[a].0),
                forall|a: int, c: int| 0 <= a < i && 0 <= c < cbn@[a].1@.len() ==> u@.contains(#[trigger] cbn@[a].1@[c]),
                forall|c: int| 0 <= c < b ==> u@.contains(#[trigger] cbn@[i as int].1@[c]),
                forall|j: int| 0 <= j < u@.len() ==> mentions(cbn@, #[trigger] u@[j]),
            decreases bases.len() - b,
        {
            let ghost u1 = u@;
            u.push(bases[b]);
            proof {
                assert(bases@ == cbn@[i as int].1@);
                assert(cbn@[i as int].1@[b as int] == bases@[b as int]);
                assert(cbn@[i as int].1@.contains(bases@[b as int]));
                assert(mentions(cbn@, bases@[b as int]));
                assert(u@[u@.len() - 1] == bases@[b as int]);
                assert forall|a: int| 0 <= a <= i implies u@.contains(#[trigger] cbn@[a].0) by {
                    let w = choose|w: int| 0 <= w < u1.len() && u1[w] == cbn@[a].0;
                    assert(u@[w] == cbn@[a].0);
                }
                assert forall|a: int, c: int| 0 <= a < i && 0 <= c < cbn@[a].1@.len() implies u@.contains(#[trigger] cbn@[a].1@[c]) by {
                    let w = choose|w: int| 0 <= w < u1.len() && u1[w] == cbn@[a].1@[c];
                    assert(u@[w] == cbn@[a].1@[c]);
                }
                assert forall|c: int| 0 <= c <= b implies u@.contains(#[trigger] cbn@[i as int].1@[c]) by {
                    if c < b {
                        let w = choose|w: int| 0 <= w < u1.len() && u1[w] == cbn@[i as int].1@[c];
                        assert(u@[w] == cbn@[i as int].1@[c]);
                    }
                }
            }
            b = b + 1;
        }
        i = i + 1;
    }
    let mut memo: Vec<(NodeId, Vec<NodeId>)> = Vec::new();
    let mut r: Vec<(NodeId, Vec<NodeId>)> = Vec::new();
    let ghost acyc = acyclic(cbn@);
    let ghost rank: spec_fn(NodeId) -> nat = if acyc {
        choose|rank: spec_fn(NodeId) -> nat| ranked(cbn@, rank)
    } else {
        |x: NodeId| 0nat
    };
    let mut k: usize = 0;
    while k < cbn.len()
        invariant
            acyc ==> ranked(cbn@, rank) && memo_c3(memo@, cbn@),
            acyc ==> forall|a: int| 0 <= a < k ==> has_entry(memo@, (#[trigger] cbn@[a]).0) && r@[a].1@ == lin_in(memo@, cbn@[a].0),
            k <= cbn@.len(),
            universe_ok(cbn@, u@),
            memo_ok(memo@, cbn@, u@),
            r@.len() == k,
            forall|a: int| 0 <= a < k ==> (#[trigger] r@[a]).0 == cbn@[a].0,
            forall|a: int| 0 <= a < k ==> (#[trigger] r@[a]).1@.len() >= 1 && r@[a].1@[0] == cbn@[a].0,
            forall|a: int| 0 <= a < k && has_no_bases(cbn@, cbn@[a].0) ==> (#[trigger] r@[a]).1@ == seq![cbn@[a].0],
            forall|a: int, j: int| 0 <= a < k && 0 <= j < r@[a].1@.len() ==> u@.contains(#[trigger] r@[a].1@[j]),
        decreases cbn.len() - k,
    {
        let mut seen: Vec<NodeId> = Vec::new();
        proof {
            assert(u@.contains(cbn@[k as int].0));
        }
        let ghost m1 = memo@;
        let lin = c3_linearize(cbn[k].0, cbn, &u, &mut memo, &mut seen, Ghost(rank), Ghost(acyc));
        let ghost r0 = r@;
        r.push((cbn[k].0, lin));
        proof {
            if acyc {
                assert forall|a: int| 0 <= a < k + 1 implies has_entry(memo@, (#[trigger] cbn@[a]).0) && r@[a].1@ == lin_in(memo@, cbn@[a].0) by {
                    if a < k {
                        assert(r@[a] == r0[a]);
                        lemma_lin_prefix(m1, memo@, cbn@[a].0);
                    }
                }
            }
        }
        k = k + 1;
    }
    proof {
        assert forall|a: int, j: int| 0 <= a < r@.len() && 0 <= j < r@[a].1@.len() implies mentions(
            cbn@,
            #[trigger] r@[a].1@[j],
        ) by {
            let w = choose|w: int| 0 <= w < u@.len() && u@[w] == r@[a].1@[j];
            assert(mentions(cbn@, u@[w]));
        }
        if acyc {
            assert forall|i: int| 0 <= i < r@.len() implies c3_entry(cbn@, r@, (#[trigger] cbn@[i]).0, r@[i].1@) by {
                lemma_result_c3(cbn@, memo@, r@, i);
            }
        }
    }
    r
}

/// A memo of C3 linearizations, read out for every class of the hierarchy,
/// gives their C3 linearizations over the read-out list itself.
proof fn lemma_result_c3(cbn: Seq<(NodeId, Vec<NodeId>)>, memo: Seq<(NodeId, Vec<NodeId>)>, r: Seq<(NodeId, Vec<NodeId>)>, i: int)
    requires
        memo_c3(memo, cbn),
        r.len() == cbn.len(),
        0 <= i < r.len(),
        forall|a: int| 0 <= a < r.len() ==> (#[trigger] r[a]).0 == cbn[a].0,
        forall|a: int| 0 <= a < cbn.len() ==> has_entry(memo, (#[trigger] cbn[a]).0) && r[a].1@ == lin_in(memo, cbn[a].0),
    ensures
        c3_entry(cbn, r, cbn[i].0, r[i].1@),
{
    let c = cbn[i].0;
    assert(has_entry(memo, cbn[i].0));
    let q = choose|q: int| 0 <= q < memo.len() && memo[q].0 == c;
    lemma_entry_distinct(memo, c, q);
    assert(c3_entry(cbn, memo, memo[q].0, memo[q].1@));
    let bs = bases_of(cbn, c);
    assert forall|j: int| 0 <= j < bs.len() implies lin_in(r, bs[j]) == lin_in(memo, bs[j]) by {
        let b = bs[j];
        assert(has_entry(memo, bases_of(cbn, memo[q].0)[j]));
        let qb = choose|qb: int| 0 <= qb < memo.len() && memo[qb].0 == b;
        lemma_entry_distinct(memo, b, qb);
        if exists|f: int| first_key(cbn, b, f) {
            let f = choose|f: int| first_key(cbn, b, f);
            assert(first_key(r, b, f)) by {
                assert forall|x: int| 0 <= x < f implies r[x].0 != b by {
                    assert(r[x].0 == cbn[x].0);
                }
            }
            lemma_entry_at(r, b, f);
            assert(has_entry(memo, cbn[f].0));
        } else {
            assert(!exists|f: int| first_key(r, b, f)) by {
                if exists|f: int| first_key(r, b, f) {
                    let f = choose|f: int| first_key(r, b, f);
                    assert(first_key(cbn, b, f)) by {
                        assert forall|x: int| 0 <= x < f implies cbn[x].0 != b by {
                            assert(r[x].0 == cbn[x].0);
                        }
                    }
                }
            }
            assert(bases_of(cbn, b) =~= Seq::<NodeId>::empty());
            let l = memo[qb].1@;
            assert(c3_entry(cbn, memo, memo[qb].0, l));
            assert(c3_lists(cbn, memo, b) =~= seq![Seq::<NodeId>::empty()]);
            if l.drop_first().len() > 0 {
                assert(first_good_head(c3_lists(cbn, memo, b), l.drop_first()[0]));
                let k = choose|k: int| good_head(c3_lists(cbn, memo, b), k) && c3_lists(cbn, memo, b)[k][0] == l.drop_first()[0]
                    && forall|k2: int| 0 <= k2 < k ==> !good_head(c3_lists(cbn, memo, b), k2);
                assert(false);
            }
            assert(l =~= seq![b]);
        }
    }
    assert(c3_lists(cbn, r, c) =~= c3_lists(cbn, memo, c));
}

} // verus!
