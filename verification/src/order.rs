//! Ordering of character strings, sorting by string keys, and decimal
//! numerals.

use vstd::prelude::*;

use vstd::multiset::Multiset;
use vstd::seq_lib::to_multiset_insert;

verus! {

/// `a` comes strictly before `b` in lexicographic order of code points
/// (the order of `str`).
pub open spec fn seq_less(a: Seq<char>, b: Seq<char>) -> bool
    decreases a.len(),
{
    if b.len() == 0 {
        false
    } else if a.len() == 0 {
        true
    } else if a[0] != b[0] {
        a[0] < b[0]
    } else {
        seq_less(a.drop_first(), b.drop_first())
    }
}

/// No string comes before itself.
pub proof fn lemma_less_irreflexive(a: Seq<char>)
    ensures
        !seq_less(a, a),
    decreases a.len(),
{
    if a.len() > 0 {
        lemma_less_irreflexive(a.drop_first());
    }
}

/// The order is transitive.
pub proof fn lemma_less_transitive(a: Seq<char>, b: Seq<char>, c: Seq<char>)
    requires
        seq_less(a, b),
        seq_less(b, c),
    ensures
        seq_less(a, c),
    decreases a.len(),
{
    if a.len() > 0 && b.len() > 0 && c.len() > 0 && a[0] == b[0] && b[0] == c[0] {
        lemma_less_transitive(a.drop_first(), b.drop_first(), c.drop_first());
    }
}

/// Of two different strings, one comes before the other.
pub proof fn lemma_less_total(a: Seq<char>, b: Seq<char>)
    requires
        a != b,
    ensures
        seq_less(a, b) || seq_less(b, a),
    decreases a.len(),
{
    if a.len() > 0 && b.len() > 0 && a[0] == b[0] {
        if a.drop_first() == b.drop_first() {
            assert(a =~= seq![a[0]] + a.drop_first());
            assert(b =~= seq![b[0]] + b.drop_first());
        }
        lemma_less_total(a.drop_first(), b.drop_first());
    } else if a.len() == 0 && b.len() == 0 {
        assert(a =~= b);
    }
}

/// Whether `a` comes strictly before `b`.
pub fn chars_less(a: &[char], b: &[char]) -> (r: bool)
    ensures
        r == seq_less(a@, b@),
{
    let mut i: usize = 0;
    proof {
        assert(a@.skip(0) =~= a@);
        assert(b@.skip(0) =~= b@);
    }
    while i < a.len() && i < b.len()
        invariant
            i <= a@.len(),
            i <= b@.len(),
            seq_less(a@, b@) == seq_less(a@.skip(i as int), b@.skip(i as int)),
        decreases a.len() - i,
    {
        if a[i] != b[i] {
            proof {
                assert(a@.skip(i as int)[0] == a@[i as int]);
                assert(b@.skip(i as int)[0] == b@[i as int]);
            }
            return a[i] < b[i];
        }
        proof {
            assert(a@.skip(i as int).drop_first() =~= a@.skip(i as int + 1));
            assert(b@.skip(i as int).drop_first() =~= b@.skip(i as int + 1));
        }
        i = i + 1;
    }
    i < b.len()
}

/// One component of a sort key: a number or a string.
#[derive(Debug, Clone)]
pub enum KeyPart {
    Num(usize),
    Text(Vec<char>),
}

/// The value of a key component.
pub enum KeyV {
    Num(nat),
    Text(Seq<char>),
}

impl View for KeyPart {
    type V = KeyV;

    open spec fn view(&self) -> KeyV {
        match self {
            KeyPart::Num(n) => KeyV::Num(*n as nat),
            KeyPart::Text(v) => KeyV::Text(v@),
        }
    }
}

/// The values of the components of a key.
pub open spec fn key_view(k: Seq<KeyPart>) -> Seq<KeyV> {
    Seq::new(k.len(), |i: int| k[i]@)
}

/// Component order: numbers by value, strings by `seq_less`, and any number
/// before any string.
pub open spec fn part_less(a: KeyV, b: KeyV) -> bool {
    match a {
        KeyV::Num(x) => match b {
            KeyV::Num(y) => x < y,
            KeyV::Text(_) => true,
        },
        KeyV::Text(x) => match b {
            KeyV::Num(_) => false,
            KeyV::Text(y) => seq_less(x, y),
        },
    }
}

/// Lexicographic order of keys, component by component; a proper prefix
/// comes first.
pub open spec fn key_less(a: Seq<KeyV>, b: Seq<KeyV>) -> bool
    decreases a.len(),
{
    if b.len() == 0 {
        false
    } else if a.len() == 0 {
        true
    } else if part_less(a[0], b[0]) {
        true
    } else if a[0] == b[0] {
        key_less(a.drop_first(), b.drop_first())
    } else {
        false
    }
}

/// Of two components, exactly one of less, equal, greater holds.
pub proof fn lemma_part_cases(a: KeyV, b: KeyV)
    ensures
        part_less(a, b) || a == b || part_less(b, a),
        !(part_less(a, b) && a == b),
        !(part_less(a, b) && part_less(b, a)),
{
    match a {
        KeyV::Num(_) => {},
        KeyV::Text(x) => match b {
            KeyV::Num(_) => {},
            KeyV::Text(y) => {
                lemma_less_irreflexive(x);
                if x != y {
                    lemma_less_total(x, y);
                }
                if seq_less(x, y) && seq_less(y, x) {
                    lemma_less_transitive(x, y, x);
                }
            },
        },
    }
}

/// Component order is transitive.
pub proof fn lemma_part_transitive(a: KeyV, b: KeyV, c: KeyV)
    ensures
        part_less(a, b) && part_less(b, c) ==> part_less(a, c),
{
    match a {
        KeyV::Num(_) => {},
        KeyV::Text(x) => match b {
            KeyV::Num(_) => {},
            KeyV::Text(y) => match c {
                KeyV::Num(_) => {},
                KeyV::Text(z) => {
                    if seq_less(x, y) && seq_less(y, z) {
                        lemma_less_transitive(x, y, z);
                    }
                },
            },
        },
    }
}

/// No key comes before itself.
pub proof fn lemma_key_irreflexive(a: Seq<KeyV>)
    ensures
        !key_less(a, a),
    decreases a.len(),
{
    if a.len() > 0 {
        lemma_part_cases(a[0], a[0]);
        lemma_key_irreflexive(a.drop_first());
    }
}

/// Key order is transitive.
pub proof fn lemma_key_transitive(a: Seq<KeyV>, b: Seq<KeyV>, c: Seq<KeyV>)
    requires
        key_less(a, b),
        key_less(b, c),
    ensures
        key_less(a, c),
    decreases a.len(),
{
    if a.len() > 0 {
        lemma_part_transitive(a[0], b[0], c[0]);
        lemma_part_cases(a[0], b[0]);
        lemma_part_cases(b[0], c[0]);
        if a[0] == b[0] && b[0] == c[0] {
            lemma_key_transitive(a.drop_first(), b.drop_first(), c.drop_first());
        }
    }
}

/// A key not after `b` comes before whatever `b` comes before.
pub proof fn lemma_key_le_lt(a: Seq<KeyV>, b: Seq<KeyV>, c: Seq<KeyV>)
    requires
        !key_less(b, a),
        key_less(b, c),
    ensures
        key_less(a, c),
    decreases a.len(),
{
    if a.len() > 0 && b.len() > 0 {
        lemma_part_cases(a[0], b[0]);
        lemma_part_cases(b[0], c[0]);
        lemma_part_transitive(a[0], b[0], c[0]);
        if a[0] == b[0] && b[0] == c[0] {
            lemma_key_le_lt(a.drop_first(), b.drop_first(), c.drop_first());
        }
    }
}

/// Of two different keys, one comes before the other.
pub proof fn lemma_key_total(a: Seq<KeyV>, b: Seq<KeyV>)
    requires
        a != b,
    ensures
        key_less(a, b) || key_less(b, a),
    decreases a.len(),
{
    if a.len() > 0 && b.len() > 0 {
        lemma_part_cases(a[0], b[0]);
        if a[0] == b[0] {
            if a.drop_first() == b.drop_first() {
                assert(a =~= seq![a[0]] + a.drop_first());
                assert(b =~= seq![b[0]] + b.drop_first());
            }
            lemma_key_total(a.drop_first(), b.drop_first());
        }
    } else if a.len() == 0 && b.len() == 0 {
        assert(a =~= b);
    }
}

/// Whether component `a` comes before component `b`.
pub fn part_less_exec(a: &KeyPart, b: &KeyPart) -> (r: bool)
    ensures
        r == part_less(a@, b@),
{
    match a {
        KeyPart::Num(x) => match b {
            KeyPart::Num(y) => *x < *y,
            KeyPart::Text(_) => true,
        },
        KeyPart::Text(x) => match b {
            KeyPart::Num(_) => false,
            KeyPart::Text(y) => chars_less(x.as_slice(), y.as_slice()),
        },
    }
}

/// Whether components `a` and `b` are equal.
pub fn part_same_exec(a: &KeyPart, b: &KeyPart) -> (r: bool)
    ensures
        r == (a@ == b@),
{
    match a {
        KeyPart::Num(x) => match b {
            KeyPart::Num(y) => *x == *y,
            KeyPart::Text(_) => false,
        },
        KeyPart::Text(x) => match b {
            KeyPart::Num(_) => false,
            KeyPart::Text(y) => crate::text::chars_eq(x.as_slice(), y.as_slice()),
        },
    }
}

/// Whether key `a` comes before key `b`.
pub fn keys_less(a: &[KeyPart], b: &[KeyPart]) -> (r: bool)
    ensures
        r == key_less(key_view(a@), key_view(b@)),
{
    let ghost av = key_view(a@);
    let ghost bv = key_view(b@);
    let mut i: usize = 0;
    proof {
        assert(av.skip(0) =~= av);
        assert(bv.skip(0) =~= bv);
    }
    while i < a.len() && i < b.len()
        invariant
            i <= a@.len(),
            i <= b@.len(),
            av == key_view(a@),
            bv == key_view(b@),
            key_less(av, bv) == key_less(av.skip(i as int), bv.skip(i as int)),
        decreases a.len() - i,
    {
        proof {
            assert(av.skip(i as int)[0] == a@[i as int]@);
            assert(bv.skip(i as int)[0] == b@[i as int]@);
            assert(av.skip(i as int).drop_first() =~= av.skip(i as int + 1));
            assert(bv.skip(i as int).drop_first() =~= bv.skip(i as int + 1));
        }
        if part_less_exec(&a[i], &b[i]) {
            return true;
        }
        if !part_same_exec(&a[i], &b[i]) {
            return false;
        }
        i = i + 1;
    }
    i < b.len()
}

/// Items in key order: no item's key comes before an earlier item's key.
pub open spec fn keys_sorted<T>(s: Seq<(Vec<KeyPart>, T)>) -> bool {
    forall|i: int, j: int| 0 <= i < j < s.len() ==> !key_less(key_view(#[trigger] s[j].0@), key_view(#[trigger] s[i].0@))
}

/// Sort by key: the same items, in key order; items with equal keys keep
/// their relative order.
pub fn sort_by_key<T>(items: Vec<(Vec<KeyPart>, T)>) -> (r: Vec<(Vec<KeyPart>, T)>)
    ensures
        r@.to_multiset() == items@.to_multiset(),
        r@.len() == items@.len(),
        keys_sorted(r@),
{
    broadcast use vstd::seq_lib::group_to_multiset_ensures;
    broadcast use vstd::multiset::group_multiset_axioms;

    let mut out: Vec<(Vec<KeyPart>, T)> = Vec::new();
    let mut rest = items;
    let ghost all = rest@;
    proof {
        assert(out@.to_multiset() =~= Multiset::empty());
        assert(out@.to_multiset().add(rest@.to_multiset()) =~= all.to_multiset());
    }
    // Items are taken from the back; each goes before the first kept item
    // whose key is not smaller, so items with equal keys keep their order.
    while rest.len() > 0
        invariant
            out@.to_multiset().add(rest@.to_multiset()) == all.to_multiset(),
            out@.len() + rest@.len() == all.len(),
            keys_sorted(out@),
        decreases rest.len(),
    {
        let ghost r0 = rest@;
        let x = rest.pop().unwrap();
        proof {
            assert(r0 =~= rest@.push(x));
            vstd::seq_lib::to_multiset_build(rest@, x);
        }
        let mut p: usize = 0;
        while p < out.len()
            invariant
                p <= out@.len(),
                forall|k: int| 0 <= k < p ==> key_less(key_view(#[trigger] out@[k].0@), key_view(x.0@)),
            ensures
                p <= out@.len(),
                forall|k: int| 0 <= k < p ==> key_less(key_view(#[trigger] out@[k].0@), key_view(x.0@)),
                p < out@.len() ==> !key_less(key_view(out@[p as int].0@), key_view(x.0@)),
            decreases out.len() - p,
        {
            if !keys_less(out[p].0.as_slice(), x.0.as_slice()) {
                break;
            }
            p = p + 1;
        }
        let ghost o0 = out@;
        let ghost xk = key_view(x.0@);
        out.insert(p, x);
        proof {
            assert(out@ == o0.insert(p as int, x));
            vstd::seq_lib::to_multiset_insert(o0, p as int, x);
            assert(out@.to_multiset().add(rest@.to_multiset()) =~= all.to_multiset());
            assert forall|i: int, j: int| 0 <= i < j < out@.len() implies !key_less(
                key_view(#[trigger] out@[j].0@),
                key_view(#[trigger] out@[i].0@),
            ) by {
                if j < p {
                    assert(out@[i] == o0[i] && out@[j] == o0[j]);
                } else if j == p {
                    // o0[i] comes before x.
                    assert(out@[i] == o0[i]);
                    if key_less(xk, key_view(o0[i].0@)) {
                        lemma_key_transitive(xk, key_view(o0[i].0@), xk);
                        lemma_key_irreflexive(xk);
                    }
                } else if i > p {
                    assert(out@[i] == o0[i - 1] && out@[j] == o0[j - 1]);
                } else if i == p {
                    // o0[p] is not before x, and o0[j - 1] is not before o0[p].
                    assert(out@[j] == o0[j - 1]);
                    if key_less(key_view(o0[j - 1].0@), xk) && j - 1 > p {
                        lemma_key_le_lt(key_view(o0[p as int].0@), key_view(o0[j - 1].0@), xk);
                    }
                } else {
                    assert(out@[i] == o0[i] && out@[j] == o0[j - 1]);
                }
            }
        }
    }
    proof {
        assert(rest@.to_multiset() =~= Multiset::empty());
        assert(out@.to_multiset() =~= out@.to_multiset().add(Multiset::empty()));
    }
    out
}

/// The ids of a sequence of keyed items are pairwise different.
pub open spec fn ids_distinct<K>(s: Seq<(K, usize)>) -> bool {
    forall|i: int, j: int| 0 <= i < s.len() && 0 <= j < s.len() && i != j ==> #[trigger] s[i].1 != #[trigger] s[j].1
}

/// A reordering of items with distinct ids holds each item once: its ids
/// stay distinct, and every item of either is an item of the other.
pub proof fn lemma_reorder_ids<K>(items: Seq<(K, usize)>, sorted: Seq<(K, usize)>)
    requires
        ids_distinct(items),
        sorted.to_multiset() == items.to_multiset(),
    ensures
        ids_distinct(sorted),
        forall|k: int| 0 <= k < sorted.len() ==> items.contains(#[trigger] sorted[k]),
        forall|p: int| 0 <= p < items.len() ==> sorted.contains(#[trigger] items[p]),
{
    broadcast use vstd::seq_lib::group_to_multiset_ensures;
    broadcast use vstd::multiset::group_multiset_axioms;

    assert(items.no_duplicates()) by {
        assert forall|i: int, j: int| 0 <= i < items.len() && 0 <= j < items.len() && i != j implies items[i] != items[j] by {
            assert(items[i].1 != items[j].1);
        }
    }
    items.lemma_multiset_has_no_duplicates();
    sorted.lemma_multiset_has_no_duplicates_conv();
    assert forall|k: int| 0 <= k < sorted.len() implies items.contains(#[trigger] sorted[k]) by {
        assert(sorted.contains(sorted[k]));
        assert(sorted.to_multiset().count(sorted[k]) > 0);
        assert(items.contains(sorted[k]));
    }
    assert forall|p: int| 0 <= p < items.len() implies sorted.contains(#[trigger] items[p]) by {
        assert(items.contains(items[p]));
        assert(items.to_multiset().count(items[p]) > 0);
        assert(sorted.contains(items[p]));
    }
    assert forall|i: int, j: int| 0 <= i < sorted.len() && 0 <= j < sorted.len() && i != j implies #[trigger] sorted[i].1 != #[trigger] sorted[j].1 by {
        if sorted[i].1 == sorted[j].1 {
            assert(sorted.contains(sorted[i]));
            assert(sorted.to_multiset().count(sorted[i]) > 0);
            assert(items.contains(sorted[i]));
            assert(sorted.contains(sorted[j]));
            assert(sorted.to_multiset().count(sorted[j]) > 0);
            assert(items.contains(sorted[j]));
            let p = choose|p: int| 0 <= p < items.len() && items[p] == sorted[i];
            let q = choose|q: int| 0 <= q < items.len() && items[q] == sorted[j];
            assert(items[p].1 == items[q].1);
            assert(p == q);
            assert(sorted[i] == sorted[j]);
        }
    }
}

/// The positions of `keys` in key order: each position once, and no key
/// before an earlier one.
pub fn key_order(keys: Vec<Vec<KeyPart>>) -> (r: Vec<usize>)
    ensures
        r@.len() == keys@.len(),
        forall|k: int| 0 <= k < r@.len() ==> #[trigger] r@[k] < keys@.len(),
        forall|a: int, b: int| 0 <= a < r@.len() && 0 <= b < r@.len() && a != b ==> #[trigger] r@[a] != #[trigger] r@[b],
        forall|i: usize| 0 <= i < keys@.len() ==> #[trigger] r@.contains(i),
        forall|a: int, b: int|
            0 <= a < b < r@.len() ==> !key_less(key_view(keys@[#[trigger] r@[b] as int]@), key_view(keys@[#[trigger] r@[a] as int]@)),
{
    let ghost kv = keys@;
    let mut items: Vec<(Vec<KeyPart>, usize)> = Vec::new();
    let mut rest = keys;
    let n = rest.len();
    // Take the keys from the back, remembering their positions.
    while rest.len() > 0
        invariant
            rest@.len() + items@.len() == n,
            n == kv.len(),
            rest@ == kv.take(rest@.len() as int),
            forall|k: int| 0 <= k < items@.len() ==> (#[trigger] items@[k]).1 == n - 1 - k && items@[k].0@ == kv[n - 1 - k]@,
        decreases rest.len(),
    {
        let ghost r0 = rest@;
        let ghost i0 = items@;
        let x = rest.pop().unwrap();
        let pos = rest.len();
        items.push((x, pos));
        proof {
            assert(rest@ =~= kv.take(rest@.len() as int));
            assert forall|k: int| 0 <= k < items@.len() implies (#[trigger] items@[k]).1 == n - 1 - k && items@[k].0@ == kv[n - 1 - k]@ by {
                if k < i0.len() {
                    assert(items@[k] == i0[k]);
                } else {
                    assert(r0[pos as int] == kv[pos as int]);
                }
            }
        }
    }
    let ghost before = items@;
    proof {
        assert(ids_distinct(before)) by {
            assert forall|a: int, b: int| 0 <= a < before.len() && 0 <= b < before.len() && a != b implies #[trigger] before[a].1 != #[trigger] before[b].1 by {
            }
        }
    }
    let sorted = sort_by_key(items);
    proof {
        lemma_reorder_ids(before, sorted@);
    }
    let mut r: Vec<usize> = Vec::new();
    let mut k: usize = 0;
    while k < sorted.len()
        invariant
            k <= sorted@.len(),
            r@.len() == k,
            forall|j: int| 0 <= j < k ==> #[trigger] r@[j] == sorted@[j].1,
        decreases sorted.len() - k,
    {
        r.push(sorted[k].1);
        k = k + 1;
    }
    proof {
        let s = sorted@;
        assert forall|k: int| 0 <= k < r@.len() implies #[trigger] r@[k] < kv.len() && kv[r@[k] as int]@ == s[k].0@ by {
            assert(before.contains(s[k]));
            let p = choose|p: int| 0 <= p < before.len() && before[p] == s[k];
        }
        assert forall|i: usize| 0 <= i < kv.len() implies #[trigger] r@.contains(i) by {
            let p = n - 1 - i;
            assert(before[p].1 == i);
            assert(s.contains(before[p]));
            let q = choose|q: int| 0 <= q < s.len() && s[q] == before[p];
            assert(r@[q] == i);
        }
        assert forall|a: int, b: int| 0 <= a < r@.len() && 0 <= b < r@.len() && a != b implies #[trigger] r@[a] != #[trigger] r@[b] by {
            assert(s[a].1 != s[b].1);
        }
        assert forall|a: int, b: int|
            0 <= a < b < r@.len() implies !key_less(key_view(kv[#[trigger] r@[b] as int]@), key_view(kv[#[trigger] r@[a] as int]@)) by {
            assert(kv[r@[a] as int]@ == s[a].0@);
            assert(kv[r@[b] as int]@ == s[b].0@);
        }
    }
    r
}

/// Keys of one string compare as the strings do.
pub proof fn lemma_text_key_order(a: Seq<char>, b: Seq<char>)
    ensures
        key_less(seq![KeyV::Text(a)], seq![KeyV::Text(b)]) == seq_less(a, b),
{
    assert(seq![KeyV::Text(a)].drop_first().len() == 0);
    assert(key_less(seq![KeyV::Text(a)].drop_first(), seq![KeyV::Text(b)].drop_first()) == false);
}

/// The decimal numeral of `n`.
pub open spec fn decimal(n: nat) -> Seq<char>
    decreases n,
{
    if n < 10 {
        seq![digit(n)]
    } else {
        decimal(n / 10) + seq![digit(n % 10)]
    }
}

/// The character of a digit.
pub open spec fn digit(d: nat) -> char {
    if d == 0 {
        '0'
    } else if d == 1 {
        '1'
    } else if d == 2 {
        '2'
    } else if d == 3 {
        '3'
    } else if d == 4 {
        '4'
    } else if d == 5 {
        '5'
    } else if d == 6 {
        '6'
    } else if d == 7 {
        '7'
    } else if d == 8 {
        '8'
    } else {
        '9'
    }
}

fn digit_char(d: usize) -> (r: char)
    requires
        d < 10,
    ensures
        r == digit(d as nat),
{
    if d == 0 {
        '0'
    } else if d == 1 {
        '1'
    } else if d == 2 {
        '2'
    } else if d == 3 {
        '3'
    } else if d == 4 {
        '4'
    } else if d == 5 {
        '5'
    } else if d == 6 {
        '6'
    } else if d == 7 {
        '7'
    } else if d == 8 {
        '8'
    } else {
        '9'
    }
}

/// The decimal numeral of `n`, as characters.
pub fn decimal_chars(n: usize) -> (r: Vec<char>)
    ensures
        r@ == decimal(n as nat),
    decreases n,
{
    if n < 10 {
        let r = vec![digit_char(n)];
        assert(r@ =~= seq![digit(n as nat)]);
        r
    } else {
        let mut r = decimal_chars(n / 10);
        r.push(digit_char(n % 10));
        r
    }
}

} // verus!
