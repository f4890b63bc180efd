//! Character-sequence helpers shared by the modules that build names and
//! rendered output.

use vstd::prelude::*;

verus! {

/// Splits a string slice into its characters.
///
/// Trusted: calls `str::chars` and collects; the result lists the
/// characters of `s` in order. A string slice never holds more than
/// `isize::MAX` bytes (std's limit on the size of any allocation), so never
/// more characters than that either.
#[verifier::external_body]
pub(crate) fn str_to_chars(s: &str) -> (r: Vec<char>)
    ensures
        r@ == s@,
        r@.len() <= isize::MAX,
{
    s.chars().collect()
}

/// Builds a `String` holding exactly the given characters.
///
/// Trusted: calls `String::from_iter` over the characters; the resulting
/// string's characters are those of `v`, in order.
#[verifier::external_body]
pub(crate) fn chars_to_string(v: &[char]) -> (r: String)
    ensures
        r@ == v@,
{
    String::from_iter(v.iter())
}

/// Whether two character sequences are equal.
pub fn chars_eq(a: &[char], b: &[char]) -> (r: bool)
    ensures
        r == (a@ == b@),
{
    if a.len() != b.len() {
        return false;
    }
    let mut i: usize = 0;
    while i < a.len()
        invariant
            a.len() == b.len(),
            i <= a.len(),
            forall|j: int| 0 <= j < i ==> a@[j] == b@[j],
        decreases a.len() - i,
    {
        if a[i] != b[i] {
            return false;
        }
        i = i + 1;
    }
    assert(a@ =~= b@);
    true
}

/// Appends all of `src` to `dst`.
pub fn push_all(dst: &mut Vec<char>, src: &[char])
    ensures
        final(dst)@ == old(dst)@ + src@,
{
    let mut i: usize = 0;
    while i < src.len()
        invariant
            i <= src.len(),
            dst@ == old(dst)@ + src@.subrange(0, i as int),
        decreases src.len() - i,
    {
        dst.push(src[i]);
        i = i + 1;
        assert(src@.subrange(0, i as int) =~= src@.subrange(0, (i - 1) as int).push(src@[i - 1]));
    }
    assert(src@.subrange(0, src.len() as int) =~= src@);
}

/// Appends the characters of a string slice to `dst`.
pub fn push_str(dst: &mut Vec<char>, s: &str)
    ensures
        final(dst)@ == old(dst)@ + s@,
{
    let c = str_to_chars(s);
    push_all(dst, c.as_slice());
}

/// Whether `s` starts with `prefix`.
pub open spec fn is_prefix(prefix: Seq<char>, s: Seq<char>) -> bool {
    prefix.len() <= s.len() && s.subrange(0, prefix.len() as int) == prefix
}

/// Whether `s` ends with `suffix`.
pub open spec fn is_suffix(suffix: Seq<char>, s: Seq<char>) -> bool {
    suffix.len() <= s.len() && s.subrange(s.len() - suffix.len(), s.len() as int) == suffix
}

/// Whether `s` starts with `prefix`.
pub fn starts_with(s: &[char], prefix: &[char]) -> (r: bool)
    ensures
        r == is_prefix(prefix@, s@),
{
    if prefix.len() > s.len() {
        return false;
    }
    let mut i: usize = 0;
    while i < prefix.len()
        invariant
            prefix.len() <= s.len(),
            i <= prefix.len(),
            forall|j: int| 0 <= j < i ==> s@[j] == prefix@[j],
        decreases prefix.len() - i,
    {
        if s[i] != prefix[i] {
            assert(s@.subrange(0, prefix.len() as int)[i as int] != prefix@[i as int]);
            return false;
        }
        i = i + 1;
    }
    assert(s@.subrange(0, prefix.len() as int) =~= prefix@);
    true
}

/// Whether `s` ends with `suffix`.
pub fn ends_with(s: &[char], suffix: &[char]) -> (r: bool)
    ensures
        r == is_suffix(suffix@, s@),
{
    if suffix.len() > s.len() {
        return false;
    }
    let off = s.len() - suffix.len();
    let mut i: usize = 0;
    while i < suffix.len()
        invariant
            suffix.len() <= s.len(),
            off == s.len() - suffix.len(),
            i <= suffix.len(),
            forall|j: int| 0 <= j < i ==> s@[off + j] == suffix@[j],
        decreases suffix.len() - i,
    {
        if s[off + i] != suffix[i] {
            assert(s@.subrange(off as int, s.len() as int)[i as int] != suffix@[i as int]);
            return false;
        }
        i = i + 1;
    }
    assert(s@.subrange(off as int, s.len() as int) =~= suffix@);
    true
}

/// Joins the sequences of `parts` with `sep` between neighbours.
pub open spec fn join(parts: Seq<Seq<char>>, sep: Seq<char>) -> Seq<char>
    decreases parts.len(),
{
    if parts.len() == 0 {
        Seq::empty()
    } else if parts.len() == 1 {
        parts[0]
    } else {
        join(parts.drop_last(), sep) + sep + parts.last()
    }
}

/// Whether `c` occurs in `s`.
pub fn contains_char(s: &[char], c: char) -> (r: bool)
    ensures
        r == s@.contains(c),
{
    let mut i: usize = 0;
    while i < s.len()
        invariant
            i <= s.len(),
            forall|j: int| 0 <= j < i ==> s@[j] != c,
        decreases s.len() - i,
    {
        if s[i] == c {
            assert(s@[i as int] == c);
            return true;
        }
        i = i + 1;
    }
    false
}

/// `s` with every occurrence of `pat` replaced by `rep`, scanning left
/// to right without overlap (as `str::replace` does).
pub open spec fn replace_all(s: Seq<char>, pat: Seq<char>, rep: Seq<char>) -> Seq<char>
    decreases s.len(),
{
    if pat.len() == 0 || s.len() < pat.len() {
        s
    } else if s.subrange(0, pat.len() as int) == pat {
        rep + replace_all(s.subrange(pat.len() as int, s.len() as int), pat, rep)
    } else {
        seq![s[0]] + replace_all(s.subrange(1, s.len() as int), pat, rep)
    }
}

/// Whether `pat` occurs in `s` starting at `at`.
pub fn matches_at(s: &[char], at: usize, pat: &[char]) -> (r: bool)
    requires
        at <= s.len(),
    ensures
        r == (pat.len() <= s.len() - at && s@.subrange(at as int, at + pat.len()) == pat@),
{
    if pat.len() > s.len() - at {
        return false;
    }
    let mut i: usize = 0;
    while i < pat.len()
        invariant
            pat.len() <= s.len() - at,
            i <= pat.len(),
            forall|j: int| 0 <= j < i ==> s@[at + j] == pat@[j],
        decreases pat.len() - i,
    {
        if s[at + i] != pat[i] {
            assert(s@.subrange(at as int, at + pat.len())[i as int] != pat@[i as int]);
            return false;
        }
        i = i + 1;
    }
    assert(s@.subrange(at as int, at + pat.len()) =~= pat@);
    true
}

/// Replace every occurrence of `pat` in `s` with `rep`.
pub fn replace_chars(s: &[char], pat: &[char], rep: &[char]) -> (r: Vec<char>)
    ensures
        r@ == replace_all(s@, pat@, rep@),
{
    let mut out: Vec<char> = Vec::new();
    let mut i: usize = 0;
    assert(s@.subrange(0, s@.len() as int) =~= s@);
    while i < s.len()
        invariant
            i <= s.len(),
            out@ + replace_all(s@.subrange(i as int, s@.len() as int), pat@, rep@) == replace_all(
                s@,
                pat@,
                rep@,
            ),
        decreases s.len() - i,
    {
        let ghost rest = s@.subrange(i as int, s@.len() as int);
        if pat.len() > 0 && matches_at(s, i, pat) {
            proof {
                assert(rest.subrange(0, pat@.len() as int) =~= s@.subrange(i as int, i + pat.len()));
                assert(rest.subrange(pat@.len() as int, rest.len() as int) =~= s@.subrange(
                    i + pat.len(),
                    s@.len() as int,
                ));
                assert(out@ + rep@ + replace_all(rest.subrange(pat@.len() as int, rest.len() as int), pat@, rep@)
                    =~= out@ + (rep@ + replace_all(rest.subrange(pat@.len() as int, rest.len() as int), pat@, rep@)));
            }
            push_all(&mut out, rep);
            i = i + pat.len();
        } else {
            proof {
                if pat.len() > 0 && rest.len() >= pat.len() {
                    assert(rest.subrange(0, pat@.len() as int) =~= s@.subrange(i as int, i + pat.len()));
                }
                assert(rest.subrange(1, rest.len() as int) =~= s@.subrange(i + 1, s@.len() as int));
                if pat.len() == 0 || rest.len() < pat.len() {
                    assert(replace_all(rest, pat@, rep@) == rest);
                    assert(replace_all(rest.subrange(1, rest.len() as int), pat@, rep@) == rest.subrange(1, rest.len() as int));
                    assert(rest =~= seq![rest[0]] + rest.subrange(1, rest.len() as int));
                }
                assert(out@.push(s@[i as int]) + replace_all(rest.subrange(1, rest.len() as int), pat@, rep@)
                    =~= out@ + (seq![rest[0]] + replace_all(rest.subrange(1, rest.len() as int), pat@, rep@)));
            }
            out.push(s[i]);
            i = i + 1;
        }
    }
    assert(s@.subrange(s@.len() as int, s@.len() as int) =~= Seq::<char>::empty());
    assert(out@ + Seq::<char>::empty() =~= out@);
    out
}

/// Whether `pat` occurs somewhere in `s`.
pub open spec fn occurs_in(pat: Seq<char>, s: Seq<char>) -> bool {
    exists|k: int| 0 <= k && k + pat.len() <= s.len() && #[trigger] s.subrange(k, k + pat.len()) == pat
}

/// Whether `pat` occurs somewhere in `s`.
pub fn contains_seq(s: &[char], pat: &[char]) -> (r: bool)
    ensures
        r == occurs_in(pat@, s@),
{
    if pat.len() > s.len() {
        return false;
    }
    if pat.len() == 0 {
        assert(s@.subrange(0int, 0int + pat@.len()) =~= pat@);
        return true;
    }
    let last = s.len() - pat.len();
    let mut k: usize = 0;
    while k <= last
        invariant
            last == s.len() - pat.len(),
            pat.len() > 0,
            k <= last + 1,
            forall|j: int| 0 <= j < k ==> #[trigger] s@.subrange(j, j + pat@.len()) != pat@,
        decreases last + 1 - k,
    {
        if matches_at(s, k, pat) {
            return true;
        }
        k = k + 1;
    }
    proof {
        assert forall|j: int| 0 <= j && j + pat@.len() <= s@.len() implies #[trigger] s@.subrange(j, j + pat@.len()) != pat@ by {
            assert(j < k);
        }
    }
    false
}

/// `a.b`: the two sequences joined by a dot.
pub open spec fn dotted(a: Seq<char>, b: Seq<char>) -> Seq<char> {
    a + seq!['.'] + b
}

/// A string splits at most one way into a part, a dot, and a last part
/// without dots.
pub proof fn lemma_dotted_unique(a1: Seq<char>, b1: Seq<char>, a2: Seq<char>, b2: Seq<char>)
    requires
        dotted(a1, b1) == dotted(a2, b2),
        !b1.contains('.'),
        !b2.contains('.'),
    ensures
        a1 == a2,
        b1 == b2,
{
    let s = dotted(a1, b1);
    assert(s.len() == a1.len() + 1 + b1.len());
    assert(s.len() == a2.len() + 1 + b2.len());
    if b1.len() < b2.len() {
        let p = a1.len() as int;
        assert(s[p] == '.');
        assert(b2[p - a2.len() - 1] == s[p]);
        assert(b2.contains('.'));
    } else if b2.len() < b1.len() {
        let p = a2.len() as int;
        assert(s[p] == '.');
        assert(b1[p - a1.len() - 1] == s[p]);
        assert(b1.contains('.'));
    } else {
        assert(a1 =~= s.subrange(0, a1.len() as int));
        assert(a2 =~= s.subrange(0, a2.len() as int));
        assert(b1 =~= s.subrange(a1.len() as int + 1, s.len() as int));
        assert(b2 =~= s.subrange(a2.len() as int + 1, s.len() as int));
    }
}

/// `a.b`, built from two character slices.
pub fn dot_join(a: &[char], b: &[char]) -> (r: Vec<char>)
    ensures
        r@ == dotted(a@, b@),
{
    let mut out: Vec<char> = Vec::new();
    push_all(&mut out, a);
    out.push('.');
    push_all(&mut out, b);
    proof {
        assert(out@ =~= dotted(a@, b@));
    }
    out
}

/// Copy of a character slice.
pub fn copy_chars(a: &[char]) -> (r: Vec<char>)
    ensures
        r@ == a@,
{
    let mut out: Vec<char> = Vec::new();
    push_all(&mut out, a);
    assert(out@ =~= a@);
    out
}

/// Position of the last `c` in `s`, if any.
pub fn rfind_char(s: &[char], c: char) -> (r: Option<usize>)
    ensures
        match r {
            Some(i) => i < s@.len() && s@[i as int] == c && forall|j: int| i < j < s@.len() ==> s@[j] != c,
            None => !s@.contains(c),
        },
{
    let mut i = s.len();
    while i > 0
        invariant
            i <= s.len(),
            forall|j: int| i <= j < s@.len() ==> s@[j] != c,
        decreases i,
    {
        if s[i - 1] == c {
            return Some(i - 1);
        }
        i = i - 1;
    }
    proof {
        assert forall|j: int| 0 <= j < s@.len() implies s@[j] != c by {}
    }
    None
}

/// The characters of `s` in `[from, to)`.
pub fn slice_chars(s: &[char], from: usize, to: usize) -> (r: Vec<char>)
    requires
        from <= to <= s@.len(),
    ensures
        r@ == s@.subrange(from as int, to as int),
{
    let mut out: Vec<char> = Vec::new();
    let mut i = from;
    while i < to
        invariant
            from <= i <= to,
            to <= s@.len(),
            out@ == s@.subrange(from as int, i as int),
        decreases to - i,
    {
        out.push(s[i]);
        i = i + 1;
        assert(out@ =~= s@.subrange(from as int, i as int));
    }
    out
}

/// Split `s` at its last `.`: the part before and the part after.
pub fn rsplit_dot(s: &[char]) -> (r: Option<(Vec<char>, Vec<char>)>)
    ensures
        match r {
            Some((a, b)) => s@ == dotted(a@, b@) && !b@.contains('.'),
            None => !s@.contains('.'),
        },
{
    let n = s.len();
    match rfind_char(s, '.') {
        Some(i) => {
            let a = slice_chars(s, 0, i);
            let b = slice_chars(s, i + 1, n);
            proof {
                assert(s@ =~= dotted(a@, b@));
                if b@.contains('.') {
                    let k = choose|k: int| 0 <= k < b@.len() && b@[k] == '.';
                    assert(s@[i + 1 + k] == '.');
                }
            }
            Some((a, b))
        },
        None => None,
    }
}

/// The character sequences of a vector of character vectors.
pub open spec fn char_views(v: Seq<Vec<char>>) -> Seq<Seq<char>> {
    Seq::new(v.len(), |i: int| v[i]@)
}

/// The pieces of `s` between occurrences of `c`, in order (as `str::split`).
pub open spec fn split_on(s: Seq<char>, c: char) -> Seq<Seq<char>>
    decreases s.len(),
{
    if s.len() == 0 {
        seq![Seq::<char>::empty()]
    } else {
        let r = split_on(s.drop_last(), c);
        if s.last() == c {
            r.push(Seq::<char>::empty())
        } else {
            r.update(r.len() - 1, r.last().push(s.last()))
        }
    }
}

/// Splitting gives at least one piece, and no piece holds the separator.
pub proof fn lemma_split_on_shape(s: Seq<char>, c: char)
    ensures
        split_on(s, c).len() >= 1,
        forall|k: int| 0 <= k < split_on(s, c).len() ==> !(#[trigger] split_on(s, c)[k]).contains(c),
    decreases s.len(),
{
    if s.len() > 0 {
        lemma_split_on_shape(s.drop_last(), c);
        let r = split_on(s.drop_last(), c);
        if s.last() != c {
            assert forall|k: int| 0 <= k < split_on(s, c).len() implies !(#[trigger] split_on(s, c)[k]).contains(c) by {
                if k == r.len() - 1 {
                    let q = r.last().push(s.last());
                    assert(split_on(s, c)[k] == q);
                    if q.contains(c) {
                        let w = choose|w: int| 0 <= w < q.len() && q[w] == c;
                        if w < r.last().len() {
                            assert(r.last()[w] == c);
                        }
                    }
                } else {
                    assert(split_on(s, c)[k] == r[k]);
                }
            }
        } else {
            assert forall|k: int| 0 <= k < split_on(s, c).len() implies !(#[trigger] split_on(s, c)[k]).contains(c) by {
                if k < r.len() {
                    assert(split_on(s, c)[k] == r[k]);
                }
            }
        }
    }
}

/// Joining the pieces with the separator gives back the string.
pub proof fn lemma_join_split(s: Seq<char>, c: char)
    ensures
        join(split_on(s, c), seq![c]) == s,
    decreases s.len(),
{
    if s.len() > 0 {
        lemma_join_split(s.drop_last(), c);
        lemma_split_on_shape(s.drop_last(), c);
        let r = split_on(s.drop_last(), c);
        let x = s.last();
        if x == c {
            let r2 = r.push(Seq::<char>::empty());
            assert(r2.drop_last() =~= r);
            assert(join(r2, seq![c]) =~= s.drop_last() + seq![c] + Seq::<char>::empty());
            assert(s =~= s.drop_last() + seq![c]);
        } else {
            let r2 = r.update(r.len() - 1, r.last().push(x));
            if r.len() == 1 {
                assert(join(r2, seq![c]) == r.last().push(x));
                assert(s =~= s.drop_last().push(x));
            } else {
                assert(r2.drop_last() =~= r.drop_last());
                assert(join(r2, seq![c]) == join(r.drop_last(), seq![c]) + seq![c] + r.last().push(x));
                assert(join(r, seq![c]) == join(r.drop_last(), seq![c]) + seq![c] + r.last());
                assert(s =~= s.drop_last().push(x));
                assert(join(r2, seq![c]) =~= join(r, seq![c]).push(x));
            }
        }
    }
}

/// Split `s` on every occurrence of `c`.
pub fn split_char(s: &[char], c: char) -> (r: Vec<Vec<char>>)
    ensures
        char_views(r@) == split_on(s@, c),
        r@.len() >= 1,
{
    let mut parts: Vec<Vec<char>> = Vec::new();
    let mut cur: Vec<char> = Vec::new();
    let mut i: usize = 0;
    proof {
        assert(s@.take(0) =~= Seq::<char>::empty());
        assert(char_views(parts@).push(cur@) =~= split_on(s@.take(0), c));
    }
    while i < s.len()
        invariant
            i <= s.len(),
            char_views(parts@).push(cur@) == split_on(s@.take(i as int), c),
        decreases s.len() - i,
    {
        let ghost before = char_views(parts@).push(cur@);
        proof {
            assert(s@.take(i as int + 1).drop_last() =~= s@.take(i as int));
            assert(s@.take(i as int + 1).last() == s@[i as int]);
        }
        if s[i] == c {
            parts.push(cur);
            cur = Vec::new();
            proof {
                assert(char_views(parts@).push(cur@) =~= before.push(Seq::<char>::empty()));
            }
        } else {
            let ghost old_parts = parts@;
            cur.push(s[i]);
            proof {
                assert(parts@ == old_parts);
                assert(char_views(parts@).push(cur@) =~= before.update(
                    before.len() - 1,
                    before.last().push(s@[i as int]),
                ));
            }
        }
        i = i + 1;
    }
    parts.push(cur);
    proof {
        assert(s@.take(s@.len() as int) =~= s@);
        assert(char_views(parts@) =~= split_on(s@, c));
    }
    parts
}

/// Split `s` on every `.`.
pub fn split_dots(s: &[char]) -> (r: Vec<Vec<char>>)
    ensures
        char_views(r@) == split_on(s@, '.'),
        r@.len() >= 1,
{
    split_char(s, '.')
}

/// Join `parts[0..count]` with `sep` between neighbours.
pub fn join_with(parts: &Vec<Vec<char>>, count: usize, sep: char) -> (r: Vec<char>)
    requires
        count <= parts@.len(),
    ensures
        r@ == join(char_views(parts@).take(count as int), seq![sep]),
{
    let mut out: Vec<char> = Vec::new();
    let mut i: usize = 0;
    let ghost pv = char_views(parts@);
    proof {
        assert(pv.take(0) =~= Seq::<Seq<char>>::empty());
    }
    while i < count
        invariant
            i <= count,
            count <= parts@.len(),
            pv == char_views(parts@),
            out@ == join(pv.take(i as int), seq![sep]),
        decreases count - i,
    {
        let ghost o0 = out@;
        proof {
            assert(pv.take(i as int + 1).drop_last() =~= pv.take(i as int));
            assert(pv.take(i as int + 1).last() == parts@[i as int]@);
        }
        if i > 0 {
            out.push(sep);
        }
        push_all(&mut out, parts[i].as_slice());
        proof {
            if i == 0 {
                assert(out@ =~= parts@[0]@);
            } else {
                assert(out@ =~= o0 + seq![sep] + parts@[i as int]@);
            }
        }
        i = i + 1;
    }
    out
}

/// Join `parts[0..count]` with dots.
pub fn join_dots(parts: &Vec<Vec<char>>, count: usize) -> (r: Vec<char>)
    requires
        count <= parts@.len(),
    ensures
        r@ == join(char_views(parts@).take(count as int), seq!['.']),
{
    join_with(parts, count, '.')
}

} // verus!
