//! Format-agnostic visual representation of the call graph.

use vstd::prelude::*;

use crate::analyzer::graph::{edges_in, set_in};
use crate::intern::Interner;
use crate::node::{flavor_text, Node};
use crate::order::{
    decimal, decimal_chars, ids_distinct, key_less, key_view, lemma_part_cases, lemma_reorder_ids,
    part_less, seq_less, sort_by_key, KeyPart, KeyV,
};
use crate::scope::{opt_view, ValueSet};
use crate::text::{
    char_views, chars_to_string, occurs_in, push_all, push_str, replace_all, replace_chars, str_to_chars,
};

verus! {

/// Number of occurrences of `c` in `s`.
pub open spec fn count_char(s: Seq<char>, c: char) -> nat
    decreases s.len(),
{
    if s.len() == 0 {
        0
    } else {
        count_char(s.drop_last(), c) + if s.last() == c {
            1nat
        } else {
            0nat
        }
    }
}

/// Number of occurrences of `c` in `s`.
fn count_char_exec(s: &[char], c: char) -> (r: usize)
    ensures
        r == count_char(s@, c),
        r <= s@.len(),
{
    let mut n: usize = 0;
    let mut i: usize = 0;
    while i < s.len()
        invariant
            i <= s@.len(),
            n == count_char(s@.take(i as int), c),
            n <= i,
        decreases s.len() - i,
    {
        proof {
            assert(s@.take(i as int + 1).drop_last() =~= s@.take(i as int));
        }
        if s[i] == c {
            n = n + 1;
        }
        i = i + 1;
    }
    proof {
        assert(s@.take(s@.len() as int) =~= s@);
    }
    n
}

/// The nesting level of a namespace: one more than its dots, or 0 when it
/// is absent or empty.
pub open spec fn level_of(ns: Option<Seq<char>>) -> nat {
    match ns {
        Some(s) => if s.len() > 0 {
            1 + count_char(s, '.')
        } else {
            0
        },
        None => 0,
    }
}

/// The nesting level of a node.
pub fn get_level(node: &Node, interner: &Interner) -> (r: usize)
    requires
        node.ids_in(interner),
    ensures
        r == level_of(node.ns_text(interner)),
{
    match node.namespace {
        Some(ns) => {
            let s = str_to_chars(interner.resolve(ns));
            if s.len() > 0 {
                1 + count_char_exec(s.as_slice(), '.')
            } else {
                0
            }
        },
        None => 0,
    }
}

/// A backslash followed by `n`, as GraphViz reads a line break.
pub open spec fn backslash_n() -> Seq<char> {
    seq!['\\', 'n']
}

/// A node's label. Plain labels are the short name. Annotated labels of
/// nodes below the top level add the location, and, in ungrouped graphs,
/// the flavor and namespace.
pub open spec fn label_text(
    name: Seq<char>,
    ns: Option<Seq<char>>,
    flavor: Seq<char>,
    file: Option<Seq<char>>,
    line: Option<usize>,
    annotated: bool,
    grouped: bool,
) -> Seq<char> {
    let ns_text = match ns {
        Some(t) => t,
        None => Seq::empty(),
    };
    if !annotated || level_of(ns) < 1 {
        name
    } else if grouped {
        match (file, line) {
            (Some(f), Some(l)) => name + backslash_n() + seq!['('] + f + seq![':'] + decimal(l as nat)
                + seq![')'],
            _ => name,
        }
    } else {
        match (file, line) {
            (Some(f), Some(l)) => name + backslash_n() + backslash_n() + seq!['('] + f + seq![':']
                + decimal(l as nat) + seq![','] + backslash_n() + flavor + seq![' ', 'i', 'n', ' ']
                + ns_text + seq![')'],
            _ => name + backslash_n() + backslash_n() + seq!['('] + flavor + seq![' ', 'i', 'n', ' ']
                + ns_text + seq![')'],
        }
    }
}

/// The label of `node` under the given options.
pub open spec fn node_label(node: Node, interner: &Interner, annotated: bool, grouped: bool) -> Seq<char> {
    label_text(
        interner.str_of(node.name),
        node.ns_text(interner),
        flavor_text(node.flavor),
        opt_view(node.filename),
        node.line,
        annotated,
        grouped,
    )
}

/// The label of `node`.
pub fn make_label(node: &Node, interner: &Interner, annotated: bool, grouped: bool) -> (r: String)
    requires
        node.ids_in(interner),
    ensures
        r@ == node_label(*node, interner, annotated, grouped),
{
    let name = str_to_chars(interner.resolve(node.name));
    let level = get_level(node, interner);
    if !annotated || level < 1 {
        return chars_to_string(name.as_slice());
    }
    let ns_text: Vec<char> = match node.namespace {
        Some(ns) => str_to_chars(interner.resolve(ns)),
        None => Vec::new(),
    };
    let mut out = name;
    let ghost nm = out@;
    if grouped {
        match (&node.filename, node.line) {
            (Some(f), Some(l)) => {
                push_str(&mut out, "\\n(");
                push_str(&mut out, f.as_str());
                out.push(':');
                let d = decimal_chars(l);
                push_all(&mut out, d.as_slice());
                out.push(')');
                proof {
                    reveal_strlit("\\n(");
                    assert(out@ =~= nm + backslash_n() + seq!['('] + f@ + seq![':'] + decimal(l as nat)
                        + seq![')']);
                }
            },
            _ => {},
        }
    } else {
        let flavor = node.flavor.to_text();
        match (&node.filename, node.line) {
            (Some(f), Some(l)) => {
                push_str(&mut out, "\\n\\n(");
                push_str(&mut out, f.as_str());
                out.push(':');
                let d = decimal_chars(l);
                push_all(&mut out, d.as_slice());
                push_str(&mut out, ",\\n");
                push_str(&mut out, flavor.as_str());
                push_str(&mut out, " in ");
                push_all(&mut out, ns_text.as_slice());
                out.push(')');
                proof {
                    reveal_strlit("\\n\\n(");
                    reveal_strlit(",\\n");
                    reveal_strlit(" in ");
                    assert(out@ =~= nm + backslash_n() + backslash_n() + seq!['('] + f@ + seq![':']
                        + decimal(l as nat) + seq![','] + backslash_n() + flavor@ + seq![' ', 'i', 'n', ' ']
                        + ns_text@ + seq![')']);
                }
            },
            _ => {
                push_str(&mut out, "\\n\\n(");
                push_str(&mut out, flavor.as_str());
                push_str(&mut out, " in ");
                push_all(&mut out, ns_text.as_slice());
                out.push(')');
                proof {
                    reveal_strlit("\\n\\n(");
                    reveal_strlit(" in ");
                    assert(out@ =~= nm + backslash_n() + backslash_n() + seq!['('] + flavor@ + seq![
                        ' ',
                        'i',
                        'n',
                        ' ',
                    ] + ns_text@ + seq![')']);
                }
            },
        }
    }
    chars_to_string(out.as_slice())
}

/// The fill color of nodes when coloring is off.
pub open spec fn plain_fill() -> Seq<char> {
    seq!['#', 'f', 'f', 'f', 'f', 'f', 'f', 'b', '2']
}

/// Black text.
pub open spec fn black() -> Seq<char> {
    seq!['#', '0', '0', '0', '0', '0', '0']
}

/// White text.
pub open spec fn white() -> Seq<char> {
    seq!['#', 'f', 'f', 'f', 'f', 'f', 'f']
}

/// Text on a colored fill: the fill's lightness is 1 - level/10 (at least
/// 1/10), and text is black while that lightness is at least 1/2, that is
/// up to level 5, and white below.
pub open spec fn text_color_for(level: nat) -> Seq<char> {
    if level <= 5 {
        black()
    } else {
        white()
    }
}

/// A color string from its characters.
fn color_string(v: Vec<char>) -> (r: String)
    ensures
        r@ == v@,
{
    chars_to_string(v.as_slice())
}

/// The group of `file` in a colorizer table, if it has one.
pub open spec fn table_lookup(t: Seq<(Option<Seq<char>>, usize)>, file: Option<Seq<char>>) -> Option<usize>
    decreases t.len(),
{
    if t.len() == 0 {
        None
    } else if t.last().0 == file {
        Some(t.last().1)
    } else {
        table_lookup(t.drop_last(), file)
    }
}

/// The hue index after `i`, wrapping to 0 after the last of `hues`.
pub open spec fn next_hue(i: nat, hues: nat) -> nat {
    if i + 1 >= hues {
        0
    } else {
        (i + 1) as nat
    }
}

/// Assigns each source file a group, in the order the files are first
/// met, cycling through the available hues.
#[derive(Debug)]
pub struct Colorizer {
    colored: bool,
    num_hues: usize,
    idx_of: Vec<(Option<String>, usize)>,
    idx: usize,
}

impl Colorizer {
    /// The groups given so far, by file.
    pub closed spec fn table(&self) -> Seq<(Option<Seq<char>>, usize)> {
        Seq::new(self.idx_of@.len(), |i: int| (opt_view(self.idx_of@[i].0), self.idx_of@[i].1))
    }

    /// The group the next new file gets.
    pub closed spec fn next(&self) -> nat {
        self.idx as nat
    }

    /// Number of hues.
    pub closed spec fn hues(&self) -> nat {
        self.num_hues as nat
    }

    /// Whether colors are drawn.
    pub closed spec fn is_colored(&self) -> bool {
        self.colored
    }

    /// The next group is one of the hues.
    pub closed spec fn wf(&self) -> bool {
        self.num_hues >= 1 && self.idx < self.num_hues
    }

    /// A colorizer over `num_colors` hues (one when `num_colors` is 0).
    pub fn new(num_colors: usize, colored: bool) -> (r: Self)
        ensures
            r.wf(),
            r.hues() == if num_colors == 0 {
                1
            } else {
                num_colors as nat
            },
            r.table() == Seq::<(Option<Seq<char>>, usize)>::empty(),
            r.next() == 0,
            r.is_colored() == colored,
    {
        let n = if num_colors == 0 {
            1
        } else {
            num_colors
        };
        let r = Colorizer { colored, num_hues: n, idx_of: Vec::new(), idx: 0 };
        assert(r.table() =~= Seq::<(Option<Seq<char>>, usize)>::empty());
        r
    }

    /// The group of `file`: the one it was given before, or else the next
    /// group, after which the next group advances.
    pub fn group_of(&mut self, file: &Option<String>) -> (r: usize)
        requires
            old(self).wf(),
        ensures
            final(self).wf(),
            final(self).hues() == old(self).hues(),
            final(self).is_colored() == old(self).is_colored(),
            match table_lookup(old(self).table(), opt_view(*file)) {
                Some(g) => r == g && final(self).table() == old(self).table() && final(self).next() == old(
                    self,
                ).next(),
                None => r == old(self).next() && final(self).table() == old(self).table().push(
                    (opt_view(*file), r),
                ) && final(self).next() == next_hue(old(self).next(), old(self).hues()),
            },
    {
        let mut i = self.idx_of.len();
        let ghost t = self.table();
        proof {
            assert(t.take(i as int) =~= t);
        }
        while i > 0
            invariant
                i <= self.idx_of@.len(),
                t == self.table(),
                table_lookup(t, opt_view(*file)) == table_lookup(t.take(i as int), opt_view(*file)),
                self.wf(),
                self == old(self),
            decreases i,
        {
            proof {
                assert(t.take(i as int).drop_last() =~= t.take(i as int - 1));
                assert(t.take(i as int).last() == t[i as int - 1]);
            }
            let same = match (&self.idx_of[i - 1].0, file) {
                (Some(a), Some(b)) => {
                    let ac = str_to_chars(a.as_str());
                    let bc = str_to_chars(b.as_str());
                    crate::text::chars_eq(ac.as_slice(), bc.as_slice())
                },
                (None, None) => true,
                _ => false,
            };
            if same {
                return self.idx_of[i - 1].1;
            }
            i = i - 1;
        }
        proof {
            assert(t.take(0) =~= Seq::<(Option<Seq<char>>, usize)>::empty());
        }
        let result = self.idx;
        self.idx = if self.idx + 1 >= self.num_hues {
            0
        } else {
            self.idx + 1
        };
        let key = match file {
            Some(f) => Some(chars_to_string(str_to_chars(f.as_str()).as_slice())),
            None => None,
        };
        let ghost old_idx_of = self.idx_of@;
        self.idx_of.push((key, result));
        proof {
            assert(self.table() =~= t.push((opt_view(*file), result)));
        }
        result
    }

    /// Group, fill color and text color of `node`. With coloring, the fill
    /// is `fill(group, hues, level)`; without, a translucent white.
    pub fn make_colors<F: Fn(usize, usize, usize) -> String>(
        &mut self,
        node: &Node,
        interner: &Interner,
        fill: &F,
    ) -> (r: (usize, String, String))
        requires
            old(self).wf(),
            node.ids_in(interner),
            forall|g: usize, h: usize, l: usize| fill.requires((g, h, l)),
        ensures
            final(self).wf(),
            final(self).hues() == old(self).hues(),
            final(self).is_colored() == old(self).is_colored(),
            match table_lookup(old(self).table(), opt_view(node.filename)) {
                Some(g) => r.0 == g && final(self).table() == old(self).table() && final(self).next() == old(
                    self,
                ).next(),
                None => r.0 == old(self).next() && final(self).table() == old(self).table().push(
                    (opt_view(node.filename), r.0),
                ) && final(self).next() == next_hue(old(self).next(), old(self).hues()),
            },
            old(self).is_colored() ==> fill.ensures(
                (r.0, old(self).hues() as usize, level_of(node.ns_text(interner)) as usize),
                r.1,
            ),
            old(self).is_colored() ==> r.2@ == text_color_for(level_of(node.ns_text(interner))),
            !old(self).is_colored() ==> r.1@ == plain_fill() && r.2@ == black(),
    {
        let idx = self.group_of(&node.filename);
        if self.colored {
            let level = get_level(node, interner);
            let f = fill(idx, self.num_hues, level);
            let text = if level <= 5 {
                let v = vec!['#', '0', '0', '0', '0', '0', '0'];
                assert(v@ =~= black());
                color_string(v)
            } else {
                let v = vec!['#', 'f', 'f', 'f', 'f', 'f', 'f'];
                assert(v@ =~= white());
                color_string(v)
            };
            (idx, f, text)
        } else {
            let v = vec!['#', 'f', 'f', 'f', 'f', 'f', 'f', 'b', '2'];
            assert(v@ =~= plain_fill());
            let w = vec!['#', '0', '0', '0', '0', '0', '0'];
            assert(w@ =~= black());
            (idx, color_string(v), color_string(w))
        }
    }
}

/// The label made safe for GraphViz: each reserved word gets an `X`
/// appended, in the order `digraph`, `graph`, `cluster`, `subgraph`,
/// `node`; then `.` becomes `__`, `-` becomes `_`, and `*` is dropped.
pub open spec fn safe_label(name: Seq<char>) -> Seq<char> {
    let a = replace_all(name, seq!['d', 'i', 'g', 'r', 'a', 'p', 'h'], seq!['d', 'i', 'g', 'r', 'a', 'p', 'h', 'X']);
    let b = replace_all(a, seq!['g', 'r', 'a', 'p', 'h'], seq!['g', 'r', 'a', 'p', 'h', 'X']);
    let c = replace_all(b, seq!['c', 'l', 'u', 's', 't', 'e', 'r'], seq!['c', 'l', 'u', 's', 't', 'e', 'r', 'X']);
    let d = replace_all(c, seq!['s', 'u', 'b', 'g', 'r', 'a', 'p', 'h'], seq!['s', 'u', 'b', 'g', 'r', 'a', 'p', 'h', 'X']);
    let e = replace_all(d, seq!['n', 'o', 'd', 'e'], seq!['n', 'o', 'd', 'e', 'X']);
    let f = replace_all(e, seq!['.'], seq!['_', '_']);
    let g = replace_all(f, seq!['-'], seq!['_']);
    replace_all(g, seq!['*'], Seq::<char>::empty())
}

/// Replacing a pattern that does not occur changes nothing.
proof fn lemma_replace_absent(s: Seq<char>, pat: Seq<char>, rep: Seq<char>)
    requires
        !occurs_in(pat, s),
    ensures
        replace_all(s, pat, rep) == s,
    decreases s.len(),
{
    if pat.len() == 0 {
        assert(s.subrange(0int, 0int + pat.len()) =~= pat);
    } else if s.len() >= pat.len() {
        if s.subrange(0, pat.len() as int) == pat {
            assert(s.subrange(0int, 0int + pat.len()) == pat);
        } else {
            let t = s.subrange(1, s.len() as int);
            assert(!occurs_in(pat, t)) by {
                if occurs_in(pat, t) {
                    let k = choose|k: int| 0 <= k && k + pat.len() <= t.len() && #[trigger] t.subrange(k, k + pat.len()) == pat;
                    assert(s.subrange(k + 1, k + 1 + pat.len()) =~= t.subrange(k, k + pat.len()));
                }
            }
            lemma_replace_absent(t, pat, rep);
            assert(seq![s[0]] + t =~= s);
        }
    }
}

/// Replacing leaves no `c` when `c` is absent from `s` or is the pattern
/// itself, and the replacement holds no `c`.
proof fn lemma_replace_no_char(s: Seq<char>, pat: Seq<char>, rep: Seq<char>, c: char)
    requires
        !s.contains(c) || pat == seq![c],
        !rep.contains(c),
    ensures
        !replace_all(s, pat, rep).contains(c),
    decreases s.len(),
{
    if pat.len() == 0 || s.len() < pat.len() {
        if s.contains(c) {
            let i = choose|i: int| 0 <= i < s.len() && s[i] == c;
        }
    } else if s.subrange(0, pat.len() as int) == pat {
        let t = s.subrange(pat.len() as int, s.len() as int);
        assert(!t.contains(c) || pat == seq![c]) by {
            if t.contains(c) && pat != seq![c] {
                let i = choose|i: int| 0 <= i < t.len() && t[i] == c;
                assert(s[i + pat.len()] == c);
            }
        }
        lemma_replace_no_char(t, pat, rep, c);
        let r = replace_all(t, pat, rep);
        assert forall|i: int| 0 <= i < (rep + r).len() implies (rep + r)[i] != c by {
            if i < rep.len() {
                assert((rep + r)[i] == rep[i]);
            } else {
                assert((rep + r)[i] == r[i - rep.len()]);
            }
        }
    } else {
        let t = s.subrange(1, s.len() as int);
        assert(s[0] != c) by {
            if s[0] == c {
                if pat == seq![c] {
                    assert(s.subrange(0, 1) =~= seq![c]);
                }
            }
        }
        assert(!t.contains(c) || pat == seq![c]) by {
            if t.contains(c) && pat != seq![c] {
                let i = choose|i: int| 0 <= i < t.len() && t[i] == c;
                assert(s[i + 1] == c);
            }
        }
        lemma_replace_no_char(t, pat, rep, c);
        let r = replace_all(t, pat, rep);
        assert forall|i: int| 0 <= i < (seq![s[0]] + r).len() implies (seq![s[0]] + r)[i] != c by {
            if i > 0 {
                assert((seq![s[0]] + r)[i] == r[i - 1]);
            }
        }
    }
}

/// A label made safe holds no `.`, `-` or `*`; a name with no reserved
/// word and none of these characters is its own safe label.
pub proof fn lemma_safe_label(name: Seq<char>)
    ensures
        !safe_label(name).contains('.'),
        !safe_label(name).contains('-'),
        !safe_label(name).contains('*'),
        (!occurs_in(seq!['d', 'i', 'g', 'r', 'a', 'p', 'h'], name) && !occurs_in(seq!['g', 'r', 'a', 'p', 'h'], name)
            && !occurs_in(seq!['c', 'l', 'u', 's', 't', 'e', 'r'], name) && !occurs_in(
            seq!['s', 'u', 'b', 'g', 'r', 'a', 'p', 'h'],
            name,
        ) && !occurs_in(seq!['n', 'o', 'd', 'e'], name) && !name.contains('.') && !name.contains('-') && !name.contains('*'))
            ==> safe_label(name) == name,
{
    let a = replace_all(name, seq!['d', 'i', 'g', 'r', 'a', 'p', 'h'], seq!['d', 'i', 'g', 'r', 'a', 'p', 'h', 'X']);
    let b = replace_all(a, seq!['g', 'r', 'a', 'p', 'h'], seq!['g', 'r', 'a', 'p', 'h', 'X']);
    let c = replace_all(b, seq!['c', 'l', 'u', 's', 't', 'e', 'r'], seq!['c', 'l', 'u', 's', 't', 'e', 'r', 'X']);
    let d = replace_all(c, seq!['s', 'u', 'b', 'g', 'r', 'a', 'p', 'h'], seq!['s', 'u', 'b', 'g', 'r', 'a', 'p', 'h', 'X']);
    let e = replace_all(d, seq!['n', 'o', 'd', 'e'], seq!['n', 'o', 'd', 'e', 'X']);
    let f = replace_all(e, seq!['.'], seq!['_', '_']);
    let g = replace_all(f, seq!['-'], seq!['_']);
    let h = replace_all(g, seq!['*'], Seq::<char>::empty());
    assert(!seq!['_', '_'].contains('.')) by {
        assert(seq!['_', '_'][0] != '.' && seq!['_', '_'][1] != '.');
    }
    assert(!seq!['_'].contains('.') && !seq!['_'].contains('-')) by {
        assert(seq!['_'][0] == '_');
    }
    assert(!Seq::<char>::empty().contains('.') && !Seq::<char>::empty().contains('-') && !Seq::<char>::empty().contains('*'));
    lemma_replace_no_char(e, seq!['.'], seq!['_', '_'], '.');
    lemma_replace_no_char(f, seq!['-'], seq!['_'], '.');
    lemma_replace_no_char(f, seq!['-'], seq!['_'], '-');
    lemma_replace_no_char(g, seq!['*'], Seq::<char>::empty(), '.');
    lemma_replace_no_char(g, seq!['*'], Seq::<char>::empty(), '-');
    lemma_replace_no_char(g, seq!['*'], Seq::<char>::empty(), '*');
    if !occurs_in(seq!['d', 'i', 'g', 'r', 'a', 'p', 'h'], name) && !occurs_in(seq!['g', 'r', 'a', 'p', 'h'], name)
        && !occurs_in(seq!['c', 'l', 'u', 's', 't', 'e', 'r'], name) && !occurs_in(seq!['s', 'u', 'b', 'g', 'r', 'a', 'p', 'h'], name)
        && !occurs_in(seq!['n', 'o', 'd', 'e'], name) && !name.contains('.') && !name.contains('-') && !name.contains('*') {
        lemma_replace_absent(name, seq!['d', 'i', 'g', 'r', 'a', 'p', 'h'], seq!['d', 'i', 'g', 'r', 'a', 'p', 'h', 'X']);
        lemma_replace_absent(a, seq!['g', 'r', 'a', 'p', 'h'], seq!['g', 'r', 'a', 'p', 'h', 'X']);
        lemma_replace_absent(b, seq!['c', 'l', 'u', 's', 't', 'e', 'r'], seq!['c', 'l', 'u', 's', 't', 'e', 'r', 'X']);
        lemma_replace_absent(c, seq!['s', 'u', 'b', 'g', 'r', 'a', 'p', 'h'], seq!['s', 'u', 'b', 'g', 'r', 'a', 'p', 'h', 'X']);
        lemma_replace_absent(d, seq!['n', 'o', 'd', 'e'], seq!['n', 'o', 'd', 'e', 'X']);
        lemma_char_absent(e, '.');
        lemma_replace_absent(e, seq!['.'], seq!['_', '_']);
        lemma_char_absent(f, '-');
        lemma_replace_absent(f, seq!['-'], seq!['_']);
        lemma_char_absent(g, '*');
        lemma_replace_absent(g, seq!['*'], Seq::<char>::empty());
    }
}

/// A character that does not occur is not an occurring one-character
/// pattern.
proof fn lemma_char_absent(s: Seq<char>, c: char)
    requires
        !s.contains(c),
    ensures
        !occurs_in(seq![c], s),
{
    if occurs_in(seq![c], s) {
        let k = choose|k: int| 0 <= k && k + seq![c].len() <= s.len() && #[trigger] s.subrange(k, k + seq![c].len()) == seq![c];
        assert(s.subrange(k, k + 1)[0] == s[k]);
    }
}

/// Replace `pat` by `rep` in `s` (all three given as character vectors).
fn replace_step(s: Vec<char>, pat: Vec<char>, rep: Vec<char>) -> (r: Vec<char>)
    ensures
        r@ == replace_all(s@, pat@, rep@),
{
    replace_chars(s.as_slice(), pat.as_slice(), rep.as_slice())
}

/// Escape GraphViz reserved words and problematic characters so the label can
/// be used as a node/subgraph identifier.
pub fn make_safe_label(name: &str) -> (r: String)
    ensures
        r@ == safe_label(name@),
{
    let s = str_to_chars(name);
    let p0 = vec!['d', 'i', 'g', 'r', 'a', 'p', 'h'];
    assert(p0@ =~= seq!['d', 'i', 'g', 'r', 'a', 'p', 'h']);
    let r0 = vec!['d', 'i', 'g', 'r', 'a', 'p', 'h', 'X'];
    assert(r0@ =~= seq!['d', 'i', 'g', 'r', 'a', 'p', 'h', 'X']);
    let s = replace_step(s, p0, r0);
    let p1 = vec!['g', 'r', 'a', 'p', 'h'];
    assert(p1@ =~= seq!['g', 'r', 'a', 'p', 'h']);
    let r1 = vec!['g', 'r', 'a', 'p', 'h', 'X'];
    assert(r1@ =~= seq!['g', 'r', 'a', 'p', 'h', 'X']);
    let s = replace_step(s, p1, r1);
    let p2 = vec!['c', 'l', 'u', 's', 't', 'e', 'r'];
    assert(p2@ =~= seq!['c', 'l', 'u', 's', 't', 'e', 'r']);
    let r2 = vec!['c', 'l', 'u', 's', 't', 'e', 'r', 'X'];
    assert(r2@ =~= seq!['c', 'l', 'u', 's', 't', 'e', 'r', 'X']);
    let s = replace_step(s, p2, r2);
    let p3 = vec!['s', 'u', 'b', 'g', 'r', 'a', 'p', 'h'];
    assert(p3@ =~= seq!['s', 'u', 'b', 'g', 'r', 'a', 'p', 'h']);
    let r3 = vec!['s', 'u', 'b', 'g', 'r', 'a', 'p', 'h', 'X'];
    assert(r3@ =~= seq!['s', 'u', 'b', 'g', 'r', 'a', 'p', 'h', 'X']);
    let s = replace_step(s, p3, r3);
    let p4 = vec!['n', 'o', 'd', 'e'];
    assert(p4@ =~= seq!['n', 'o', 'd', 'e']);
    let r4 = vec!['n', 'o', 'd', 'e', 'X'];
    assert(r4@ =~= seq!['n', 'o', 'd', 'e', 'X']);
    let s = replace_step(s, p4, r4);
    let p5 = vec!['.'];
    assert(p5@ =~= seq!['.']);
    let r5 = vec!['_', '_'];
    assert(r5@ =~= seq!['_', '_']);
    let s = replace_step(s, p5, r5);
    let p6 = vec!['-'];
    assert(p6@ =~= seq!['-']);
    let r6 = vec!['_'];
    assert(r6@ =~= seq!['_']);
    let s = replace_step(s, p6, r6);
    let p7 = vec!['*'];
    assert(p7@ =~= seq!['*']);
    let r7: Vec<char> = Vec::new();
    assert(r7@ =~= Seq::<char>::empty());
    let s = replace_step(s, p7, r7);
    chars_to_string(s.as_slice())
}

/// Node order: nodes without a namespace first, then by namespace, then by
/// name.
pub open spec fn name_pair_before(
    nsa: Option<Seq<char>>,
    na: Seq<char>,
    nsb: Option<Seq<char>>,
    nb: Seq<char>,
) -> bool {
    match nsa {
        None => match nsb {
            None => seq_less(na, nb),
            Some(_) => true,
        },
        Some(x) => match nsb {
            None => false,
            Some(y) => seq_less(x, y) || (x == y && seq_less(na, nb)),
        },
    }
}

/// `a` comes before `b` in node order.
pub open spec fn node_before(a: Node, b: Node, interner: &Interner) -> bool {
    name_pair_before(
        a.ns_text(interner),
        interner.str_of(a.name),
        b.ns_text(interner),
        interner.str_of(b.name),
    )
}

/// The sort key of a node with namespace `ns` and name `name`.
pub open spec fn node_key_v(ns: Option<Seq<char>>, name: Seq<char>) -> Seq<KeyV> {
    seq![
        KeyV::Num(if ns is None {
            0nat
        } else {
            1nat
        }),
        KeyV::Text(
            match ns {
                Some(x) => x,
                None => Seq::<char>::empty(),
            },
        ),
        KeyV::Text(name),
    ]
}

/// Sort keys order nodes as `name_pair_before` does.
pub proof fn lemma_key_order(nsa: Option<Seq<char>>, na: Seq<char>, nsb: Option<Seq<char>>, nb: Seq<char>)
    ensures
        key_less(node_key_v(nsa, na), node_key_v(nsb, nb)) == name_pair_before(nsa, na, nsb, nb),
{
    let ka = node_key_v(nsa, na);
    let kb = node_key_v(nsb, nb);
    let a1 = ka.drop_first();
    let b1 = kb.drop_first();
    let a2 = a1.drop_first();
    let b2 = b1.drop_first();
    assert(a1[0] == ka[1] && b1[0] == kb[1]);
    assert(a2[0] == ka[2] && b2[0] == kb[2]);
    assert(a2.drop_first().len() == 0 && b2.drop_first().len() == 0);
    assert(key_less(a2.drop_first(), b2.drop_first()) == false);
    assert(key_less(a2, b2) == part_less(ka[2], kb[2]));
    assert(key_less(a1, b1) == (part_less(ka[1], kb[1]) || (ka[1] == kb[1] && key_less(a2, b2))));
    lemma_part_cases(ka[1], kb[1]);
    lemma_part_cases(ka[0], kb[0]);
    lemma_part_cases(ka[2], kb[2]);
}

/// The sort key of a node.
fn node_key(node: &Node, interner: &Interner) -> (r: Vec<KeyPart>)
    requires
        node.ids_in(interner),
    ensures
        key_view(r@) == node_key_v(node.ns_text(interner), interner.str_of(node.name)),
{
    let name = str_to_chars(interner.resolve(node.name));
    let mut k: Vec<KeyPart> = Vec::new();
    match node.namespace {
        Some(ns) => {
            k.push(KeyPart::Num(1));
            k.push(KeyPart::Text(str_to_chars(interner.resolve(ns))));
        },
        None => {
            k.push(KeyPart::Num(0));
            let e: Vec<char> = Vec::new();
            assert(e@ =~= Seq::<char>::empty());
            k.push(KeyPart::Text(e));
        },
    }
    k.push(KeyPart::Text(name));
    assert(key_view(k@) =~= node_key_v(node.ns_text(interner), interner.str_of(node.name)));
    k
}

/// The arena and the `defined` table agree with the interner.
pub open spec fn arena_ok(nodes: Seq<Node>, defined: Seq<bool>, interner: &Interner) -> bool {
    &&& defined.len() == nodes.len()
    &&& interner.wf()
    &&& forall|i: int| 0 <= i < nodes.len() ==> #[trigger] nodes[i].ids_in(interner)
}

/// `ord` lists each defined node once, in node order.
pub open spec fn defined_in_order(ord: Seq<usize>, nodes: Seq<Node>, defined: Seq<bool>, interner: &Interner) -> bool {
    &&& forall|k: int| 0 <= k < ord.len() ==> #[trigger] ord[k] < nodes.len() && defined[ord[k] as int]
    &&& forall|i: int| 0 <= i < nodes.len() && #[trigger] defined[i] ==> ord.contains(i as usize)
    &&& forall|a: int, b: int| 0 <= a < ord.len() && 0 <= b < ord.len() && a != b ==> #[trigger] ord[a] != #[trigger] ord[b]
    &&& forall|a: int, b: int|
        0 <= a < b < ord.len() ==> !node_before(nodes[#[trigger] ord[b] as int], nodes[#[trigger] ord[a] as int], interner)
}

/// The defined nodes, in node order.
pub fn sorted_defined(nodes: &Vec<Node>, defined: &Vec<bool>, interner: &Interner) -> (r: Vec<usize>)
    requires
        arena_ok(nodes@, defined@, interner),
    ensures
        defined_in_order(r@, nodes@, defined@, interner),
        r@.len() <= nodes@.len(),
{
    let mut items: Vec<(Vec<KeyPart>, usize)> = Vec::new();
    let mut i: usize = 0;
    while i < nodes.len()
        invariant
            i <= nodes@.len(),
            items@.len() <= i,
            arena_ok(nodes@, defined@, interner),
            forall|k: int| 0 <= k < items@.len() ==> #[trigger] items@[k].1 < i && defined@[items@[k].1 as int],
            forall|a: int, b: int| 0 <= a < b < items@.len() ==> #[trigger] items@[a].1 < #[trigger] items@[b].1,
            forall|j: int| 0 <= j < i && #[trigger] defined@[j] ==> exists|k: int| 0 <= k < items@.len() && items@[k].1 == j,
            forall|k: int|
                0 <= k < items@.len() ==> key_view(#[trigger] items@[k].0@) == node_key_v(
                    nodes@[items@[k].1 as int].ns_text(interner),
                    interner.str_of(nodes@[items@[k].1 as int].name),
                ),
        decreases nodes.len() - i,
    {
        let ghost it0 = items@;
        if defined[i] {
            let key = node_key(&nodes[i], interner);
            items.push((key, i));
            proof {
                assert(items@[items@.len() - 1].1 == i);
            }
        }
        proof {
            assert forall|j: int| 0 <= j < i + 1 && #[trigger] defined@[j] implies exists|k: int|
                0 <= k < items@.len() && items@[k].1 == j by {
                if j == i {
                    assert(items@[items@.len() - 1].1 == i);
                } else {
                    let k = choose|k: int| 0 <= k < it0.len() && it0[k].1 == j;
                    assert(items@[k] == it0[k]);
                }
            }
        }
        i = i + 1;
    }
    let ghost before = items@;
    proof {
        assert(ids_distinct(before)) by {
            assert forall|a: int, b: int| 0 <= a < before.len() && 0 <= b < before.len() && a != b implies #[trigger] before[a].1 != #[trigger] before[b].1 by {
                if a < b {
                    assert(before[a].1 < before[b].1);
                } else {
                    assert(before[b].1 < before[a].1);
                }
            }
        }
    }
    let sorted = sort_by_key(items);
    proof {
        lemma_reorder_ids(before, sorted@);
    }
    let mut r: Vec<usize> = Vec::new();
    let mut k: usize = 0;
    while k < sorted.len()
        invariant
            k <= sorted@.len(),
            sorted@.len() <= nodes@.len(),
            r@.len() == k,
            forall|j: int| 0 <= j < k ==> #[trigger] r@[j] == sorted@[j].1,
        decreases sorted.len() - k,
    {
        r.push(sorted[k].1);
        k = k + 1;
    }
    proof {
        let ord = r@;
        let s = sorted@;
        assert forall|k: int| 0 <= k < ord.len() implies #[trigger] ord[k] < nodes@.len() && defined@[ord[k] as int] by {
            assert(before.contains(s[k]));
            let p = choose|p: int| 0 <= p < before.len() && before[p] == s[k];
            assert(before[p].1 < nodes@.len());
        }
        assert forall|j: int| 0 <= j < nodes@.len() && #[trigger] defined@[j] implies ord.contains(j as usize) by {
            let p = choose|p: int| 0 <= p < before.len() && before[p].1 == j;
            assert(s.contains(before[p]));
            let q = choose|q: int| 0 <= q < s.len() && s[q] == before[p];
            assert(ord[q] == j);
        }
        assert forall|a: int, b: int| 0 <= a < b < ord.len() implies !node_before(
            nodes@[#[trigger] ord[b] as int],
            nodes@[#[trigger] ord[a] as int],
            interner,
        ) by {
            assert(before.contains(s[a]));
            assert(before.contains(s[b]));
            let pa = choose|p: int| 0 <= p < before.len() && before[p] == s[a];
            let pb = choose|p: int| 0 <= p < before.len() && before[p] == s[b];
            let na = nodes@[ord[a] as int];
            let nb = nodes@[ord[b] as int];
            assert(key_view(before[pa].0@) == node_key_v(na.ns_text(interner), interner.str_of(na.name)));
            assert(key_view(before[pb].0@) == node_key_v(nb.ns_text(interner), interner.str_of(nb.name)));
            lemma_key_order(nb.ns_text(interner), interner.str_of(nb.name), na.ns_text(interner), interner.str_of(na.name));
        }
        assert forall|a: int, b: int| 0 <= a < ord.len() && 0 <= b < ord.len() && a != b implies #[trigger] ord[a] != #[trigger] ord[b] by {
            assert(s[a].1 != s[b].1);
        }
    }
    r
}

/// The file of each node of `ord`.
pub open spec fn files_of(nodes: Seq<Node>, ord: Seq<usize>) -> Seq<Option<Seq<char>>> {
    Seq::new(ord.len(), |k: int| opt_view(nodes[ord[k] as int].filename))
}

/// The different values of `s`, in the order they first occur.
pub open spec fn distinct_items(s: Seq<Option<Seq<char>>>) -> Seq<Option<Seq<char>>>
    decreases s.len(),
{
    if s.len() == 0 {
        Seq::empty()
    } else {
        let d = distinct_items(s.drop_last());
        if d.contains(s.last()) {
            d
        } else {
            d.push(s.last())
        }
    }
}

/// The last position of `x` in `d`, or -1.
pub open spec fn position_of(d: Seq<Option<Seq<char>>>, x: Option<Seq<char>>) -> int
    decreases d.len(),
{
    if d.len() == 0 {
        -1
    } else if d.last() == x {
        d.len() - 1
    } else {
        position_of(d.drop_last(), x)
    }
}

/// The color group of the `k`th node: the rank of its file among the files
/// met so far.
pub open spec fn group_at(files: Seq<Option<Seq<char>>>, k: int) -> int {
    position_of(distinct_items(files.take(k + 1)), files[k])
}

/// A colorizer table that gives the `j`th file of `d` the group `j`.
pub open spec fn ranked(d: Seq<Option<Seq<char>>>) -> Seq<(Option<Seq<char>>, usize)> {
    Seq::new(d.len(), |j: int| (d[j], j as usize))
}

proof fn lemma_position(d: Seq<Option<Seq<char>>>, x: Option<Seq<char>>)
    ensures
        d.contains(x) ==> 0 <= position_of(d, x) < d.len() && d[position_of(d, x)] == x,
        !d.contains(x) ==> position_of(d, x) == -1,
    decreases d.len(),
{
    if d.len() > 0 {
        lemma_position(d.drop_last(), x);
        if d.last() != x {
            if d.contains(x) {
                let w = choose|w: int| 0 <= w < d.len() && d[w] == x;
                assert(d.drop_last()[w] == x);
            }
            if d.drop_last().contains(x) {
                let w = choose|w: int| 0 <= w < d.drop_last().len() && d.drop_last()[w] == x;
                assert(d[w] == x);
            }
        }
    }
}

proof fn lemma_ranked_lookup(d: Seq<Option<Seq<char>>>, x: Option<Seq<char>>)
    requires
        d.len() <= usize::MAX,
    ensures
        table_lookup(ranked(d), x) == if d.contains(x) {
            Some(position_of(d, x) as usize)
        } else {
            None::<usize>
        },
    decreases d.len(),
{
    lemma_position(d, x);
    if d.len() > 0 {
        assert(ranked(d).drop_last() =~= ranked(d.drop_last()));
        lemma_ranked_lookup(d.drop_last(), x);
        lemma_position(d.drop_last(), x);
        if d.last() != x {
            if d.contains(x) {
                let w = choose|w: int| 0 <= w < d.len() && d[w] == x;
                assert(d.drop_last()[w] == x);
            }
            if d.drop_last().contains(x) {
                let w = choose|w: int| 0 <= w < d.drop_last().len() && d.drop_last()[w] == x;
                assert(d[w] == x);
            }
        }
    }
}

proof fn lemma_distinct_grows(s: Seq<Option<Seq<char>>>, m: int)
    requires
        0 <= m <= s.len(),
    ensures
        distinct_items(s.take(m)).len() <= distinct_items(s).len(),
        distinct_items(s).len() <= s.len(),
    decreases s.len() - m,
{
    if m < s.len() {
        lemma_distinct_grows(s, m + 1);
        assert(s.take(m + 1).drop_last() =~= s.take(m));
    } else {
        assert(s.take(m) =~= s);
    }
    lemma_distinct_len(s);
}

proof fn lemma_distinct_len(s: Seq<Option<Seq<char>>>)
    ensures
        distinct_items(s).len() <= s.len(),
    decreases s.len(),
{
    if s.len() > 0 {
        lemma_distinct_len(s.drop_last());
    }
}

/// Whether `x` is among the files of `d`.
fn has_file(d: &Vec<Option<String>>, x: &Option<String>) -> (r: bool)
    ensures
        r == Seq::new(d@.len(), |j: int| opt_view(d@[j])).contains(opt_view(*x)),
{
    let ghost dv = Seq::new(d@.len(), |j: int| opt_view(d@[j]));
    let mut j: usize = 0;
    while j < d.len()
        invariant
            j <= d@.len(),
            dv == Seq::new(d@.len(), |j: int| opt_view(d@[j])),
            forall|w: int| 0 <= w < j ==> dv[w] != opt_view(*x),
        decreases d.len() - j,
    {
        let same = match (&d[j], x) {
            (Some(a), Some(b)) => {
                let ac = str_to_chars(a.as_str());
                let bc = str_to_chars(b.as_str());
                crate::text::chars_eq(ac.as_slice(), bc.as_slice())
            },
            (None, None) => true,
            _ => false,
        };
        if same {
            assert(dv[j as int] == opt_view(*x));
            return true;
        }
        j = j + 1;
    }
    false
}

/// A copy of an optional string.
fn copy_opt(x: &Option<String>) -> (r: Option<String>)
    ensures
        opt_view(r) == opt_view(*x),
{
    match x {
        Some(s) => Some(chars_to_string(str_to_chars(s.as_str()).as_slice())),
        None => None,
    }
}

/// The different files of the nodes of `ord`, in the order first met.
fn distinct_files(nodes: &Vec<Node>, ord: &Vec<usize>) -> (r: Vec<Option<String>>)
    requires
        forall|k: int| 0 <= k < ord@.len() ==> #[trigger] ord@[k] < nodes@.len(),
    ensures
        Seq::new(r@.len(), |j: int| opt_view(r@[j])) == distinct_items(files_of(nodes@, ord@)),
{
    let ghost files = files_of(nodes@, ord@);
    let mut d: Vec<Option<String>> = Vec::new();
    let mut k: usize = 0;
    proof {
        assert(files.take(0) =~= Seq::<Option<Seq<char>>>::empty());
        assert(Seq::new(d@.len(), |j: int| opt_view(d@[j])) =~= Seq::<Option<Seq<char>>>::empty());
    }
    while k < ord.len()
        invariant
            k <= ord@.len(),
            files == files_of(nodes@, ord@),
            forall|k: int| 0 <= k < ord@.len() ==> #[trigger] ord@[k] < nodes@.len(),
            Seq::new(d@.len(), |j: int| opt_view(d@[j])) == distinct_items(files.take(k as int)),
        decreases ord.len() - k,
    {
        proof {
            assert(files.take(k as int + 1).drop_last() =~= files.take(k as int));
            assert(files.take(k as int + 1).last() == files[k as int]);
        }
        let f = &nodes[ord[k]].filename;
        if !has_file(&d, f) {
            let ghost d0 = d@;
            d.push(copy_opt(f));
            proof {
                assert(Seq::new(d@.len(), |j: int| opt_view(d@[j])) =~= Seq::new(
                    d0.len(),
                    |j: int| opt_view(d0[j]),
                ).push(opt_view(*f)));
            }
        }
        k = k + 1;
    }
    proof {
        assert(files.take(ord@.len() as int) =~= files);
    }
    d
}

/// A node of the visual graph.
#[derive(Debug)]
pub struct VisualNode {
    /// GraphViz-safe identifier (no dots, no reserved words).
    pub id: String,
    /// Human-readable label.
    pub label: String,
    /// Node flavor as a word (e.g. `function`).
    pub flavor: String,
    /// Fill color in `#rrggbbaa` hex.
    pub fill_color: String,
    /// Font color in `#rrggbb` hex.
    pub text_color: String,
    /// Group index (used for the GraphViz `group` attribute).
    pub group: usize,
}

/// Options controlling what gets drawn in the visual graph.
#[derive(Debug, Clone, Copy)]
pub struct VisualOptions {
    pub draw_defines: bool,
    pub draw_uses: bool,
    pub colored: bool,
    pub grouped: bool,
    pub annotated: bool,
}

impl VisualOptions {
    /// Options from command-line flags: uses edges alone are drawn when
    /// neither kind of edge is asked for.
    pub fn from_flags(defines: bool, uses: bool, colored: bool, grouped: bool, annotated: bool) -> (r: Self)
        ensures
            r.draw_defines == defines,
            r.draw_uses == (uses || !defines),
            r.colored == colored,
            r.grouped == grouped,
            r.annotated == annotated,
    {
        let (draw_defines, draw_uses) = if !defines && !uses {
            (false, true)
        } else {
            (defines, uses)
        };
        VisualOptions { draw_defines, draw_uses, colored, grouped, annotated }
    }

    /// The options for drawing a module graph: its uses edges alone, with
    /// the coloring, grouping and annotation of `self`.
    pub fn for_module_graph(&self) -> (r: Self)
        ensures
            !r.draw_defines,
            r.draw_uses,
            r.colored == self.colored,
            r.grouped == self.grouped,
            r.annotated == self.annotated,
    {
        VisualOptions {
            draw_defines: false,
            draw_uses: true,
            colored: self.colored,
            grouped: self.grouped,
            annotated: self.annotated,
        }
    }
}

/// `v` shows `node`, in color group `group`, under `options`; the fill of
/// a colored node is checked apart.
pub open spec fn shows(v: VisualNode, node: Node, interner: &Interner, options: VisualOptions, group: int) -> bool {
    &&& v.id@ == safe_label(node.full_name(interner))
    &&& v.label@ == node_label(node, interner, options.annotated, options.grouped)
    &&& v.flavor@ == flavor_text(node.flavor)
    &&& v.group == group
    &&& options.colored ==> v.text_color@ == text_color_for(level_of(node.ns_text(interner)))
    &&& !options.colored ==> v.fill_color@ == plain_fill() && v.text_color@ == black()
}

/// The visual nodes of the nodes of `ord`, in that order. A colored
/// node's fill is `fill(group, hues, level)`, with one hue more than there
/// are different files.
pub fn build_nodes<F: Fn(usize, usize, usize) -> String>(
    nodes: &Vec<Node>,
    ord: &Vec<usize>,
    interner: &Interner,
    options: &VisualOptions,
    fill: &F,
) -> (r: Vec<VisualNode>)
    requires
        interner.wf(),
        ord@.len() < usize::MAX,
        forall|i: int| 0 <= i < nodes@.len() ==> #[trigger] nodes@[i].ids_in(interner),
        forall|k: int| 0 <= k < ord@.len() ==> #[trigger] ord@[k] < nodes@.len(),
        forall|g: usize, h: usize, l: usize| fill.requires((g, h, l)),
    ensures
        r@.len() == ord@.len(),
        forall|k: int|
            0 <= k < ord@.len() ==> shows(
                #[trigger] r@[k],
                nodes@[ord@[k] as int],
                interner,
                *options,
                group_at(files_of(nodes@, ord@), k),
            ),
        forall|k: int|
            0 <= k < ord@.len() && options.colored ==> fill.ensures(
                (
                    #[trigger] r@[k].group,
                    (distinct_items(files_of(nodes@, ord@)).len() + 1) as usize,
                    level_of(nodes@[ord@[k] as int].ns_text(interner)) as usize,
                ),
                r@[k].fill_color,
            ),
{
    let ghost files = files_of(nodes@, ord@);
    let dist = distinct_files(nodes, ord);
    let ghost dd = distinct_items(files);
    proof {
        lemma_distinct_len(files);
        assert(dist@.len() == Seq::new(dist@.len(), |j: int| opt_view(dist@[j])).len());
    }
    let hues = dist.len() + 1;
    let mut colorizer = Colorizer::new(hues, options.colored);
    let mut out: Vec<VisualNode> = Vec::new();
    let mut k: usize = 0;
    proof {
        assert(files.take(0) =~= Seq::<Option<Seq<char>>>::empty());
        assert(ranked(distinct_items(files.take(0))) =~= colorizer.table());
    }
    while k < ord.len()
        invariant
            k <= ord@.len(),
            files == files_of(nodes@, ord@),
            dd == distinct_items(files),
            hues == dd.len() + 1,
            interner.wf(),
            forall|i: int| 0 <= i < nodes@.len() ==> #[trigger] nodes@[i].ids_in(interner),
            forall|k: int| 0 <= k < ord@.len() ==> #[trigger] ord@[k] < nodes@.len(),
            forall|g: usize, h: usize, l: usize| fill.requires((g, h, l)),
            colorizer.wf(),
            colorizer.hues() == hues,
            colorizer.is_colored() == options.colored,
            colorizer.table() == ranked(distinct_items(files.take(k as int))),
            colorizer.next() == distinct_items(files.take(k as int)).len(),
            out@.len() == k,
            forall|j: int|
                0 <= j < k ==> shows(#[trigger] out@[j], nodes@[ord@[j] as int], interner, *options, group_at(files, j)),
            forall|j: int|
                0 <= j < k && options.colored ==> fill.ensures(
                    (
                        #[trigger] out@[j].group,
                        hues,
                        level_of(nodes@[ord@[j] as int].ns_text(interner)) as usize,
                    ),
                    out@[j].fill_color,
                ),
        decreases ord.len() - k,
    {
        let node = &nodes[ord[k]];
        let ghost x = files[k as int];
        let ghost dk = distinct_items(files.take(k as int));
        proof {
            assert(files.take(k as int + 1).drop_last() =~= files.take(k as int));
            assert(files.take(k as int + 1).last() == x);
            assert(x == opt_view(node.filename));
            lemma_distinct_len(files.take(k as int));
            lemma_distinct_grows(files, k as int + 1);
            lemma_ranked_lookup(dk, x);
            lemma_position(dk, x);
            lemma_position(dk.push(x), x);
        }
        let (group, fill_color, text_color) = colorizer.make_colors(node, interner, fill);
        proof {
            let dk1 = distinct_items(files.take(k as int + 1));
            if dk.contains(x) {
                assert(dk1 == dk);
            } else {
                assert(dk1 == dk.push(x));
                assert(colorizer.table() =~= ranked(dk1));
            }
            assert(group == group_at(files, k as int));
        }
        let full = node.get_name(interner);
        let id = make_safe_label(full.as_str());
        let label = make_label(node, interner, options.annotated, options.grouped);
        let flavor = node.flavor.to_text();
        out.push(VisualNode { id, label, flavor, fill_color, text_color, group });
        k = k + 1;
    }
    out
}

/// A directed edge of the visual graph.
#[derive(Debug)]
pub struct VisualEdge {
    /// Index into the root graph's nodes of the source.
    pub source_idx: usize,
    /// Index into the root graph's nodes of the target.
    pub target_idx: usize,
    /// `uses` or `defines`.
    pub flavor: String,
    /// Edge color in hex.
    pub color: String,
}

/// The word of a defines edge.
pub open spec fn defines_word() -> Seq<char> {
    seq!['d', 'e', 'f', 'i', 'n', 'e', 's']
}

/// The word of a uses edge.
pub open spec fn uses_word() -> Seq<char> {
    seq!['u', 's', 'e', 's']
}

/// The color of defines edges.
pub open spec fn defines_color() -> Seq<char> {
    seq!['#', '8', '3', '8', 'b', '8', 'b']
}

/// `e` is an edge of the table `table`, between nodes of `ord`, with the
/// given word and color.
pub open spec fn edge_of(
    e: VisualEdge,
    ord: Seq<usize>,
    table: Seq<ValueSet>,
    word: Seq<char>,
    color: Seq<char>,
) -> bool {
    &&& e.source_idx < ord.len()
    &&& e.target_idx < ord.len()
    &&& e.flavor@ == word
    &&& e.color@ == color
    &&& ord[e.source_idx as int] < table.len()
    &&& table[ord[e.source_idx as int] as int]@.contains(ord[e.target_idx as int])
}

/// The position of each node in `ord`, by node id.
fn positions(ord: &Vec<usize>, n: usize) -> (r: Vec<Option<usize>>)
    requires
        forall|k: int| 0 <= k < ord@.len() ==> #[trigger] ord@[k] < n,
        forall|a: int, b: int| 0 <= a < ord@.len() && 0 <= b < ord@.len() && a != b ==> #[trigger] ord@[a] != #[trigger] ord@[b],
    ensures
        r@.len() == n,
        forall|i: int| 0 <= i < n ==> match #[trigger] r@[i] {
            Some(k) => k < ord@.len() && ord@[k as int] == i,
            None => !ord@.contains(i as usize),
        },
{
    let mut r: Vec<Option<usize>> = Vec::new();
    let mut i: usize = 0;
    while i < n
        invariant
            i <= n,
            r@.len() == i,
            forall|j: int| 0 <= j < i ==> #[trigger] r@[j] == None::<usize>,
        decreases n - i,
    {
        r.push(None);
        i = i + 1;
    }
    let mut k: usize = 0;
    while k < ord.len()
        invariant
            k <= ord@.len(),
            r@.len() == n,
            forall|k: int| 0 <= k < ord@.len() ==> #[trigger] ord@[k] < n,
            forall|a: int, b: int| 0 <= a < ord@.len() && 0 <= b < ord@.len() && a != b ==> #[trigger] ord@[a] != #[trigger] ord@[b],
            forall|i: int| 0 <= i < n ==> match #[trigger] r@[i] {
                Some(j) => j < k && ord@[j as int] == i,
                None => forall|j: int| 0 <= j < k ==> ord@[j] != i,
            },
        decreases ord.len() - k,
    {
        let ghost r0 = r@;
        r.set(ord[k], Some(k));
        proof {
            assert forall|i: int| 0 <= i < n implies match #[trigger] r@[i] {
                Some(j) => j < k + 1 && ord@[j as int] == i,
                None => forall|j: int| 0 <= j < k + 1 ==> ord@[j] != i,
            } by {
                if i == ord@[k as int] {
                } else {
                    assert(r@[i] == r0[i]);
                }
            }
        }
        k = k + 1;
    }
    proof {
        assert forall|i: int| 0 <= i < n implies match #[trigger] r@[i] {
            Some(k) => k < ord@.len() && ord@[k as int] == i,
            None => !ord@.contains(i as usize),
        } by {
            if r@[i] is None && ord@.contains(i as usize) {
                let j = choose|j: int| 0 <= j < ord@.len() && ord@[j] == i as usize;
                assert(ord@[j] != i);
            }
        }
    }
    r
}

/// Append to `out` an edge for every entry of `table` between nodes of
/// `ord`: sources in id order, targets in set order.
fn add_edges(
    table: &Vec<ValueSet>,
    pos: &Vec<Option<usize>>,
    ord: Ghost<Seq<usize>>,
    defines: bool,
    out: &mut Vec<VisualEdge>,
)
    requires
        pos@.len() == table@.len(),
        forall|i: int| 0 <= i < pos@.len() ==> match #[trigger] pos@[i] {
            Some(k) => k < ord@.len() && ord@[k as int] == i,
            None => !ord@.contains(i as usize),
        },
        forall|k: int| 0 <= k < ord@.len() ==> #[trigger] ord@[k] < pos@.len(),
        forall|a: int, b: int| 0 <= a < ord@.len() && 0 <= b < ord@.len() && a != b ==> #[trigger] ord@[a] != #[trigger] ord@[b],
        forall|i: int, m: int| 0 <= i < table@.len() && 0 <= m < table@[i]@.len() ==> #[trigger] table@[i]@[m] < pos@.len(),
        forall|i: int| 0 <= i < table@.len() ==> (#[trigger] table@[i]).wf(),
    ensures
        final(out)@.len() >= old(out)@.len(),
        final(out)@.subrange(0, old(out)@.len() as int) == old(out)@,
        forall|j: int|
            old(out)@.len() <= j < final(out)@.len() ==> edge_of(
                #[trigger] final(out)@[j],
                ord@,
                table@,
                if defines {
                    defines_word()
                } else {
                    uses_word()
                },
                if defines {
                    defines_color()
                } else {
                    black()
                },
            ),
        forall|a: int, b: int|
            0 <= a < ord@.len() && 0 <= b < ord@.len() && table@[#[trigger] ord@[a] as int]@.contains(#[trigger] ord@[b])
                ==> exists|j: int|
                old(out)@.len() <= j < final(out)@.len() && final(out)@[j].source_idx == a
                    && final(out)@[j].target_idx == b,
        forall|j1: int, j2: int|
            old(out)@.len() <= j1 < j2 < final(out)@.len() ==> !(#[trigger] final(out)@[j1].source_idx
                == #[trigger] final(out)@[j2].source_idx && final(out)@[j1].target_idx == final(out)@[j2].target_idx),
{
    let ghost o0 = out@;
    let ghost word = if defines {
        defines_word()
    } else {
        uses_word()
    };
    let ghost color = if defines {
        defines_color()
    } else {
        black()
    };
    let mut s: usize = 0;
    while s < table.len()
        invariant
            s <= table@.len(),
            pos@.len() == table@.len(),
            forall|i: int| 0 <= i < pos@.len() ==> match #[trigger] pos@[i] {
                Some(k) => k < ord@.len() && ord@[k as int] == i,
                None => !ord@.contains(i as usize),
            },
            forall|k: int| 0 <= k < ord@.len() ==> #[trigger] ord@[k] < pos@.len(),
            forall|a: int, b: int| 0 <= a < ord@.len() && 0 <= b < ord@.len() && a != b ==> #[trigger] ord@[a] != #[trigger] ord@[b],
            forall|i: int, m: int| 0 <= i < table@.len() && 0 <= m < table@[i]@.len() ==> #[trigger] table@[i]@[m] < pos@.len(),
            word == if defines { defines_word() } else { uses_word() },
            color == if defines { defines_color() } else { black() },
            out@.len() >= o0.len(),
            out@.subrange(0, o0.len() as int) == o0,
            forall|j: int| o0.len() <= j < out@.len() ==> edge_of(#[trigger] out@[j], ord@, table@, word, color),
            forall|a: int, b: int|
                0 <= a < ord@.len() && 0 <= b < ord@.len() && ord@[a] < s && table@[#[trigger] ord@[a] as int]@.contains(
                    #[trigger] ord@[b],
                ) ==> exists|j: int| o0.len() <= j < out@.len() && out@[j].source_idx == a && out@[j].target_idx == b,
            forall|i: int| 0 <= i < table@.len() ==> (#[trigger] table@[i]).wf(),
            forall|j: int| o0.len() <= j < out@.len() ==> ord@[(#[trigger] out@[j]).source_idx as int] < s,
            forall|j1: int, j2: int|
                o0.len() <= j1 < j2 < out@.len() ==> !(#[trigger] out@[j1].source_idx == #[trigger] out@[j2].source_idx
                    && out@[j1].target_idx == out@[j2].target_idx),
        decreases table.len() - s,
    {
        match pos[s] {
            Some(si) => {
                let targets = table[s].as_slice();
                let mut m: usize = 0;
                while m < targets.len()
                    invariant
                        s < table@.len(),
                        pos@[s as int] == Some(si),
                        si < ord@.len() && ord@[si as int] == s,
                        targets@ == table@[s as int]@,
                        m <= targets@.len(),
                        pos@.len() == table@.len(),
                        forall|i: int| 0 <= i < pos@.len() ==> match #[trigger] pos@[i] {
                            Some(k) => k < ord@.len() && ord@[k as int] == i,
                            None => !ord@.contains(i as usize),
                        },
                        forall|k: int| 0 <= k < ord@.len() ==> #[trigger] ord@[k] < pos@.len(),
                        forall|a: int, b: int| 0 <= a < ord@.len() && 0 <= b < ord@.len() && a != b ==> #[trigger] ord@[a] != #[trigger] ord@[b],
                        forall|i: int, m: int| 0 <= i < table@.len() && 0 <= m < table@[i]@.len() ==> #[trigger] table@[i]@[m] < pos@.len(),
                        word == if defines { defines_word() } else { uses_word() },
                        color == if defines { defines_color() } else { black() },
                        out@.len() >= o0.len(),
                        out@.subrange(0, o0.len() as int) == o0,
                        forall|j: int| o0.len() <= j < out@.len() ==> edge_of(#[trigger] out@[j], ord@, table@, word, color),
                        forall|a: int, b: int|
                            0 <= a < ord@.len() && 0 <= b < ord@.len() && ord@[a] < s && table@[#[trigger] ord@[a] as int]@.contains(
                                #[trigger] ord@[b],
                            ) ==> exists|j: int| o0.len() <= j < out@.len() && out@[j].source_idx == a && out@[j].target_idx == b,
                        table@[s as int].wf(),
                        forall|j: int| o0.len() <= j < out@.len() ==> ord@[(#[trigger] out@[j]).source_idx as int] < s || (
                            out@[j].source_idx == si && targets@.take(m as int).contains(ord@[out@[j].target_idx as int])),
                        forall|j1: int, j2: int|
                            o0.len() <= j1 < j2 < out@.len() ==> !(#[trigger] out@[j1].source_idx == #[trigger] out@[j2].source_idx
                                && out@[j1].target_idx == out@[j2].target_idx),
                        forall|b: int|
                            0 <= b < ord@.len() && targets@.take(m as int).contains(#[trigger] ord@[b]) ==> exists|j: int|
                                o0.len() <= j < out@.len() && out@[j].source_idx == si && out@[j].target_idx == b,
                    decreases targets.len() - m,
                {
                    let t = targets[m];
                    let ghost out0 = out@;
                    proof {
                        assert(table@[s as int]@[m as int] == t);
                    }
                    match pos[t] {
                        Some(ti) => {
                            let (fw, fc) = if defines {
                                let w = vec!['d', 'e', 'f', 'i', 'n', 'e', 's'];
                                let c = vec!['#', '8', '3', '8', 'b', '8', 'b'];
                                assert(w@ =~= defines_word());
                                assert(c@ =~= defines_color());
                                (w, c)
                            } else {
                                let w = vec!['u', 's', 'e', 's'];
                                let c = vec!['#', '0', '0', '0', '0', '0', '0'];
                                assert(w@ =~= uses_word());
                                assert(c@ =~= black());
                                (w, c)
                            };
                            out.push(
                                VisualEdge {
                                    source_idx: si,
                                    target_idx: ti,
                                    flavor: chars_to_string(fw.as_slice()),
                                    color: chars_to_string(fc.as_slice()),
                                },
                            );
                            proof {
                                assert(out@.subrange(0, o0.len() as int) =~= out0.subrange(0, o0.len() as int));
                                assert(table@[s as int]@.contains(t));
                                assert(ord@[ti as int] == t);
                                assert(!targets@.take(m as int).contains(t)) by {
                                    if targets@.take(m as int).contains(t) {
                                        let q = choose|q: int| 0 <= q < m && targets@.take(m as int)[q] == t;
                                        assert(targets@[q] == targets@[m as int]);
                                    }
                                }
                                assert forall|j1: int, j2: int|
                                    o0.len() <= j1 < j2 < out@.len() implies !(#[trigger] out@[j1].source_idx == #[trigger] out@[j2].source_idx
                                        && out@[j1].target_idx == out@[j2].target_idx) by {
                                    if j2 == out@.len() - 1 {
                                        assert(out@[j1] == out0[j1]);
                                        if ord@[out0[j1].source_idx as int] < s {
                                        } else {
                                            assert(targets@.take(m as int).contains(ord@[out0[j1].target_idx as int]));
                                        }
                                    } else {
                                        assert(out@[j1] == out0[j1]);
                                        assert(out@[j2] == out0[j2]);
                                    }
                                }
                                assert forall|j: int| o0.len() <= j < out@.len() implies edge_of(
                                    #[trigger] out@[j],
                                    ord@,
                                    table@,
                                    word,
                                    color,
                                ) by {
                                    if j < out0.len() {
                                        assert(out@[j] == out0[j]);
                                    }
                                }
                            }
                        },
                        None => {},
                    }
                    proof {
                        assert(targets@.take(m as int + 1) =~= targets@.take(m as int).push(t));
                        assert forall|j: int| o0.len() <= j < out@.len() implies ord@[(#[trigger] out@[j]).source_idx as int] < s || (
                            out@[j].source_idx == si && targets@.take(m as int + 1).contains(ord@[out@[j].target_idx as int])) by {
                            if j < out0.len() {
                                assert(out@[j] == out0[j]);
                                if !(ord@[out0[j].source_idx as int] < s) {
                                    let v = ord@[out0[j].target_idx as int];
                                    let q = choose|q: int| 0 <= q < m && targets@.take(m as int)[q] == v;
                                    assert(targets@.take(m as int + 1)[q] == v);
                                }
                            } else {
                                assert(targets@.take(m as int + 1)[m as int] == t);
                            }
                        }
                        assert forall|a: int, b: int|
                            0 <= a < ord@.len() && 0 <= b < ord@.len() && ord@[a] < s && table@[#[trigger] ord@[a] as int]@.contains(
                                #[trigger] ord@[b],
                            ) implies exists|j: int| o0.len() <= j < out@.len() && out@[j].source_idx == a && out@[j].target_idx == b by {
                            let j = choose|j: int| o0.len() <= j < out0.len() && out0[j].source_idx == a && out0[j].target_idx == b;
                            assert(out@[j] == out0[j]);
                        }
                        assert forall|b: int|
                            0 <= b < ord@.len() && targets@.take(m as int + 1).contains(#[trigger] ord@[b]) implies exists|j: int|
                                o0.len() <= j < out@.len() && out@[j].source_idx == si && out@[j].target_idx == b by {
                            if targets@.take(m as int).contains(ord@[b]) {
                                let j = choose|j: int| o0.len() <= j < out0.len() && out0[j].source_idx == si && out0[j].target_idx == b;
                                assert(out@[j] == out0[j]);
                            } else {
                                assert(ord@[b] == t);
                                assert(pos@[t as int] is Some);
                                let ti = pos@[t as int]->0;
                                assert(ord@[ti as int] == t);
                                assert(ti == b);
                                assert(out@[out@.len() - 1].target_idx == b);
                            }
                        }
                    }
                    m = m + 1;
                }
                proof {
                    assert(targets@.take(targets@.len() as int) =~= targets@);
                }
            },
            None => {},
        }
        proof {
            assert forall|a: int, b: int|
                0 <= a < ord@.len() && 0 <= b < ord@.len() && ord@[a] < s + 1 && table@[#[trigger] ord@[a] as int]@.contains(
                    #[trigger] ord@[b],
                ) implies exists|j: int| o0.len() <= j < out@.len() && out@[j].source_idx == a && out@[j].target_idx == b by {
                if ord@[a] == s {
                    assert(pos@[s as int] is Some);
                    let si = pos@[s as int]->0;
                    assert(si == a);
                }
            }
            assert forall|j: int| o0.len() <= j < out@.len() implies ord@[(#[trigger] out@[j]).source_idx as int] < s + 1 by {
                if pos@[s as int] is Some {
                    let si = pos@[s as int]->0;
                    if out@[j].source_idx == si {
                        assert(ord@[si as int] == s);
                    }
                }
            }
        }
        s = s + 1;
    }
}

/// The grouping key of a node: its namespace, or the empty string.
pub open spec fn ns_key(node: Node, interner: &Interner) -> Seq<char> {
    match node.ns_text(interner) {
        Some(t) => t,
        None => Seq::empty(),
    }
}

/// Two visual nodes show the same thing.
pub open spec fn same_visual(a: VisualNode, b: VisualNode) -> bool {
    &&& a.id@ == b.id@
    &&& a.label@ == b.label@
    &&& a.flavor@ == b.flavor@
    &&& a.fill_color@ == b.fill_color@
    &&& a.text_color@ == b.text_color@
    &&& a.group == b.group
}

/// A copy of a string.
fn copy_string(s: &String) -> (r: String)
    ensures
        r@ == s@,
{
    chars_to_string(str_to_chars(s.as_str()).as_slice())
}

/// A copy of a visual node.
fn copy_visual(v: &VisualNode) -> (r: VisualNode)
    ensures
        same_visual(r, *v),
{
    VisualNode {
        id: copy_string(&v.id),
        label: copy_string(&v.label),
        flavor: copy_string(&v.flavor),
        fill_color: copy_string(&v.fill_color),
        text_color: copy_string(&v.text_color),
        group: v.group,
    }
}

/// A graph of visual nodes and edges, possibly with subgraphs.
pub struct VisualGraph {
    /// Identifier (used as GraphViz graph id / subgraph name).
    pub id: String,
    /// Human-readable label for the (sub)graph.
    pub label: String,
    /// The root graph holds all nodes; a subgraph, those of one namespace.
    pub nodes: Vec<VisualNode>,
    /// Edges (only on the root graph), by index into the root's nodes.
    pub edges: Vec<VisualEdge>,
    /// One subgraph per namespace when grouping is enabled.
    pub subgraphs: Vec<VisualGraph>,
    /// Whether nodes are grouped into subgraphs by namespace.
    pub grouped: bool,
    /// Where each node comes from: in the root graph, the call-graph node it
    /// shows; in a subgraph, its index among the root graph's nodes.
    pub sources: Ghost<Seq<usize>>,
}

/// `g` is the subgraph of the nodes whose key is its label: `root` lists
/// the visual nodes and `keys` the key of each.
pub open spec fn subgraph_of(g: VisualGraph, root: Seq<VisualNode>, keys: Seq<Seq<char>>) -> bool {
    &&& g.id@ == safe_label(g.label@)
    &&& g.edges@.len() == 0
    &&& g.subgraphs@.len() == 0
    &&& !g.grouped
    &&& g.nodes@.len() == g.sources@.len()
    &&& g.nodes@.len() >= 1
    &&& forall|j: int| 0 <= j < g.sources@.len() ==> #[trigger] g.sources@[j] < root.len() && keys[g.sources@[j] as int] == g.label@
        && same_visual(g.nodes@[j], root[g.sources@[j] as int])
    &&& forall|a: int, b: int| 0 <= a < b < g.sources@.len() ==> #[trigger] g.sources@[a] < #[trigger] g.sources@[b]
    &&& forall|k: int| 0 <= k < keys.len() && keys[k] == g.label@ ==> g.sources@.contains(k as usize)
}

/// `subs` groups the nodes with keys `keys`: one subgraph per key, in key
/// order, together holding every node.
pub open spec fn grouped_by(subs: Seq<VisualGraph>, root: Seq<VisualNode>, keys: Seq<Seq<char>>) -> bool {
    &&& forall|g: int| 0 <= g < subs.len() ==> subgraph_of(#[trigger] subs[g], root, keys)
    &&& forall|a: int, b: int| 0 <= a < b < subs.len() ==> seq_less(#[trigger] subs[a].label@, #[trigger] subs[b].label@)
    &&& forall|k: int| 0 <= k < keys.len() ==> has_subgraph(subs, #[trigger] keys[k])
}

/// Some subgraph of `subs` has the label `label`.
pub open spec fn has_subgraph(subs: Seq<VisualGraph>, label: Seq<char>) -> bool {
    exists|g: int| 0 <= g < subs.len() && #[trigger] subs[g].label@ == label
}

/// Some vector of `v` holds `x`.
pub open spec fn has_key(v: Seq<Vec<char>>, x: Seq<char>) -> bool {
    exists|g: int| 0 <= g < v.len() && #[trigger] v[g]@ == x
}

/// The subgraphs of `root`, whose nodes have the namespaces `keys`.
fn build_subgraphs(root: &Vec<VisualNode>, keys: &Vec<Vec<char>>) -> (r: Vec<VisualGraph>)
    requires
        keys@.len() == root@.len(),
    ensures
        grouped_by(r@, root@, char_views(keys@)),
{
    let ghost kv = char_views(keys@);
    // Gather the members of each key, keys in the order first met.
    let mut gkeys: Vec<Vec<char>> = Vec::new();
    let mut members: Vec<Vec<usize>> = Vec::new();
    let mut k: usize = 0;
    while k < keys.len()
        invariant
            k <= keys@.len(),
            keys@.len() == root@.len(),
            kv == char_views(keys@),
            gkeys@.len() == members@.len(),
            forall|a: int, b: int| 0 <= a < gkeys@.len() && 0 <= b < gkeys@.len() && a != b ==> #[trigger] gkeys@[a]@ != #[trigger] gkeys@[b]@,
            forall|g: int| 0 <= g < members@.len() ==> #[trigger] members@[g]@.len() >= 1,
            forall|g: int, j: int| 0 <= g < members@.len() && 0 <= j < members@[g]@.len() ==> #[trigger] members@[g]@[j] < k
                && kv[members@[g]@[j] as int] == gkeys@[g]@,
            forall|g: int, a: int, b: int| 0 <= g < members@.len() && 0 <= a < b < members@[g]@.len() ==> #[trigger] members@[g]@[a] < #[trigger] members@[g]@[b],
            forall|g: int, i: int| 0 <= g < gkeys@.len() && 0 <= i < k && kv[i] == #[trigger] gkeys@[g]@ ==> #[trigger] members@[g]@.contains(i as usize),
            forall|i: int| 0 <= i < k ==> has_key(gkeys@, #[trigger] kv[i]),
        decreases keys.len() - k,
    {
        let ghost gk0 = gkeys@;
        let ghost m0 = members@;
        let mut g: usize = 0;
        let mut found = false;
        while g < gkeys.len()
            invariant
                g <= gkeys@.len(),
                k < keys@.len(),
                forall|h: int| 0 <= h < g ==> #[trigger] gkeys@[h]@ != keys@[k as int]@,
            ensures
                g <= gkeys@.len(),
                forall|h: int| 0 <= h < g ==> #[trigger] gkeys@[h]@ != keys@[k as int]@,
                g < gkeys@.len() ==> gkeys@[g as int]@ == keys@[k as int]@,
            decreases gkeys.len() - g,
        {
            if crate::text::chars_eq(gkeys[g].as_slice(), keys[k].as_slice()) {
                break;
            }
            g = g + 1;
        }
        if g < gkeys.len() {
            let mut mv = members[g].clone();
            let ghost mv0 = members@[g as int]@;
            assert(mv@ == mv0);
            mv.push(k);
            members.set(g, mv);
            proof {
                assert forall|h: int, a: int, b: int| 0 <= h < members@.len() && 0 <= a < b < members@[h]@.len() implies #[trigger] members@[h]@[a] < #[trigger] members@[h]@[b] by {
                    if h != g {
                        assert(members@[h] == m0[h]);
                    } else if b < mv0.len() {
                    } else {
                        assert(mv0[a] < k);
                    }
                }
                assert forall|h: int, i: int| 0 <= h < gkeys@.len() && 0 <= i < k + 1 && kv[i] == #[trigger] gkeys@[h]@ implies #[trigger] members@[h]@.contains(i as usize) by {
                    if h != g {
                        assert(members@[h] == m0[h]);
                        if i == k {
                            assert(gkeys@[h]@ == gkeys@[g as int]@);
                        }
                    } else if i == k {
                        assert(members@[h]@[members@[h]@.len() - 1] == k);
                    } else {
                        assert(m0[h]@.contains(i as usize));
                        let w = choose|w: int| 0 <= w < m0[h]@.len() && m0[h]@[w] == i as usize;
                        assert(members@[h]@[w] == i as usize);
                    }
                }
                assert forall|h: int, j: int| 0 <= h < members@.len() && 0 <= j < members@[h]@.len() implies #[trigger] members@[h]@[j] < k + 1
                    && kv[members@[h]@[j] as int] == gkeys@[h]@ by {
                    if h != g {
                        assert(members@[h] == m0[h]);
                    }
                }
                assert forall|i: int| 0 <= i < k + 1 implies has_key(gkeys@, #[trigger] kv[i]) by {
                    if i == k {
                        assert(gkeys@[g as int]@ == kv[i]);
                    }
                }
            }
        } else {
            let key_copy = crate::text::copy_chars(keys[k].as_slice());
            gkeys.push(key_copy);
            members.push(vec![k]);
            proof {
                let last = gkeys@.len() - 1;
                assert(members@[last]@ =~= seq![k]);
                assert forall|h: int, i: int| 0 <= h < gkeys@.len() && 0 <= i < k + 1 && kv[i] == #[trigger] gkeys@[h]@ implies #[trigger] members@[h]@.contains(i as usize) by {
                    if h < last {
                        assert(members@[h] == m0[h]);
                        assert(gkeys@[h] == gk0[h]);
                        if i == k {
                            assert(gk0[h]@ != keys@[k as int]@);
                        }
                    } else {
                        if i < k {
                            let h2 = choose|h2: int| 0 <= h2 < gk0.len() && #[trigger] gk0[h2]@ == kv[i];
                            assert(gk0[h2]@ != keys@[k as int]@);
                        }
                        assert(members@[h]@[0] == k);
                    }
                }
                assert forall|i: int| 0 <= i < k + 1 implies has_key(gkeys@, #[trigger] kv[i]) by {
                    if i == k {
                        assert(gkeys@[last]@ == kv[i]);
                    } else {
                        let h2 = choose|h2: int| 0 <= h2 < gk0.len() && #[trigger] gk0[h2]@ == kv[i];
                        assert(gkeys@[h2] == gk0[h2]);
                    }
                }
                assert forall|a: int, b: int| 0 <= a < gkeys@.len() && 0 <= b < gkeys@.len() && a != b implies #[trigger] gkeys@[a]@ != #[trigger] gkeys@[b]@ by {
                    if a < last && b < last {
                        assert(gkeys@[a] == gk0[a] && gkeys@[b] == gk0[b]);
                    }
                }
                assert forall|h: int, j: int| 0 <= h < members@.len() && 0 <= j < members@[h]@.len() implies #[trigger] members@[h]@[j] < k + 1
                    && kv[members@[h]@[j] as int] == gkeys@[h]@ by {
                    if h < last {
                        assert(members@[h] == m0[h]);
                        assert(gkeys@[h] == gk0[h]);
                    }
                }
                assert forall|h: int, a: int, b: int| 0 <= h < members@.len() && 0 <= a < b < members@[h]@.len() implies #[trigger] members@[h]@[a] < #[trigger] members@[h]@[b] by {
                    if h < last {
                        assert(members@[h] == m0[h]);
                    }
                }
            }
        }
        k = k + 1;
    }
    // Order the groups by key.
    let mut items: Vec<(Vec<KeyPart>, usize)> = Vec::new();
    let mut g: usize = 0;
    while g < gkeys.len()
        invariant
            g <= gkeys@.len(),
            items@.len() == g,
            forall|h: int| 0 <= h < g ==> #[trigger] items@[h].1 == h && key_view(items@[h].0@) == seq![KeyV::Text(gkeys@[h]@)],
        decreases gkeys.len() - g,
    {
        let mut kp: Vec<KeyPart> = Vec::new();
        let kc = crate::text::copy_chars(gkeys[g].as_slice());
        let ghost kcv = kc@;
        kp.push(KeyPart::Text(kc));
        proof {
            assert(key_view(kp@) =~= seq![KeyV::Text(kcv)]);
        }
        let ghost i0 = items@;
        items.push((kp, g));
        proof {
            assert forall|h: int| 0 <= h < g + 1 implies #[trigger] items@[h].1 == h && key_view(items@[h].0@) == seq![KeyV::Text(gkeys@[h]@)] by {
                if h < g {
                    assert(items@[h] == i0[h]);
                }
            }
        }
        g = g + 1;
    }
    let ghost before = items@;
    proof {
        assert(ids_distinct(before)) by {
            assert forall|a: int, b: int| 0 <= a < before.len() && 0 <= b < before.len() && a != b implies #[trigger] before[a].1 != #[trigger] before[b].1 by {
                assert(before[a].1 == a && before[b].1 == b);
            }
        }
    }
    let sorted = sort_by_key(items);
    proof {
        lemma_reorder_ids(before, sorted@);
    }
    let mut out: Vec<VisualGraph> = Vec::new();
    let mut q: usize = 0;
    while q < sorted.len()
        invariant
            q <= sorted@.len(),
            out@.len() == q,
            keys@.len() == root@.len(),
            kv == char_views(keys@),
            sorted@.len() == before.len(),
            before.len() == gkeys@.len(),
            gkeys@.len() == members@.len(),
            forall|h: int| 0 <= h < before.len() ==> #[trigger] before[h].1 == h && key_view(before[h].0@) == seq![KeyV::Text(gkeys@[h]@)],
            forall|k: int| 0 <= k < sorted@.len() ==> before.contains(#[trigger] sorted@[k]),
            forall|j: int| 0 <= j < q ==> (#[trigger] out@[j]).label@ == gkeys@[sorted@[j].1 as int]@ && subgraph_of(out@[j], root@, kv),
            forall|g: int| 0 <= g < members@.len() ==> #[trigger] members@[g]@.len() >= 1,
            forall|g: int, j: int| 0 <= g < members@.len() && 0 <= j < members@[g]@.len() ==> #[trigger] members@[g]@[j] < keys@.len()
                && kv[members@[g]@[j] as int] == gkeys@[g]@,
            forall|g: int, a: int, b: int| 0 <= g < members@.len() && 0 <= a < b < members@[g]@.len() ==> #[trigger] members@[g]@[a] < #[trigger] members@[g]@[b],
            forall|g: int, i: int| 0 <= g < gkeys@.len() && 0 <= i < keys@.len() && kv[i] == #[trigger] gkeys@[g]@ ==> #[trigger] members@[g]@.contains(i as usize),
        decreases sorted.len() - q,
    {
        let gi = sorted[q].1;
        proof {
            assert(before.contains(sorted@[q as int]));
            let p = choose|p: int| 0 <= p < before.len() && before[p] == sorted@[q as int];
            assert(before[p].1 == p);
        }
        let mv = &members[gi];
        let mut gnodes: Vec<VisualNode> = Vec::new();
        let mut j: usize = 0;
        while j < mv.len()
            invariant
                j <= mv@.len(),
                gnodes@.len() == j,
                forall|t: int| 0 <= t < mv@.len() ==> #[trigger] mv@[t] < root@.len(),
                forall|t: int| 0 <= t < j ==> same_visual(#[trigger] gnodes@[t], root@[mv@[t] as int]),
            decreases mv.len() - j,
        {
            gnodes.push(copy_visual(&root[mv[j]]));
            j = j + 1;
        }
        let label = chars_to_string(gkeys[gi].as_slice());
        let id = make_safe_label(label.as_str());
        let sg = VisualGraph {
            id,
            label,
            nodes: gnodes,
            edges: Vec::new(),
            subgraphs: Vec::new(),
            grouped: false,
            sources: Ghost(mv@),
        };
        proof {
            assert(sg.edges@.len() == 0);
            assert forall|t: int| 0 <= t < keys@.len() && kv[t] == sg.label@ implies sg.sources@.contains(t as usize) by {
                assert(kv[t] == gkeys@[gi as int]@);
            }
        }
        out.push(sg);
        proof {
            assert forall|j: int| 0 <= j < q + 1 implies (#[trigger] out@[j]).label@ == gkeys@[sorted@[j].1 as int]@ && subgraph_of(out@[j], root@, kv) by {
            }
        }
        q = q + 1;
    }
    proof {
        let s = sorted@;
        assert forall|a: int, b: int| 0 <= a < b < out@.len() implies seq_less(#[trigger] out@[a].label@, #[trigger] out@[b].label@) by {
            assert(before.contains(s[a]));
            assert(before.contains(s[b]));
            let pa = choose|p: int| 0 <= p < before.len() && before[p] == s[a];
            let pb = choose|p: int| 0 <= p < before.len() && before[p] == s[b];
            assert(before[pa].1 == pa && before[pb].1 == pb);
            assert(s[a].1 != s[b].1);
            assert(pa != pb);
            crate::order::lemma_text_key_order(gkeys@[pb]@, gkeys@[pa]@);
            assert(!key_less(key_view(s[b].0@), key_view(s[a].0@)));
            assert(gkeys@[pa]@ != gkeys@[pb]@);
            crate::order::lemma_less_total(gkeys@[pa]@, gkeys@[pb]@);
        }
        assert forall|k: int| 0 <= k < kv.len() implies has_subgraph(out@, #[trigger] kv[k]) by {
            assert(keys@.len() == kv.len());
            assert(members@.len() == gkeys@.len());
            let h = choose|h: int| 0 <= h < gkeys@.len() && #[trigger] gkeys@[h]@ == kv[k];
            assert(s.contains(before[h]));
            let q2 = choose|q2: int| 0 <= q2 < s.len() && s[q2] == before[h];
            assert(out@[q2].label@ == gkeys@[h]@);
        }
    }
    out
}

/// The grouping key of each node of `ord`.
pub open spec fn keys_of(nodes: Seq<Node>, ord: Seq<usize>, interner: &Interner) -> Seq<Seq<char>> {
    Seq::new(ord.len(), |k: int| ns_key(nodes[ord[k] as int], interner))
}

/// The grouping key of each node of `ord`.
fn node_keys(nodes: &Vec<Node>, ord: &Vec<usize>, interner: &Interner) -> (r: Vec<Vec<char>>)
    requires
        interner.wf(),
        forall|i: int| 0 <= i < nodes@.len() ==> #[trigger] nodes@[i].ids_in(interner),
        forall|k: int| 0 <= k < ord@.len() ==> #[trigger] ord@[k] < nodes@.len(),
    ensures
        char_views(r@) == keys_of(nodes@, ord@, interner),
{
    let mut r: Vec<Vec<char>> = Vec::new();
    let mut k: usize = 0;
    while k < ord.len()
        invariant
            k <= ord@.len(),
            interner.wf(),
            forall|i: int| 0 <= i < nodes@.len() ==> #[trigger] nodes@[i].ids_in(interner),
            forall|k: int| 0 <= k < ord@.len() ==> #[trigger] ord@[k] < nodes@.len(),
            char_views(r@) == keys_of(nodes@, ord@, interner).take(k as int),
        decreases ord.len() - k,
    {
        let node = &nodes[ord[k]];
        proof {
            assert(nodes@[ord@[k as int] as int].ids_in(interner));
        }
        let key: Vec<char> = match node.namespace {
            Some(ns) => str_to_chars(interner.resolve(ns)),
            None => Vec::new(),
        };
        proof {
            assert(key@ =~= ns_key(*node, interner));
        }
        let ghost r0 = r@;
        r.push(key);
        proof {
            assert(char_views(r@) =~= char_views(r0).push(key@));
            assert(keys_of(nodes@, ord@, interner).take(k as int + 1) =~= keys_of(nodes@, ord@, interner).take(
                k as int,
            ).push(key@));
        }
        k = k + 1;
    }
    proof {
        assert(keys_of(nodes@, ord@, interner).take(ord@.len() as int) =~= keys_of(nodes@, ord@, interner));
    }
    r
}

/// The word `G`.
pub open spec fn root_id() -> Seq<char> {
    seq!['G']
}

impl VisualGraph {
    /// Edges join nodes of the graph, and subgraphs hold no subgraphs.
    pub open spec fn wf(&self) -> bool {
        &&& forall|j: int| 0 <= j < self.edges@.len() ==> (#[trigger] self.edges@[j]).source_idx < self.nodes@.len()
            && self.edges@[j].target_idx < self.nodes@.len()
        &&& forall|g: int| 0 <= g < self.subgraphs@.len() ==> (#[trigger] self.subgraphs@[g]).subgraphs@.len() == 0
    }

    /// Build the visual graph of a call graph.
    ///
    /// `nodes_arena` holds the nodes, `defined` tells which are defined, and
    /// `defines_edges`/`uses_edges` hold each node's edge targets. Only
    /// defined nodes are shown, in node order, and only edges between them,
    /// of the kinds the options ask for (defines edges first). With
    /// grouping, each namespace gets a subgraph. A colored node's fill is
    /// `fill(group, hues, level)`.
    pub fn from_call_graph<F: Fn(usize, usize, usize) -> String>(
        nodes_arena: &Vec<Node>,
        defined: &Vec<bool>,
        defines_edges: &Vec<ValueSet>,
        uses_edges: &Vec<ValueSet>,
        options: &VisualOptions,
        interner: &Interner,
        fill: &F,
    ) -> (r: Self)
        requires
            arena_ok(nodes_arena@, defined@, interner),
            nodes_arena@.len() < usize::MAX,
            defines_edges@.len() == nodes_arena@.len(),
            uses_edges@.len() == nodes_arena@.len(),
            edges_in(defines_edges@, nodes_arena@.len()),
            edges_in(uses_edges@, nodes_arena@.len()),
            forall|g: usize, h: usize, l: usize| fill.requires((g, h, l)),
        ensures
            r.wf(),
            r.id@ == root_id(),
            r.label@ == Seq::<char>::empty(),
            r.grouped == options.grouped,
            defined_in_order(r.sources@, nodes_arena@, defined@, interner),
            r.nodes@.len() == r.sources@.len(),
            forall|k: int|
                0 <= k < r.nodes@.len() ==> shows(
                    #[trigger] r.nodes@[k],
                    nodes_arena@[r.sources@[k] as int],
                    interner,
                    *options,
                    group_at(files_of(nodes_arena@, r.sources@), k),
                ),
            forall|k: int|
                0 <= k < r.nodes@.len() && options.colored ==> fill.ensures(
                    (
                        #[trigger] r.nodes@[k].group,
                        (distinct_items(files_of(nodes_arena@, r.sources@)).len() + 1) as usize,
                        level_of(nodes_arena@[r.sources@[k] as int].ns_text(interner)) as usize,
                    ),
                    r.nodes@[k].fill_color,
                ),
            forall|j: int|
                0 <= j < r.edges@.len() ==> (options.draw_defines && edge_of(
                    #[trigger] r.edges@[j],
                    r.sources@,
                    defines_edges@,
                    defines_word(),
                    defines_color(),
                )) || (options.draw_uses && edge_of(r.edges@[j], r.sources@, uses_edges@, uses_word(), black())),
            forall|a: int, b: int|
                options.draw_defines && 0 <= a < r.sources@.len() && 0 <= b < r.sources@.len()
                    && defines_edges@[#[trigger] r.sources@[a] as int]@.contains(#[trigger] r.sources@[b]) ==> exists|j: int|
                    0 <= j < r.edges@.len() && r.edges@[j].source_idx == a && r.edges@[j].target_idx == b
                        && r.edges@[j].flavor@ == defines_word(),
            forall|a: int, b: int|
                options.draw_uses && 0 <= a < r.sources@.len() && 0 <= b < r.sources@.len()
                    && uses_edges@[#[trigger] r.sources@[a] as int]@.contains(#[trigger] r.sources@[b]) ==> exists|j: int|
                    0 <= j < r.edges@.len() && r.edges@[j].source_idx == a && r.edges@[j].target_idx == b
                        && r.edges@[j].flavor@ == uses_word(),
            !options.grouped ==> r.subgraphs@.len() == 0,
            options.grouped ==> grouped_by(r.subgraphs@, r.nodes@, keys_of(nodes_arena@, r.sources@, interner)),
            forall|j1: int, j2: int|
                0 <= j1 < j2 < r.edges@.len() ==> !(#[trigger] r.edges@[j1].source_idx == #[trigger] r.edges@[j2].source_idx
                    && r.edges@[j1].target_idx == r.edges@[j2].target_idx && r.edges@[j1].flavor@ == r.edges@[j2].flavor@),
    {
        let n = nodes_arena.len();
        let ord = sorted_defined(nodes_arena, defined, interner);
        let nodes = build_nodes(nodes_arena, &ord, interner, options, fill);
        let pos = positions(&ord, n);
        proof {
            assert forall|i: int, m: int| 0 <= i < defines_edges@.len() && 0 <= m < defines_edges@[i]@.len() implies #[trigger] defines_edges@[i]@[m] < pos@.len() by {
                assert(set_in(defines_edges@[i], n as nat));
            }
            assert forall|i: int, m: int| 0 <= i < uses_edges@.len() && 0 <= m < uses_edges@[i]@.len() implies #[trigger] uses_edges@[i]@[m] < pos@.len() by {
                assert(set_in(uses_edges@[i], n as nat));
            }
            assert forall|i: int| 0 <= i < uses_edges@.len() implies (#[trigger] uses_edges@[i]).wf() by {
                assert(set_in(uses_edges@[i], n as nat));
            }
            assert forall|i: int| 0 <= i < defines_edges@.len() implies (#[trigger] defines_edges@[i]).wf() by {
                assert(set_in(defines_edges@[i], n as nat));
            }
        }
        let mut edges: Vec<VisualEdge> = Vec::new();
        if options.draw_defines {
            add_edges(defines_edges, &pos, Ghost(ord@), true, &mut edges);
        }
        let ghost mid = edges@;
        if options.draw_uses {
            add_edges(uses_edges, &pos, Ghost(ord@), false, &mut edges);
        }
        proof {
            assert forall|j: int| 0 <= j < edges@.len() implies (options.draw_defines && edge_of(
                #[trigger] edges@[j],
                ord@,
                defines_edges@,
                defines_word(),
                defines_color(),
            )) || (options.draw_uses && edge_of(edges@[j], ord@, uses_edges@, uses_word(), black())) by {
                if j < mid.len() {
                    if options.draw_uses {
                        assert(edges@.subrange(0, mid.len() as int)[j] == mid[j]);
                    }
                }
            }
            assert forall|a: int, b: int|
                options.draw_defines && 0 <= a < ord@.len() && 0 <= b < ord@.len()
                    && defines_edges@[#[trigger] ord@[a] as int]@.contains(#[trigger] ord@[b]) implies exists|j: int|
                    0 <= j < edges@.len() && edges@[j].source_idx == a && edges@[j].target_idx == b && edges@[j].flavor@ == defines_word() by {
                let j = choose|j: int| 0 <= j < mid.len() && mid[j].source_idx == a && mid[j].target_idx == b;
                if options.draw_uses {
                    assert(edges@.subrange(0, mid.len() as int)[j] == mid[j]);
                }
                assert(edge_of(mid[j], ord@, defines_edges@, defines_word(), defines_color()));
            }
            assert forall|a: int, b: int|
                options.draw_uses && 0 <= a < ord@.len() && 0 <= b < ord@.len()
                    && uses_edges@[#[trigger] ord@[a] as int]@.contains(#[trigger] ord@[b]) implies exists|j: int|
                    0 <= j < edges@.len() && edges@[j].source_idx == a && edges@[j].target_idx == b && edges@[j].flavor@ == uses_word() by {
                let j = choose|j: int| mid.len() <= j < edges@.len() && edges@[j].source_idx == a && edges@[j].target_idx == b;
                assert(edge_of(edges@[j], ord@, uses_edges@, uses_word(), black()));
            }
            assert(defines_word().len() != uses_word().len());
            assert forall|j1: int, j2: int|
                0 <= j1 < j2 < edges@.len() implies !(#[trigger] edges@[j1].source_idx == #[trigger] edges@[j2].source_idx
                    && edges@[j1].target_idx == edges@[j2].target_idx && edges@[j1].flavor@ == edges@[j2].flavor@) by {
                if j2 < mid.len() {
                    if options.draw_uses {
                        assert(edges@.subrange(0, mid.len() as int)[j1] == mid[j1]);
                        assert(edges@.subrange(0, mid.len() as int)[j2] == mid[j2]);
                    }
                } else if j1 < mid.len() {
                    if options.draw_uses {
                        assert(edges@.subrange(0, mid.len() as int)[j1] == mid[j1]);
                    }
                    assert(edge_of(mid[j1], ord@, defines_edges@, defines_word(), defines_color()));
                    assert(edge_of(edges@[j2], ord@, uses_edges@, uses_word(), black()));
                }
            }
        }
        let subgraphs = if options.grouped {
            let keys = node_keys(nodes_arena, &ord, interner);
            proof {
                assert(char_views(keys@).len() == keys@.len());
            }
            build_subgraphs(&nodes, &keys)
        } else {
            Vec::new()
        };
        let id_chars = vec!['G'];
        assert(id_chars@ =~= root_id());
        let empty: Vec<char> = Vec::new();
        assert(empty@ =~= Seq::<char>::empty());
        let ghost ev = edges@;
        let r = VisualGraph {
            id: chars_to_string(id_chars.as_slice()),
            label: chars_to_string(empty.as_slice()),
            nodes,
            edges,
            subgraphs,
            grouped: options.grouped,
            sources: Ghost(ord@),
        };
        proof {
            assert(r.edges@ == ev);
            assert(r.sources@ == ord@);
        }
        r
    }
}

} // verus!
