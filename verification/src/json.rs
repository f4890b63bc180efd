//! The JSON graph document: the defined nodes, the edges between them,
//! counts, and the diagnostics of the analysis, labelled by output ids.
use vstd::prelude::*;
use crate::analyzer::graph::{CallGraph, ExternalReferenceDiagnostic, ExternalReferenceKind};
use crate::node::NodeId;
use crate::order::{KeyPart, KeyV, decimal, decimal_chars, key_less, key_order, key_view};
use crate::paths::{FormatView, PathFormatter};
use crate::query::{
    AmbiguousResolution, Approximation, DiagnosticSummary, ExternalReference, QueryDiagnostics, UnresolvedReference, amb_key,
    approx_key, canonical, contains_text, copy_amb, copy_approx, copy_ext, copy_strings, copy_unres, ext_key, ext_kind_word,
    opt_location, opt_text, same_amb, same_approx, same_ext, same_unres, short_name, skipped_name, sort_amb, sort_approx, sort_ext,
    sort_unres, text, texts, unres_key, uses_unknown,
};
use crate::text::{char_views, chars_eq, chars_to_string, dotted, push_all, rsplit_dot, str_to_chars};

verus! {

/// Whether the document shows the symbol graph or the module graph.
#[derive(Debug, Clone, Copy, PartialEq, Eq, Structural)]
pub enum JsonGraphMode {
    Symbol,
    Module,
}

/// What the JSON document is made for: the graph mode, the analysis root,
/// the inputs as given, and the working directory they are relative to.
#[derive(Debug, Clone)]
pub struct JsonOutputOptions {
    pub graph_mode: JsonGraphMode,
    pub analysis_root: Option<String>,
    pub inputs: Vec<String>,
    pub cwd: String,
}

/// The output id of the `k`th node of the document.
pub open spec fn label_text(k: int) -> Seq<char> {
    seq!['n'] + decimal((k + 1) as nat)
}

/// The position of node `t` in `order`.
pub open spec fn position_of(order: Seq<usize>, t: int) -> int {
    choose|k: int| 0 <= k < order.len() && order[k] == t
}

/// The output ids of some nodes.
pub open spec fn labels_of(order: Seq<usize>, v: Seq<NodeId>) -> Seq<Seq<char>> {
    Seq::new(v.len(), |k: int| label_text(position_of(order, v[k] as int)))
}

/// The output id of the `k`th node.
pub fn label(k: usize) -> (r: String)
    requires
        k < usize::MAX,
    ensures
        r@ == label_text(k as int),
{
    let mut out: Vec<char> = vec!['n'];
    let d = decimal_chars(k + 1);
    push_all(&mut out, d.as_slice());
    chars_to_string(out.as_slice())
}

/// `order` lists distinct nodes below `n`.
pub open spec fn distinct_below(order: Seq<usize>, n: nat) -> bool {
    &&& forall|k: int| 0 <= k < order.len() ==> #[trigger] order[k] < n
    &&& forall|a: int, b: int| 0 <= a < order.len() && 0 <= b < order.len() && a != b ==> #[trigger] order[a] != #[trigger] order[b]
}

/// The position of each listed node.
fn positions(order: &Vec<usize>, n: usize) -> (r: Vec<usize>)
    requires
        distinct_below(order@, n as nat),
    ensures
        r@.len() == n,
        forall|k: int| 0 <= k < order@.len() ==> #[trigger] r@[order@[k] as int] == k,
{
    let mut pos: Vec<usize> = Vec::new();
    let mut i: usize = 0;
    while i < n
        invariant
            i <= n,
            pos@.len() == i,
        decreases n - i,
    {
        pos.push(0);
        i = i + 1;
    }
    let mut k: usize = 0;
    while k < order.len()
        invariant
            distinct_below(order@, n as nat),
            k <= order@.len(),
            pos@.len() == n,
            forall|j: int| 0 <= j < k ==> #[trigger] pos@[order@[j] as int] == j,
        decreases order.len() - k,
    {
        let ghost p0 = pos@;
        pos.set(order[k], k);
        proof {
            assert forall|j: int| 0 <= j < k + 1 implies #[trigger] pos@[order@[j] as int] == j by {
                if j < k {
                    assert(order@[j] != order@[k as int]);
                    assert(pos@[order@[j] as int] == p0[order@[j] as int]);
                }
            }
        }
        k = k + 1;
    }
    pos
}

/// The position that `position_of` picks is the one where the node is.
proof fn lemma_position(order: Seq<usize>, n: nat, k: int)
    requires
        distinct_below(order, n),
        0 <= k < order.len(),
    ensures
        position_of(order, order[k] as int) == k,
{
    let p = position_of(order, order[k] as int);
    assert(0 <= p < order.len() && order[p] == order[k]);
}

/// The diagnostic `d` comes from node `i`: by canonical name in the symbol
/// graph, by file in the module graph.
pub open spec fn src_match(cg: &CallGraph, mode: JsonGraphMode, f: FormatView, d: ExternalReferenceDiagnostic, i: int) -> bool {
    match mode {
        JsonGraphMode::Symbol => canonical(cg, i) == d.source_canonical_name@,
        JsonGraphMode::Module => d.source_filename matches Some(p) && cg.nodes_arena@[i].filename matches Some(q) && f.location(q@)
            == f.location(p@),
    }
}

/// The `k`th node of `order` is the first one that `d` comes from.
pub open spec fn first_match(
    cg: &CallGraph,
    order: Seq<usize>,
    mode: JsonGraphMode,
    f: FormatView,
    d: ExternalReferenceDiagnostic,
    k: int,
) -> bool {
    &&& 0 <= k < order.len()
    &&& src_match(cg, mode, f, d, order[k] as int)
    &&& forall|j: int| 0 <= j < k ==> !#[trigger] src_match(cg, mode, f, d, order[j] as int)
}

/// `e` reports the external reference `d`, from the `k`th node.
pub open spec fn json_ext_entry(e: ExternalReference, d: ExternalReferenceDiagnostic, k: int, f: FormatView) -> bool {
    &&& e.kind@ == ext_kind_word(d.kind)
    &&& e.source@ == label_text(k)
    &&& e.canonical_name@ == d.canonical_name@
    &&& opt_text(e.path) == opt_location(d.source_filename, f)
    &&& e.line == d.source_line
}

/// `d` explains a failed lookup of `name`: the name is what `d` names, or,
/// for an import, its last dotted part.
pub open spec fn json_suppresses(d: ExternalReferenceDiagnostic, name: Seq<char>) -> bool {
    d.canonical_name@ == name || (d.kind == ExternalReferenceKind::Import && !name.contains('.') && exists|x: Seq<char>|
        d.canonical_name@ == #[trigger] dotted(x, name))
}

/// Some external reference from the `k`th node explains a failed lookup of
/// `name`.
pub open spec fn json_suppressed(
    cg: &CallGraph,
    order: Seq<usize>,
    mode: JsonGraphMode,
    f: FormatView,
    k: int,
    name: Seq<char>,
) -> bool {
    let diags = cg.diagnostics.external_references@;
    exists|i: int| 0 <= i < diags.len() && first_match(cg, order, mode, f, diags[i], k) && #[trigger] json_suppresses(diags[i], name)
}

/// What a diagnostic source is compared with: each node's canonical name
/// and shown file.
fn node_keys(cg: &CallGraph, order: &Vec<usize>, f: &PathFormatter) -> (r: (Vec<Vec<char>>, Vec<Option<Vec<char>>>))
    requires
        cg.wf(),
        distinct_below(order@, cg.nodes_arena@.len()),
    ensures
        r.0@.len() == order@.len(),
        r.1@.len() == order@.len(),
        forall|k: int| 0 <= k < order@.len() ==> (#[trigger] r.0@[k])@ == canonical(cg, order@[k] as int),
        forall|k: int| 0 <= k < order@.len() ==> match #[trigger] r.1@[k] {
            Some(p) => cg.nodes_arena@[order@[k] as int].filename matches Some(q) && p@ == f@.location(q@),
            None => cg.nodes_arena@[order@[k] as int].filename is None,
        },
{
    let mut names: Vec<Vec<char>> = Vec::new();
    let mut locs: Vec<Option<Vec<char>>> = Vec::new();
    let mut k: usize = 0;
    while k < order.len()
        invariant
            cg.wf(),
            distinct_below(order@, cg.nodes_arena@.len()),
            k <= order@.len(),
            names@.len() == k,
            locs@.len() == k,
            forall|j: int| 0 <= j < k ==> (#[trigger] names@[j])@ == canonical(cg, order@[j] as int),
            forall|j: int| 0 <= j < k ==> match #[trigger] locs@[j] {
                Some(p) => cg.nodes_arena@[order@[j] as int].filename matches Some(q) && p@ == f@.location(q@),
                None => cg.nodes_arena@[order@[j] as int].filename is None,
            },
        decreases order.len() - k,
    {
        let i = order[k];
        proof {
            assert(cg.nodes_arena@[i as int].ids_in(&cg.interner));
        }
        let node = &cg.nodes_arena[i];
        names.push(str_to_chars(node.get_name(&cg.interner).as_str()));
        let loc = match &node.filename {
            Some(q) => Some(str_to_chars(f.format_location(q.as_str()).as_str())),
            None => None,
        };
        locs.push(loc);
        k = k + 1;
    }
    (names, locs)
}

/// The first node that `d` comes from, if any.
fn find_source(
    cg: &CallGraph,
    order: &Vec<usize>,
    mode: JsonGraphMode,
    f: &PathFormatter,
    names: &Vec<Vec<char>>,
    locs: &Vec<Option<Vec<char>>>,
    d: &ExternalReferenceDiagnostic,
) -> (r: Option<usize>)
    requires
        cg.wf(),
        distinct_below(order@, cg.nodes_arena@.len()),
        names@.len() == order@.len(),
        locs@.len() == order@.len(),
        forall|k: int| 0 <= k < order@.len() ==> (#[trigger] names@[k])@ == canonical(cg, order@[k] as int),
        forall|k: int| 0 <= k < order@.len() ==> match #[trigger] locs@[k] {
            Some(p) => cg.nodes_arena@[order@[k] as int].filename matches Some(q) && p@ == f@.location(q@),
            None => cg.nodes_arena@[order@[k] as int].filename is None,
        },
    ensures
        match r {
            Some(k) => first_match(cg, order@, mode, f@, *d, k as int),
            None => forall|k: int| 0 <= k < order@.len() ==> !#[trigger] src_match(cg, mode, f@, *d, order@[k] as int),
        },
{
    let src = str_to_chars(d.source_canonical_name.as_str());
    let dloc: Option<Vec<char>> = match &d.source_filename {
        Some(p) => Some(str_to_chars(f.format_location(p.as_str()).as_str())),
        None => None,
    };
    let mut k: usize = 0;
    while k < order.len()
        invariant
            k <= order@.len(),
            names@.len() == order@.len(),
            locs@.len() == order@.len(),
            forall|j: int| 0 <= j < order@.len() ==> (#[trigger] names@[j])@ == canonical(cg, order@[j] as int),
            forall|j: int| 0 <= j < order@.len() ==> match #[trigger] locs@[j] {
                Some(p) => cg.nodes_arena@[order@[j] as int].filename matches Some(q) && p@ == f@.location(q@),
                None => cg.nodes_arena@[order@[j] as int].filename is None,
            },
            src@ == d.source_canonical_name@,
            match dloc {
                Some(p) => d.source_filename matches Some(q) && p@ == f@.location(q@),
                None => d.source_filename is None,
            },
            forall|j: int| 0 <= j < k ==> !#[trigger] src_match(cg, mode, f@, *d, order@[j] as int),
        decreases order.len() - k,
    {
        let hit = match mode {
            JsonGraphMode::Symbol => chars_eq(names[k].as_slice(), src.as_slice()),
            JsonGraphMode::Module => match (&dloc, &locs[k]) {
                (Some(a), Some(b)) => chars_eq(a.as_slice(), b.as_slice()),
                _ => false,
            },
        };
        proof {
            assert(names@[k as int]@ == canonical(cg, order@[k as int] as int));
            let _ = locs@[k as int];
        }
        if hit {
            return Some(k);
        }
        k = k + 1;
    }
    None
}

/// The external references whose source is a node of the document (in
/// diagnostic order, `from` giving the diagnostic and the node of each),
/// and for each node the names they explain.
fn json_externals(
    cg: &CallGraph,
    order: &Vec<usize>,
    mode: JsonGraphMode,
    f: &PathFormatter,
) -> (r: (Vec<ExternalReference>, Vec<(usize, Vec<char>)>, Ghost<Seq<(int, int)>>))
    requires
        cg.wf(),
        distinct_below(order@, cg.nodes_arena@.len()),
        order@.len() < usize::MAX,
    ensures
        ({
            let diags = cg.diagnostics.external_references@;
            let (out, supp, from) = r;
            &&& out@.len() == from@.len()
            &&& forall|k: int| 0 <= k < from@.len() ==> 0 <= (#[trigger] from@[k]).0 < diags.len() && first_match(
                cg,
                order@,
                mode,
                f@,
                diags[from@[k].0],
                from@[k].1,
            ) && json_ext_entry(out@[k], diags[from@[k].0], from@[k].1, f@)
            &&& forall|a: int, b: int| 0 <= a < b < from@.len() ==> (#[trigger] from@[a]).0 < (#[trigger] from@[b]).0
            &&& forall|i: int, j: int| 0 <= i < diags.len() && #[trigger] first_match(cg, order@, mode, f@, diags[i], j) ==> exists|k: int|
                0 <= k < from@.len() && (#[trigger] from@[k]).0 == i
            &&& forall|k: int, n: Seq<char>| #[trigger] supp_pairs(supp@).contains((k, n)) <==> json_suppressed(cg, order@, mode, f@, k, n)
        }),
{
    let ghost diags = cg.diagnostics.external_references@;
    let (names, locs) = node_keys(cg, order, f);
    let mut out: Vec<ExternalReference> = Vec::new();
    let mut supp: Vec<(usize, Vec<char>)> = Vec::new();
    let ghost mut from: Seq<(int, int)> = Seq::empty();
    let mut i: usize = 0;
    while i < cg.diagnostics.external_references.len()
        invariant
            cg.wf(),
            distinct_below(order@, cg.nodes_arena@.len()),
            order@.len() < usize::MAX,
            i <= diags.len(),
            diags == cg.diagnostics.external_references@,
            names@.len() == order@.len(),
            locs@.len() == order@.len(),
            forall|k: int| 0 <= k < order@.len() ==> (#[trigger] names@[k])@ == canonical(cg, order@[k] as int),
            forall|k: int| 0 <= k < order@.len() ==> match #[trigger] locs@[k] {
                Some(p) => cg.nodes_arena@[order@[k] as int].filename matches Some(q) && p@ == f@.location(q@),
                None => cg.nodes_arena@[order@[k] as int].filename is None,
            },
            out@.len() == from.len(),
            forall|k: int| 0 <= k < from.len() ==> 0 <= (#[trigger] from[k]).0 < i && first_match(cg, order@, mode, f@, diags[from[k].0], from[k].1)
                && json_ext_entry(out@[k], diags[from[k].0], from[k].1, f@),
            forall|a: int, b: int| 0 <= a < b < from.len() ==> (#[trigger] from[a]).0 < (#[trigger] from[b]).0,
            forall|j: int, q: int| 0 <= j < i && #[trigger] first_match(cg, order@, mode, f@, diags[j], q) ==> exists|k: int|
                0 <= k < from.len() && (#[trigger] from[k]).0 == j,
            forall|k: int, n: Seq<char>| #[trigger] supp_pairs(supp@).contains((k, n)) <==> exists|j: int|
                0 <= j < i && first_match(cg, order@, mode, f@, diags[j], k) && #[trigger] json_suppresses(diags[j], n),
        decreases diags.len() - i,
    {
        let d = &cg.diagnostics.external_references[i];
        let ghost f0 = from;
        let ghost o0 = out@;
        let ghost s0 = supp@;
        match find_source(cg, order, mode, f, &names, &locs, d) {
            Some(k) => {
                let canon = str_to_chars(d.canonical_name.as_str());
                supp.push((k, crate::text::copy_chars(canon.as_slice())));
                let ghost mut short: Option<(Seq<char>, Seq<char>)> = None;
                if d.kind == ExternalReferenceKind::Import {
                    match rsplit_dot(canon.as_slice()) {
                        Some((before, after)) => {
                            supp.push((k, crate::text::copy_chars(after.as_slice())));
                            proof {
                                short = Some((before@, after@));
                            }
                        },
                        None => {},
                    }
                }
                let kind = chars_to_string(str_to_chars(d.kind.as_str()).as_slice());
                let path: Option<String> = match &d.source_filename {
                    Some(p) => Some(f.format_location(p.as_str())),
                    None => None,
                };
                out.push(
                    ExternalReference {
                        kind,
                        source: label(k),
                        canonical_name: crate::query::copy_str(&d.canonical_name),
                        path,
                        line: d.source_line,
                    },
                );
                proof {
                    from = from.push((i as int, k as int));
                    let dd = diags[i as int];
                    assert forall|q: int, n: Seq<char>| #[trigger] supp_pairs(supp@).contains((q, n)) <==> exists|j: int|
                        0 <= j < i + 1 && first_match(cg, order@, mode, f@, diags[j], q) && #[trigger] json_suppresses(diags[j], n) by {
                        let pvs = supp_pairs(supp@);
                        if pvs.contains((q, n)) {
                            let w = choose|w: int| 0 <= w < pvs.len() && pvs[w] == (q, n);
                            if w < s0.len() {
                                assert(supp_pairs(s0)[w] == (q, n));
                                assert(supp_pairs(s0).contains((q, n)));
                            } else if w == s0.len() {
                                assert(json_suppresses(dd, n));
                            } else {
                                let (x, y) = short->0;
                                assert(pvs[w] == (k as int, y));
                                assert(dd.canonical_name@ == dotted(x, y));
                                assert(json_suppresses(dd, n));
                            }
                        }
                        if exists|j: int| 0 <= j < i + 1 && first_match(cg, order@, mode, f@, diags[j], q) && #[trigger] json_suppresses(diags[j], n) {
                            let j = choose|j: int|
                                0 <= j < i + 1 && first_match(cg, order@, mode, f@, diags[j], q) && #[trigger] json_suppresses(diags[j], n);
                            if j < i {
                                assert(supp_pairs(s0).contains((q, n)));
                                let w = choose|w: int| 0 <= w < supp_pairs(s0).len() && supp_pairs(s0)[w] == (q, n);
                                assert(pvs[w] == (q, n));
                            } else {
                                assert(q == k) by {
                                    if q < k {
                                        assert(!src_match(cg, mode, f@, dd, order@[q] as int));
                                    } else if q > k {
                                        assert(!src_match(cg, mode, f@, dd, order@[k as int] as int));
                                    }
                                }
                                if n == dd.canonical_name@ {
                                    assert(pvs[s0.len() as int] == (q, n));
                                } else {
                                    let x = choose|x: Seq<char>| dd.canonical_name@ == #[trigger] dotted(x, n);
                                    assert(dd.canonical_name@[x.len() as int] == '.');
                                    assert(dd.canonical_name@.contains('.'));
                                    assert(short is Some);
                                    let (x2, y2) = short->0;
                                    crate::text::lemma_dotted_unique(x, n, x2, y2);
                                    assert(pvs[s0.len() as int + 1] == (q, n));
                                }
                            }
                        }
                    }
                    assert forall|j: int, q: int| 0 <= j < i + 1 && #[trigger] first_match(cg, order@, mode, f@, diags[j], q) implies exists|
                        w: int,
                    | 0 <= w < from.len() && (#[trigger] from[w]).0 == j by {
                        if j < i {
                            let w = choose|w: int| 0 <= w < f0.len() && (#[trigger] f0[w]).0 == j;
                            assert(from[w] == f0[w]);
                        } else {
                            assert(from[from.len() - 1].0 == j);
                        }
                    }
                    assert forall|w: int| 0 <= w < from.len() implies 0 <= (#[trigger] from[w]).0 < i + 1 && first_match(
                        cg,
                        order@,
                        mode,
                        f@,
                        diags[from[w].0],
                        from[w].1,
                    ) && json_ext_entry(out@[w], diags[from[w].0], from[w].1, f@) by {
                        if w < f0.len() {
                            assert(out@[w] == o0[w]);
                            assert(from[w] == f0[w]);
                        }
                    }
                }
            },
            None => {
                proof {
                    assert forall|j: int, q: int| 0 <= j < i + 1 && #[trigger] first_match(cg, order@, mode, f@, diags[j], q) implies exists|
                        w: int,
                    | 0 <= w < from.len() && (#[trigger] from[w]).0 == j by {
                        if j == i {
                            assert(!src_match(cg, mode, f@, diags[j], order@[q] as int));
                        }
                    }
                    assert forall|q: int, n: Seq<char>| #[trigger] supp_pairs(supp@).contains((q, n)) <==> exists|j: int|
                        0 <= j < i + 1 && first_match(cg, order@, mode, f@, diags[j], q) && #[trigger] json_suppresses(diags[j], n) by {
                        if exists|j: int| 0 <= j < i + 1 && first_match(cg, order@, mode, f@, diags[j], q) && #[trigger] json_suppresses(diags[j], n) {
                            let j = choose|j: int|
                                0 <= j < i + 1 && first_match(cg, order@, mode, f@, diags[j], q) && #[trigger] json_suppresses(diags[j], n);
                            if j == i {
                                assert(!src_match(cg, mode, f@, diags[j], order@[q] as int));
                            }
                        }
                    }
                }
            },
        }
        i = i + 1;
    }
    (out, supp, Ghost(from))
}

/// The (node position, name) pairs of a suppression list.
pub open spec fn supp_pairs(v: Seq<(usize, Vec<char>)>) -> Seq<(int, Seq<char>)> {
    Seq::new(v.len(), |i: int| (v[i].0 as int, v[i].1@))
}

/// `v` is strictly increasing.
pub open spec fn increasing(v: Seq<NodeId>) -> bool {
    forall|a: int, b: int| 0 <= a < b < v.len() ==> #[trigger] v[a] < #[trigger] v[b]
}

/// The nodes of `v`, in increasing order, each once.
fn sort_ids(v: &Vec<NodeId>) -> (r: Vec<NodeId>)
    ensures
        increasing(r@),
        forall|x: NodeId| #[trigger] r@.contains(x) <==> v@.contains(x),
{
    let mut out: Vec<NodeId> = Vec::new();
    let mut i: usize = 0;
    while i < v.len()
        invariant
            i <= v@.len(),
            increasing(out@),
            forall|x: NodeId| #[trigger] out@.contains(x) <==> v@.take(i as int).contains(x),
        decreases v.len() - i,
    {
        let x = v[i];
        let ghost o0 = out@;
        let ghost t0 = v@.take(i as int);
        let ghost t1 = v@.take(i + 1);
        let mut p: usize = 0;
        while p < out.len() && out[p] < x
            invariant
                p <= out@.len(),
                out@ == o0,
                forall|j: int| 0 <= j < p ==> #[trigger] out@[j] < x,
            decreases out.len() - p,
        {
            p = p + 1;
        }
        proof {
            assert(t1 =~= t0.push(x));
            assert(t1[i as int] == x);
        }
        if p < out.len() && out[p] == x {
            proof {
                assert forall|y: NodeId| #[trigger] out@.contains(y) <==> t1.contains(y) by {
                    if t1.contains(y) && y == x {
                        assert(out@[p as int] == y);
                    }
                    if t1.contains(y) && y != x {
                        let w = choose|w: int| 0 <= w < i + 1 && t1[w] == y;
                        assert(t0[w] == y);
                    }
                    if out@.contains(y) {
                        assert(t0.contains(y));
                        let w = choose|w: int| 0 <= w < i && t0[w] == y;
                        assert(t1[w] == y);
                    }
                }
            }
        } else {
            out.insert(p, x);
            proof {
                assert forall|a: int, b: int| 0 <= a < b < out@.len() implies #[trigger] out@[a] < #[trigger] out@[b] by {
                    if b < p {
                        assert(out@[a] == o0[a] && out@[b] == o0[b]);
                    } else if b == p {
                        assert(out@[a] == o0[a]);
                    } else if a < p {
                        assert(out@[a] == o0[a] && out@[b] == o0[b - 1]);
                        assert(o0[b - 1] >= o0[p as int] || b - 1 == p);
                        assert(o0[p as int] > x || o0[p as int] >= x);
                        if a + 1 < p {
                            assert(o0[a] < o0[b - 1]);
                        }
                    } else if a == p {
                        assert(out@[b] == o0[b - 1]);
                        assert(o0[p as int] >= x);
                        assert(o0[p as int] != x);
                        if b - 1 > p {
                            assert(o0[p as int] < o0[b - 1]);
                        }
                    } else {
                        assert(out@[a] == o0[a - 1] && out@[b] == o0[b - 1]);
                    }
                }
                assert forall|y: NodeId| #[trigger] out@.contains(y) <==> t1.contains(y) by {
                    if out@.contains(y) {
                        let w = choose|w: int| 0 <= w < out@.len() && out@[w] == y;
                        if w < p {
                            assert(o0[w] == y);
                            assert(o0.contains(y));
                        } else if w > p {
                            assert(o0[w - 1] == y);
                            assert(o0.contains(y));
                        } else {
                            assert(t1[i as int] == y);
                        }
                        if o0.contains(y) {
                            assert(t0.contains(y));
                            let z = choose|z: int| 0 <= z < i && t0[z] == y;
                            assert(t1[z] == y);
                        }
                    }
                    if t1.contains(y) {
                        let w = choose|w: int| 0 <= w < i + 1 && t1[w] == y;
                        if w == i {
                            assert(out@[p as int] == y);
                        } else {
                            assert(t0[w] == y);
                            assert(o0.contains(y));
                            let z = choose|z: int| 0 <= z < o0.len() && o0[z] == y;
                            if z < p {
                                assert(out@[z] == y);
                            } else {
                                assert(out@[z + 1] == y);
                            }
                        }
                    }
                }
            }
        }
        i = i + 1;
    }
    proof {
        assert(v@.take(v@.len() as int) =~= v@);
    }
    out
}

/// Target `t` of source `s` is a defined node with a namespace and the
/// short name `n`.
pub open spec fn json_candidate(cg: &CallGraph, s: int, n: Seq<char>, t: NodeId) -> bool {
    &&& cg.uses_edges@[s]@.contains(t)
    &&& cg.nodes_arena@[t as int].namespace is Some
    &&& cg.defined@[t as int]
    &&& short_name(cg, t as int) == n
}

/// `v` lists, in increasing order, the candidates of `s` for `n`.
pub open spec fn json_candidates(v: Seq<NodeId>, cg: &CallGraph, s: int, n: Seq<char>) -> bool {
    &&& increasing(v)
    &&& forall|t: NodeId| #[trigger] v.contains(t) <==> json_candidate(cg, s, n, t)
}

/// Source `s` reaches several candidates through the name `n`.
pub open spec fn json_ambiguous(cg: &CallGraph, s: int, n: Seq<char>) -> bool {
    exists|t1: NodeId, t2: NodeId| t1 != t2 && #[trigger] json_candidate(cg, s, n, t1) && #[trigger] json_candidate(cg, s, n, t2)
}

/// Source `s`, the `k`th node, has an unresolved use of `n` that the
/// report keeps.
pub open spec fn json_reported_unknown(
    cg: &CallGraph,
    order: Seq<usize>,
    mode: JsonGraphMode,
    f: FormatView,
    k: int,
    n: Seq<char>,
) -> bool {
    &&& uses_unknown(cg, order[k] as int, n)
    &&& !skipped_name(n)
    &&& !json_suppressed(cg, order, mode, f, k, n)
}

/// The candidates of `s` for the name `name`, in increasing order.
fn candidates_for(cg: &CallGraph, s: usize, name: &Vec<char>) -> (r: Vec<NodeId>)
    requires
        cg.wf(),
        s < cg.nodes_arena@.len(),
    ensures
        json_candidates(r@, cg, s as int, name@),
{
    proof {
        assert(crate::analyzer::graph::set_in(cg.uses_edges@[s as int], cg.nodes_arena@.len()));
    }
    let targets = cg.uses_edges[s].as_slice();
    let mut cands: Vec<NodeId> = Vec::new();
    let mut j: usize = 0;
    while j < targets.len()
        invariant
            cg.wf(),
            s < cg.nodes_arena@.len(),
            targets@ == cg.uses_edges@[s as int]@,
            crate::analyzer::graph::set_in(cg.uses_edges@[s as int], cg.nodes_arena@.len()),
            j <= targets@.len(),
            forall|x: NodeId| #[trigger] cands@.contains(x) <==> (json_candidate(cg, s as int, name@, x) && exists|jj: int|
                0 <= jj < j && targets@[jj] == x),
        decreases targets.len() - j,
    {
        let t = targets[j];
        proof {
            assert(t < cg.nodes_arena@.len());
            assert(cg.nodes_arena@[t as int].ids_in(&cg.interner));
            assert(targets@.contains(t));
        }
        let ghost c0 = cands@;
        let node = &cg.nodes_arena[t];
        if node.namespace.is_some() && cg.defined[t] {
            let nm = str_to_chars(cg.interner.resolve(node.name));
            if chars_eq(nm.as_slice(), name.as_slice()) {
                cands.push(t);
            }
        }
        proof {
            assert forall|x: NodeId| #[trigger] cands@.contains(x) <==> (json_candidate(cg, s as int, name@, x) && exists|jj: int|
                0 <= jj < j + 1 && targets@[jj] == x) by {
                if cands@.contains(x) {
                    let w = choose|w: int| 0 <= w < cands@.len() && cands@[w] == x;
                    if w < c0.len() {
                        assert(c0[w] == x);
                        assert(c0.contains(x));
                    } else {
                        assert(targets@[j as int] == x);
                    }
                }
                if json_candidate(cg, s as int, name@, x) && exists|jj: int| 0 <= jj < j + 1 && targets@[jj] == x {
                    let jj = choose|jj: int| 0 <= jj < j + 1 && targets@[jj] == x;
                    if jj < j {
                        assert(c0.contains(x));
                        let w = choose|w: int| 0 <= w < c0.len() && c0[w] == x;
                        assert(cands@[w] == x);
                    } else {
                        assert(cands@[cands@.len() - 1] == x);
                    }
                }
            }
        }
        j = j + 1;
    }
    let r = sort_ids(&cands);
    proof {
        assert forall|x: NodeId| #[trigger] r@.contains(x) <==> json_candidate(cg, s as int, name@, x) by {
            if json_candidate(cg, s as int, name@, x) {
                let jj = choose|jj: int| 0 <= jj < targets@.len() && targets@[jj] == x;
            }
        }
    }
    r
}

/// Two different members make a list of at least two.
proof fn lemma_two_members(v: Seq<NodeId>, a: NodeId, b: NodeId)
    requires
        a != b,
        v.contains(a),
        v.contains(b),
    ensures
        v.len() >= 2,
{
    let i = choose|i: int| 0 <= i < v.len() && v[i] == a;
    let j = choose|j: int| 0 <= j < v.len() && v[j] == b;
    assert(i != j);
}

/// The unresolved names that source `s`, the `k`th node, reports, given
/// the names that its external references explain.
fn json_unknowns(
    cg: &CallGraph,
    s: usize,
    blocked: &Vec<Vec<char>>,
    order: Ghost<Seq<usize>>,
    mode: JsonGraphMode,
    f: Ghost<FormatView>,
    k: Ghost<int>,
) -> (r: Vec<Vec<char>>)
    requires
        cg.wf(),
        s < cg.nodes_arena@.len(),
        0 <= k@ < order@.len(),
        order@[k@] == s,
        forall|n: Seq<char>| #[trigger] char_views(blocked@).contains(n) <==> json_suppressed(cg, order@, mode, f@, k@, n),
    ensures
        forall|a: int, b: int| 0 <= a < r@.len() && 0 <= b < r@.len() && a != b ==> #[trigger] r@[a]@ != #[trigger] r@[b]@,
        forall|n: Seq<char>| #[trigger] char_views(r@).contains(n) <==> json_reported_unknown(cg, order@, mode, f@, k@, n),
{
    proof {
        assert(crate::analyzer::graph::set_in(cg.uses_edges@[s as int], cg.nodes_arena@.len()));
    }
    let targets = cg.uses_edges[s].as_slice();
    let init = vec!['_', '_', 'i', 'n', 'i', 't', '_', '_'];
    let hats = vec!['^', '^', '^'];
    proof {
        reveal_strlit("__init__");
        reveal_strlit("^^^");
        assert(init@ =~= "__init__"@);
        assert(hats@ =~= "^^^"@);
    }
    let mut unknown: Vec<Vec<char>> = Vec::new();
    let mut m: usize = 0;
    while m < targets.len()
        invariant
            cg.wf(),
            s < cg.nodes_arena@.len(),
            0 <= k@ < order@.len(),
            order@[k@] == s,
            targets@ == cg.uses_edges@[s as int]@,
            crate::analyzer::graph::set_in(cg.uses_edges@[s as int], cg.nodes_arena@.len()),
            init@ == "__init__"@,
            hats@ == "^^^"@,
            m <= targets@.len(),
            forall|n: Seq<char>| #[trigger] char_views(blocked@).contains(n) <==> json_suppressed(cg, order@, mode, f@, k@, n),
            forall|a: int, b: int| 0 <= a < unknown@.len() && 0 <= b < unknown@.len() && a != b ==> #[trigger] unknown@[a]@ != #[trigger] unknown@[b]@,
            forall|n: Seq<char>| #[trigger] char_views(unknown@).contains(n) <==> (crate::query::unknown_upto(cg, s as int, n, m as int)
                && !skipped_name(n) && !json_suppressed(cg, order@, mode, f@, k@, n)),
        decreases targets.len() - m,
    {
        let t = targets[m];
        proof {
            assert(t < cg.nodes_arena@.len());
            assert(cg.nodes_arena@[t as int].ids_in(&cg.interner));
        }
        let node = &cg.nodes_arena[t];
        let ghost u0 = unknown@;
        if node.namespace.is_none() {
            let name = str_to_chars(cg.interner.resolve(node.name));
            let skip = chars_eq(name.as_slice(), init.as_slice()) || crate::text::starts_with(name.as_slice(), hats.as_slice());
            if !skip && !contains_text(blocked, name.as_slice()) && !contains_text(&unknown, name.as_slice()) {
                unknown.push(name);
            }
            proof {
                assert forall|n: Seq<char>| #[trigger] char_views(unknown@).contains(n) <==> (crate::query::unknown_upto(cg, s as int, n, m as int + 1)
                    && !skipped_name(n) && !json_suppressed(cg, order@, mode, f@, k@, n)) by {
                    let uv = char_views(unknown@);
                    let uv0 = char_views(u0);
                    if uv.contains(n) {
                        let w = choose|w: int| 0 <= w < uv.len() && uv[w] == n;
                        if w < uv0.len() {
                            assert(uv0[w] == n);
                            assert(uv0.contains(n));
                        } else {
                            assert(short_name(cg, targets@[m as int] as int) == n);
                        }
                    }
                    if crate::query::unknown_upto(cg, s as int, n, m as int + 1) && !skipped_name(n) && !json_suppressed(cg, order@, mode, f@, k@, n) {
                        if !crate::query::unknown_upto(cg, s as int, n, m as int) {
                            let w = choose|w: int| 0 <= w < m + 1 && cg.nodes_arena@[cg.uses_edges@[s as int]@[w] as int].namespace is None
                                && #[trigger] short_name(cg, cg.uses_edges@[s as int]@[w] as int) == n;
                            assert(w == m);
                            assert(name@ == n);
                            if uv0.contains(n) {
                                let z = choose|z: int| 0 <= z < uv0.len() && uv0[z] == n;
                                assert(uv[z] == n);
                            } else {
                                assert(uv[uv.len() - 1] == n);
                            }
                        } else {
                            assert(uv0.contains(n));
                            let z = choose|z: int| 0 <= z < uv0.len() && uv0[z] == n;
                            assert(uv[z] == n);
                        }
                    }
                }
                assert forall|a: int, b: int| 0 <= a < unknown@.len() && 0 <= b < unknown@.len() && a != b implies #[trigger] unknown@[a]@ != #[trigger] unknown@[b]@ by {
                    if a < u0.len() && b < u0.len() {
                        assert(unknown@[a] == u0[a] && unknown@[b] == u0[b]);
                    } else if a >= u0.len() {
                        assert(char_views(u0)[b] == u0[b]@);
                    } else {
                        assert(char_views(u0)[a] == u0[a]@);
                    }
                }
            }
        } else {
            proof {
                assert forall|n: Seq<char>| #[trigger] char_views(unknown@).contains(n) <==> (crate::query::unknown_upto(cg, s as int, n, m as int + 1)
                    && !skipped_name(n) && !json_suppressed(cg, order@, mode, f@, k@, n)) by {
                    if crate::query::unknown_upto(cg, s as int, n, m as int + 1) {
                        let w = choose|w: int| 0 <= w < m + 1 && cg.nodes_arena@[cg.uses_edges@[s as int]@[w] as int].namespace is None
                            && #[trigger] short_name(cg, cg.uses_edges@[s as int]@[w] as int) == n;
                        assert(w < m);
                    }
                }
            }
        }
        m = m + 1;
    }
    proof {
        assert forall|n: Seq<char>| uses_unknown(cg, s as int, n) <==> crate::query::unknown_upto(cg, s as int, n, m as int) by {
            if uses_unknown(cg, s as int, n) {
                let w = choose|w: int| 0 <= w < cg.uses_edges@[s as int]@.len() && cg.nodes_arena@[cg.uses_edges@[s as int]@[w] as int].namespace is None
                    && #[trigger] short_name(cg, cg.uses_edges@[s as int]@[w] as int) == n;
            }
        }
    }
    unknown
}

/// For each name through which source `s` reaches several candidates, the
/// name and its candidates in increasing order.
fn json_groups(cg: &CallGraph, s: usize) -> (r: Vec<(Vec<char>, Vec<NodeId>)>)
    requires
        cg.wf(),
        s < cg.nodes_arena@.len(),
    ensures
        forall|a: int, b: int| 0 <= a < r@.len() && 0 <= b < r@.len() && a != b ==> (#[trigger] r@[a]).0@ != (#[trigger] r@[b]).0@,
        forall|g: int| 0 <= g < r@.len() ==> json_candidates((#[trigger] r@[g]).1@, cg, s as int, r@[g].0@) && r@[g].1@.len() >= 2,
        forall|n: Seq<char>| #[trigger] json_ambiguous(cg, s as int, n) ==> exists|g: int| 0 <= g < r@.len() && #[trigger] r@[g].0@ == n,
{
    proof {
        assert(crate::analyzer::graph::set_in(cg.uses_edges@[s as int], cg.nodes_arena@.len()));
    }
    let targets = cg.uses_edges[s].as_slice();
    let mut seen: Vec<Vec<char>> = Vec::new();
    let mut groups: Vec<(Vec<char>, Vec<NodeId>)> = Vec::new();
    let mut m: usize = 0;
    while m < targets.len()
        invariant
            cg.wf(),
            s < cg.nodes_arena@.len(),
            targets@ == cg.uses_edges@[s as int]@,
            crate::analyzer::graph::set_in(cg.uses_edges@[s as int], cg.nodes_arena@.len()),
            m <= targets@.len(),
            forall|a: int, b: int| 0 <= a < groups@.len() && 0 <= b < groups@.len() && a != b ==> (#[trigger] groups@[a]).0@ != (#[trigger] groups@[b]).0@,
            forall|g: int| 0 <= g < groups@.len() ==> json_candidates((#[trigger] groups@[g]).1@, cg, s as int, groups@[g].0@)
                && groups@[g].1@.len() >= 2 && char_views(seen@).contains(groups@[g].0@),
            forall|h: int| 0 <= h < seen@.len() && json_ambiguous(cg, s as int, #[trigger] seen@[h]@) ==> exists|g: int|
                0 <= g < groups@.len() && #[trigger] groups@[g].0@ == seen@[h]@,
            forall|j: int| 0 <= j < m && cg.nodes_arena@[#[trigger] targets@[j] as int].namespace is Some && cg.defined@[targets@[j] as int]
                ==> char_views(seen@).contains(short_name(cg, targets@[j] as int)),
        decreases targets.len() - m,
    {
        let t = targets[m];
        proof {
            assert(t < cg.nodes_arena@.len());
            assert(cg.nodes_arena@[t as int].ids_in(&cg.interner));
        }
        let node = &cg.nodes_arena[t];
        let ghost s0 = seen@;
        let ghost g0 = groups@;
        if node.namespace.is_some() && cg.defined[t] {
            let name = str_to_chars(cg.interner.resolve(node.name));
            if !contains_text(&seen, name.as_slice()) {
                let cands = candidates_for(cg, s, &name);
                if cands.len() >= 2 {
                    groups.push((crate::text::copy_chars(name.as_slice()), cands));
                    proof {
                        assert forall|a: int, b: int| 0 <= a < groups@.len() && 0 <= b < groups@.len() && a != b implies (#[trigger] groups@[a]).0@
                            != (#[trigger] groups@[b]).0@ by {
                            if a < g0.len() && b < g0.len() {
                                assert(groups@[a] == g0[a] && groups@[b] == g0[b]);
                            } else if a < g0.len() {
                                assert(char_views(s0).contains(g0[a].0@));
                            } else {
                                assert(char_views(s0).contains(g0[b].0@));
                            }
                        }
                    }
                } else {
                    proof {
                        if json_ambiguous(cg, s as int, name@) {
                            let (t1, t2) = choose|t1: NodeId, t2: NodeId| t1 != t2 && #[trigger] json_candidate(cg, s as int, name@, t1)
                                && #[trigger] json_candidate(cg, s as int, name@, t2);
                            lemma_two_members(cands@, t1, t2);
                        }
                    }
                }
                let ghost g1 = groups@;
                seen.push(name);
                proof {
                    let sv = char_views(seen@);
                    assert(sv =~= char_views(s0).push(name@));
                    assert forall|g: int| 0 <= g < groups@.len() implies json_candidates((#[trigger] groups@[g]).1@, cg, s as int, groups@[g].0@)
                        && groups@[g].1@.len() >= 2 && char_views(seen@).contains(groups@[g].0@) by {
                        if g < g0.len() {
                            assert(groups@[g] == g0[g]);
                            let z = choose|z: int| 0 <= z < char_views(s0).len() && char_views(s0)[z] == g0[g].0@;
                            assert(sv[z] == g0[g].0@);
                        } else {
                            assert(sv[sv.len() - 1] == groups@[g].0@);
                        }
                    }
                    assert forall|h: int| 0 <= h < seen@.len() && json_ambiguous(cg, s as int, #[trigger] seen@[h]@) implies exists|g: int|
                        0 <= g < groups@.len() && #[trigger] groups@[g].0@ == seen@[h]@ by {
                        if h < s0.len() {
                            assert(seen@[h] == s0[h]);
                            let g = choose|g: int| 0 <= g < g0.len() && #[trigger] g0[g].0@ == s0[h]@;
                            assert(groups@[g] == g0[g]);
                        } else {
                            let (t1, t2) = choose|t1: NodeId, t2: NodeId| t1 != t2 && #[trigger] json_candidate(cg, s as int, name@, t1)
                                && #[trigger] json_candidate(cg, s as int, name@, t2);
                            lemma_two_members(cands@, t1, t2);
                            assert(groups@[groups@.len() - 1].0@ == name@);
                        }
                    }
                    assert forall|j: int| 0 <= j < m + 1 && cg.nodes_arena@[#[trigger] targets@[j] as int].namespace is Some && cg.defined@[targets@[j] as int]
                        implies char_views(seen@).contains(short_name(cg, targets@[j] as int)) by {
                        if j < m {
                            let z = choose|z: int| 0 <= z < char_views(s0).len() && char_views(s0)[z] == short_name(cg, targets@[j] as int);
                            assert(sv[z] == short_name(cg, targets@[j] as int));
                        } else {
                            assert(sv[sv.len() - 1] == name@);
                        }
                    }
                }
            }
        }
        m = m + 1;
    }
    proof {
        assert forall|n: Seq<char>| #[trigger] json_ambiguous(cg, s as int, n) implies exists|g: int| 0 <= g < groups@.len() && #[trigger] groups@[g].0@ == n by {
            let (t1, t2) = choose|t1: NodeId, t2: NodeId| t1 != t2 && #[trigger] json_candidate(cg, s as int, n, t1) && #[trigger] json_candidate(cg, s as int, n, t2);
            let j = choose|j: int| 0 <= j < targets@.len() && targets@[j] == t1;
            assert(char_views(seen@).contains(short_name(cg, targets@[j] as int)));
            let h = choose|h: int| 0 <= h < char_views(seen@).len() && char_views(seen@)[h] == n;
            assert(seen@[h]@ == n);
            assert(json_ambiguous(cg, s as int, seen@[h]@));
        }
    }
    groups
}

/// `e` reports that source `s`, the `k`th node, uses the unresolved name
/// `n`.
pub open spec fn json_unres_entry(e: UnresolvedReference, cg: &CallGraph, order: Seq<usize>, k: int, n: Seq<char>, f: FormatView) -> bool {
    &&& e.kind@ == "use"@
    &&& e.source@ == label_text(k)
    &&& e.symbol@ == n
    &&& opt_text(e.path) == opt_location(cg.nodes_arena@[order[k] as int].filename, f)
    &&& e.line == cg.nodes_arena@[order[k] as int].line
}

/// `e` reports that source `s`, the `k`th node, reaches several
/// candidates through `n`, listed by output id in node order.
pub open spec fn json_amb_entry(e: AmbiguousResolution, cg: &CallGraph, order: Seq<usize>, k: int, n: Seq<char>, f: FormatView) -> bool {
    &&& e.kind@ == "use"@
    &&& e.source@ == label_text(k)
    &&& e.symbol@ == n
    &&& exists|v: Seq<NodeId>| #[trigger] json_candidates(v, cg, order[k] as int, n) && texts(e.candidate_targets@) == labels_of(order, v)
    &&& opt_text(e.path) == opt_location(cg.nodes_arena@[order[k] as int].filename, f)
    &&& e.line == cg.nodes_arena@[order[k] as int].line
}

/// `a` records the widening of the `k`th node's use of `n` to several
/// candidates.
pub open spec fn json_approx_entry(a: Approximation, cg: &CallGraph, order: Seq<usize>, k: int, n: Seq<char>, f: FormatView) -> bool {
    &&& a.kind@ == "resolution_widening"@
    &&& a.source@ == label_text(k)
    &&& opt_text(a.symbol) == Some(n)
    &&& a.reason@ == "multiple_candidate_targets"@
    &&& exists|v: Seq<NodeId>| #[trigger] json_candidates(v, cg, order[k] as int, n) && texts(a.candidate_targets@) == labels_of(order, v)
    &&& opt_text(a.path) == opt_location(cg.nodes_arena@[order[k] as int].filename, f)
    &&& a.line == cg.nodes_arena@[order[k] as int].line
}

/// The diagnostics of the document whose nodes are `order`: every external
/// reference from one of them, every reported unresolved name, every
/// ambiguous name with its widening, each once, each list in key order.
pub open spec fn json_diagnostics_of(r: QueryDiagnostics, cg: &CallGraph, order: Seq<usize>, mode: JsonGraphMode, f: FormatView) -> bool {
    let diags = cg.diagnostics.external_references@;
    let ext = r.external_references@;
    let un = r.unresolved_references@;
    let am = r.ambiguous_resolutions@;
    let ap = r.approximations@;
    &&& r.warnings@.len() == 0
    &&& r.summary.warnings == 0
    &&& r.summary.unresolved_references == un.len()
    &&& r.summary.ambiguous_resolutions == am.len()
    &&& r.summary.external_references == ext.len()
    &&& r.summary.approximations == ap.len()
    &&& exists|from: Seq<(int, int)>|
        {
            &&& from.len() == ext.len()
            &&& forall|k: int| 0 <= k < ext.len() ==> 0 <= (#[trigger] from[k]).0 < diags.len() && first_match(cg, order, mode, f, diags[from[k].0], from[k].1)
                && json_ext_entry(ext[k], diags[from[k].0], from[k].1, f)
            &&& forall|a: int, b: int| 0 <= a < ext.len() && 0 <= b < ext.len() && a != b ==> (#[trigger] from[a]).0 != (#[trigger] from[b]).0
            &&& forall|i: int, j: int| 0 <= i < diags.len() && #[trigger] first_match(cg, order, mode, f, diags[i], j) ==> exists|k: int|
                0 <= k < from.len() && (#[trigger] from[k]).0 == i
        }
    &&& forall|a: int, b: int| 0 <= a < b < ext.len() ==> !key_less(ext_key(#[trigger] ext[b]), ext_key(#[trigger] ext[a]))
    &&& exists|w: Seq<(int, Seq<char>)>|
        {
            &&& w.len() == un.len()
            &&& forall|k: int| 0 <= k < un.len() ==> 0 <= (#[trigger] w[k]).0 < order.len() && json_reported_unknown(cg, order, mode, f, w[k].0, w[k].1)
                && json_unres_entry(un[k], cg, order, w[k].0, w[k].1, f)
            &&& forall|a: int, b: int| 0 <= a < un.len() && 0 <= b < un.len() && a != b ==> #[trigger] w[a] != #[trigger] w[b]
            &&& forall|q: int, n: Seq<char>| 0 <= q < order.len() && #[trigger] json_reported_unknown(cg, order, mode, f, q, n) ==> w.contains((q, n))
        }
    &&& forall|a: int, b: int| 0 <= a < b < un.len() ==> !key_less(unres_key(#[trigger] un[b]), unres_key(#[trigger] un[a]))
    &&& exists|w: Seq<(int, Seq<char>)>|
        {
            &&& w.len() == am.len()
            &&& forall|k: int| 0 <= k < am.len() ==> 0 <= (#[trigger] w[k]).0 < order.len() && json_ambiguous(cg, order[w[k].0] as int, w[k].1)
                && json_amb_entry(am[k], cg, order, w[k].0, w[k].1, f)
            &&& forall|a: int, b: int| 0 <= a < am.len() && 0 <= b < am.len() && a != b ==> #[trigger] w[a] != #[trigger] w[b]
            &&& forall|q: int, n: Seq<char>| 0 <= q < order.len() && #[trigger] json_ambiguous(cg, order[q] as int, n) ==> w.contains((q, n))
        }
    &&& forall|a: int, b: int| 0 <= a < b < am.len() ==> !key_less(amb_key(#[trigger] am[b]), amb_key(#[trigger] am[a]))
    &&& exists|w: Seq<(int, Seq<char>)>|
        {
            &&& w.len() == ap.len()
            &&& forall|k: int| 0 <= k < ap.len() ==> 0 <= (#[trigger] w[k]).0 < order.len() && json_ambiguous(cg, order[w[k].0] as int, w[k].1)
                && json_approx_entry(ap[k], cg, order, w[k].0, w[k].1, f)
            &&& forall|a: int, b: int| 0 <= a < ap.len() && 0 <= b < ap.len() && a != b ==> #[trigger] w[a] != #[trigger] w[b]
            &&& forall|q: int, n: Seq<char>| 0 <= q < order.len() && #[trigger] json_ambiguous(cg, order[q] as int, n) ==> w.contains((q, n))
        }
    &&& forall|a: int, b: int| 0 <= a < b < ap.len() ==> !key_less(approx_key(#[trigger] ap[b]), approx_key(#[trigger] ap[a]))
}

/// The names that the suppression list pairs with the `k`th node.
fn blocked_names(supp: &Vec<(usize, Vec<char>)>, k: usize) -> (r: Vec<Vec<char>>)
    ensures
        forall|n: Seq<char>| #[trigger] char_views(r@).contains(n) <==> supp_pairs(supp@).contains((k as int, n)),
{
    let mut out: Vec<Vec<char>> = Vec::new();
    let mut i: usize = 0;
    while i < supp.len()
        invariant
            i <= supp@.len(),
            forall|n: Seq<char>| #[trigger] char_views(out@).contains(n) <==> supp_pairs(supp@).take(i as int).contains((k as int, n)),
        decreases supp.len() - i,
    {
        let ghost o0 = char_views(out@);
        let ghost t0 = supp_pairs(supp@).take(i as int);
        let ghost t1 = supp_pairs(supp@).take(i + 1);
        proof {
            assert(t1 =~= t0.push(supp_pairs(supp@)[i as int]));
        }
        if supp[i].0 == k {
            out.push(crate::text::copy_chars(supp[i].1.as_slice()));
        }
        proof {
            let ov = char_views(out@);
            assert forall|n: Seq<char>| #[trigger] ov.contains(n) <==> t1.contains((k as int, n)) by {
                if ov.contains(n) {
                    let w = choose|w: int| 0 <= w < ov.len() && ov[w] == n;
                    if w < o0.len() {
                        assert(o0[w] == n);
                        assert(o0.contains(n));
                        let z = choose|z: int| 0 <= z < t0.len() && t0[z] == (k as int, n);
                        assert(t1[z] == (k as int, n));
                    } else {
                        assert(t1[i as int] == (k as int, n));
                    }
                }
                if t1.contains((k as int, n)) {
                    let z = choose|z: int| 0 <= z < t1.len() && t1[z] == (k as int, n);
                    if z < i {
                        assert(t0[z] == (k as int, n));
                        assert(o0.contains(n));
                        let w = choose|w: int| 0 <= w < o0.len() && o0[w] == n;
                        assert(ov[w] == n);
                    } else {
                        assert(ov[ov.len() - 1] == n);
                    }
                }
            }
        }
        i = i + 1;
    }
    proof {
        assert(supp_pairs(supp@).take(supp@.len() as int) =~= supp_pairs(supp@));
    }
    out
}

/// The output ids of some candidates.
fn candidate_labels(order: &Vec<usize>, pos: &Vec<usize>, cands: &Vec<NodeId>, n: Ghost<nat>) -> (r: Vec<String>)
    requires
        distinct_below(order@, n@),
        order@.len() < usize::MAX,
        pos@.len() == n@,
        forall|k: int| 0 <= k < order@.len() ==> #[trigger] pos@[order@[k] as int] == k,
        forall|c: int| 0 <= c < cands@.len() ==> order@.contains(#[trigger] cands@[c]),
    ensures
        texts(r@) == labels_of(order@, cands@),
{
    let mut out: Vec<String> = Vec::new();
    let mut c: usize = 0;
    while c < cands.len()
        invariant
            distinct_below(order@, n@),
            order@.len() < usize::MAX,
            pos@.len() == n@,
            forall|k: int| 0 <= k < order@.len() ==> #[trigger] pos@[order@[k] as int] == k,
            forall|c: int| 0 <= c < cands@.len() ==> order@.contains(#[trigger] cands@[c]),
            c <= cands@.len(),
            texts(out@) == labels_of(order@, cands@).take(c as int),
        decreases cands.len() - c,
    {
        let t = cands[c];
        proof {
            assert(order@.contains(cands@[c as int]));
        }
        let ghost k = choose|k: int| 0 <= k < order@.len() && order@[k] == t;
        proof {
            assert(pos@[order@[k] as int] == k);
            lemma_position(order@, n@, k);
        }
        let ghost o0 = texts(out@);
        let l = label(pos[t]);
        out.push(l);
        proof {
            assert(texts(out@) =~= o0.push(l@));
            assert(texts(out@) =~= labels_of(order@, cands@).take(c + 1));
        }
        c = c + 1;
    }
    proof {
        assert(labels_of(order@, cands@).take(cands@.len() as int) =~= labels_of(order@, cands@));
    }
    out
}

/// The diagnostics of the document whose nodes are `order`, labelled by
/// output ids: external references mapped to their source node, unresolved
/// names each source keeps, and names through which a source reaches
/// several defined candidates.
pub fn build_json_diagnostics(cg: &CallGraph, order: &Vec<usize>, mode: JsonGraphMode, f: &PathFormatter) -> (r: QueryDiagnostics)
    requires
        cg.wf(),
        distinct_below(order@, cg.nodes_arena@.len()),
        order@.len() < usize::MAX,
        forall|i: int| 0 <= i < cg.nodes_arena@.len() && #[trigger] cg.defined@[i] ==> order@.contains(i as usize),
    ensures
        json_diagnostics_of(r, cg, order@, mode, f@),
{
    let ghost od = order@;
    let ghost fv = f@;
    let (ext0, supp, from0) = json_externals(cg, order, mode, f);
    let pos = positions(order, cg.nodes_arena.len());
    let mut un0: Vec<UnresolvedReference> = Vec::new();
    let mut am0: Vec<AmbiguousResolution> = Vec::new();
    let mut ap0: Vec<Approximation> = Vec::new();
    let ghost mut wu: Seq<(int, Seq<char>)> = Seq::empty();
    let ghost mut wa: Seq<(int, Seq<char>)> = Seq::empty();
    let mut q: usize = 0;
    while q < order.len()
        invariant
            cg.wf(),
            od == order@,
            fv == f@,
            distinct_below(od, cg.nodes_arena@.len()),
            od.len() < usize::MAX,
            forall|i: int| 0 <= i < cg.nodes_arena@.len() && #[trigger] cg.defined@[i] ==> od.contains(i as usize),
            pos@.len() == cg.nodes_arena@.len(),
            forall|k: int| 0 <= k < od.len() ==> #[trigger] pos@[od[k] as int] == k,
            forall|k: int, n: Seq<char>| #[trigger] supp_pairs(supp@).contains((k, n)) <==> json_suppressed(cg, od, mode, fv, k, n),
            q <= od.len(),
            un0@.len() == wu.len(),
            forall|k: int| 0 <= k < wu.len() ==> 0 <= (#[trigger] wu[k]).0 < q && json_reported_unknown(cg, od, mode, fv, wu[k].0, wu[k].1)
                && json_unres_entry(un0@[k], cg, od, wu[k].0, wu[k].1, fv),
            forall|a: int, b: int| 0 <= a < wu.len() && 0 <= b < wu.len() && a != b ==> #[trigger] wu[a] != #[trigger] wu[b],
            forall|p: int, n: Seq<char>| 0 <= p < q && #[trigger] json_reported_unknown(cg, od, mode, fv, p, n) ==> wu.contains((p, n)),
            am0@.len() == wa.len(),
            ap0@.len() == wa.len(),
            forall|k: int| 0 <= k < wa.len() ==> 0 <= (#[trigger] wa[k]).0 < q && json_ambiguous(cg, od[wa[k].0] as int, wa[k].1)
                && json_amb_entry(am0@[k], cg, od, wa[k].0, wa[k].1, fv) && json_approx_entry(ap0@[k], cg, od, wa[k].0, wa[k].1, fv),
            forall|a: int, b: int| 0 <= a < wa.len() && 0 <= b < wa.len() && a != b ==> #[trigger] wa[a] != #[trigger] wa[b],
            forall|p: int, n: Seq<char>| 0 <= p < q && #[trigger] json_ambiguous(cg, od[p] as int, n) ==> wa.contains((p, n)),
        decreases od.len() - q,
    {
        let s = order[q];
        proof {
            assert(s < cg.nodes_arena@.len());
            assert(cg.nodes_arena@[s as int].ids_in(&cg.interner));
        }
        let blocked = blocked_names(&supp, q);
        let unknown = json_unknowns(cg, s, &blocked, Ghost(od), mode, Ghost(fv), Ghost(q as int));
        let groups = json_groups(cg, s);
        let node = &cg.nodes_arena[s];
        let src_label = label(q);
        let path: Option<String> = match &node.filename {
            Some(fnm) => Some(f.format_location(fnm.as_str())),
            None => None,
        };
        let line = node.line;
        let ghost wu0 = wu;
        let ghost wa0 = wa;
        let mut j: usize = 0;
        while j < unknown.len()
            invariant
                cg.wf(),
                od == order@,
                fv == f@,
                q < od.len(),
                s == od[q as int],
                s < cg.nodes_arena@.len(),
                src_label@ == label_text(q as int),
                opt_text(path) == opt_location(cg.nodes_arena@[s as int].filename, fv),
                line == cg.nodes_arena@[s as int].line,
                j <= unknown@.len(),
                forall|a: int, b: int| 0 <= a < unknown@.len() && 0 <= b < unknown@.len() && a != b ==> #[trigger] unknown@[a]@ != #[trigger] unknown@[b]@,
                forall|n: Seq<char>| #[trigger] char_views(unknown@).contains(n) <==> json_reported_unknown(cg, od, mode, fv, q as int, n),
                un0@.len() == wu.len(),
                wu.len() == wu0.len() + j,
                wu.take(wu0.len() as int) == wu0,
                forall|k: int| wu0.len() <= k < wu.len() ==> (#[trigger] wu[k]) == (q as int, unknown@[k - wu0.len()]@),
                forall|k: int| 0 <= k < wu.len() ==> 0 <= (#[trigger] wu[k]).0 < q + 1 && json_reported_unknown(cg, od, mode, fv, wu[k].0, wu[k].1)
                    && json_unres_entry(un0@[k], cg, od, wu[k].0, wu[k].1, fv),
                forall|k: int| 0 <= k < wu0.len() ==> (#[trigger] wu0[k]).0 < q,
                forall|a: int, b: int| 0 <= a < wu.len() && 0 <= b < wu.len() && a != b ==> #[trigger] wu[a] != #[trigger] wu[b],
            decreases unknown.len() - j,
        {
            let ghost u0 = un0@;
            let e = UnresolvedReference {
                kind: text("use"),
                source: crate::query::copy_str(&src_label),
                symbol: chars_to_string(unknown[j].as_slice()),
                path: crate::query::copy_opt_string(&path),
                line,
            };
            un0.push(e);
            proof {
                assert(char_views(unknown@)[j as int] == unknown@[j as int]@);
                assert(char_views(unknown@).contains(unknown@[j as int]@));
                let wprev = wu;
                wu = wu.push((q as int, unknown@[j as int]@));
                assert forall|k: int| 0 <= k < wu.len() implies 0 <= (#[trigger] wu[k]).0 < q + 1 && json_reported_unknown(cg, od, mode, fv, wu[k].0, wu[k].1)
                    && json_unres_entry(un0@[k], cg, od, wu[k].0, wu[k].1, fv) by {
                    if k < wprev.len() {
                        assert(wu[k] == wprev[k]);
                        assert(un0@[k] == u0[k]);
                    } else {
                        assert(wu[k] == (q as int, unknown@[j as int]@));
                        assert(un0@[k] == e);
                    }
                }
                assert forall|a: int, b: int| 0 <= a < wu.len() && 0 <= b < wu.len() && a != b implies #[trigger] wu[a] != #[trigger] wu[b] by {
                    if a < wprev.len() && b < wprev.len() {
                        assert(wu[a] == wprev[a] && wu[b] == wprev[b]);
                    } else if a < wu0.len() {
                        assert(wu0[a].0 < q);
                        assert(wu[a] == wu0[a]);
                    } else if b < wu0.len() {
                        assert(wu0[b].0 < q);
                        assert(wu[b] == wu0[b]);
                    } else {
                        assert(wu[a] == (q as int, unknown@[a - wu0.len()]@));
                        assert(wu[b] == (q as int, unknown@[b - wu0.len()]@));
                    }
                }
                assert(wu.take(wu0.len() as int) =~= wu0);
            }
            j = j + 1;
        }
        let mut g: usize = 0;
        while g < groups.len()
            invariant
                cg.wf(),
                od == order@,
                fv == f@,
                distinct_below(od, cg.nodes_arena@.len()),
                od.len() < usize::MAX,
                forall|i: int| 0 <= i < cg.nodes_arena@.len() && #[trigger] cg.defined@[i] ==> od.contains(i as usize),
                pos@.len() == cg.nodes_arena@.len(),
                forall|k: int| 0 <= k < od.len() ==> #[trigger] pos@[od[k] as int] == k,
                q < od.len(),
                s == od[q as int],
                s < cg.nodes_arena@.len(),
                src_label@ == label_text(q as int),
                opt_text(path) == opt_location(cg.nodes_arena@[s as int].filename, fv),
                line == cg.nodes_arena@[s as int].line,
                g <= groups@.len(),
                forall|a: int, b: int| 0 <= a < groups@.len() && 0 <= b < groups@.len() && a != b ==> (#[trigger] groups@[a]).0@ != (#[trigger] groups@[b]).0@,
                forall|h: int| 0 <= h < groups@.len() ==> json_candidates((#[trigger] groups@[h]).1@, cg, s as int, groups@[h].0@)
                    && groups@[h].1@.len() >= 2,
                am0@.len() == wa.len(),
                ap0@.len() == wa.len(),
                wa.len() == wa0.len() + g,
                wa.take(wa0.len() as int) == wa0,
                forall|k: int| wa0.len() <= k < wa.len() ==> (#[trigger] wa[k]) == (q as int, groups@[k - wa0.len()].0@),
                forall|k: int| 0 <= k < wa.len() ==> 0 <= (#[trigger] wa[k]).0 < q + 1 && json_ambiguous(cg, od[wa[k].0] as int, wa[k].1)
                    && json_amb_entry(am0@[k], cg, od, wa[k].0, wa[k].1, fv) && json_approx_entry(ap0@[k], cg, od, wa[k].0, wa[k].1, fv),
                forall|k: int| 0 <= k < wa0.len() ==> (#[trigger] wa0[k]).0 < q,
                forall|a: int, b: int| 0 <= a < wa.len() && 0 <= b < wa.len() && a != b ==> #[trigger] wa[a] != #[trigger] wa[b],
            decreases groups.len() - g,
        {
            let (gname, cands) = (&groups[g].0, &groups[g].1);
            proof {
                assert(json_candidates(groups@[g as int].1@, cg, s as int, groups@[g as int].0@));
                assert forall|c: int| 0 <= c < cands@.len() implies od.contains(#[trigger] cands@[c]) by {
                    assert(cands@.contains(cands@[c]));
                    assert(json_candidate(cg, s as int, gname@, cands@[c]));
                    assert(crate::analyzer::graph::set_in(cg.uses_edges@[s as int], cg.nodes_arena@.len()));
                    assert(cands@[c] < cg.nodes_arena@.len());
                    assert(cg.defined@[cands@[c] as int]);
                }
            }
            let cand_strings = candidate_labels(order, &pos, cands, Ghost(cg.nodes_arena@.len()));
            let ghost a0 = am0@;
            let ghost p0 = ap0@;
            let amb = AmbiguousResolution {
                kind: text("use"),
                source: crate::query::copy_str(&src_label),
                symbol: chars_to_string(gname.as_slice()),
                candidate_targets: copy_strings(&cand_strings),
                path: crate::query::copy_opt_string(&path),
                line,
            };
            let approx = Approximation {
                kind: text("resolution_widening"),
                source: crate::query::copy_str(&src_label),
                symbol: Some(chars_to_string(gname.as_slice())),
                reason: text("multiple_candidate_targets"),
                candidate_targets: cand_strings,
                path: crate::query::copy_opt_string(&path),
                line,
            };
            am0.push(amb);
            ap0.push(approx);
            proof {
                let h = g as int;
                let cv = groups@[h].1@;
                assert(cv[0] < cv[1]);
                assert(cv.contains(cv[0]) && cv.contains(cv[1]));
                assert(json_candidate(cg, s as int, groups@[h].0@, cv[0]));
                assert(json_candidate(cg, s as int, groups@[h].0@, cv[1]));
                assert(json_ambiguous(cg, s as int, groups@[h].0@));
                assert(json_amb_entry(amb, cg, od, q as int, groups@[h].0@, fv));
                assert(json_approx_entry(approx, cg, od, q as int, groups@[h].0@, fv));
                let wprev = wa;
                wa = wa.push((q as int, groups@[h].0@));
                assert forall|k: int| 0 <= k < wa.len() implies 0 <= (#[trigger] wa[k]).0 < q + 1 && json_ambiguous(cg, od[wa[k].0] as int, wa[k].1)
                    && json_amb_entry(am0@[k], cg, od, wa[k].0, wa[k].1, fv) && json_approx_entry(ap0@[k], cg, od, wa[k].0, wa[k].1, fv) by {
                    if k < wprev.len() {
                        assert(wa[k] == wprev[k]);
                        assert(am0@[k] == a0[k]);
                        assert(ap0@[k] == p0[k]);
                    }
                }
                assert forall|a: int, b: int| 0 <= a < wa.len() && 0 <= b < wa.len() && a != b implies #[trigger] wa[a] != #[trigger] wa[b] by {
                    if a < wprev.len() && b < wprev.len() {
                        assert(wa[a] == wprev[a] && wa[b] == wprev[b]);
                    } else if a < wa0.len() {
                        assert(wa0[a].0 < q);
                        assert(wa[a] == wa0[a]);
                    } else if b < wa0.len() {
                        assert(wa0[b].0 < q);
                        assert(wa[b] == wa0[b]);
                    } else {
                        assert(wa[a] == (q as int, groups@[a - wa0.len()].0@));
                        assert(wa[b] == (q as int, groups@[b - wa0.len()].0@));
                    }
                }
                assert(wa.take(wa0.len() as int) =~= wa0);
            }
            g = g + 1;
        }
        proof {
            assert forall|p: int, n: Seq<char>| 0 <= p < q + 1 && #[trigger] json_reported_unknown(cg, od, mode, fv, p, n) implies wu.contains((p, n)) by {
                if p < q {
                    assert(wu0.contains((p, n)));
                    let z = choose|z: int| 0 <= z < wu0.len() && wu0[z] == (p, n);
                    assert(wu[z] == wu0[z]);
                } else {
                    assert(char_views(unknown@).contains(n));
                    let z = choose|z: int| 0 <= z < unknown@.len() && char_views(unknown@)[z] == n;
                    assert(wu[wu0.len() + z] == (q as int, unknown@[z]@));
                }
            }
            assert forall|p: int, n: Seq<char>| 0 <= p < q + 1 && #[trigger] json_ambiguous(cg, od[p] as int, n) implies wa.contains((p, n)) by {
                if p < q {
                    assert(wa0.contains((p, n)));
                    let z = choose|z: int| 0 <= z < wa0.len() && wa0[z] == (p, n);
                    assert(wa[z] == wa0[z]);
                } else {
                    let z = choose|z: int| 0 <= z < groups@.len() && #[trigger] groups@[z].0@ == n;
                    assert(wa[wa0.len() + z] == (q as int, groups@[z].0@));
                }
            }
        }
        q = q + 1;
    }
    let (ext, pe) = sort_ext(&ext0);
    let (un, pu) = sort_unres(&un0);
    let (am, pa) = sort_amb(&am0);
    let (ap, pp) = sort_approx(&ap0);
    let r = QueryDiagnostics {
        summary: DiagnosticSummary {
            warnings: 0,
            unresolved_references: un.len(),
            ambiguous_resolutions: am.len(),
            external_references: ext.len(),
            approximations: ap.len(),
        },
        warnings: Vec::new(),
        unresolved_references: un,
        ambiguous_resolutions: am,
        external_references: ext,
        approximations: ap,
    };
    proof {
        let diags = cg.diagnostics.external_references@;
        let from = Seq::new(pe@.len(), |k: int| from0@[pe@[k] as int]);
        assert forall|k: int| 0 <= k < r.external_references@.len() implies 0 <= (#[trigger] from[k]).0 < diags.len() && first_match(
            cg,
            od,
            mode,
            fv,
            diags[from[k].0],
            from[k].1,
        ) && json_ext_entry(r.external_references@[k], diags[from[k].0], from[k].1, fv) by {
            assert(pe@[k] < ext0@.len());
        }
        assert forall|a: int, b: int| 0 <= a < r.external_references@.len() && 0 <= b < r.external_references@.len() && a != b implies (#[trigger] from[a]).0
            != (#[trigger] from[b]).0 by {
            assert(pe@[a] != pe@[b]);
            assert(pe@[a] < from0@.len() && pe@[b] < from0@.len());
            if pe@[a] < pe@[b] {
                assert(from0@[pe@[a] as int].0 < from0@[pe@[b] as int].0);
            } else {
                assert(from0@[pe@[b] as int].0 < from0@[pe@[a] as int].0);
            }
        }
        assert forall|i: int, j: int| 0 <= i < diags.len() && #[trigger] first_match(cg, od, mode, fv, diags[i], j) implies exists|k: int|
            0 <= k < from.len() && (#[trigger] from[k]).0 == i by {
            let z = choose|z: int| 0 <= z < from0@.len() && (#[trigger] from0@[z]).0 == i;
            assert(pe@.contains(z as usize));
            let y = choose|y: int| 0 <= y < pe@.len() && pe@[y] == z as usize;
            assert(from[y].0 == i);
        }
        let wu2 = Seq::new(pu@.len(), |k: int| wu[pu@[k] as int]);
        assert forall|k: int| 0 <= k < r.unresolved_references@.len() implies 0 <= (#[trigger] wu2[k]).0 < od.len() && json_reported_unknown(
            cg,
            od,
            mode,
            fv,
            wu2[k].0,
            wu2[k].1,
        ) && json_unres_entry(r.unresolved_references@[k], cg, od, wu2[k].0, wu2[k].1, fv) by {
            assert(pu@[k] < un0@.len());
        }
        assert forall|a: int, b: int| 0 <= a < r.unresolved_references@.len() && 0 <= b < r.unresolved_references@.len() && a != b implies #[trigger] wu2[a]
            != #[trigger] wu2[b] by {
            assert(pu@[a] != pu@[b]);
        }
        assert forall|p: int, n: Seq<char>| 0 <= p < od.len() && #[trigger] json_reported_unknown(cg, od, mode, fv, p, n) implies wu2.contains((p, n)) by {
            assert(wu.contains((p, n)));
            let z = choose|z: int| 0 <= z < wu.len() && wu[z] == (p, n);
            assert(pu@.contains(z as usize));
            let y = choose|y: int| 0 <= y < pu@.len() && pu@[y] == z as usize;
            assert(wu2[y] == (p, n));
        }
        let wa2 = Seq::new(pa@.len(), |k: int| wa[pa@[k] as int]);
        assert forall|k: int| 0 <= k < r.ambiguous_resolutions@.len() implies 0 <= (#[trigger] wa2[k]).0 < od.len() && json_ambiguous(
            cg,
            od[wa2[k].0] as int,
            wa2[k].1,
        ) && json_amb_entry(r.ambiguous_resolutions@[k], cg, od, wa2[k].0, wa2[k].1, fv) by {
            assert(pa@[k] < am0@.len());
        }
        assert forall|a: int, b: int| 0 <= a < r.ambiguous_resolutions@.len() && 0 <= b < r.ambiguous_resolutions@.len() && a != b implies #[trigger] wa2[a]
            != #[trigger] wa2[b] by {
            assert(pa@[a] != pa@[b]);
        }
        assert forall|p: int, n: Seq<char>| 0 <= p < od.len() && #[trigger] json_ambiguous(cg, od[p] as int, n) implies wa2.contains((p, n)) by {
            assert(wa.contains((p, n)));
            let z = choose|z: int| 0 <= z < wa.len() && wa[z] == (p, n);
            assert(pa@.contains(z as usize));
            let y = choose|y: int| 0 <= y < pa@.len() && pa@[y] == z as usize;
            assert(wa2[y] == (p, n));
        }
        let wp2 = Seq::new(pp@.len(), |k: int| wa[pp@[k] as int]);
        assert forall|k: int| 0 <= k < r.approximations@.len() implies 0 <= (#[trigger] wp2[k]).0 < od.len() && json_ambiguous(
            cg,
            od[wp2[k].0] as int,
            wp2[k].1,
        ) && json_approx_entry(r.approximations@[k], cg, od, wp2[k].0, wp2[k].1, fv) by {
            assert(pp@[k] < ap0@.len());
        }
        assert forall|a: int, b: int| 0 <= a < r.approximations@.len() && 0 <= b < r.approximations@.len() && a != b implies #[trigger] wp2[a]
            != #[trigger] wp2[b] by {
            assert(pp@[a] != pp@[b]);
        }
        assert forall|p: int, n: Seq<char>| 0 <= p < od.len() && #[trigger] json_ambiguous(cg, od[p] as int, n) implies wp2.contains((p, n)) by {
            assert(wa.contains((p, n)));
            let z = choose|z: int| 0 <= z < wa.len() && wa[z] == (p, n);
            assert(pp@.contains(z as usize));
            let y = choose|y: int| 0 <= y < pp@.len() && pp@[y] == z as usize;
            assert(wp2[y] == (p, n));
        }
        assert(r.warnings@.len() == 0);
    }
    r
}

/// The program that wrote a document.
#[derive(Debug, Clone)]
pub struct JsonTool {
    pub name: String,
    pub version: String,
    pub commit: Option<String>,
}

/// What was analyzed and how paths are shown.
#[derive(Debug, Clone)]
pub struct JsonAnalysis {
    pub root: Option<String>,
    pub inputs: Vec<String>,
    pub node_inclusion_policy: String,
    pub path_kind: String,
}

/// Counts of the document: nodes, edges, files, and nodes and edges per
/// kind, by kind.
#[derive(Debug, Clone)]
pub struct JsonStats {
    pub nodes: usize,
    pub edges: usize,
    pub files_analyzed: usize,
    pub by_node_kind: Vec<(String, usize)>,
    pub by_edge_kind: Vec<(String, usize)>,
}

/// Where a node is defined.
#[derive(Debug, Clone)]
pub struct JsonLocation {
    pub path: String,
    pub line: Option<usize>,
}

/// A node of the document.
#[derive(Debug, Clone)]
pub struct JsonNode {
    pub id: String,
    pub kind: String,
    pub canonical_name: String,
    pub name: String,
    pub namespace: Option<String>,
    pub location: Option<JsonLocation>,
}

/// An edge of the document, between output ids.
#[derive(Debug, Clone)]
pub struct JsonEdge {
    pub kind: String,
    pub source: String,
    pub target: String,
}

/// The JSON graph document.
#[derive(Debug, Clone)]
pub struct JsonGraph {
    pub schema_version: String,
    pub tool: JsonTool,
    pub graph_mode: String,
    pub analysis: JsonAnalysis,
    pub stats: JsonStats,
    pub nodes: Vec<JsonNode>,
    pub edges: Vec<JsonEdge>,
    pub diagnostics: QueryDiagnostics,
}

/// The word of a graph mode.
pub open spec fn mode_word(m: JsonGraphMode) -> Seq<char> {
    match m {
        JsonGraphMode::Symbol => "symbol"@,
        JsonGraphMode::Module => "module"@,
    }
}

impl JsonGraphMode {
    /// The word of the graph mode.
    pub fn label(self) -> (r: &'static str)
        ensures
            r@ == mode_word(self),
    {
        match self {
            JsonGraphMode::Symbol => "symbol",
            JsonGraphMode::Module => "module",
        }
    }
}

impl JsonOutputOptions {
    /// How the document shows paths: below the root relative to it, the
    /// others by the path kind of the inputs.
    pub open spec fn format_view(&self) -> FormatView {
        FormatView {
            root: match self.analysis_root {
                Some(r) => Some(crate::paths::join_path(self.cwd@, r@)),
                None => None,
            },
            cwd: self.cwd@,
            kind: crate::paths::path_kind_for(self.analysis_root.is_some(), self.inputs@),
        }
    }

    /// The path formatter of the document.
    pub fn formatter(&self) -> (r: PathFormatter)
        ensures
            r@ == self.format_view(),
    {
        let root: Option<&str> = match &self.analysis_root {
            Some(x) => Some(x.as_str()),
            None => None,
        };
        PathFormatter::new(root, self.inputs.as_slice(), self.cwd.as_str())
    }
}

/// The kind word of a node in the document.
pub open spec fn node_kind_text(f: crate::node::Flavor) -> Seq<char> {
    match crate::query::public_kind(f) {
        Some(k) => k,
        None => "unknown"@,
    }
}

/// `nd` shows the `k`th node.
pub open spec fn json_node_of(nd: JsonNode, cg: &CallGraph, order: Seq<usize>, k: int, f: FormatView) -> bool {
    let node = cg.nodes_arena@[order[k] as int];
    &&& nd.id@ == label_text(k)
    &&& nd.kind@ == node_kind_text(node.flavor)
    &&& nd.canonical_name@ == canonical(cg, order[k] as int)
    &&& crate::query::name_and_namespace(Some(nd.name@), opt_text(nd.namespace), node, &cg.interner)
    &&& match node.filename {
        Some(p) => nd.location matches Some(l) && l.path@ == f.location(p@) && l.line == node.line,
        None => nd.location is None,
    }
}

/// Number of strings of `v` equal to `t`.
pub open spec fn text_count(v: Seq<Seq<char>>, t: Seq<char>) -> nat
    decreases v.len(),
{
    if v.len() == 0 {
        0
    } else {
        text_count(v.drop_last(), t) + if v.last() == t {
            1nat
        } else {
            0nat
        }
    }
}

/// The kinds of some nodes.
pub open spec fn node_kinds(v: Seq<JsonNode>) -> Seq<Seq<char>> {
    Seq::new(v.len(), |k: int| v[k].kind@)
}

/// The kinds of some edges.
pub open spec fn edge_kinds(v: Seq<JsonEdge>) -> Seq<Seq<char>> {
    Seq::new(v.len(), |k: int| v[k].kind@)
}

/// `counts` gives, by kind, how often each string of `v` occurs.
pub open spec fn counted_by_kind(counts: Seq<(String, usize)>, v: Seq<Seq<char>>) -> bool {
    let cv = crate::query::count_views(counts);
    &&& forall|a: int, b: int| 0 <= a < b < cv.len() ==> crate::order::seq_less((#[trigger] cv[a]).0, (#[trigger] cv[b]).0)
    &&& forall|k: int| 0 <= k < cv.len() ==> (#[trigger] cv[k]).1 == text_count(v, cv[k].0) && cv[k].1 >= 1
    &&& forall|j: int| 0 <= j < v.len() ==> crate::query::has_kind(cv, #[trigger] v[j])
}

/// How often `t` occurs in the first strings of `v`.
fn count_text(v: &Vec<Vec<char>>, t: &Vec<char>) -> (r: usize)
    ensures
        r == text_count(char_views(v@), t@),
{
    let ghost vv = char_views(v@);
    let mut n: usize = 0;
    let mut i: usize = 0;
    while i < v.len()
        invariant
            vv == char_views(v@),
            i <= v@.len(),
            n == text_count(vv.take(i as int), t@),
            n <= i,
        decreases v.len() - i,
    {
        proof {
            assert(vv.take(i + 1).drop_last() =~= vv.take(i as int));
        }
        if chars_eq(v[i].as_slice(), t.as_slice()) {
            n = n + 1;
        }
        i = i + 1;
    }
    proof {
        assert(vv.take(v@.len() as int) =~= vv);
    }
    n
}

proof fn lemma_text_count_pos(v: Seq<Seq<char>>, j: int)
    requires
        0 <= j < v.len(),
    ensures
        text_count(v, v[j]) >= 1,
    decreases v.len(),
{
    if j < v.len() - 1 {
        lemma_text_count_pos(v.drop_last(), j);
    }
}

/// How often each string occurs, by string.
fn count_by_kind(v: &Vec<Vec<char>>) -> (r: Vec<(String, usize)>)
    ensures
        counted_by_kind(r@, char_views(v@)),
{
    let ghost kv = char_views(v@);
    let uniq = crate::query::sorted_unique(crate::query::copy_char_vecs(v));
    let mut out: Vec<(String, usize)> = Vec::new();
    let mut k: usize = 0;
    while k < uniq.len()
        invariant
            kv == char_views(v@),
            k <= uniq@.len(),
            crate::query::strictly_sorted(char_views(uniq@)),
            forall|c: Seq<char>| #[trigger] char_views(uniq@).contains(c) <==> kv.contains(c),
            out@.len() == k,
            forall|q: int| 0 <= q < k ==> (#[trigger] crate::query::count_views(out@)[q]).0 == uniq@[q]@ && crate::query::count_views(out@)[q].1
                == text_count(kv, uniq@[q]@) && crate::query::count_views(out@)[q].1 >= 1,
        decreases uniq.len() - k,
    {
        let c = count_text(v, &uniq[k]);
        proof {
            let uv = char_views(uniq@);
            assert(uv[k as int] == uniq@[k as int]@);
            assert(uv.contains(uniq@[k as int]@));
            assert(kv.contains(uniq@[k as int]@));
            let j = choose|j: int| 0 <= j < kv.len() && kv[j] == uniq@[k as int]@;
            lemma_text_count_pos(kv, j);
        }
        let ghost o0 = out@;
        out.push((chars_to_string(uniq[k].as_slice()), c));
        proof {
            assert forall|q: int| 0 <= q < k + 1 implies (#[trigger] crate::query::count_views(out@)[q]).0 == uniq@[q]@ && crate::query::count_views(out@)[q].1
                == text_count(kv, uniq@[q]@) && crate::query::count_views(out@)[q].1 >= 1 by {
                if q < k {
                    assert(out@[q] == o0[q]);
                    assert(crate::query::count_views(out@)[q] == crate::query::count_views(o0)[q]);
                }
            }
        }
        k = k + 1;
    }
    proof {
        let uv = char_views(uniq@);
        let cv = crate::query::count_views(out@);
        assert forall|a: int, b: int| 0 <= a < b < cv.len() implies crate::order::seq_less((#[trigger] cv[a]).0, (#[trigger] cv[b]).0) by {
            assert(uv[a] == uniq@[a]@ && uv[b] == uniq@[b]@);
        }
        assert forall|j: int| 0 <= j < kv.len() implies crate::query::has_kind(cv, #[trigger] kv[j]) by {
            assert(kv.contains(kv[j]));
            assert(uv.contains(kv[j]));
            let w = choose|w: int| 0 <= w < uv.len() && uv[w] == kv[j];
            assert(cv[w].0 == uniq@[w]@);
        }
    }
    out
}

/// The nodes of the document, one per position.
fn json_nodes(cg: &CallGraph, order: &Vec<usize>, f: &PathFormatter) -> (r: Vec<JsonNode>)
    requires
        cg.wf(),
        distinct_below(order@, cg.nodes_arena@.len()),
        order@.len() < usize::MAX,
    ensures
        r@.len() == order@.len(),
        forall|k: int| 0 <= k < order@.len() ==> json_node_of(#[trigger] r@[k], cg, order@, k, f@),
{
    let mut out: Vec<JsonNode> = Vec::new();
    let mut k: usize = 0;
    while k < order.len()
        invariant
            cg.wf(),
            distinct_below(order@, cg.nodes_arena@.len()),
            order@.len() < usize::MAX,
            k <= order@.len(),
            out@.len() == k,
            forall|j: int| 0 <= j < k ==> json_node_of(#[trigger] out@[j], cg, order@, j, f@),
        decreases order.len() - k,
    {
        let i = order[k];
        proof {
            assert(cg.nodes_arena@[i as int].ids_in(&cg.interner));
        }
        let node = &cg.nodes_arena[i];
        let canonical_name = node.get_name(&cg.interner);
        let (name, namespace) = crate::query::name_ns(node, &canonical_name, &cg.interner);
        let name = match name {
            Some(x) => x,
            None => {
                proof {
                    assert(false);
                }
                String::new()
            },
        };
        let kind = match crate::query::public_kind_of(node.flavor) {
            Some(x) => text(x),
            None => text("unknown"),
        };
        let location = match &node.filename {
            Some(p) => Some(JsonLocation { path: f.format_location(p.as_str()), line: node.line }),
            None => None,
        };
        let ghost o0 = out@;
        let nd = JsonNode { id: label(k), kind, canonical_name, name, namespace, location };
        out.push(nd);
        proof {
            assert forall|j: int| 0 <= j < k + 1 implies json_node_of(#[trigger] out@[j], cg, order@, j, f@) by {
                if j < k {
                    assert(out@[j] == o0[j]);
                }
            }
        }
        k = k + 1;
    }
    out
}

/// Node `s` has a uses edge (`uses`) or a defines edge to node `t`.
pub open spec fn graph_edge(cg: &CallGraph, uses: bool, s: int, t: int) -> bool {
    if uses {
        cg.uses_edges@[s]@.contains(t as NodeId)
    } else {
        cg.defines_edges@[s]@.contains(t as NodeId)
    }
}

/// The kind word of an edge.
pub open spec fn edge_word(uses: bool) -> Seq<char> {
    if uses {
        "uses"@
    } else {
        "defines"@
    }
}

/// `e` shows the edge of kind `w.0` from the `w.1`th to the `w.2`th node.
pub open spec fn json_edge_entry(e: JsonEdge, cg: &CallGraph, order: Seq<usize>, w: (bool, int, int)) -> bool {
    &&& 0 <= w.1 < order.len()
    &&& 0 <= w.2 < order.len()
    &&& graph_edge(cg, w.0, order[w.1] as int, order[w.2] as int)
    &&& e.kind@ == edge_word(w.0)
    &&& e.source@ == label_text(w.1)
    &&& e.target@ == label_text(w.2)
}

/// Sort key of an edge: source, target, kind.
pub open spec fn edge_key(e: JsonEdge) -> Seq<KeyV> {
    seq![KeyV::Text(e.source@), KeyV::Text(e.target@), KeyV::Text(e.kind@)]
}

/// `w` tells which edge of the graph each of `edges` shows: each edge
/// between nodes of the document, once.
pub open spec fn edges_witnessed(edges: Seq<JsonEdge>, cg: &CallGraph, order: Seq<usize>, w: Seq<(bool, int, int)>) -> bool {
    &&& w.len() == edges.len()
    &&& forall|k: int| 0 <= k < w.len() ==> json_edge_entry(edges[k], cg, order, #[trigger] w[k])
    &&& forall|a: int, b: int| 0 <= a < w.len() && 0 <= b < w.len() && a != b ==> #[trigger] w[a] != #[trigger] w[b]
    &&& forall|u: bool, a: int, b: int|
        0 <= a < order.len() && 0 <= b < order.len() && #[trigger] graph_edge(cg, u, order[a] as int, order[b] as int) ==> w.contains(
            (u, a, b),
        )
}

/// `edges` shows each edge between nodes of the document once, in key
/// order.
pub open spec fn json_edges_of(edges: Seq<JsonEdge>, cg: &CallGraph, order: Seq<usize>) -> bool {
    &&& exists|w: Seq<(bool, int, int)>| #[trigger] edges_witnessed(edges, cg, order, w)
    &&& forall|a: int, b: int| 0 <= a < b < edges.len() ==> !key_less(edge_key(#[trigger] edges[b]), edge_key(#[trigger] edges[a]))
}

/// The positions of the nodes that node `s` has an edge of kind `uses`
/// to, each once.
fn edge_targets(cg: &CallGraph, order: &Vec<usize>, pos: &Vec<usize>, s: usize, uses: bool) -> (r: Vec<usize>)
    requires
        cg.wf(),
        s < cg.nodes_arena@.len(),
        distinct_below(order@, cg.nodes_arena@.len()),
        forall|i: int| 0 <= i < cg.nodes_arena@.len() && #[trigger] cg.defined@[i] ==> order@.contains(i as usize),
        forall|k: int| 0 <= k < order@.len() ==> cg.defined@[#[trigger] order@[k] as int],
        pos@.len() == cg.nodes_arena@.len(),
        forall|k: int| 0 <= k < order@.len() ==> #[trigger] pos@[order@[k] as int] == k,
    ensures
        forall|k: int| 0 <= k < r@.len() ==> #[trigger] r@[k] < order@.len() && graph_edge(cg, uses, s as int, order@[r@[k] as int] as int),
        forall|a: int, b: int| 0 <= a < r@.len() && 0 <= b < r@.len() && a != b ==> #[trigger] r@[a] != #[trigger] r@[b],
        forall|b: int| 0 <= b < order@.len() && #[trigger] graph_edge(cg, uses, s as int, order@[b] as int) ==> r@.contains(b as usize),
{
    let targets = if uses {
        cg.uses_edges[s].as_slice()
    } else {
        cg.defines_edges[s].as_slice()
    };
    proof {
        assert(crate::analyzer::graph::set_in(cg.uses_edges@[s as int], cg.nodes_arena@.len()));
        assert(crate::analyzer::graph::set_in(cg.defines_edges@[s as int], cg.nodes_arena@.len()));
        assert(forall|t: int| #[trigger] graph_edge(cg, uses, s as int, t) <==> targets@.contains(t as NodeId));
    }
    let mut out: Vec<usize> = Vec::new();
    let mut m: usize = 0;
    while m < targets.len()
        invariant
            cg.wf(),
            s < cg.nodes_arena@.len(),
            distinct_below(order@, cg.nodes_arena@.len()),
            forall|i: int| 0 <= i < cg.nodes_arena@.len() && #[trigger] cg.defined@[i] ==> order@.contains(i as usize),
            forall|k: int| 0 <= k < order@.len() ==> cg.defined@[#[trigger] order@[k] as int],
            pos@.len() == cg.nodes_arena@.len(),
            forall|k: int| 0 <= k < order@.len() ==> #[trigger] pos@[order@[k] as int] == k,
            forall|t: int| #[trigger] graph_edge(cg, uses, s as int, t) <==> targets@.contains(t as NodeId),
            targets@.no_duplicates(),
            forall|j: int| 0 <= j < targets@.len() ==> #[trigger] targets@[j] < cg.nodes_arena@.len(),
            m <= targets@.len(),
            forall|k: int| 0 <= k < out@.len() ==> #[trigger] out@[k] < order@.len() && graph_edge(cg, uses, s as int, order@[out@[k] as int] as int)
                && exists|j: int| 0 <= j < m && targets@[j] == order@[out@[k] as int],
            forall|a: int, b: int| 0 <= a < out@.len() && 0 <= b < out@.len() && a != b ==> #[trigger] out@[a] != #[trigger] out@[b],
            forall|b: int| 0 <= b < order@.len() && (exists|j: int| 0 <= j < m && targets@[j] == #[trigger] order@[b]) ==> out@.contains(b as usize),
        decreases targets.len() - m,
    {
        let t = targets[m];
        let ghost o0 = out@;
        if cg.defined[t] {
            proof {
                assert(order@.contains(t));
            }
            let ghost kk = choose|kk: int| 0 <= kk < order@.len() && order@[kk] == t;
            let b = pos[t];
            proof {
                assert(pos@[order@[kk] as int] == kk);
                assert(b == kk);
                assert(targets@.contains(t));
            }
            out.push(b);
            proof {
                assert forall|a: int, c: int| 0 <= a < out@.len() && 0 <= c < out@.len() && a != c implies #[trigger] out@[a] != #[trigger] out@[c] by {
                    if a < o0.len() && c < o0.len() {
                        assert(o0[a] != o0[c]);
                    } else if a < o0.len() {
                        let j = choose|j: int| 0 <= j < m && targets@[j] == order@[o0[a] as int];
                        if o0[a] == b {
                            assert(targets@[j] == targets@[m as int]);
                        }
                    } else if c < o0.len() {
                        let j = choose|j: int| 0 <= j < m && targets@[j] == order@[o0[c] as int];
                        if o0[c] == b {
                            assert(targets@[j] == targets@[m as int]);
                        }
                    }
                }
            }
        }
        proof {
            assert forall|k: int| 0 <= k < out@.len() implies #[trigger] out@[k] < order@.len() && graph_edge(cg, uses, s as int, order@[out@[k] as int] as int)
                && exists|j: int| 0 <= j < m + 1 && targets@[j] == order@[out@[k] as int] by {
                if k < o0.len() {
                    assert(out@[k] == o0[k]);
                    let j = choose|j: int| 0 <= j < m && targets@[j] == order@[o0[k] as int];
                } else {
                    assert(targets@[m as int] == order@[out@[k] as int]);
                    assert(targets@.contains(targets@[m as int]));
                }
            }
            assert forall|b: int| 0 <= b < order@.len() && (exists|j: int| 0 <= j < m + 1 && targets@[j] == #[trigger] order@[b]) implies out@.contains(b as usize) by {
                let j = choose|j: int| 0 <= j < m + 1 && targets@[j] == order@[b];
                if j < m {
                    assert(o0.contains(b as usize));
                    let z = choose|z: int| 0 <= z < o0.len() && o0[z] == b as usize;
                    assert(out@[z] == b as usize);
                } else {
                    assert(cg.defined@[order@[b] as int]);
                    assert(out@[out@.len() - 1] == pos@[order@[b] as int]);
                }
            }
        }
        m = m + 1;
    }
    proof {
        assert forall|b: int| 0 <= b < order@.len() && #[trigger] graph_edge(cg, uses, s as int, order@[b] as int) implies out@.contains(b as usize) by {
            assert(targets@.contains(order@[b]));
            let j = choose|j: int| 0 <= j < targets@.len() && targets@[j] == order@[b];
        }
    }
    out
}

/// The sort key of an edge, as key parts.
fn edge_key_of(e: &JsonEdge) -> (r: Vec<KeyPart>)
    ensures
        key_view(r@) == edge_key(*e),
{
    let mut k: Vec<KeyPart> = Vec::new();
    k.push(KeyPart::Text(str_to_chars(e.source.as_str())));
    k.push(KeyPart::Text(str_to_chars(e.target.as_str())));
    k.push(KeyPart::Text(str_to_chars(e.kind.as_str())));
    proof {
        assert(key_view(k@) =~= edge_key(*e));
    }
    k
}

/// A copy of an edge.
fn copy_edge(e: &JsonEdge) -> (r: JsonEdge)
    ensures
        r.kind@ == e.kind@,
        r.source@ == e.source@,
        r.target@ == e.target@,
{
    JsonEdge { kind: crate::query::copy_str(&e.kind), source: crate::query::copy_str(&e.source), target: crate::query::copy_str(&e.target) }
}

/// The edges between nodes of the document, in key order.
fn json_edges(cg: &CallGraph, order: &Vec<usize>, pos: &Vec<usize>) -> (r: Vec<JsonEdge>)
    requires
        cg.wf(),
        distinct_below(order@, cg.nodes_arena@.len()),
        order@.len() < usize::MAX,
        forall|i: int| 0 <= i < cg.nodes_arena@.len() && #[trigger] cg.defined@[i] ==> order@.contains(i as usize),
        forall|k: int| 0 <= k < order@.len() ==> cg.defined@[#[trigger] order@[k] as int],
        pos@.len() == cg.nodes_arena@.len(),
        forall|k: int| 0 <= k < order@.len() ==> #[trigger] pos@[order@[k] as int] == k,
    ensures
        json_edges_of(r@, cg, order@),
{
    let mut found: Vec<JsonEdge> = Vec::new();
    let mut keys: Vec<Vec<KeyPart>> = Vec::new();
    let ghost mut w: Seq<(bool, int, int)> = Seq::empty();
    let mut a: usize = 0;
    while a < order.len()
        invariant
            cg.wf(),
            distinct_below(order@, cg.nodes_arena@.len()),
            order@.len() < usize::MAX,
            forall|i: int| 0 <= i < cg.nodes_arena@.len() && #[trigger] cg.defined@[i] ==> order@.contains(i as usize),
            forall|k: int| 0 <= k < order@.len() ==> cg.defined@[#[trigger] order@[k] as int],
            pos@.len() == cg.nodes_arena@.len(),
            forall|k: int| 0 <= k < order@.len() ==> #[trigger] pos@[order@[k] as int] == k,
            a <= order@.len(),
            w.len() == found@.len(),
            keys@.len() == found@.len(),
            forall|k: int| 0 <= k < w.len() ==> json_edge_entry(found@[k], cg, order@, #[trigger] w[k]) && w[k].1 < a && key_view(keys@[k]@)
                == edge_key(found@[k]),
            forall|x: int, y: int| 0 <= x < w.len() && 0 <= y < w.len() && x != y ==> #[trigger] w[x] != #[trigger] w[y],
            forall|u: bool, x: int, b: int|
                0 <= x < a && 0 <= b < order@.len() && #[trigger] graph_edge(cg, u, order@[x] as int, order@[b] as int) ==> w.contains((u, x, b)),
        decreases order.len() - a,
    {
        let s = order[a];
        let mut pass: usize = 0;
        let ghost w0 = w;
        while pass < 2
            invariant
                cg.wf(),
                distinct_below(order@, cg.nodes_arena@.len()),
                order@.len() < usize::MAX,
                forall|i: int| 0 <= i < cg.nodes_arena@.len() && #[trigger] cg.defined@[i] ==> order@.contains(i as usize),
                forall|k: int| 0 <= k < order@.len() ==> cg.defined@[#[trigger] order@[k] as int],
                pos@.len() == cg.nodes_arena@.len(),
                forall|k: int| 0 <= k < order@.len() ==> #[trigger] pos@[order@[k] as int] == k,
                a < order@.len(),
                s == order@[a as int],
                pass <= 2,
                w.len() == found@.len(),
                keys@.len() == found@.len(),
                w0.len() <= w.len(),
                pass == 0 ==> w.len() == w0.len(),
                w.take(w0.len() as int) == w0,
                forall|k: int| 0 <= k < w0.len() ==> (#[trigger] w0[k]).1 < a,
                forall|k: int| w0.len() <= k < w.len() ==> (#[trigger] w[k]).1 == a && (w[k].0 ==> pass == 2),
                forall|k: int| 0 <= k < w.len() ==> json_edge_entry(found@[k], cg, order@, #[trigger] w[k]) && w[k].1 < a + 1 && key_view(keys@[k]@)
                    == edge_key(found@[k]),
                forall|x: int, y: int| 0 <= x < w.len() && 0 <= y < w.len() && x != y ==> #[trigger] w[x] != #[trigger] w[y],
                forall|u: bool, x: int, b: int|
                    0 <= x < a && 0 <= b < order@.len() && #[trigger] graph_edge(cg, u, order@[x] as int, order@[b] as int) ==> w.contains((u, x, b)),
                forall|u: bool, b: int|
                    (if u { 1int } else { 0int }) < pass && 0 <= b < order@.len() && #[trigger] graph_edge(cg, u, s as int, order@[b] as int)
                        ==> w.contains((u, a as int, b)),
            decreases 2 - pass,
        {
            let uses = pass == 1;
            let bs = edge_targets(cg, order, pos, s, uses);
            let word = if uses {
                "uses"
            } else {
                "defines"
            };
            let ghost wp = w;
            let mut j: usize = 0;
            while j < bs.len()
                invariant
                    a < order@.len(),
                    s == order@[a as int],
                    order@.len() < usize::MAX,
                    word@ == edge_word(uses),
                    forall|k: int| 0 <= k < bs@.len() ==> #[trigger] bs@[k] < order@.len() && graph_edge(cg, uses, s as int, order@[bs@[k] as int] as int),
                    forall|x: int, y: int| 0 <= x < bs@.len() && 0 <= y < bs@.len() && x != y ==> #[trigger] bs@[x] != #[trigger] bs@[y],
                    j <= bs@.len(),
                    w.len() == found@.len(),
                    keys@.len() == found@.len(),
                    w.len() == wp.len() + j,
                    w.take(wp.len() as int) == wp,
                    forall|k: int| wp.len() <= k < w.len() ==> #[trigger] w[k] == (uses, a as int, bs@[k - wp.len()] as int),
                    forall|k: int| 0 <= k < w.len() ==> json_edge_entry(found@[k], cg, order@, #[trigger] w[k]) && w[k].1 < a + 1 && key_view(keys@[k]@)
                        == edge_key(found@[k]),
                decreases bs.len() - j,
            {
                let b = bs[j];
                let e = JsonEdge { kind: text(word), source: label(a), target: label(b) };
                let key = edge_key_of(&e);
                let ghost f0 = found@;
                let ghost k0 = keys@;
                let ghost wq = w;
                found.push(e);
                keys.push(key);
                proof {
                    w = w.push((uses, a as int, b as int));
                    assert forall|k: int| 0 <= k < w.len() implies json_edge_entry(found@[k], cg, order@, #[trigger] w[k]) && w[k].1 < a + 1 && key_view(
                        keys@[k]@,
                    ) == edge_key(found@[k]) by {
                        if k < wq.len() {
                            assert(found@[k] == f0[k] && keys@[k] == k0[k] && w[k] == wq[k]);
                        }
                    }
                    assert(w.take(wp.len() as int) =~= wp);
                }
                j = j + 1;
            }
            proof {
                assert forall|i: int| 0 <= i < w0.len() implies #[trigger] w[i] == w0[i] by {
                    assert(w.take(wp.len() as int)[i] == w[i]);
                    assert(wp.take(w0.len() as int)[i] == wp[i]);
                }
                assert forall|k: int| w0.len() <= k < w.len() implies (#[trigger] w[k]).1 == a && (w[k].0 ==> pass + 1 == 2) by {
                    if k < wp.len() {
                        assert(w[k] == wp[k]);
                    }
                }
                assert forall|x: int, y: int| 0 <= x < w.len() && 0 <= y < w.len() && x != y implies #[trigger] w[x] != #[trigger] w[y] by {
                    if x < wp.len() && y < wp.len() {
                        assert(w[x] == wp[x] && w[y] == wp[y]);
                    } else if x >= wp.len() && y >= wp.len() {
                        assert(bs@[x - wp.len()] != bs@[y - wp.len()]);
                    } else if x < wp.len() {
                        assert(w[x] == wp[x]);
                        assert(w[y] == (uses, a as int, bs@[y - wp.len()] as int));
                        if x < w0.len() {
                            assert(w0[x].1 < a);
                            assert(w[x] == w0[x]);
                        } else {
                            assert(wp[x].0 ==> pass == 2);
                            assert(pass == 1);
                        }
                    } else {
                        assert(w[y] == wp[y]);
                        assert(w[x] == (uses, a as int, bs@[x - wp.len()] as int));
                        if y < w0.len() {
                            assert(w0[y].1 < a);
                            assert(w[y] == w0[y]);
                        } else {
                            assert(wp[y].0 ==> pass == 2);
                            assert(pass == 1);
                        }
                    }
                }
                assert forall|u: bool, x: int, b: int|
                    0 <= x < a && 0 <= b < order@.len() && #[trigger] graph_edge(cg, u, order@[x] as int, order@[b] as int) implies w.contains((u, x, b)) by {
                    assert(wp.contains((u, x, b)));
                    let z = choose|z: int| 0 <= z < wp.len() && wp[z] == (u, x, b);
                    assert(w[z] == wp[z]);
                }
                assert forall|u: bool, b: int|
                    (if u { 1int } else { 0int }) < pass + 1 && 0 <= b < order@.len() && #[trigger] graph_edge(cg, u, s as int, order@[b] as int)
                        implies w.contains((u, a as int, b)) by {
                    if (if u { 1int } else { 0int }) < pass {
                        assert(wp.contains((u, a as int, b)));
                        let z = choose|z: int| 0 <= z < wp.len() && wp[z] == (u, a as int, b);
                        assert(w[z] == wp[z]);
                    } else {
                        assert(u == uses);
                        assert(bs@.contains(b as usize));
                        let z = choose|z: int| 0 <= z < bs@.len() && bs@[z] == b as usize;
                        assert(w[wp.len() + z] == (uses, a as int, bs@[z] as int));
                    }
                }
                assert(w.take(w0.len() as int) =~= w0);
            }
            pass = pass + 1;
        }
        proof {
            assert forall|u: bool, x: int, b: int|
                0 <= x < a + 1 && 0 <= b < order@.len() && #[trigger] graph_edge(cg, u, order@[x] as int, order@[b] as int) implies w.contains((u, x, b)) by {
                if x == a {
                    assert((if u { 1int } else { 0int }) < 2);
                }
            }
        }
        a = a + 1;
    }
    let ghost kv = keys@;
    let ghost fv = found@;
    let perm = key_order(keys);
    let mut out: Vec<JsonEdge> = Vec::new();
    let mut k: usize = 0;
    while k < perm.len()
        invariant
            k <= perm@.len(),
            perm@.len() == fv.len(),
            fv == found@,
            kv.len() == fv.len(),
            forall|j: int| 0 <= j < perm@.len() ==> #[trigger] perm@[j] < kv.len(),
            out@.len() == k,
            forall|j: int| 0 <= j < k ==> (#[trigger] out@[j]).kind@ == fv[perm@[j] as int].kind@ && out@[j].source@ == fv[perm@[j] as int].source@
                && out@[j].target@ == fv[perm@[j] as int].target@,
        decreases perm.len() - k,
    {
        out.push(copy_edge(&found[perm[k]]));
        k = k + 1;
    }
    proof {
        let w2 = Seq::new(perm@.len(), |j: int| w[perm@[j] as int]);
        assert forall|j: int| 0 <= j < w2.len() implies json_edge_entry(out@[j], cg, order@, #[trigger] w2[j]) by {
            let p = perm@[j] as int;
            assert(json_edge_entry(fv[p], cg, order@, w[p]));
        }
        assert forall|x: int, y: int| 0 <= x < w2.len() && 0 <= y < w2.len() && x != y implies #[trigger] w2[x] != #[trigger] w2[y] by {
            assert(perm@[x] != perm@[y]);
        }
        assert forall|u: bool, x: int, b: int|
            0 <= x < order@.len() && 0 <= b < order@.len() && #[trigger] graph_edge(cg, u, order@[x] as int, order@[b] as int) implies w2.contains((u, x, b)) by {
            assert(w.contains((u, x, b)));
            let z = choose|z: int| 0 <= z < w.len() && w[z] == (u, x, b);
            assert(perm@.contains(z as usize));
            let y = choose|y: int| 0 <= y < perm@.len() && perm@[y] == z as usize;
            assert(w2[y] == (u, x, b));
        }
        assert(edges_witnessed(out@, cg, order@, w2));
        assert forall|x: int, y: int| 0 <= x < y < out@.len() implies !key_less(edge_key(#[trigger] out@[y]), edge_key(#[trigger] out@[x])) by {
            let px = perm@[x] as int;
            let py = perm@[y] as int;
            assert(json_edge_entry(fv[px], cg, order@, w[px]));
            assert(json_edge_entry(fv[py], cg, order@, w[py]));
            assert(key_view(kv[px]@) == edge_key(fv[px]));
            assert(key_view(kv[py]@) == edge_key(fv[py]));
            assert(edge_key(out@[x]) == edge_key(fv[px]));
            assert(edge_key(out@[y]) == edge_key(fv[py]));
        }
    }
    out
}

/// The word of a path kind.
pub open spec fn path_kind_word(k: crate::paths::PathKind) -> Seq<char> {
    match k {
        crate::paths::PathKind::RootRelative => "root_relative"@,
        crate::paths::PathKind::InputRelative => "input_relative"@,
        crate::paths::PathKind::Absolute => "absolute"@,
    }
}

/// The counts per edge kind: defines edges, then uses edges, each where
/// there are any.
pub open spec fn edge_kind_counts(d: nat, u: nat) -> Seq<(Seq<char>, usize)> {
    (if d > 0 {
        seq![("defines"@, d as usize)]
    } else {
        Seq::empty()
    }) + (if u > 0 {
        seq![("uses"@, u as usize)]
    } else {
        Seq::empty()
    })
}

/// Node `i` lies in the file `p`.
pub open spec fn has_file(cg: &CallGraph, i: int, p: Seq<char>) -> bool {
    cg.nodes_arena@[i].filename matches Some(q) && q@ == p
}

/// `files` are the distinct files of the nodes `order`.
pub open spec fn files_of_nodes(files: Seq<Seq<char>>, cg: &CallGraph, order: Seq<usize>) -> bool {
    &&& files.no_duplicates()
    &&& forall|p: Seq<char>| #[trigger] files.contains(p) <==> exists|k: int|
        0 <= k < order.len() && has_file(cg, order[k] as int, p)
}

/// `r` is the document of the nodes `order` for `options`, written by
/// `tool`.
pub open spec fn json_document(r: JsonGraph, cg: &CallGraph, order: Seq<usize>, options: &JsonOutputOptions, tool: JsonTool) -> bool {
    let f = options.format_view();
    &&& r.schema_version@ == "1"@
    &&& r.tool == tool
    &&& r.graph_mode@ == mode_word(options.graph_mode)
    &&& match options.analysis_root {
        Some(x) => r.analysis.root matches Some(v) && v@ == crate::paths::display_path(f.cwd, crate::paths::join_path(f.cwd, x@)),
        None => r.analysis.root is None,
    }
    &&& texts(r.analysis.inputs@) == Seq::new(options.inputs@.len(), |k: int| f.location(options.inputs@[k]@))
    &&& r.analysis.node_inclusion_policy@ == "defined_only"@
    &&& r.analysis.path_kind@ == path_kind_word(f.kind)
    &&& r.nodes@.len() == order.len()
    &&& forall|k: int| 0 <= k < order.len() ==> json_node_of(#[trigger] r.nodes@[k], cg, order, k, f)
    &&& json_edges_of(r.edges@, cg, order)
    &&& r.stats.nodes == r.nodes@.len()
    &&& r.stats.edges == r.edges@.len()
    &&& exists|files: Seq<Seq<char>>| #[trigger] files_of_nodes(files, cg, order) && r.stats.files_analyzed == files.len()
    &&& counted_by_kind(r.stats.by_node_kind@, node_kinds(r.nodes@))
    &&& crate::query::count_views(r.stats.by_edge_kind@) == edge_kind_counts(
        text_count(edge_kinds(r.edges@), "defines"@),
        text_count(edge_kinds(r.edges@), "uses"@),
    )
    &&& json_diagnostics_of(r.diagnostics, cg, order, options.graph_mode, f)
}

/// The distinct files of the nodes `order`.
fn node_files(cg: &CallGraph, order: &Vec<usize>) -> (r: Vec<String>)
    requires
        distinct_below(order@, cg.nodes_arena@.len()),
    ensures
        files_of_nodes(texts(r@), cg, order@),
{
    let mut all: Vec<String> = Vec::new();
    let mut k: usize = 0;
    while k < order.len()
        invariant
            distinct_below(order@, cg.nodes_arena@.len()),
            k <= order@.len(),
            forall|p: Seq<char>| #[trigger] texts(all@).contains(p) <==> exists|j: int|
                0 <= j < k && has_file(cg, order@[j] as int, p),
        decreases order.len() - k,
    {
        let ghost a0 = texts(all@);
        match &cg.nodes_arena[order[k]].filename {
            Some(q) => {
                all.push(crate::query::copy_str(q));
                proof {
                    assert(texts(all@) =~= a0.push(q@));
                }
            },
            None => {},
        }
        proof {
            assert forall|p: Seq<char>| #[trigger] texts(all@).contains(p) <==> exists|j: int|
                0 <= j < k + 1 && has_file(cg, order@[j] as int, p) by {
                let av = texts(all@);
                if av.contains(p) {
                    let w = choose|w: int| 0 <= w < av.len() && av[w] == p;
                    if w < a0.len() {
                        assert(a0[w] == p);
                        assert(a0.contains(p));
                    }
                }
                if exists|j: int| 0 <= j < k + 1 && has_file(cg, order@[j] as int, p) {
                    let j = choose|j: int| 0 <= j < k + 1 && has_file(cg, order@[j] as int, p);
                    if j < k {
                        assert(a0.contains(p));
                        let w = choose|w: int| 0 <= w < a0.len() && a0[w] == p;
                        assert(av[w] == p);
                    } else {
                        assert(av[av.len() - 1] == p);
                    }
                }
            }
        }
        k = k + 1;
    }
    crate::query::dedup_strings(&all)
}

/// The kinds of some nodes, as characters.
fn kinds_of_nodes(v: &Vec<JsonNode>) -> (r: Vec<Vec<char>>)
    ensures
        char_views(r@) == node_kinds(v@),
{
    let mut out: Vec<Vec<char>> = Vec::new();
    let mut i: usize = 0;
    while i < v.len()
        invariant
            i <= v@.len(),
            char_views(out@) == node_kinds(v@).take(i as int),
        decreases v.len() - i,
    {
        let ghost o0 = char_views(out@);
        let c = str_to_chars(v[i].kind.as_str());
        out.push(c);
        proof {
            assert(char_views(out@) =~= o0.push(c@));
            assert(char_views(out@) =~= node_kinds(v@).take(i + 1));
        }
        i = i + 1;
    }
    proof {
        assert(node_kinds(v@).take(v@.len() as int) =~= node_kinds(v@));
    }
    out
}

/// The kinds of some edges, as characters.
fn kinds_of_edges(v: &Vec<JsonEdge>) -> (r: Vec<Vec<char>>)
    ensures
        char_views(r@) == edge_kinds(v@),
{
    let mut out: Vec<Vec<char>> = Vec::new();
    let mut i: usize = 0;
    while i < v.len()
        invariant
            i <= v@.len(),
            char_views(out@) == edge_kinds(v@).take(i as int),
        decreases v.len() - i,
    {
        let ghost o0 = char_views(out@);
        let c = str_to_chars(v[i].kind.as_str());
        out.push(c);
        proof {
            assert(char_views(out@) =~= o0.push(c@));
            assert(char_views(out@) =~= edge_kinds(v@).take(i + 1));
        }
        i = i + 1;
    }
    proof {
        assert(edge_kinds(v@).take(v@.len() as int) =~= edge_kinds(v@));
    }
    out
}

/// No more of `v` equal `t` than `v` has strings.
proof fn lemma_text_count_le(v: Seq<Seq<char>>, t: Seq<char>)
    ensures
        text_count(v, t) <= v.len(),
    decreases v.len(),
{
    if v.len() > 0 {
        lemma_text_count_le(v.drop_last(), t);
    }
}

/// The JSON graph document of a call graph: the defined nodes in name
/// order with output ids `n1`, `n2`, ..., the defines and uses edges
/// between them in key order, counts, and the diagnostics.
pub fn write_json(cg: &CallGraph, options: &JsonOutputOptions, tool: JsonTool) -> (r: JsonGraph)
    requires
        cg.wf(),
        cg.nodes_arena@.len() < usize::MAX,
    ensures
        exists|order: Seq<usize>| #[trigger] crate::visgraph::defined_in_order(order, cg.nodes_arena@, cg.defined@, &cg.interner) && json_document(
            r,
            cg,
            order,
            options,
            tool,
        ),
{
    let f = options.formatter();
    let order = crate::visgraph::sorted_defined(&cg.nodes_arena, &cg.defined, &cg.interner);
    proof {
        assert(distinct_below(order@, cg.nodes_arena@.len()));
        assert forall|i: int| 0 <= i < cg.nodes_arena@.len() && #[trigger] cg.defined@[i] implies order@.contains(i as usize) by {
            assert(cg.defined@[i]);
        }
    }
    let pos = positions(&order, cg.nodes_arena.len());
    let nodes = json_nodes(cg, &order, &f);
    let edges = json_edges(cg, &order, &pos);
    let diagnostics = build_json_diagnostics(cg, &order, options.graph_mode, &f);
    let files = node_files(cg, &order);
    let nk = kinds_of_nodes(&nodes);
    let by_node_kind = count_by_kind(&nk);
    let ek = kinds_of_edges(&edges);
    let dw: Vec<char> = vec!['d', 'e', 'f', 'i', 'n', 'e', 's'];
    let uw: Vec<char> = vec!['u', 's', 'e', 's'];
    proof {
        reveal_strlit("defines");
        reveal_strlit("uses");
        assert(dw@ =~= "defines"@);
        assert(uw@ =~= "uses"@);
        lemma_text_count_le(edge_kinds(edges@), "defines"@);
        lemma_text_count_le(edge_kinds(edges@), "uses"@);
    }
    let nd = count_text(&ek, &dw);
    let nu = count_text(&ek, &uw);
    let mut by_edge_kind: Vec<(String, usize)> = Vec::new();
    if nd > 0 {
        by_edge_kind.push((text("defines"), nd));
    }
    let ghost be0 = crate::query::count_views(by_edge_kind@);
    if nu > 0 {
        by_edge_kind.push((text("uses"), nu));
    }
    proof {
        assert(be0 =~= (if nd > 0 {
            seq![("defines"@, nd)]
        } else {
            Seq::empty()
        }));
        assert(crate::query::count_views(by_edge_kind@) =~= edge_kind_counts(nd as nat, nu as nat));
    }
    let root = match &options.analysis_root {
        Some(x) => Some(f.format_analysis_root(x.as_str())),
        None => None,
    };
    let mut inputs: Vec<String> = Vec::new();
    let mut i: usize = 0;
    while i < options.inputs.len()
        invariant
            f@ == options.format_view(),
            i <= options.inputs@.len(),
            texts(inputs@) == Seq::new(i as nat, |k: int| f@.location(options.inputs@[k]@)),
        decreases options.inputs.len() - i,
    {
        let ghost i0 = texts(inputs@);
        let x = f.format_input(options.inputs[i].as_str());
        inputs.push(x);
        proof {
            assert(texts(inputs@) =~= i0.push(x@));
            assert(texts(inputs@) =~= Seq::new((i + 1) as nat, |k: int| f@.location(options.inputs@[k]@)));
        }
        i = i + 1;
    }
    let kind_word = f.path_kind.as_str();
    let stats = JsonStats { nodes: nodes.len(), edges: edges.len(), files_analyzed: files.len(), by_node_kind, by_edge_kind };
    let analysis = JsonAnalysis { root, inputs, node_inclusion_policy: text("defined_only"), path_kind: text(kind_word) };
    let ghost ov = order@;
    let r = JsonGraph {
        schema_version: text("1"),
        tool,
        graph_mode: text(options.graph_mode.label()),
        analysis,
        stats,
        nodes,
        edges,
        diagnostics,
    };
    proof {
        assert(files_of_nodes(texts(files@), cg, ov));
        assert(json_document(r, cg, ov, options, tool));
    }
    r
}

/// Different digits are different characters.
proof fn lemma_digit_injective(a: nat, b: nat)
    requires
        a < 10,
        b < 10,
        crate::order::digit(a) == crate::order::digit(b),
    ensures
        a == b,
{
}

/// A numeral has at least one digit, and two when the number is ten or
/// more.
proof fn lemma_decimal_len(n: nat)
    ensures
        decimal(n).len() >= 1,
        n >= 10 ==> decimal(n).len() >= 2,
    decreases n,
{
    if n >= 10 {
        lemma_decimal_len(n / 10);
    }
}

/// Different numbers have different numerals.
pub proof fn lemma_decimal_injective(a: nat, b: nat)
    requires
        decimal(a) == decimal(b),
    ensures
        a == b,
    decreases a,
{
    lemma_decimal_len(a);
    lemma_decimal_len(b);
    if a < 10 && b < 10 {
        assert(decimal(a) == seq![crate::order::digit(a)]);
        assert(decimal(b) == seq![crate::order::digit(b)]);
        assert(decimal(a)[0] == decimal(b)[0]);
        assert(decimal(a)[0] == crate::order::digit(a));
        assert(decimal(b)[0] == crate::order::digit(b));
        lemma_digit_injective(a, b);
    } else if a >= 10 && b >= 10 {
        let da = decimal(a);
        let db = decimal(b);
        assert(da.last() == db.last());
        assert(da.last() == crate::order::digit(a % 10));
        assert(db.last() == crate::order::digit(b % 10));
        lemma_digit_injective(a % 10, b % 10);
        assert(da.drop_last() =~= decimal(a / 10));
        assert(db.drop_last() =~= decimal(b / 10));
        lemma_decimal_injective(a / 10, b / 10);
    } else {
        assert(decimal(a).len() != decimal(b).len());
    }
}

/// Output ids of different positions differ.
pub proof fn law_labels_distinct(a: int, b: int)
    requires
        0 <= a,
        0 <= b,
        a != b,
    ensures
        label_text(a) != label_text(b),
{
    if label_text(a) == label_text(b) {
        assert(label_text(a).drop_first() =~= decimal((a + 1) as nat));
        assert(label_text(b).drop_first() =~= decimal((b + 1) as nat));
        lemma_decimal_injective((a + 1) as nat, (b + 1) as nat);
    }
}

/// In a JSON document the nodes have distinct ids, and every edge joins
/// two of them.
pub proof fn law_json_ids(r: JsonGraph, cg: &CallGraph, order: Seq<usize>, options: &JsonOutputOptions, tool: JsonTool)
    requires
        json_document(r, cg, order, options, tool),
    ensures
        forall|a: int, b: int| 0 <= a < r.nodes@.len() && 0 <= b < r.nodes@.len() && a != b ==> #[trigger] r.nodes@[a].id@ != #[trigger] r.nodes@[b].id@,
        forall|k: int| 0 <= k < r.edges@.len() ==> exists|a: int| 0 <= a < r.nodes@.len() && #[trigger] r.nodes@[a].id@ == (#[trigger] r.edges@[k]).source@,
        forall|k: int| 0 <= k < r.edges@.len() ==> exists|b: int| 0 <= b < r.nodes@.len() && #[trigger] r.nodes@[b].id@ == (#[trigger] r.edges@[k]).target@,
{
    let f = options.format_view();
    assert forall|a: int, b: int| 0 <= a < r.nodes@.len() && 0 <= b < r.nodes@.len() && a != b implies #[trigger] r.nodes@[a].id@
        != #[trigger] r.nodes@[b].id@ by {
        assert(json_node_of(r.nodes@[a], cg, order, a, f));
        assert(json_node_of(r.nodes@[b], cg, order, b, f));
        law_labels_distinct(a, b);
    }
    let w = choose|w: Seq<(bool, int, int)>| #[trigger] edges_witnessed(r.edges@, cg, order, w);
    assert forall|k: int| 0 <= k < r.edges@.len() implies exists|a: int| 0 <= a < r.nodes@.len() && #[trigger] r.nodes@[a].id@ == (
    #[trigger] r.edges@[k]).source@ by {
        assert(json_edge_entry(r.edges@[k], cg, order, w[k]));
        let a = w[k].1;
        assert(json_node_of(r.nodes@[a], cg, order, a, f));
    }
    assert forall|k: int| 0 <= k < r.edges@.len() implies exists|b: int| 0 <= b < r.nodes@.len() && #[trigger] r.nodes@[b].id@ == (
    #[trigger] r.edges@[k]).target@ by {
        assert(json_edge_entry(r.edges@[k], cg, order, w[k]));
        let b = w[k].2;
        assert(json_node_of(r.nodes@[b], cg, order, b, f));
    }
}

} // verus!
