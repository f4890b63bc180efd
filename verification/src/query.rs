//! Queries over a finished call graph: the symbols of a file or module, a
//! summary, the callees, callers and neighbors of a symbol, and a shortest
//! call path between two symbols, with the diagnostics that concern them.

use vstd::prelude::*;

use crate::analyzer::graph::{CallGraph, ExternalReferenceDiagnostic, ExternalReferenceKind};
use crate::intern::Interner;
use crate::node::{Flavor, Node, NodeId};
use crate::scope::ValueSet;
use crate::order::{
    key_less, key_order, key_view, lemma_reorder_ids, lemma_text_key_order, seq_less, sort_by_key, KeyPart, KeyV,
};
use crate::paths::{FormatView, PathFormatter};
use crate::text::{
    chars_eq, chars_to_string, dotted, ends_with, is_suffix, push_all, push_str, rsplit_dot, str_to_chars,
};

verus! {

/// How a symbol query is matched against canonical names.
#[derive(Debug, Clone, Copy, PartialEq, Eq, Structural)]
pub enum MatchMode {
    Exact,
    Suffix,
}

/// The display word of a match mode.
pub open spec fn match_word(m: MatchMode) -> Seq<char> {
    match m {
        MatchMode::Exact => "exact"@,
        MatchMode::Suffix => "suffix"@,
    }
}

impl MatchMode {
    /// The mode's display word.
    pub fn as_str(self) -> (r: &'static str)
        ensures
            r@ == match_word(self),
    {
        match self {
            Self::Exact => "exact",
            Self::Suffix => "suffix",
        }
    }
}

/// Which graph a query reads.
#[derive(Debug, Clone, Copy, PartialEq, Eq, Structural)]
pub enum QueryGraphMode {
    Symbol,
    Module,
}

/// The display word of a graph mode.
pub open spec fn graph_word(m: QueryGraphMode) -> Seq<char> {
    match m {
        QueryGraphMode::Symbol => "symbol"@,
        QueryGraphMode::Module => "module"@,
    }
}

impl QueryGraphMode {
    /// The mode's display word.
    pub fn as_str(self) -> (r: &'static str)
        ensures
            r@ == graph_word(self),
    {
        match self {
            Self::Symbol => "symbol",
            Self::Module => "module",
        }
    }
}

/// How a query target names its scope: by file path or by module name.
#[derive(Debug, Clone, Copy, PartialEq, Eq, Structural)]
pub enum TargetKind {
    Path,
    Module,
}

/// Whether a query target reads as a file path: it exists on disk, ends
/// in `.py`, or holds a path separator.
pub open spec fn reads_as_path(target: Seq<char>, on_disk: bool) -> bool {
    on_disk || is_suffix(".py"@, target) || target.contains('/') || target.contains('\\')
}

/// The kind of a query target: the one given, else a path when the target
/// reads as one (`on_disk` says whether it names something on disk), else a
/// module.
pub fn infer_target_kind(target: &str, explicit: Option<TargetKind>, on_disk: bool) -> (r: TargetKind)
    ensures
        r == (match explicit {
            Some(k) => k,
            None => if reads_as_path(target@, on_disk) {
                TargetKind::Path
            } else {
                TargetKind::Module
            },
        }),
{
    match explicit {
        Some(k) => k,
        None => {
            let t = str_to_chars(target);
            let suffix = str_to_chars(".py");
            proof {
                reveal_strlit(".py");
            }
            if on_disk || ends_with(t.as_slice(), suffix.as_slice()) || crate::text::contains_char(t.as_slice(), '/')
                || crate::text::contains_char(t.as_slice(), '\\') {
                TargetKind::Path
            } else {
                TargetKind::Module
            }
        }
    }
}

/// The display word of a target kind.
pub open spec fn target_word(k: TargetKind) -> Seq<char> {
    match k {
        TargetKind::Path => "path"@,
        TargetKind::Module => "module"@,
    }
}

impl TargetKind {
    /// The kind's display word.
    pub fn as_str(self) -> (r: &'static str)
        ensures
            r@ == target_word(self),
    {
        match self {
            Self::Path => "path",
            Self::Module => "module",
        }
    }
}

/// Where query output is rendered from: the analysis root, the inputs,
/// and the working directory that relative paths start from.
#[derive(Debug, Clone)]
pub struct QueryRenderOptions {
    pub analysis_root: Option<String>,
    pub inputs: Vec<String>,
    pub cwd: String,
}

/// A file location.
#[derive(Debug, Clone)]
pub struct Location {
    pub path: String,
    pub line: Option<usize>,
}

/// A symbol as queries report it.
#[derive(Debug, Clone)]
pub struct SymbolRef {
    pub canonical_name: String,
    pub kind: String,
    pub name: Option<String>,
    pub namespace: Option<String>,
    pub location: Option<Location>,
}

/// The kind word of a node that queries report, for the flavors they
/// report.
pub open spec fn public_kind(f: Flavor) -> Option<Seq<char>> {
    match f {
        Flavor::Module => Some("module"@),
        Flavor::Class => Some("class"@),
        Flavor::Function => Some("function"@),
        Flavor::Method => Some("method"@),
        Flavor::StaticMethod => Some("static_method"@),
        Flavor::ClassMethod => Some("class_method"@),
        _ => None,
    }
}

/// The kind word of a reported node.
pub fn public_kind_of(f: Flavor) -> (r: Option<&'static str>)
    ensures
        match public_kind(f) {
            Some(k) => r matches Some(s) && s@ == k,
            None => r.is_none(),
        },
{
    match f {
        Flavor::Module => Some("module"),
        Flavor::Class => Some("class"),
        Flavor::Function => Some("function"),
        Flavor::Method => Some("method"),
        Flavor::StaticMethod => Some("static_method"),
        Flavor::ClassMethod => Some("class_method"),
        _ => None,
    }
}

/// The reported name and namespace of a node: its own when it has a
/// nonempty namespace, else the parts of its canonical name around the last
/// dot, else the canonical name alone.
pub open spec fn name_and_namespace(n: Option<Seq<char>>, ns: Option<Seq<char>>, node: Node, interner: &Interner) -> bool {
    match node.ns_text(interner) {
        Some(t) => if t.len() > 0 {
            n == Some(interner.str_of(node.name)) && ns == Some(t)
        } else {
            split_canonical(n, ns, node.full_name(interner))
        },
        None => split_canonical(n, ns, node.full_name(interner)),
    }
}

/// `n` and `ns` are the parts of `canonical` after and before its last
/// dot, or `canonical` and nothing when it has no dot.
pub open spec fn split_canonical(n: Option<Seq<char>>, ns: Option<Seq<char>>, canonical: Seq<char>) -> bool {
    if canonical.contains('.') {
        n matches Some(a) && ns matches Some(b) && canonical == dotted(b, a) && !a.contains('.')
    } else {
        n == Some(canonical) && ns.is_none()
    }
}

/// The reported name and namespace of a node.
pub(crate) fn name_ns(node: &Node, canonical: &String, interner: &Interner) -> (r: (Option<String>, Option<String>))
    requires
        node.ids_in(interner),
        canonical@ == node.full_name(interner),
    ensures
        name_and_namespace(opt_text(r.0), opt_text(r.1), *node, interner),
{
    if let Some(ns) = node.namespace {
        let nc = str_to_chars(interner.resolve(ns));
        if nc.len() > 0 {
            let a = chars_to_string(str_to_chars(interner.resolve(node.name)).as_slice());
            let b = chars_to_string(nc.as_slice());
            return (Some(a), Some(b));
        }
    }
    let cc = str_to_chars(canonical.as_str());
    match rsplit_dot(cc.as_slice()) {
        Some((before, after)) => {
            proof {
                assert(cc@[before@.len() as int] == '.');
                assert(cc@.contains('.'));
            }
            (Some(chars_to_string(after.as_slice())), Some(chars_to_string(before.as_slice())))
        },
        None => (Some(chars_to_string(cc.as_slice())), None),
    }
}

/// The optional string of an optional character sequence.
pub open spec fn opt_text(o: Option<String>) -> Option<Seq<char>> {
    match o {
        Some(s) => Some(s@),
        None => None,
    }
}

/// `r` reports `node`, with file paths shown by `formatter`.
pub open spec fn reports(r: SymbolRef, node: Node, formatter: FormatView, interner: &Interner) -> bool {
    &&& r.canonical_name@ == node.full_name(interner)
    &&& public_kind(node.flavor) == Some(r.kind@)
    &&& name_and_namespace(opt_text(r.name), opt_text(r.namespace), node, interner)
    &&& match node.filename {
        Some(f) => r.location matches Some(l) && l.path@ == formatter.location(f@) && l.line == node.line,
        None => r.location.is_none(),
    }
}

/// The reported form of `node`, when it has a reported flavor.
pub fn symbol_ref(node: &Node, formatter: &PathFormatter, interner: &Interner) -> (r: Option<SymbolRef>)
    requires
        node.ids_in(interner),
    ensures
        match r {
            Some(s) => reports(s, *node, formatter@, interner),
            None => public_kind(node.flavor).is_none(),
        },
{
    let kind = match public_kind_of(node.flavor) {
        Some(k) => k,
        None => return None,
    };
    let canonical = node.get_name(interner);
    let (name, namespace) = name_ns(node, &canonical, interner);
    let location = match &node.filename {
        Some(f) => Some(Location { path: formatter.format_location(f.as_str()), line: node.line }),
        None => None,
    };
    let kind_string = chars_to_string(str_to_chars(kind).as_slice());
    let r = SymbolRef { canonical_name: canonical, kind: kind_string, name, namespace, location };
    Some(r)
}

/// Node `i` of `cg` is defined and of a reported flavor.
pub open spec fn defined_public(cg: &CallGraph, i: int) -> bool {
    &&& 0 <= i < cg.nodes_arena@.len()
    &&& cg.defined@[i]
    &&& public_kind(cg.nodes_arena@[i].flavor).is_some()
}

/// The canonical name of node `i`.
pub open spec fn canonical(cg: &CallGraph, i: int) -> Seq<char> {
    cg.nodes_arena@[i].full_name(&cg.interner)
}

/// `ids` lists nodes of `cg`, each once, sorted by canonical name.
pub open spec fn sorted_ids(cg: &CallGraph, ids: Seq<NodeId>) -> bool {
    &&& forall|k: int| 0 <= k < ids.len() ==> #[trigger] ids[k] < cg.nodes_arena@.len()
    &&& forall|a: int, b: int| 0 <= a < ids.len() && 0 <= b < ids.len() && a != b ==> #[trigger] ids[a] != #[trigger] ids[b]
    &&& forall|a: int, b: int| 0 <= a < b < ids.len() ==> !seq_less(canonical(cg, #[trigger] ids[b] as int), canonical(cg, #[trigger] ids[a] as int))
}

/// `ids` lists, each once and sorted by canonical name, exactly the
/// defined nodes of reported flavors.
pub open spec fn lists_public(cg: &CallGraph, ids: Seq<NodeId>) -> bool {
    &&& sorted_ids(cg, ids)
    &&& forall|k: int| 0 <= k < ids.len() ==> defined_public(cg, #[trigger] ids[k] as int)
    &&& forall|i: int| #[trigger] defined_public(cg, i) ==> ids.contains(i as NodeId)
}

/// The defined nodes of reported flavors, sorted by canonical name.
pub fn defined_public_node_ids(cg: &CallGraph) -> (r: Vec<NodeId>)
    requires
        cg.wf(),
    ensures
        lists_public(cg, r@),
{
    let n = cg.nodes_arena.len();
    let mut items: Vec<(Vec<KeyPart>, usize)> = Vec::new();
    let mut i: usize = 0;
    while i < n
        invariant
            cg.wf(),
            n == cg.nodes_arena@.len(),
            i <= n,
            forall|k: int| 0 <= k < items@.len() ==> #[trigger] items@[k].1 < i && defined_public(cg, items@[k].1 as int),
            forall|a: int, b: int| 0 <= a < b < items@.len() ==> #[trigger] items@[a].1 < #[trigger] items@[b].1,
            forall|j: int| 0 <= j < i && defined_public(cg, j) ==> exists|k: int| 0 <= k < items@.len() && #[trigger] items@[k].1 == j,
            forall|k: int|
                0 <= k < items@.len() ==> key_view((#[trigger] items@[k].0)@) == seq![KeyV::Text(canonical(cg, items@[k].1 as int))],
        decreases n - i,
    {
        let ghost it0 = items@;
        if cg.defined[i] && public_kind_of(cg.nodes_arena[i].flavor).is_some() {
            proof {
                assert(cg.nodes_arena@[i as int].ids_in(&cg.interner));
            }
            let name = str_to_chars(cg.nodes_arena[i].get_name(&cg.interner).as_str());
            let mut key: Vec<KeyPart> = Vec::new();
            key.push(KeyPart::Text(name));
            proof {
                assert(key_view(key@) =~= seq![KeyV::Text(canonical(cg, i as int))]);
            }
            items.push((key, i));
        }
        proof {
            assert forall|j: int| 0 <= j < i + 1 && defined_public(cg, j) implies exists|k: int| 0 <= k < items@.len() && #[trigger] items@[k].1 == j by {
                if j == i {
                    assert(items@[items@.len() - 1].1 == i);
                } else {
                    let k = choose|k: int| 0 <= k < it0.len() && #[trigger] it0[k].1 == j;
                    assert(items@[k] == it0[k]);
                }
            }
        }
        i = i + 1;
    }
    let ghost before = items@;
    proof {
        assert(crate::order::ids_distinct(before)) by {
            assert forall|a: int, b: int| 0 <= a < before.len() && 0 <= b < before.len() && a != b implies #[trigger] before[a].1 != #[trigger] before[b].1 by {
                if a < b {
                    assert(before[a].1 < before[b].1);
                } else {
                    assert(before[b].1 < before[a].1);
                }
            }
        }
    }
    let sorted = sort_by_key(items);
    proof {
        lemma_reorder_ids(before, sorted@);
    }
    let mut r: Vec<NodeId> = Vec::new();
    let mut k: usize = 0;
    while k < sorted.len()
        invariant
            k <= sorted@.len(),
            r@.len() == k,
            forall|j: int| 0 <= j < k ==> #[trigger] r@[j] == sorted@[j].1,
        decreases sorted.len() - k,
    {
        r.push(sorted[k].1);
        k = k + 1;
    }
    proof {
        let s = sorted@;
        assert forall|k: int| 0 <= k < r@.len() implies #[trigger] r@[k] < cg.nodes_arena@.len() && defined_public(cg, r@[k] as int) by {
            assert(before.contains(s[k]));
        }
        assert forall|k: int| 0 <= k < r@.len() implies defined_public(cg, #[trigger] r@[k] as int) by {
            assert(before.contains(s[k]));
        }
        assert forall|j: int| #[trigger] defined_public(cg, j) implies r@.contains(j as NodeId) by {
            let p = choose|p: int| 0 <= p < before.len() && #[trigger] before[p].1 == j;
            assert(s.contains(before[p]));
            let q = choose|q: int| 0 <= q < s.len() && s[q] == before[p];
            assert(r@[q] == j);
        }
        assert forall|a: int, b: int| 0 <= a < b < r@.len() implies !seq_less(canonical(cg, #[trigger] r@[b] as int), canonical(cg, #[trigger] r@[a] as int)) by {
            assert(before.contains(s[a]));
            assert(before.contains(s[b]));
            let pa = choose|p: int| 0 <= p < before.len() && before[p] == s[a];
            let pb = choose|p: int| 0 <= p < before.len() && before[p] == s[b];
            assert(key_view(before[pa].0@) == seq![KeyV::Text(canonical(cg, before[pa].1 as int))]);
            assert(key_view(before[pb].0@) == seq![KeyV::Text(canonical(cg, before[pb].1 as int))]);
            lemma_text_key_order(canonical(cg, r@[b] as int), canonical(cg, r@[a] as int));
        }
        assert forall|a: int, b: int| 0 <= a < r@.len() && 0 <= b < r@.len() && a != b implies #[trigger] r@[a] != #[trigger] r@[b] by {
            assert(s[a].1 != s[b].1);
        }
    }
    r
}

/// Whether a canonical name answers a symbol query: exactly, or (for
/// suffix matching) also by ending in `.` and the symbol.
pub open spec fn symbol_matches(name: Seq<char>, symbol: Seq<char>, mode: MatchMode) -> bool {
    match mode {
        MatchMode::Exact => name == symbol,
        MatchMode::Suffix => name == symbol || is_suffix(seq!['.'] + symbol, name),
    }
}

/// `ids` lists, each once and sorted by canonical name, exactly the nodes
/// that answer a symbol query.
pub open spec fn lists_matches(cg: &CallGraph, ids: Seq<NodeId>, symbol: Seq<char>, mode: MatchMode) -> bool {
    &&& sorted_ids(cg, ids)
    &&& forall|k: int| 0 <= k < ids.len() ==> is_match(cg, #[trigger] ids[k] as int, symbol, mode)
    &&& forall|i: int| #[trigger] is_match(cg, i, symbol, mode) ==> ids.contains(i as NodeId)
}

/// Node `i` is a defined, reported node that answers the query.
pub open spec fn is_match(cg: &CallGraph, i: int, symbol: Seq<char>, mode: MatchMode) -> bool {
    defined_public(cg, i) && symbol_matches(canonical(cg, i), symbol, mode)
}

/// The defined, reported nodes that answer a symbol query, sorted by
/// canonical name.
pub fn resolve_symbol_matches(cg: &CallGraph, symbol: &str, match_mode: MatchMode) -> (r: Vec<NodeId>)
    requires
        cg.wf(),
    ensures
        lists_matches(cg, r@, symbol@, match_mode),
{
    let ids = defined_public_node_ids(cg);
    let sc = str_to_chars(symbol);
    let mut dotted_symbol: Vec<char> = Vec::new();
    dotted_symbol.push('.');
    push_all(&mut dotted_symbol, sc.as_slice());
    proof {
        assert(dotted_symbol@ =~= seq!['.'] + symbol@);
    }
    let mut r: Vec<NodeId> = Vec::new();
    let mut k: usize = 0;
    let ghost picked: Seq<int> = Seq::empty();
    while k < ids.len()
        invariant
            cg.wf(),
            k <= ids@.len(),
            lists_public(cg, ids@),
            sc@ == symbol@,
            dotted_symbol@ == seq!['.'] + symbol@,
            r@.len() == picked.len(),
            forall|j: int| 0 <= j < picked.len() ==> 0 <= #[trigger] picked[j] < k && r@[j] == ids@[picked[j]],
            forall|a: int, b: int| 0 <= a < b < picked.len() ==> #[trigger] picked[a] < #[trigger] picked[b],
            forall|j: int| 0 <= j < r@.len() ==> is_match(cg, #[trigger] r@[j] as int, symbol@, match_mode),
            forall|q: int| 0 <= q < k && is_match(cg, #[trigger] ids@[q] as int, symbol@, match_mode) ==> r@.contains(ids@[q]),
        decreases ids.len() - k,
    {
        let id = ids[k];
        proof {
            assert(id < cg.nodes_arena@.len() && defined_public(cg, id as int));
            assert(cg.nodes_arena@[id as int].ids_in(&cg.interner));
        }
        let name = str_to_chars(cg.nodes_arena[id].get_name(&cg.interner).as_str());
        let hit = match match_mode {
            MatchMode::Exact => chars_eq(name.as_slice(), sc.as_slice()),
            MatchMode::Suffix => chars_eq(name.as_slice(), sc.as_slice()) || ends_with(name.as_slice(), dotted_symbol.as_slice()),
        };
        let ghost r0 = r@;
        let ghost p0 = picked;
        if hit {
            r.push(id);
            proof {
                picked = picked.push(k as int);
            }
        }
        proof {
            assert forall|q: int| 0 <= q < k + 1 && is_match(cg, #[trigger] ids@[q] as int, symbol@, match_mode) implies r@.contains(ids@[q]) by {
                if q == k {
                    assert(r@[r@.len() - 1] == id);
                } else {
                    assert(r0.contains(ids@[q]));
                    let w = choose|w: int| 0 <= w < r0.len() && r0[w] == ids@[q];
                    assert(r@[w] == r0[w]);
                }
            }
            assert forall|j: int| 0 <= j < r@.len() implies is_match(cg, #[trigger] r@[j] as int, symbol@, match_mode) by {
                if j < r0.len() {
                    assert(r@[j] == r0[j]);
                }
            }
        }
        k = k + 1;
    }
    proof {
        let ghost_ids = ids@;
        assert forall|k: int| 0 <= k < r@.len() implies #[trigger] r@[k] < cg.nodes_arena@.len() by {
            assert(is_match(cg, r@[k] as int, symbol@, match_mode));
        }
        assert forall|i: int| #[trigger] is_match(cg, i, symbol@, match_mode) implies r@.contains(i as NodeId) by {
            assert(defined_public(cg, i));
            assert(ids@.contains(i as NodeId));
            assert(cg.nodes_arena@.len() == cg.nodes_arena.len());
            let q = choose|q: int| 0 <= q < ids@.len() && ids@[q] == i as NodeId;
            assert(ids@[q] as int == i);
            assert(is_match(cg, ids@[q] as int, symbol@, match_mode));
        }
        assert forall|a: int, b: int| 0 <= a < r@.len() && 0 <= b < r@.len() && a != b implies #[trigger] r@[a] != #[trigger] r@[b] by {
            assert(picked[a] != picked[b]);
            assert(ids@[picked[a]] != ids@[picked[b]]);
        }
        assert forall|a: int, b: int| 0 <= a < b < r@.len() implies !seq_less(canonical(cg, #[trigger] r@[b] as int), canonical(cg, #[trigger] r@[a] as int)) by {
            assert(picked[a] < picked[b]);
            assert(!seq_less(canonical(cg, ids@[picked[b]] as int), canonical(cg, ids@[picked[a]] as int)));
        }
    }
    r
}

/// A failed query: a code, a message, and the candidates when the query
/// was ambiguous.
#[derive(Debug, Clone)]
pub struct QueryError {
    pub code: String,
    pub message: String,
    pub matches: Vec<String>,
}

/// The views of a vector of strings.
pub open spec fn texts(v: Seq<String>) -> Seq<Seq<char>> {
    Seq::new(v.len(), |i: int| v[i]@)
}

/// A string of the given characters.
pub(crate) fn string_of(v: &Vec<char>) -> (r: String)
    ensures
        r@ == v@,
{
    chars_to_string(v.as_slice())
}

/// `e` reports that no node answers `symbol`.
pub open spec fn not_found_error(e: QueryError, symbol: Seq<char>) -> bool {
    &&& e.code@ == "symbol_not_found"@
    &&& e.message@ == "No symbol matched query '"@ + symbol + "'"@
    &&& e.matches@.len() == 0
}

/// `e` reports that several nodes answer `symbol`, listing their canonical
/// names in order.
pub open spec fn ambiguous_error(e: QueryError, symbol: Seq<char>, cg: &CallGraph, ids: Seq<NodeId>) -> bool {
    &&& e.code@ == "ambiguous_query"@
    &&& e.message@ == "Query '"@ + symbol + "' matched multiple symbols"@
    &&& texts(e.matches@) == Seq::new(ids.len(), |k: int| canonical(cg, ids[k] as int))
}

/// The one node that answers a symbol query; an error when none or several
/// do.
pub fn resolve_single_symbol(cg: &CallGraph, symbol: &str, match_mode: MatchMode) -> (r: Result<NodeId, QueryError>)
    requires
        cg.wf(),
    ensures
        match r {
            Ok(id) => is_match(cg, id as int, symbol@, match_mode) && forall|i: int|
                #[trigger] is_match(cg, i, symbol@, match_mode) ==> i == id,
            Err(e) => (not_found_error(e, symbol@) && forall|i: int| !#[trigger] is_match(cg, i, symbol@, match_mode))
                || exists|ids: Seq<NodeId>|
                ids.len() >= 2 && lists_matches(cg, ids, symbol@, match_mode) && ambiguous_error(
                    e,
                    symbol@,
                    cg,
                    ids,
                ),
        },
{
    let matches = resolve_symbol_matches(cg, symbol, match_mode);
    if matches.len() == 0 {
        let mut m: Vec<char> = Vec::new();
        push_str(&mut m, "No symbol matched query '");
        push_str(&mut m, symbol);
        push_str(&mut m, "'");
        let mut c: Vec<char> = Vec::new();
        push_str(&mut c, "symbol_not_found");
        proof {
            assert(c@ =~= "symbol_not_found"@);
            assert(m@ =~= "No symbol matched query '"@ + symbol@ + "'"@);
            assert forall|i: int| !#[trigger] is_match(cg, i, symbol@, match_mode) by {
                if is_match(cg, i, symbol@, match_mode) {
                    assert(matches@.contains(i as NodeId));
                }
            }
        }
        return Err(QueryError { code: string_of(&c), message: string_of(&m), matches: Vec::new() });
    }
    if matches.len() == 1 {
        let id = matches[0];
        proof {
            assert forall|i: int| #[trigger] is_match(cg, i, symbol@, match_mode) implies i == id by {
                assert(0 <= i < cg.nodes_arena@.len());
                assert(cg.nodes_arena@.len() == cg.nodes_arena.len());
                assert(matches@.contains(i as NodeId));
                let w = choose|w: int| 0 <= w < matches@.len() && matches@[w] == i as NodeId;
                assert(w == 0);
            }
        }
        return Ok(id);
    }
    let mut names: Vec<String> = Vec::new();
    let mut k: usize = 0;
    while k < matches.len()
        invariant
            cg.wf(),
            k <= matches@.len(),
            lists_matches(cg, matches@, symbol@, match_mode),
            names@.len() == k,
            forall|j: int| 0 <= j < k ==> #[trigger] names@[j]@ == canonical(cg, matches@[j] as int),
        decreases matches.len() - k,
    {
        proof {
            assert(matches@[k as int] < cg.nodes_arena@.len());
            assert(cg.nodes_arena@[matches@[k as int] as int].ids_in(&cg.interner));
        }
        names.push(cg.nodes_arena[matches[k]].get_name(&cg.interner));
        k = k + 1;
    }
    let mut m: Vec<char> = Vec::new();
    push_str(&mut m, "Query '");
    push_str(&mut m, symbol);
    push_str(&mut m, "' matched multiple symbols");
    let mut c: Vec<char> = Vec::new();
    push_str(&mut c, "ambiguous_query");
    let e = QueryError { code: string_of(&c), message: string_of(&m), matches: names };
    proof {
        assert(c@ =~= "ambiguous_query"@);
        assert(m@ =~= "Query '"@ + symbol@ + "' matched multiple symbols"@);
        assert(texts(e.matches@) =~= Seq::new(matches@.len(), |k: int| canonical(cg, matches@[k] as int)));
        assert(ambiguous_error(e, symbol@, cg, matches@));
    }
    Err(e)
}

/// A module answers a module target when it is the target or lies below
/// it.
pub open spec fn module_matches(module_name: Seq<char>, target: Seq<char>) -> bool {
    module_name == target || crate::text::is_prefix(target + seq!['.'], module_name)
}

/// A module answers a module target exactly when its name is the target,
/// or is the target followed by a dot and more: `pkg.util.f` answers
/// `pkg.util`, but `pkg.utils` does not.
pub proof fn lemma_module_matches_law(module_name: Seq<char>, target: Seq<char>)
    ensures
        module_matches(module_name, target) <==> (module_name == target || (module_name.len() > target.len()
            && module_name[target.len() as int] == '.' && forall|i: int| 0 <= i < target.len() ==> module_name[i] == target[i])),
{
    let p = target + seq!['.'];
    if module_name.len() > target.len() && module_name[target.len() as int] == '.' && (forall|i: int|
        0 <= i < target.len() ==> module_name[i] == target[i]) {
        assert(module_name.subrange(0, p.len() as int) =~= p);
    }
    if crate::text::is_prefix(p, module_name) {
        assert forall|i: int| 0 <= i < target.len() implies module_name[i] == target[i] by {
            assert(module_name.subrange(0, p.len() as int)[i] == p[i]);
        }
        assert(module_name.subrange(0, p.len() as int)[target.len() as int] == p[target.len() as int]);
    }
}

/// Whether `module_name` is `target` or a module below it.
pub fn module_matches_target(module_name: &str, target: &str) -> (r: bool)
    ensures
        r == module_matches(module_name@, target@),
{
    let mc = str_to_chars(module_name);
    let tc = str_to_chars(target);
    if chars_eq(mc.as_slice(), tc.as_slice()) {
        return true;
    }
    let mut prefix = tc;
    prefix.push('.');
    proof {
        assert(prefix@ =~= target@ + seq!['.']);
    }
    crate::text::starts_with(mc.as_slice(), prefix.as_slice())
}

/// Counts of the diagnostics of each kind.
#[derive(Debug, Clone)]
pub struct DiagnosticSummary {
    pub warnings: usize,
    pub unresolved_references: usize,
    pub ambiguous_resolutions: usize,
    pub external_references: usize,
    pub approximations: usize,
}

/// A warning of the analysis.
#[derive(Debug, Clone)]
pub struct Warning {
    pub code: String,
    pub message: String,
    pub path: Option<String>,
    pub line: Option<usize>,
}

/// A name used by a source that no analyzed definition answers.
#[derive(Debug, Clone)]
pub struct UnresolvedReference {
    pub kind: String,
    pub source: String,
    pub symbol: String,
    pub path: Option<String>,
    pub line: Option<usize>,
}

/// A name used by a source that several definitions answer.
#[derive(Debug, Clone)]
pub struct AmbiguousResolution {
    pub kind: String,
    pub source: String,
    pub symbol: String,
    pub candidate_targets: Vec<String>,
    pub path: Option<String>,
    pub line: Option<usize>,
}

/// A use of a name outside the analyzed files.
#[derive(Debug, Clone)]
pub struct ExternalReference {
    pub kind: String,
    pub source: String,
    pub canonical_name: String,
    pub path: Option<String>,
    pub line: Option<usize>,
}

/// A place where the analysis kept more than one answer.
#[derive(Debug, Clone)]
pub struct Approximation {
    pub kind: String,
    pub source: String,
    pub symbol: Option<String>,
    pub reason: String,
    pub candidate_targets: Vec<String>,
    pub path: Option<String>,
    pub line: Option<usize>,
}

/// The diagnostics that concern a query's symbols.
#[derive(Debug, Clone)]
pub struct QueryDiagnostics {
    pub summary: DiagnosticSummary,
    pub warnings: Vec<Warning>,
    pub unresolved_references: Vec<UnresolvedReference>,
    pub ambiguous_resolutions: Vec<AmbiguousResolution>,
    pub external_references: Vec<ExternalReference>,
    pub approximations: Vec<Approximation>,
}

/// Sort key of an optional string: absent first, then by the string.
pub open spec fn opt_text_key(o: Option<Seq<char>>) -> Seq<KeyV> {
    match o {
        None => seq![KeyV::Num(0), KeyV::Text(Seq::empty())],
        Some(p) => seq![KeyV::Num(1), KeyV::Text(p)],
    }
}

/// Sort key of an optional number: absent first, then by the number.
pub open spec fn opt_num_key(o: Option<usize>) -> Seq<KeyV> {
    match o {
        None => seq![KeyV::Num(0), KeyV::Num(0)],
        Some(l) => seq![KeyV::Num(1), KeyV::Num(l as nat)],
    }
}

/// Sort key of a list of strings, compared element by element.
pub open spec fn texts_key(v: Seq<Seq<char>>) -> Seq<KeyV> {
    Seq::new(v.len(), |i: int| KeyV::Text(v[i]))
}

/// Key parts of an optional string.
fn push_opt_text_key(key: &mut Vec<KeyPart>, o: &Option<String>)
    ensures
        key_view(final(key)@) == key_view(old(key)@) + opt_text_key(opt_text(*o)),
{
    let ghost k0 = key@;
    match o {
        None => {
            key.push(KeyPart::Num(0));
            key.push(KeyPart::Text(Vec::new()));
        },
        Some(p) => {
            key.push(KeyPart::Num(1));
            key.push(KeyPart::Text(str_to_chars(p.as_str())));
        },
    }
    proof {
        assert(key_view(key@) =~= key_view(k0) + opt_text_key(opt_text(*o)));
    }
}

/// Key parts of an optional number.
fn push_opt_num_key(key: &mut Vec<KeyPart>, o: Option<usize>)
    ensures
        key_view(final(key)@) == key_view(old(key)@) + opt_num_key(o),
{
    let ghost k0 = key@;
    match o {
        None => {
            key.push(KeyPart::Num(0));
            key.push(KeyPart::Num(0));
        },
        Some(l) => {
            key.push(KeyPart::Num(1));
            key.push(KeyPart::Num(l));
        },
    }
    proof {
        assert(key_view(key@) =~= key_view(k0) + opt_num_key(o));
    }
}

/// Key part of a string.
fn push_text_key(key: &mut Vec<KeyPart>, s: &String)
    ensures
        key_view(final(key)@) == key_view(old(key)@).push(KeyV::Text(s@)),
{
    let ghost k0 = key@;
    key.push(KeyPart::Text(str_to_chars(s.as_str())));
    proof {
        assert(key_view(key@) =~= key_view(k0).push(KeyV::Text(s@)));
    }
}

/// Key parts of a list of strings.
fn push_texts_key(key: &mut Vec<KeyPart>, v: &Vec<String>)
    ensures
        key_view(final(key)@) == key_view(old(key)@) + texts_key(texts(v@)),
{
    let ghost k0 = key@;
    let mut i: usize = 0;
    while i < v.len()
        invariant
            i <= v@.len(),
            key_view(key@) == key_view(k0) + texts_key(texts(v@).take(i as int)),
        decreases v.len() - i,
    {
        let ghost k1 = key@;
        push_text_key(key, &v[i]);
        proof {
            assert(texts_key(texts(v@).take(i as int + 1)) =~= texts_key(texts(v@).take(i as int)).push(KeyV::Text(v@[i as int]@)));
            assert(key_view(key@) =~= key_view(k0) + texts_key(texts(v@).take(i as int + 1)));
        }
        i = i + 1;
    }
    proof {
        assert(texts(v@).take(v@.len() as int) =~= texts(v@));
    }
}

/// An optional copy of an optional string.
pub(crate) fn copy_opt_string(o: &Option<String>) -> (r: Option<String>)
    ensures
        opt_text(r) == opt_text(*o),
{
    match o {
        Some(s) => Some(chars_to_string(str_to_chars(s.as_str()).as_slice())),
        None => None,
    }
}

/// A copy of a string.
pub(crate) fn copy_str(s: &String) -> (r: String)
    ensures
        r@ == s@,
{
    chars_to_string(str_to_chars(s.as_str()).as_slice())
}

/// A copy of a list of strings.
pub(crate) fn copy_strings(v: &Vec<String>) -> (r: Vec<String>)
    ensures
        texts(r@) == texts(v@),
{
    let mut out: Vec<String> = Vec::new();
    let mut i: usize = 0;
    while i < v.len()
        invariant
            i <= v@.len(),
            texts(out@) == texts(v@).take(i as int),
        decreases v.len() - i,
    {
        let ghost o0 = out@;
        let c = copy_str(&v[i]);
        out.push(c);
        proof {
            assert(texts(out@) =~= texts(o0).push(c@));
            assert(texts(out@) =~= texts(v@).take(i as int + 1));
        }
        i = i + 1;
    }
    proof {
        assert(texts(v@).take(v@.len() as int) =~= texts(v@));
    }
    out
}

/// The kind word of an external reference.
pub open spec fn ext_kind_word(k: ExternalReferenceKind) -> Seq<char> {
    match k {
        ExternalReferenceKind::Import => "import"@,
        ExternalReferenceKind::Module => "module"@,
    }
}

/// A file name as locations show it, if there is one.
pub open spec fn opt_location(o: Option<String>, f: FormatView) -> Option<Seq<char>> {
    match o {
        Some(p) => Some(f.location(p@)),
        None => None,
    }
}

/// A diagnostic concerns a query when its source is one of the query's
/// symbols or lies in one of its files.
pub open spec fn diag_relevant(
    d: ExternalReferenceDiagnostic,
    names: Seq<Seq<char>>,
    paths: Seq<Seq<char>>,
    f: FormatView,
) -> bool {
    names.contains(d.source_canonical_name@) || (d.source_filename matches Some(p) && paths.contains(f.location(p@)))
}

/// `e` reports the external reference `d`.
pub open spec fn ext_entry(e: ExternalReference, d: ExternalReferenceDiagnostic, f: FormatView) -> bool {
    &&& e.kind@ == ext_kind_word(d.kind)
    &&& e.source@ == d.source_canonical_name@
    &&& e.canonical_name@ == d.canonical_name@
    &&& opt_text(e.path) == opt_location(d.source_filename, f)
    &&& e.line == d.source_line
}

/// The external reference `d` explains a failed lookup of `name` by
/// `source`: the name is what `d` names, or, for an import, its last
/// dotted part.
pub open spec fn suppresses(d: ExternalReferenceDiagnostic, source: Seq<char>, name: Seq<char>) -> bool {
    &&& d.source_canonical_name@ == source
    &&& (d.canonical_name@ == name || (d.kind == ExternalReferenceKind::Import && !name.contains('.')
        && exists|x: Seq<char>| d.canonical_name@ == #[trigger] dotted(x, name)))
}

/// Some external reference that concerns the query explains a failed
/// lookup of `name` by `source`.
pub open spec fn suppressed(
    diags: Seq<ExternalReferenceDiagnostic>,
    names: Seq<Seq<char>>,
    paths: Seq<Seq<char>>,
    f: FormatView,
    source: Seq<char>,
    name: Seq<char>,
) -> bool {
    exists|i: int| 0 <= i < diags.len() && diag_relevant(diags[i], names, paths, f) && #[trigger] suppresses(diags[i], source, name)
}

/// Whether `x` is one of the strings of `v`.
pub(crate) fn contains_text(v: &Vec<Vec<char>>, x: &[char]) -> (r: bool)
    ensures
        r == crate::text::char_views(v@).contains(x@),
{
    let ghost vv = crate::text::char_views(v@);
    let mut i: usize = 0;
    while i < v.len()
        invariant
            i <= v@.len(),
            vv == crate::text::char_views(v@),
            forall|j: int| 0 <= j < i ==> vv[j] != x@,
        decreases v.len() - i,
    {
        if chars_eq(v[i].as_slice(), x) {
            assert(vv[i as int] == x@);
            return true;
        }
        i = i + 1;
    }
    false
}

/// Whether `x` is one of the strings of `v`.
pub(crate) fn contains_string(v: &Vec<String>, x: &[char]) -> (r: bool)
    ensures
        r == texts(v@).contains(x@),
{
    let ghost vv = texts(v@);
    let mut i: usize = 0;
    while i < v.len()
        invariant
            i <= v@.len(),
            vv == texts(v@),
            forall|j: int| 0 <= j < i ==> vv[j] != x@,
        decreases v.len() - i,
    {
        let c = str_to_chars(v[i].as_str());
        if chars_eq(c.as_slice(), x) {
            assert(vv[i as int] == x@);
            return true;
        }
        i = i + 1;
    }
    false
}

/// The pairs of a suppression list.
pub open spec fn pair_views(v: Seq<(Vec<char>, Vec<char>)>) -> Seq<(Seq<char>, Seq<char>)> {
    Seq::new(v.len(), |i: int| (v[i].0@, v[i].1@))
}

/// Whether the pair `(a, b)` is in the list.
fn contains_pair(v: &Vec<(Vec<char>, Vec<char>)>, a: &[char], b: &[char]) -> (r: bool)
    ensures
        r == pair_views(v@).contains((a@, b@)),
{
    let ghost vv = pair_views(v@);
    let mut i: usize = 0;
    while i < v.len()
        invariant
            i <= v@.len(),
            vv == pair_views(v@),
            forall|j: int| 0 <= j < i ==> vv[j] != (a@, b@),
        decreases v.len() - i,
    {
        if chars_eq(v[i].0.as_slice(), a) && chars_eq(v[i].1.as_slice(), b) {
            assert(vv[i as int] == (a@, b@));
            return true;
        }
        i = i + 1;
    }
    false
}

/// The external references that concern a query (in diagnostic order,
/// `from` giving the diagnostic of each), and the (source, name) pairs they
/// explain.
fn relevant_externals(
    cg: &CallGraph,
    names: &Vec<Vec<char>>,
    paths: &Vec<String>,
    f: &PathFormatter,
) -> (r: (Vec<ExternalReference>, Vec<(Vec<char>, Vec<char>)>, Ghost<Seq<int>>))
    ensures
        ({
            let diags = cg.diagnostics.external_references@;
            let nv = crate::text::char_views(names@);
            let pv = texts(paths@);
            let (out, supp, from) = r;
            &&& out@.len() == from@.len()
            &&& forall|k: int| 0 <= k < from@.len() ==> 0 <= #[trigger] from@[k] < diags.len() && diag_relevant(diags[from@[k]], nv, pv, f@)
                && ext_entry(out@[k], diags[from@[k]], f@)
            &&& forall|a: int, b: int| 0 <= a < b < from@.len() ==> #[trigger] from@[a] < #[trigger] from@[b]
            &&& forall|i: int| 0 <= i < diags.len() && diag_relevant(#[trigger] diags[i], nv, pv, f@) ==> from@.contains(i)
            &&& forall|s: Seq<char>, n: Seq<char>| #[trigger] pair_views(supp@).contains((s, n)) <==> suppressed(diags, nv, pv, f@, s, n)
        }),
{
    let ghost diags = cg.diagnostics.external_references@;
    let ghost nv = crate::text::char_views(names@);
    let ghost pv = texts(paths@);
    let mut out: Vec<ExternalReference> = Vec::new();
    let mut supp: Vec<(Vec<char>, Vec<char>)> = Vec::new();
    let ghost mut from: Seq<int> = Seq::empty();
    let mut i: usize = 0;
    while i < cg.diagnostics.external_references.len()
        invariant
            i <= diags.len(),
            diags == cg.diagnostics.external_references@,
            nv == crate::text::char_views(names@),
            pv == texts(paths@),
            out@.len() == from.len(),
            forall|k: int| 0 <= k < from.len() ==> 0 <= #[trigger] from[k] < i && diag_relevant(diags[from[k]], nv, pv, f@)
                && ext_entry(out@[k], diags[from[k]], f@),
            forall|a: int, b: int| 0 <= a < b < from.len() ==> #[trigger] from[a] < #[trigger] from[b],
            forall|j: int| 0 <= j < i && diag_relevant(#[trigger] diags[j], nv, pv, f@) ==> from.contains(j),
            forall|s: Seq<char>, n: Seq<char>| #[trigger] pair_views(supp@).contains((s, n)) <==> exists|j: int|
                0 <= j < i && diag_relevant(diags[j], nv, pv, f@) && #[trigger] suppresses(diags[j], s, n),
        decreases diags.len() - i,
    {
        let d = &cg.diagnostics.external_references[i];
        let formatted: Option<String> = match &d.source_filename {
            Some(p) => Some(f.format_location(p.as_str())),
            None => None,
        };
        let src = str_to_chars(d.source_canonical_name.as_str());
        let by_name = contains_text(names, src.as_slice());
        let by_path = match &formatted {
            Some(p) => contains_string(paths, str_to_chars(p.as_str()).as_slice()),
            None => false,
        };
        let ghost f0 = from;
        let ghost o0 = out@;
        let ghost s0 = supp@;
        if by_name || by_path {
            let canon = str_to_chars(d.canonical_name.as_str());
            supp.push((crate::text::copy_chars(src.as_slice()), crate::text::copy_chars(canon.as_slice())));
            let ghost mut short: Option<(Seq<char>, Seq<char>)> = None;
            if d.kind == ExternalReferenceKind::Import {
                match rsplit_dot(canon.as_slice()) {
                    Some((before, after)) => {
                        supp.push((crate::text::copy_chars(src.as_slice()), crate::text::copy_chars(after.as_slice())));
                        proof {
                            short = Some((before@, after@));
                        }
                    },
                    None => {},
                }
            }
            let kind = chars_to_string(str_to_chars(d.kind.as_str()).as_slice());
            out.push(
                ExternalReference {
                    kind,
                    source: copy_str(&d.source_canonical_name),
                    canonical_name: copy_str(&d.canonical_name),
                    path: formatted,
                    line: d.source_line,
                },
            );
            proof {
                from = from.push(i as int);
                let dd = diags[i as int];
                assert(diag_relevant(dd, nv, pv, f@));
                assert forall|s: Seq<char>, n: Seq<char>| #[trigger] pair_views(supp@).contains((s, n)) <==> exists|j: int|
                    0 <= j < i + 1 && diag_relevant(diags[j], nv, pv, f@) && #[trigger] suppresses(diags[j], s, n) by {
                    let pvs = pair_views(supp@);
                    if pvs.contains((s, n)) {
                        let w = choose|w: int| 0 <= w < pvs.len() && pvs[w] == (s, n);
                        if w < s0.len() {
                            assert(pair_views(s0)[w] == (s, n));
                            assert(pair_views(s0).contains((s, n)));
                        } else if w == s0.len() {
                            assert(suppresses(dd, s, n));
                        } else {
                            let (x, y) = short->0;
                            assert(pvs[w] == (src@, y));
                            assert(dd.canonical_name@ == dotted(x, y));
                            assert(suppresses(dd, s, n));
                        }
                    }
                    if exists|j: int| 0 <= j < i + 1 && diag_relevant(diags[j], nv, pv, f@) && #[trigger] suppresses(diags[j], s, n) {
                        let j = choose|j: int| 0 <= j < i + 1 && diag_relevant(diags[j], nv, pv, f@) && #[trigger] suppresses(diags[j], s, n);
                        if j < i {
                            assert(pair_views(s0).contains((s, n)));
                            let w = choose|w: int| 0 <= w < pair_views(s0).len() && pair_views(s0)[w] == (s, n);
                            assert(pvs[w] == (s, n));
                        } else {
                            if n == dd.canonical_name@ {
                                assert(pvs[s0.len() as int] == (s, n));
                            } else {
                                let x = choose|x: Seq<char>| dd.canonical_name@ == #[trigger] dotted(x, n);
                                assert(dd.canonical_name@[x.len() as int] == '.');
                                assert(dd.canonical_name@.contains('.'));
                                assert(short is Some);
                                let (x2, y2) = short->0;
                                crate::text::lemma_dotted_unique(x, n, x2, y2);
                                assert(pvs[s0.len() as int + 1] == (s, n));
                            }
                        }
                    }
                }
            }
        }
        proof {
            assert forall|j: int| 0 <= j < i + 1 && diag_relevant(#[trigger] diags[j], nv, pv, f@) implies from.contains(j) by {
                if j < i {
                    assert(f0.contains(j));
                    let w = choose|w: int| 0 <= w < f0.len() && f0[w] == j;
                    assert(from[w] == j);
                } else {
                    assert(from[from.len() - 1] == i);
                }
            }
            assert forall|k: int| 0 <= k < from.len() implies 0 <= #[trigger] from[k] < i + 1 && diag_relevant(diags[from[k]], nv, pv, f@)
                && ext_entry(out@[k], diags[from[k]], f@) by {
                if k < f0.len() {
                    assert(out@[k] == o0[k]);
                }
            }
            if !(by_name || by_path) {
                assert forall|s: Seq<char>, n: Seq<char>| #[trigger] pair_views(supp@).contains((s, n)) <==> exists|j: int|
                    0 <= j < i + 1 && diag_relevant(diags[j], nv, pv, f@) && #[trigger] suppresses(diags[j], s, n) by {
                    if exists|j: int| 0 <= j < i + 1 && diag_relevant(diags[j], nv, pv, f@) && #[trigger] suppresses(diags[j], s, n) {
                        let j = choose|j: int| 0 <= j < i + 1 && diag_relevant(diags[j], nv, pv, f@) && #[trigger] suppresses(diags[j], s, n);
                        assert(j < i);
                    }
                }
            }
        }
        i = i + 1;
    }
    (out, supp, Ghost(from))
}

/// The short name of node `t`.
pub open spec fn short_name(cg: &CallGraph, t: int) -> Seq<char> {
    cg.interner.str_of(cg.nodes_arena@[t].name)
}

/// Names the unresolved report leaves out: constructor lookups and
/// synthetic names.
pub open spec fn skipped_name(n: Seq<char>) -> bool {
    n == "__init__"@ || crate::text::is_prefix("^^^"@, n)
}

/// Source `s` uses the name `n` through a target without namespace.
pub open spec fn uses_unknown(cg: &CallGraph, s: int, n: Seq<char>) -> bool {
    exists|m: int|
        0 <= m < cg.uses_edges@[s]@.len() && cg.nodes_arena@[cg.uses_edges@[s]@[m] as int].namespace is None
            && #[trigger] short_name(cg, cg.uses_edges@[s]@[m] as int) == n
}

/// `c` is the canonical name of a defined target with a namespace and the
/// short name `n` that source `s` uses.
pub open spec fn candidate(cg: &CallGraph, s: int, n: Seq<char>, c: Seq<char>) -> bool {
    exists|m: int|
        0 <= m < cg.uses_edges@[s]@.len() && cg.nodes_arena@[cg.uses_edges@[s]@[m] as int].namespace is Some
            && cg.defined@[cg.uses_edges@[s]@[m] as int] && short_name(cg, cg.uses_edges@[s]@[m] as int) == n
            && #[trigger] canonical(cg, cg.uses_edges@[s]@[m] as int) == c
}

/// `v` lists strings in strictly increasing order.
pub open spec fn strictly_sorted(v: Seq<Seq<char>>) -> bool {
    forall|a: int, b: int| 0 <= a < b < v.len() ==> seq_less(#[trigger] v[a], #[trigger] v[b])
}

/// `v` lists, in increasing order, the candidates of `s` for `n`.
pub open spec fn candidates_of(v: Seq<Seq<char>>, cg: &CallGraph, s: int, n: Seq<char>) -> bool {
    &&& strictly_sorted(v)
    &&& forall|c: Seq<char>| #[trigger] v.contains(c) <==> candidate(cg, s, n, c)
}

/// The strings of `v`, sorted, each once.
pub(crate) fn sorted_unique(v: Vec<Vec<char>>) -> (r: Vec<Vec<char>>)
    ensures
        strictly_sorted(crate::text::char_views(r@)),
        forall|c: Seq<char>| #[trigger] crate::text::char_views(r@).contains(c) <==> crate::text::char_views(v@).contains(c),
{
    broadcast use vstd::seq_lib::group_to_multiset_ensures;

    let ghost vv = crate::text::char_views(v@);
    let mut items: Vec<(Vec<KeyPart>, Vec<char>)> = Vec::new();
    let mut i: usize = 0;
    while i < v.len()
        invariant
            i <= v@.len(),
            vv == crate::text::char_views(v@),
            items@.len() == i,
            forall|k: int| 0 <= k < i ==> (#[trigger] items@[k]).1@ == vv[k] && key_view(items@[k].0@) == seq![KeyV::Text(vv[k])],
        decreases v.len() - i,
    {
        let x = crate::text::copy_chars(v[i].as_slice());
        let mut key: Vec<KeyPart> = Vec::new();
        key.push(KeyPart::Text(crate::text::copy_chars(x.as_slice())));
        proof {
            assert(key_view(key@) =~= seq![KeyV::Text(x@)]);
        }
        let ghost i0 = items@;
        items.push((key, x));
        proof {
            assert forall|k: int| 0 <= k < i + 1 implies (#[trigger] items@[k]).1@ == vv[k] && key_view(items@[k].0@) == seq![KeyV::Text(vv[k])] by {
                if k < i {
                    assert(items@[k] == i0[k]);
                }
            }
        }
        i = i + 1;
    }
    let ghost before = items@;
    let sorted = sort_by_key(items);
    proof {
        assert forall|k: int| 0 <= k < sorted@.len() implies before.contains(#[trigger] sorted@[k]) by {
            assert(sorted@.contains(sorted@[k]));
            assert(sorted@.to_multiset().count(sorted@[k]) > 0);
        }
        assert forall|p: int| 0 <= p < before.len() implies sorted@.contains(#[trigger] before[p]) by {
            assert(before.contains(before[p]));
            assert(before.to_multiset().count(before[p]) > 0);
        }
    }
    let mut out: Vec<Vec<char>> = Vec::new();
    let mut k: usize = 0;
    while k < sorted.len()
        invariant
            k <= sorted@.len(),
            crate::order::keys_sorted(sorted@),
            forall|q: int| 0 <= q < sorted@.len() ==> before.contains(#[trigger] sorted@[q]),
            forall|q: int| 0 <= q < before.len() ==> key_view((#[trigger] before[q]).0@) == seq![KeyV::Text(before[q].1@)],
            strictly_sorted(crate::text::char_views(out@)),
            k > 0 ==> out@.len() > 0 && out@.last()@ == sorted@[k - 1].1@,
            k == 0 ==> out@.len() == 0,
            forall|c: Seq<char>| #[trigger] crate::text::char_views(out@).contains(c) <==> exists|q: int| 0 <= q < k && #[trigger] sorted@[q].1@ == c,
        decreases sorted.len() - k,
    {
        let ghost o0 = out@;
        let x = &sorted[k].1;
        proof {
            assert(before.contains(sorted@[k as int]));
            if k > 0 {
                assert(before.contains(sorted@[k - 1]));
                let pa = choose|p: int| 0 <= p < before.len() && before[p] == sorted@[k - 1];
                let pb = choose|p: int| 0 <= p < before.len() && before[p] == sorted@[k as int];
                assert(key_view(before[pa].0@) == seq![KeyV::Text(before[pa].1@)]);
                assert(key_view(before[pb].0@) == seq![KeyV::Text(before[pb].1@)]);
                assert(!key_less(key_view(sorted@[k as int].0@), key_view(sorted@[k - 1].0@)));
                crate::order::lemma_text_key_order(sorted@[k as int].1@, sorted@[k - 1].1@);
                assert(!seq_less(sorted@[k as int].1@, sorted@[k - 1].1@));
            }
        }
        if k == 0 || !chars_eq(out[out.len() - 1].as_slice(), x.as_slice()) {
            let c = crate::text::copy_chars(x.as_slice());
            out.push(c);
            proof {
                let ov = crate::text::char_views(o0);
                let nv2 = crate::text::char_views(out@);
                assert(nv2 =~= ov.push(x@));
                if k > 0 {
                    crate::order::lemma_less_total(o0.last()@, x@);
                    assert(seq_less(ov.last(), x@));
                    assert forall|a: int, b: int| 0 <= a < b < nv2.len() implies seq_less(#[trigger] nv2[a], #[trigger] nv2[b]) by {
                        if b == nv2.len() - 1 && a < ov.len() - 1 {
                            crate::order::lemma_less_transitive(ov[a], ov.last(), x@);
                        }
                    }
                }
            }
        } else {
            proof {
                assert(crate::text::char_views(out@).last() == x@);
            }
        }
        proof {
            assert forall|c: Seq<char>| #[trigger] crate::text::char_views(out@).contains(c) <==> exists|q: int| 0 <= q < k + 1 && #[trigger] sorted@[q].1@ == c by {
                let ov = crate::text::char_views(o0);
                let nv2 = crate::text::char_views(out@);
                if nv2.contains(c) {
                    let w = choose|w: int| 0 <= w < nv2.len() && nv2[w] == c;
                    if w < ov.len() {
                        assert(ov[w] == c);
                        assert(ov.contains(c));
                    } else {
                        assert(sorted@[k as int].1@ == c);
                    }
                }
                if exists|q: int| 0 <= q < k + 1 && #[trigger] sorted@[q].1@ == c {
                    let q = choose|q: int| 0 <= q < k + 1 && #[trigger] sorted@[q].1@ == c;
                    if q < k {
                        assert(ov.contains(c));
                        let w = choose|w: int| 0 <= w < ov.len() && ov[w] == c;
                        assert(nv2[w] == c);
                    } else {
                        assert(nv2.last() == c);
                    }
                }
            }
        }
        k = k + 1;
    }
    proof {
        assert forall|c: Seq<char>| #[trigger] crate::text::char_views(out@).contains(c) <==> vv.contains(c) by {
            if exists|q: int| 0 <= q < sorted@.len() && #[trigger] sorted@[q].1@ == c {
                let q = choose|q: int| 0 <= q < sorted@.len() && #[trigger] sorted@[q].1@ == c;
                assert(before.contains(sorted@[q]));
            }
            if vv.contains(c) {
                let kk = choose|kk: int| 0 <= kk < vv.len() && vv[kk] == c;
                assert(before[kk].1@ == c);
                assert(sorted@.contains(before[kk]));
                let q = choose|q: int| 0 <= q < sorted@.len() && sorted@[q] == before[kk];
                assert(sorted@[q].1@ == c);
            }
        }
    }
    out
}

/// A copy of a list of character vectors.
pub(crate) fn copy_char_vecs(v: &Vec<Vec<char>>) -> (r: Vec<Vec<char>>)
    ensures
        crate::text::char_views(r@) == crate::text::char_views(v@),
{
    let mut out: Vec<Vec<char>> = Vec::new();
    let mut i: usize = 0;
    while i < v.len()
        invariant
            i <= v@.len(),
            crate::text::char_views(out@) == crate::text::char_views(v@).take(i as int),
        decreases v.len() - i,
    {
        let ghost o0 = out@;
        let c = crate::text::copy_chars(v[i].as_slice());
        out.push(c);
        proof {
            assert(crate::text::char_views(out@) =~= crate::text::char_views(o0).push(c@));
            assert(crate::text::char_views(out@) =~= crate::text::char_views(v@).take(i as int + 1));
        }
        i = i + 1;
    }
    proof {
        assert(crate::text::char_views(v@).take(v@.len() as int) =~= crate::text::char_views(v@));
    }
    out
}

/// `candidate`, through the first `lim` targets of `s`.
pub open spec fn candidate_upto(cg: &CallGraph, s: int, n: Seq<char>, c: Seq<char>, lim: int) -> bool {
    exists|m: int|
        0 <= m < lim && cg.nodes_arena@[cg.uses_edges@[s]@[m] as int].namespace is Some
            && cg.defined@[cg.uses_edges@[s]@[m] as int] && short_name(cg, cg.uses_edges@[s]@[m] as int) == n
            && #[trigger] canonical(cg, cg.uses_edges@[s]@[m] as int) == c
}

/// `uses_unknown`, through the first `lim` targets of `s`.
pub open spec fn unknown_upto(cg: &CallGraph, s: int, n: Seq<char>, lim: int) -> bool {
    exists|m: int|
        0 <= m < lim && cg.nodes_arena@[cg.uses_edges@[s]@[m] as int].namespace is None
            && #[trigger] short_name(cg, cg.uses_edges@[s]@[m] as int) == n
}

/// Source `s` reaches several different candidates through the name `n`.
pub open spec fn ambiguous_name(cg: &CallGraph, s: int, n: Seq<char>) -> bool {
    exists|c1: Seq<char>, c2: Seq<char>| c1 != c2 && #[trigger] candidate(cg, s, n, c1) && #[trigger] candidate(cg, s, n, c2)
}

/// Source `s` has an unresolved use of `n` that the report keeps.
pub open spec fn reported_unknown(
    cg: &CallGraph,
    s: int,
    n: Seq<char>,
    nv: Seq<Seq<char>>,
    pv: Seq<Seq<char>>,
    f: FormatView,
) -> bool {
    &&& uses_unknown(cg, s, n)
    &&& !skipped_name(n)
    &&& !suppressed(cg.diagnostics.external_references@, nv, pv, f, canonical(cg, s), n)
}

/// The unresolved names that source `s` reports, and for each name it
/// reaches several candidates through, the sorted candidates.
fn source_findings(
    cg: &CallGraph,
    s: usize,
    supp: &Vec<(Vec<char>, Vec<char>)>,
    nv: Ghost<Seq<Seq<char>>>,
    pv: Ghost<Seq<Seq<char>>>,
    f: &PathFormatter,
) -> (r: (Vec<Vec<char>>, Vec<(Vec<char>, Vec<Vec<char>>)>))
    requires
        cg.wf(),
        s < cg.nodes_arena@.len(),
        forall|a: Seq<char>, b: Seq<char>| #[trigger] pair_views(supp@).contains((a, b)) <==> suppressed(
            cg.diagnostics.external_references@,
            nv@,
            pv@,
            f@,
            a,
            b,
        ),
    ensures
        ({
            let un = crate::text::char_views(r.0@);
            &&& forall|a: int, b: int| 0 <= a < un.len() && 0 <= b < un.len() && a != b ==> #[trigger] un[a] != #[trigger] un[b]
            &&& forall|n: Seq<char>| #[trigger] un.contains(n) <==> reported_unknown(cg, s as int, n, nv@, pv@, f@)
        }),
        forall|a: int, b: int| 0 <= a < r.1@.len() && 0 <= b < r.1@.len() && a != b ==> (#[trigger] r.1@[a]).0@ != (#[trigger] r.1@[b]).0@,
        forall|g: int| 0 <= g < r.1@.len() ==> candidates_of(crate::text::char_views((#[trigger] r.1@[g]).1@), cg, s as int, r.1@[g].0@)
            && r.1@[g].1@.len() >= 2,
        forall|n: Seq<char>| #[trigger] ambiguous_name(cg, s as int, n) ==> exists|g: int| 0 <= g < r.1@.len() && #[trigger] r.1@[g].0@ == n,
{
    proof {
        assert(crate::analyzer::graph::set_in(cg.uses_edges@[s as int], cg.nodes_arena@.len()));
    }
    let src_name = str_to_chars(cg.nodes_arena[s].get_name(&cg.interner).as_str());
    let targets = cg.uses_edges[s].as_slice();
    let init = vec!['_', '_', 'i', 'n', 'i', 't', '_', '_'];
    let hats = vec!['^', '^', '^'];
    proof {
        reveal_strlit("__init__");
        reveal_strlit("^^^");
        assert(init@ =~= "__init__"@);
        assert(hats@ =~= "^^^"@);
    }
    let mut unknown: Vec<Vec<char>> = Vec::new();
    let mut gnames: Vec<Vec<char>> = Vec::new();
    let mut graw: Vec<Vec<Vec<char>>> = Vec::new();
    let mut m: usize = 0;
    while m < targets.len()
        invariant
            cg.wf(),
            s < cg.nodes_arena@.len(),
            targets@ == cg.uses_edges@[s as int]@,
            crate::analyzer::graph::set_in(cg.uses_edges@[s as int], cg.nodes_arena@.len()),
            src_name@ == canonical(cg, s as int),
            init@ == "__init__"@,
            hats@ == "^^^"@,
            m <= targets@.len(),
            forall|a: Seq<char>, b: Seq<char>| #[trigger] pair_views(supp@).contains((a, b)) <==> suppressed(
                cg.diagnostics.external_references@,
                nv@,
                pv@,
                f@,
                a,
                b,
            ),
            forall|a: int, b: int| 0 <= a < unknown@.len() && 0 <= b < unknown@.len() && a != b ==> #[trigger] unknown@[a]@ != #[trigger] unknown@[b]@,
            forall|n: Seq<char>| #[trigger] crate::text::char_views(unknown@).contains(n) <==> (unknown_upto(cg, s as int, n, m as int)
                && !skipped_name(n) && !suppressed(cg.diagnostics.external_references@, nv@, pv@, f@, canonical(cg, s as int), n)),
            gnames@.len() == graw@.len(),
            forall|a: int, b: int| 0 <= a < gnames@.len() && 0 <= b < gnames@.len() && a != b ==> #[trigger] gnames@[a]@ != #[trigger] gnames@[b]@,
            forall|g: int, c: Seq<char>| 0 <= g < gnames@.len() ==> (#[trigger] crate::text::char_views(graw@[g]@).contains(c) <==> candidate_upto(
                cg,
                s as int,
                gnames@[g]@,
                c,
                m as int,
            )),
            forall|n: Seq<char>, c: Seq<char>| #[trigger] candidate_upto(cg, s as int, n, c, m as int) ==> crate::text::char_views(gnames@).contains(n),
        decreases targets.len() - m,
    {
        let t = targets[m];
        proof {
            assert(t < cg.nodes_arena@.len());
            assert(cg.nodes_arena@[t as int].ids_in(&cg.interner));
        }
        let node = &cg.nodes_arena[t];
        let name = str_to_chars(cg.interner.resolve(node.name));
        let ghost u0 = unknown@;
        let ghost gn0 = gnames@;
        let ghost gr0 = graw@;
        if node.namespace.is_none() {
            let skip = chars_eq(name.as_slice(), init.as_slice()) || crate::text::starts_with(name.as_slice(), hats.as_slice());
            if !skip && !contains_pair(supp, src_name.as_slice(), name.as_slice()) && !contains_text(&unknown, name.as_slice()) {
                unknown.push(name);
            }
            proof {
                assert forall|n: Seq<char>| #[trigger] crate::text::char_views(unknown@).contains(n) <==> (unknown_upto(cg, s as int, n, m as int + 1)
                    && !skipped_name(n) && !suppressed(cg.diagnostics.external_references@, nv@, pv@, f@, canonical(cg, s as int), n)) by {
                    let uv = crate::text::char_views(unknown@);
                    let uv0 = crate::text::char_views(u0);
                    if uv.contains(n) {
                        let w = choose|w: int| 0 <= w < uv.len() && uv[w] == n;
                        if w < uv0.len() {
                            assert(uv0[w] == n);
                            assert(uv0.contains(n));
                        } else {
                            assert(short_name(cg, targets@[m as int] as int) == n);
                        }
                    }
                    if unknown_upto(cg, s as int, n, m as int + 1) && !skipped_name(n) && !suppressed(cg.diagnostics.external_references@, nv@, pv@, f@, canonical(cg, s as int), n) {
                        if !unknown_upto(cg, s as int, n, m as int) {
                            let w = choose|w: int| 0 <= w < m + 1 && cg.nodes_arena@[cg.uses_edges@[s as int]@[w] as int].namespace is None
                                && #[trigger] short_name(cg, cg.uses_edges@[s as int]@[w] as int) == n;
                            assert(w == m);
                            assert(name@ == n);
                            if uv0.contains(n) {
                                let z = choose|z: int| 0 <= z < uv0.len() && uv0[z] == n;
                                assert(uv[z] == n);
                            } else {
                                assert(uv[uv.len() - 1] == n);
                            }
                        } else {
                            assert(uv0.contains(n));
                            let z = choose|z: int| 0 <= z < uv0.len() && uv0[z] == n;
                            assert(uv[z] == n);
                        }
                    }
                }
                assert forall|a: int, b: int| 0 <= a < unknown@.len() && 0 <= b < unknown@.len() && a != b implies #[trigger] unknown@[a]@ != #[trigger] unknown@[b]@ by {
                    if a < u0.len() && b < u0.len() {
                        assert(unknown@[a] == u0[a] && unknown@[b] == u0[b]);
                    } else if a >= u0.len() {
                        assert(crate::text::char_views(u0)[b] == u0[b]@);
                    } else {
                        assert(crate::text::char_views(u0)[a] == u0[a]@);
                    }
                }
                assert forall|g: int, c: Seq<char>| 0 <= g < gnames@.len() implies (#[trigger] crate::text::char_views(graw@[g]@).contains(c) <==> candidate_upto(
                    cg,
                    s as int,
                    gnames@[g]@,
                    c,
                    m as int + 1,
                )) by {
                    if candidate_upto(cg, s as int, gnames@[g]@, c, m as int + 1) {
                        let w = choose|w: int| 0 <= w < m + 1 && cg.nodes_arena@[cg.uses_edges@[s as int]@[w] as int].namespace is Some
                            && cg.defined@[cg.uses_edges@[s as int]@[w] as int] && short_name(cg, cg.uses_edges@[s as int]@[w] as int) == gnames@[g]@
                            && #[trigger] canonical(cg, cg.uses_edges@[s as int]@[w] as int) == c;
                        assert(w < m);
                    }
                }
                assert forall|n: Seq<char>, c: Seq<char>| #[trigger] candidate_upto(cg, s as int, n, c, m as int + 1) implies crate::text::char_views(gnames@).contains(n) by {
                    let w = choose|w: int| 0 <= w < m + 1 && cg.nodes_arena@[cg.uses_edges@[s as int]@[w] as int].namespace is Some
                        && cg.defined@[cg.uses_edges@[s as int]@[w] as int] && short_name(cg, cg.uses_edges@[s as int]@[w] as int) == n
                        && #[trigger] canonical(cg, cg.uses_edges@[s as int]@[w] as int) == c;
                    assert(w < m);
                    assert(candidate_upto(cg, s as int, n, c, m as int));
                }
            }
        } else {
            if cg.defined[t] {
                let full = str_to_chars(node.get_name(&cg.interner).as_str());
                let mut g: usize = 0;
                while g < gnames.len()
                    invariant
                        g <= gnames@.len(),
                        forall|h: int| 0 <= h < g ==> #[trigger] gnames@[h]@ != name@,
                    ensures
                        g <= gnames@.len(),
                        forall|h: int| 0 <= h < g ==> #[trigger] gnames@[h]@ != name@,
                        g < gnames@.len() ==> gnames@[g as int]@ == name@,
                    decreases gnames.len() - g,
                {
                    if chars_eq(gnames[g].as_slice(), name.as_slice()) {
                        break;
                    }
                    g = g + 1;
                }
                if g < gnames.len() {
                    let mut raw = copy_char_vecs(&graw[g]);
                    raw.push(full);
                    graw.set(g, raw);
                } else {
                    gnames.push(crate::text::copy_chars(name.as_slice()));
                    graw.push(vec![full]);
                }
                proof {
                    assert forall|g2: int, c: Seq<char>| 0 <= g2 < gnames@.len() implies (#[trigger] crate::text::char_views(graw@[g2]@).contains(c) <==> candidate_upto(
                        cg,
                        s as int,
                        gnames@[g2]@,
                        c,
                        m as int + 1,
                    )) by {
                        let here = candidate_upto(cg, s as int, gnames@[g2]@, c, m as int + 1);
                        let before_m = candidate_upto(cg, s as int, gnames@[g2]@, c, m as int);
                        let is_new = gnames@[g2]@ == name@ && c == full@;
                        if here && !before_m {
                            let w = choose|w: int| 0 <= w < m + 1 && cg.nodes_arena@[cg.uses_edges@[s as int]@[w] as int].namespace is Some
                                && cg.defined@[cg.uses_edges@[s as int]@[w] as int] && short_name(cg, cg.uses_edges@[s as int]@[w] as int) == gnames@[g2]@
                                && #[trigger] canonical(cg, cg.uses_edges@[s as int]@[w] as int) == c;
                            assert(w == m);
                        }
                        if is_new {
                            assert(candidate_upto(cg, s as int, name@, full@, m as int + 1)) by {
                                assert(canonical(cg, cg.uses_edges@[s as int]@[m as int] as int) == full@);
                            }
                        }
                        if before_m {
                            assert(here) by {
                                let w = choose|w: int| 0 <= w < m && cg.nodes_arena@[cg.uses_edges@[s as int]@[w] as int].namespace is Some
                                    && cg.defined@[cg.uses_edges@[s as int]@[w] as int] && short_name(cg, cg.uses_edges@[s as int]@[w] as int) == gnames@[g2]@
                                    && #[trigger] canonical(cg, cg.uses_edges@[s as int]@[w] as int) == c;
                            }
                        }
                        let cur = crate::text::char_views(graw@[g2]@);
                        if g2 < gn0.len() {
                            let old_list = crate::text::char_views(gr0[g2]@);
                            assert(gnames@[g2] == gn0[g2]);
                            if g2 == g {
                                assert(cur =~= old_list.push(full@));
                                if cur.contains(c) {
                                    let z = choose|z: int| 0 <= z < cur.len() && cur[z] == c;
                                    if z < old_list.len() {
                                        assert(old_list[z] == c);
                                    }
                                }
                                if old_list.contains(c) {
                                    let z = choose|z: int| 0 <= z < old_list.len() && old_list[z] == c;
                                    assert(cur[z] == c);
                                }
                                if is_new {
                                    assert(cur[cur.len() - 1] == c);
                                }
                            } else {
                                assert(graw@[g2] == gr0[g2]);
                                if here && !before_m {
                                    assert(gnames@[g2]@ == name@);
                                    assert(gn0[g as int]@ == name@);
                                }
                            }
                        } else {
                            assert(g2 == gn0.len());
                            assert(cur =~= seq![full@]);
                            if before_m {
                                assert(crate::text::char_views(gn0).contains(name@));
                                let z = choose|z: int| 0 <= z < gn0.len() && crate::text::char_views(gn0)[z] == name@;
                                assert(gn0[z]@ == name@);
                            }
                            if cur.contains(c) {
                                assert(cur[0] == c);
                            }
                        }
                    }
                    assert forall|n: Seq<char>, c: Seq<char>| #[trigger] candidate_upto(cg, s as int, n, c, m as int + 1) implies crate::text::char_views(gnames@).contains(n) by {
                        if !candidate_upto(cg, s as int, n, c, m as int) {
                            let w = choose|w: int| 0 <= w < m + 1 && cg.nodes_arena@[cg.uses_edges@[s as int]@[w] as int].namespace is Some
                                && cg.defined@[cg.uses_edges@[s as int]@[w] as int] && short_name(cg, cg.uses_edges@[s as int]@[w] as int) == n
                                && #[trigger] canonical(cg, cg.uses_edges@[s as int]@[w] as int) == c;
                            assert(w == m);
                            if g < gn0.len() {
                                assert(crate::text::char_views(gnames@)[g as int] == n);
                            } else {
                                assert(crate::text::char_views(gnames@)[gnames@.len() - 1] == n);
                            }
                        } else {
                            let vv0 = crate::text::char_views(gn0);
                            let z = choose|z: int| 0 <= z < vv0.len() && vv0[z] == n;
                            assert(crate::text::char_views(gnames@)[z] == n);
                        }
                    }
                    assert forall|a: int, b: int| 0 <= a < gnames@.len() && 0 <= b < gnames@.len() && a != b implies #[trigger] gnames@[a]@ != #[trigger] gnames@[b]@ by {
                        if a < gn0.len() && b < gn0.len() {
                            assert(gnames@[a] == gn0[a] && gnames@[b] == gn0[b]);
                        }
                    }
                }
            } else {
                proof {
                    assert forall|g2: int, c: Seq<char>| 0 <= g2 < gnames@.len() implies (#[trigger] crate::text::char_views(graw@[g2]@).contains(c) <==> candidate_upto(
                        cg,
                        s as int,
                        gnames@[g2]@,
                        c,
                        m as int + 1,
                    )) by {
                        if candidate_upto(cg, s as int, gnames@[g2]@, c, m as int + 1) {
                            let w = choose|w: int| 0 <= w < m + 1 && cg.nodes_arena@[cg.uses_edges@[s as int]@[w] as int].namespace is Some
                                && cg.defined@[cg.uses_edges@[s as int]@[w] as int] && short_name(cg, cg.uses_edges@[s as int]@[w] as int) == gnames@[g2]@
                                && #[trigger] canonical(cg, cg.uses_edges@[s as int]@[w] as int) == c;
                            assert(w < m);
                        }
                    }
                    assert forall|n: Seq<char>, c: Seq<char>| #[trigger] candidate_upto(cg, s as int, n, c, m as int + 1) implies crate::text::char_views(gnames@).contains(n) by {
                        let w = choose|w: int| 0 <= w < m + 1 && cg.nodes_arena@[cg.uses_edges@[s as int]@[w] as int].namespace is Some
                            && cg.defined@[cg.uses_edges@[s as int]@[w] as int] && short_name(cg, cg.uses_edges@[s as int]@[w] as int) == n
                            && #[trigger] canonical(cg, cg.uses_edges@[s as int]@[w] as int) == c;
                        assert(w < m);
                        assert(candidate_upto(cg, s as int, n, c, m as int));
                    }
                }
            }
            proof {
                assert forall|n: Seq<char>| #[trigger] crate::text::char_views(unknown@).contains(n) <==> (unknown_upto(cg, s as int, n, m as int + 1)
                    && !skipped_name(n) && !suppressed(cg.diagnostics.external_references@, nv@, pv@, f@, canonical(cg, s as int), n)) by {
                    if unknown_upto(cg, s as int, n, m as int + 1) {
                        let w = choose|w: int| 0 <= w < m + 1 && cg.nodes_arena@[cg.uses_edges@[s as int]@[w] as int].namespace is None
                            && #[trigger] short_name(cg, cg.uses_edges@[s as int]@[w] as int) == n;
                        assert(w < m);
                    }
                }
            }
        }
        m = m + 1;
    }
    let mut groups: Vec<(Vec<char>, Vec<Vec<char>>)> = Vec::new();
    let mut g: usize = 0;
    proof {
        assert(targets@.len() == cg.uses_edges@[s as int]@.len());
        assert forall|n: Seq<char>, c: Seq<char>| candidate(cg, s as int, n, c) <==> candidate_upto(cg, s as int, n, c, m as int) by {
            if candidate(cg, s as int, n, c) {
                let w = choose|w: int| 0 <= w < cg.uses_edges@[s as int]@.len() && cg.nodes_arena@[cg.uses_edges@[s as int]@[w] as int].namespace is Some
                    && cg.defined@[cg.uses_edges@[s as int]@[w] as int] && short_name(cg, cg.uses_edges@[s as int]@[w] as int) == n
                    && #[trigger] canonical(cg, cg.uses_edges@[s as int]@[w] as int) == c;
            }
        }
        assert forall|n: Seq<char>| uses_unknown(cg, s as int, n) <==> unknown_upto(cg, s as int, n, m as int) by {
            if uses_unknown(cg, s as int, n) {
                let w = choose|w: int| 0 <= w < cg.uses_edges@[s as int]@.len() && cg.nodes_arena@[cg.uses_edges@[s as int]@[w] as int].namespace is None
                    && #[trigger] short_name(cg, cg.uses_edges@[s as int]@[w] as int) == n;
            }
        }
    }
    while g < gnames.len()
        invariant
            g <= gnames@.len(),
            gnames@.len() == graw@.len(),
            forall|a: int, b: int| 0 <= a < gnames@.len() && 0 <= b < gnames@.len() && a != b ==> #[trigger] gnames@[a]@ != #[trigger] gnames@[b]@,
            forall|g: int, c: Seq<char>| 0 <= g < gnames@.len() ==> (#[trigger] crate::text::char_views(graw@[g]@).contains(c) <==> candidate(
                cg,
                s as int,
                gnames@[g]@,
                c,
            )),
            forall|n: Seq<char>, c: Seq<char>| #[trigger] candidate(cg, s as int, n, c) ==> crate::text::char_views(gnames@).contains(n),
            forall|q: int| 0 <= q < groups@.len() ==> exists|h: int| 0 <= h < g && #[trigger] gnames@[h]@ == (#[trigger] groups@[q]).0@,
            forall|a: int, b: int| 0 <= a < groups@.len() && 0 <= b < groups@.len() && a != b ==> (#[trigger] groups@[a]).0@ != (#[trigger] groups@[b]).0@,
            forall|q: int| 0 <= q < groups@.len() ==> candidates_of(crate::text::char_views((#[trigger] groups@[q]).1@), cg, s as int, groups@[q].0@)
                && groups@[q].1@.len() >= 2,
            forall|h: int| 0 <= h < g && ambiguous_name(cg, s as int, #[trigger] gnames@[h]@) ==> exists|q: int| 0 <= q < groups@.len() && #[trigger] groups@[q].0@ == gnames@[h]@,
        decreases gnames.len() - g,
    {
        let raw = copy_char_vecs(&graw[g]);
        let u = sorted_unique(raw);
        let ghost q0 = groups@;
        let ghost gname = gnames@[g as int]@;
        proof {
            assert forall|c: Seq<char>| #[trigger] crate::text::char_views(u@).contains(c) <==> candidate(cg, s as int, gname, c) by {
                assert(crate::text::char_views(graw@[g as int]@).contains(c) <==> candidate(cg, s as int, gnames@[g as int]@, c));
            }
        }
        if u.len() >= 2 {
            groups.push((crate::text::copy_chars(gnames[g].as_slice()), u));
            proof {
                assert forall|a: int, b: int| 0 <= a < groups@.len() && 0 <= b < groups@.len() && a != b implies (#[trigger] groups@[a]).0@ != (#[trigger] groups@[b]).0@ by {
                    if a < q0.len() && b < q0.len() {
                        assert(groups@[a] == q0[a] && groups@[b] == q0[b]);
                    } else if a < q0.len() {
                        let h = choose|h: int| 0 <= h < g && #[trigger] gnames@[h]@ == q0[a].0@;
                        assert(h != g);
                    } else {
                        let h = choose|h: int| 0 <= h < g && #[trigger] gnames@[h]@ == q0[b].0@;
                        assert(h != g);
                    }
                }
            }
        } else {
            proof {
                if ambiguous_name(cg, s as int, gname) {
                    let (c1, c2) = choose|c1: Seq<char>, c2: Seq<char>| c1 != c2 && #[trigger] candidate(cg, s as int, gname, c1) && #[trigger] candidate(cg, s as int, gname, c2);
                    let uv = crate::text::char_views(u@);
                    assert(uv.contains(c1) && uv.contains(c2));
                    let z1 = choose|z: int| 0 <= z < uv.len() && uv[z] == c1;
                    let z2 = choose|z: int| 0 <= z < uv.len() && uv[z] == c2;
                    assert(z1 != z2);
                }
            }
        }
        proof {
            assert forall|q: int| 0 <= q < groups@.len() implies exists|h: int| 0 <= h < g + 1 && #[trigger] gnames@[h]@ == (#[trigger] groups@[q]).0@ by {
                if q < q0.len() {
                    assert(groups@[q] == q0[q]);
                    let h = choose|h: int| 0 <= h < g && #[trigger] gnames@[h]@ == q0[q].0@;
                } else {
                    assert(gnames@[g as int]@ == groups@[q].0@);
                }
            }
            assert forall|q: int| 0 <= q < groups@.len() implies candidates_of(crate::text::char_views((#[trigger] groups@[q]).1@), cg, s as int, groups@[q].0@)
                && groups@[q].1@.len() >= 2 by {
                if q < q0.len() {
                    assert(groups@[q] == q0[q]);
                }
            }
            assert forall|h: int| 0 <= h < g + 1 && ambiguous_name(cg, s as int, #[trigger] gnames@[h]@) implies exists|q: int| 0 <= q < groups@.len() && #[trigger] groups@[q].0@ == gnames@[h]@ by {
                if h < g {
                    let q = choose|q: int| 0 <= q < q0.len() && #[trigger] q0[q].0@ == gnames@[h]@;
                    assert(groups@[q] == q0[q]);
                } else {
                    assert(groups@[groups@.len() - 1].0@ == gnames@[h]@);
                }
            }
        }
        g = g + 1;
    }
    proof {
        assert forall|n: Seq<char>| #[trigger] ambiguous_name(cg, s as int, n) implies exists|gq: int| 0 <= gq < groups@.len() && #[trigger] groups@[gq].0@ == n by {
            let (c1, c2) = choose|c1: Seq<char>, c2: Seq<char>| c1 != c2 && #[trigger] candidate(cg, s as int, n, c1) && #[trigger] candidate(cg, s as int, n, c2);
            assert(crate::text::char_views(gnames@).contains(n));
            let h = choose|h: int| 0 <= h < gnames@.len() && crate::text::char_views(gnames@)[h] == n;
            assert(gnames@[h]@ == n);
            assert(ambiguous_name(cg, s as int, gnames@[h]@));
        }
        let un = crate::text::char_views(unknown@);
        assert forall|a: int, b: int| 0 <= a < un.len() && 0 <= b < un.len() && a != b implies #[trigger] un[a] != #[trigger] un[b] by {
            assert(unknown@[a]@ != unknown@[b]@);
        }
    }
    let ghost gv = groups@;
    let ghost uv = unknown@;
    let r = (unknown, groups);
    proof {
        assert(r.1@ == gv);
        assert(r.0@ == uv);
    }
    r
}

/// `e` reports that source `s` uses the unresolved name `n`.
pub open spec fn unres_entry(e: UnresolvedReference, cg: &CallGraph, s: int, n: Seq<char>, f: FormatView) -> bool {
    &&& e.kind@ == "use"@
    &&& e.source@ == canonical(cg, s)
    &&& e.symbol@ == n
    &&& opt_text(e.path) == opt_location(cg.nodes_arena@[s].filename, f)
    &&& e.line == cg.nodes_arena@[s].line
}

/// `e` reports that source `s` reaches several candidates through `n`.
pub open spec fn amb_entry(e: AmbiguousResolution, cg: &CallGraph, s: int, n: Seq<char>, f: FormatView) -> bool {
    &&& e.kind@ == "use"@
    &&& e.source@ == canonical(cg, s)
    &&& e.symbol@ == n
    &&& candidates_of(texts(e.candidate_targets@), cg, s, n)
    &&& opt_text(e.path) == opt_location(cg.nodes_arena@[s].filename, f)
    &&& e.line == cg.nodes_arena@[s].line
}

/// `a` records the widening of source `s`'s use of `n` to several
/// candidates.
pub open spec fn approx_entry(a: Approximation, cg: &CallGraph, s: int, n: Seq<char>, f: FormatView) -> bool {
    &&& a.kind@ == "resolution_widening"@
    &&& a.source@ == canonical(cg, s)
    &&& opt_text(a.symbol) == Some(n)
    &&& a.reason@ == "multiple_candidate_targets"@
    &&& candidates_of(texts(a.candidate_targets@), cg, s, n)
    &&& opt_text(a.path) == opt_location(cg.nodes_arena@[s].filename, f)
    &&& a.line == cg.nodes_arena@[s].line
}

/// Sort key of an external reference.
pub open spec fn ext_key(e: ExternalReference) -> Seq<KeyV> {
    seq![KeyV::Text(e.source@), KeyV::Text(e.canonical_name@)] + opt_text_key(opt_text(e.path)) + opt_num_key(e.line)
}

/// Sort key of an unresolved reference.
pub open spec fn unres_key(e: UnresolvedReference) -> Seq<KeyV> {
    seq![KeyV::Text(e.source@), KeyV::Text(e.symbol@)] + opt_text_key(opt_text(e.path)) + opt_num_key(e.line)
}

/// Sort key of an ambiguous resolution.
pub open spec fn amb_key(e: AmbiguousResolution) -> Seq<KeyV> {
    seq![KeyV::Text(e.source@), KeyV::Text(e.symbol@)] + opt_text_key(opt_text(e.path)) + opt_num_key(e.line) + texts_key(
        texts(e.candidate_targets@),
    )
}

/// Sort key of an approximation.
pub open spec fn approx_key(a: Approximation) -> Seq<KeyV> {
    seq![KeyV::Text(a.source@), KeyV::Text(a.reason@)] + opt_text_key(opt_text(a.symbol)) + opt_text_key(opt_text(a.path))
        + opt_num_key(a.line) + texts_key(texts(a.candidate_targets@))
}

/// The canonical names of the nodes `ids`.
pub open spec fn names_of(cg: &CallGraph, ids: Seq<NodeId>) -> Seq<Seq<char>> {
    Seq::new(ids.len(), |k: int| canonical(cg, ids[k] as int))
}

/// The diagnostics of a query whose sources are `ids` and whose files are
/// `paths`: every relevant external reference, every reported unresolved
/// name, every ambiguous name with its widening, each once, each list in
/// key order.
pub open spec fn diagnostics_of(
    r: QueryDiagnostics,
    cg: &CallGraph,
    ids: Seq<NodeId>,
    paths: Seq<Seq<char>>,
    f: FormatView,
) -> bool {
    let diags = cg.diagnostics.external_references@;
    let nv = names_of(cg, ids);
    let ext = r.external_references@;
    let un = r.unresolved_references@;
    let am = r.ambiguous_resolutions@;
    let ap = r.approximations@;
    &&& r.warnings@.len() == 0
    &&& r.summary.warnings == 0
    &&& r.summary.unresolved_references == un.len()
    &&& r.summary.ambiguous_resolutions == am.len()
    &&& r.summary.external_references == ext.len()
    &&& r.summary.approximations == ap.len()
    &&& exists|from: Seq<int>|
        {
            &&& from.len() == ext.len()
            &&& forall|k: int| 0 <= k < ext.len() ==> 0 <= #[trigger] from[k] < diags.len() && diag_relevant(diags[from[k]], nv, paths, f)
                && ext_entry(ext[k], diags[from[k]], f)
            &&& forall|a: int, b: int| 0 <= a < ext.len() && 0 <= b < ext.len() && a != b ==> #[trigger] from[a] != #[trigger] from[b]
            &&& forall|i: int| 0 <= i < diags.len() && diag_relevant(#[trigger] diags[i], nv, paths, f) ==> from.contains(i)
        }
    &&& forall|a: int, b: int| 0 <= a < b < ext.len() ==> !key_less(ext_key(#[trigger] ext[b]), ext_key(#[trigger] ext[a]))
    &&& exists|w: Seq<(int, Seq<char>)>|
        {
            &&& w.len() == un.len()
            &&& forall|k: int| 0 <= k < un.len() ==> 0 <= (#[trigger] w[k]).0 < ids.len() && reported_unknown(cg, ids[w[k].0] as int, w[k].1, nv, paths, f)
                && unres_entry(un[k], cg, ids[w[k].0] as int, w[k].1, f)
            &&& forall|a: int, b: int| 0 <= a < un.len() && 0 <= b < un.len() && a != b ==> #[trigger] w[a] != #[trigger] w[b]
            &&& forall|q: int, n: Seq<char>| 0 <= q < ids.len() && #[trigger] reported_unknown(cg, ids[q] as int, n, nv, paths, f) ==> w.contains((q, n))
        }
    &&& forall|a: int, b: int| 0 <= a < b < un.len() ==> !key_less(unres_key(#[trigger] un[b]), unres_key(#[trigger] un[a]))
    &&& exists|w: Seq<(int, Seq<char>)>|
        {
            &&& w.len() == am.len()
            &&& forall|k: int| 0 <= k < am.len() ==> 0 <= (#[trigger] w[k]).0 < ids.len() && ambiguous_name(cg, ids[w[k].0] as int, w[k].1)
                && amb_entry(am[k], cg, ids[w[k].0] as int, w[k].1, f)
            &&& forall|a: int, b: int| 0 <= a < am.len() && 0 <= b < am.len() && a != b ==> #[trigger] w[a] != #[trigger] w[b]
            &&& forall|q: int, n: Seq<char>| 0 <= q < ids.len() && #[trigger] ambiguous_name(cg, ids[q] as int, n) ==> w.contains((q, n))
        }
    &&& forall|a: int, b: int| 0 <= a < b < am.len() ==> !key_less(amb_key(#[trigger] am[b]), amb_key(#[trigger] am[a]))
    &&& exists|w: Seq<(int, Seq<char>)>|
        {
            &&& w.len() == ap.len()
            &&& forall|k: int| 0 <= k < ap.len() ==> 0 <= (#[trigger] w[k]).0 < ids.len() && ambiguous_name(cg, ids[w[k].0] as int, w[k].1)
                && approx_entry(ap[k], cg, ids[w[k].0] as int, w[k].1, f)
            &&& forall|a: int, b: int| 0 <= a < ap.len() && 0 <= b < ap.len() && a != b ==> #[trigger] w[a] != #[trigger] w[b]
            &&& forall|q: int, n: Seq<char>| 0 <= q < ids.len() && #[trigger] ambiguous_name(cg, ids[q] as int, n) ==> w.contains((q, n))
        }
    &&& forall|a: int, b: int| 0 <= a < b < ap.len() ==> !key_less(approx_key(#[trigger] ap[b]), approx_key(#[trigger] ap[a]))
}

/// Two unresolved references say the same.
pub open spec fn same_unres(a: UnresolvedReference, b: UnresolvedReference) -> bool {
    a.kind@ == b.kind@ && a.source@ == b.source@ && a.symbol@ == b.symbol@ && opt_text(a.path) == opt_text(b.path) && a.line == b.line
}

/// Two ambiguous resolutions say the same.
pub open spec fn same_amb(a: AmbiguousResolution, b: AmbiguousResolution) -> bool {
    a.kind@ == b.kind@ && a.source@ == b.source@ && a.symbol@ == b.symbol@ && texts(a.candidate_targets@) == texts(
        b.candidate_targets@,
    ) && opt_text(a.path) == opt_text(b.path) && a.line == b.line
}

/// Two external references say the same.
pub open spec fn same_ext(a: ExternalReference, b: ExternalReference) -> bool {
    a.kind@ == b.kind@ && a.source@ == b.source@ && a.canonical_name@ == b.canonical_name@ && opt_text(a.path) == opt_text(
        b.path,
    ) && a.line == b.line
}

/// Two approximations say the same.
pub open spec fn same_approx(a: Approximation, b: Approximation) -> bool {
    a.kind@ == b.kind@ && a.source@ == b.source@ && opt_text(a.symbol) == opt_text(b.symbol) && a.reason@ == b.reason@
        && texts(a.candidate_targets@) == texts(b.candidate_targets@) && opt_text(a.path) == opt_text(b.path) && a.line
        == b.line
}

pub(crate) fn copy_unres(e: &UnresolvedReference) -> (r: UnresolvedReference)
    ensures
        same_unres(r, *e),
{
    UnresolvedReference {
        kind: copy_str(&e.kind),
        source: copy_str(&e.source),
        symbol: copy_str(&e.symbol),
        path: copy_opt_string(&e.path),
        line: e.line,
    }
}

pub(crate) fn copy_amb(e: &AmbiguousResolution) -> (r: AmbiguousResolution)
    ensures
        same_amb(r, *e),
{
    AmbiguousResolution {
        kind: copy_str(&e.kind),
        source: copy_str(&e.source),
        symbol: copy_str(&e.symbol),
        candidate_targets: copy_strings(&e.candidate_targets),
        path: copy_opt_string(&e.path),
        line: e.line,
    }
}

pub(crate) fn copy_ext(e: &ExternalReference) -> (r: ExternalReference)
    ensures
        same_ext(r, *e),
{
    ExternalReference {
        kind: copy_str(&e.kind),
        source: copy_str(&e.source),
        canonical_name: copy_str(&e.canonical_name),
        path: copy_opt_string(&e.path),
        line: e.line,
    }
}

pub(crate) fn copy_approx(e: &Approximation) -> (r: Approximation)
    ensures
        same_approx(r, *e),
{
    Approximation {
        kind: copy_str(&e.kind),
        source: copy_str(&e.source),
        symbol: copy_opt_string(&e.symbol),
        reason: copy_str(&e.reason),
        candidate_targets: copy_strings(&e.candidate_targets),
        path: copy_opt_string(&e.path),
        line: e.line,
    }
}

fn ext_key_of(e: &ExternalReference) -> (r: Vec<KeyPart>)
    ensures
        key_view(r@) == ext_key(*e),
{
    let mut k: Vec<KeyPart> = Vec::new();
    push_text_key(&mut k, &e.source);
    push_text_key(&mut k, &e.canonical_name);
    push_opt_text_key(&mut k, &e.path);
    push_opt_num_key(&mut k, e.line);
    proof {
        assert(key_view(k@) =~= ext_key(*e));
    }
    k
}

fn unres_key_of(e: &UnresolvedReference) -> (r: Vec<KeyPart>)
    ensures
        key_view(r@) == unres_key(*e),
{
    let mut k: Vec<KeyPart> = Vec::new();
    push_text_key(&mut k, &e.source);
    push_text_key(&mut k, &e.symbol);
    push_opt_text_key(&mut k, &e.path);
    push_opt_num_key(&mut k, e.line);
    proof {
        assert(key_view(k@) =~= unres_key(*e));
    }
    k
}

fn amb_key_of(e: &AmbiguousResolution) -> (r: Vec<KeyPart>)
    ensures
        key_view(r@) == amb_key(*e),
{
    let mut k: Vec<KeyPart> = Vec::new();
    push_text_key(&mut k, &e.source);
    push_text_key(&mut k, &e.symbol);
    push_opt_text_key(&mut k, &e.path);
    push_opt_num_key(&mut k, e.line);
    push_texts_key(&mut k, &e.candidate_targets);
    proof {
        assert(key_view(k@) =~= amb_key(*e));
    }
    k
}

fn approx_key_of(e: &Approximation) -> (r: Vec<KeyPart>)
    ensures
        key_view(r@) == approx_key(*e),
{
    let mut k: Vec<KeyPart> = Vec::new();
    push_text_key(&mut k, &e.source);
    push_text_key(&mut k, &e.reason);
    push_opt_text_key(&mut k, &e.symbol);
    push_opt_text_key(&mut k, &e.path);
    push_opt_num_key(&mut k, e.line);
    push_texts_key(&mut k, &e.candidate_targets);
    proof {
        assert(key_view(k@) =~= approx_key(*e));
    }
    k
}

/// External references in key order.
pub(crate) fn sort_ext(v: &Vec<ExternalReference>) -> (r: (Vec<ExternalReference>, Ghost<Seq<usize>>))
    ensures
        r.0@.len() == v@.len(),
        r.1@.len() == v@.len(),
        forall|k: int| 0 <= k < v@.len() ==> #[trigger] r.1@[k] < v@.len() && same_ext(r.0@[k], v@[r.1@[k] as int]),
        forall|a: int, b: int| 0 <= a < v@.len() && 0 <= b < v@.len() && a != b ==> #[trigger] r.1@[a] != #[trigger] r.1@[b],
        forall|i: usize| 0 <= i < v@.len() ==> #[trigger] r.1@.contains(i),
        forall|a: int, b: int| 0 <= a < b < v@.len() ==> !key_less(ext_key(#[trigger] r.0@[b]), ext_key(#[trigger] r.0@[a])),
{
    let mut keys: Vec<Vec<KeyPart>> = Vec::new();
    let mut i: usize = 0;
    while i < v.len()
        invariant
            i <= v@.len(),
            keys@.len() == i,
            forall|k: int| 0 <= k < i ==> key_view((#[trigger] keys@[k])@) == ext_key(v@[k]),
        decreases v.len() - i,
    {
        keys.push(ext_key_of(&v[i]));
        i = i + 1;
    }
    let ghost kv = keys@;
    let perm = key_order(keys);
    let mut out: Vec<ExternalReference> = Vec::new();
    let mut k: usize = 0;
    while k < perm.len()
        invariant
            k <= perm@.len(),
            perm@.len() == v@.len(),
            kv.len() == v@.len(),
            forall|j: int| 0 <= j < perm@.len() ==> #[trigger] perm@[j] < kv.len(),
            out@.len() == k,
            forall|j: int| 0 <= j < k ==> same_ext(#[trigger] out@[j], v@[perm@[j] as int]),
        decreases perm.len() - k,
    {
        out.push(copy_ext(&v[perm[k]]));
        k = k + 1;
    }
    proof {
        assert forall|a: int, b: int| 0 <= a < b < v@.len() implies !key_less(ext_key(#[trigger] out@[b]), ext_key(#[trigger] out@[a])) by {
            assert(key_view(kv[perm@[a] as int]@) == ext_key(v@[perm@[a] as int]));
            assert(key_view(kv[perm@[b] as int]@) == ext_key(v@[perm@[b] as int]));
        }
    }
    (out, Ghost(perm@))
}

/// Unresolved references in key order.
pub(crate) fn sort_unres(v: &Vec<UnresolvedReference>) -> (r: (Vec<UnresolvedReference>, Ghost<Seq<usize>>))
    ensures
        r.0@.len() == v@.len(),
        r.1@.len() == v@.len(),
        forall|k: int| 0 <= k < v@.len() ==> #[trigger] r.1@[k] < v@.len() && same_unres(r.0@[k], v@[r.1@[k] as int]),
        forall|a: int, b: int| 0 <= a < v@.len() && 0 <= b < v@.len() && a != b ==> #[trigger] r.1@[a] != #[trigger] r.1@[b],
        forall|i: usize| 0 <= i < v@.len() ==> #[trigger] r.1@.contains(i),
        forall|a: int, b: int| 0 <= a < b < v@.len() ==> !key_less(unres_key(#[trigger] r.0@[b]), unres_key(#[trigger] r.0@[a])),
{
    let mut keys: Vec<Vec<KeyPart>> = Vec::new();
    let mut i: usize = 0;
    while i < v.len()
        invariant
            i <= v@.len(),
            keys@.len() == i,
            forall|k: int| 0 <= k < i ==> key_view((#[trigger] keys@[k])@) == unres_key(v@[k]),
        decreases v.len() - i,
    {
        keys.push(unres_key_of(&v[i]));
        i = i + 1;
    }
    let ghost kv = keys@;
    let perm = key_order(keys);
    let mut out: Vec<UnresolvedReference> = Vec::new();
    let mut k: usize = 0;
    while k < perm.len()
        invariant
            k <= perm@.len(),
            perm@.len() == v@.len(),
            kv.len() == v@.len(),
            forall|j: int| 0 <= j < perm@.len() ==> #[trigger] perm@[j] < kv.len(),
            out@.len() == k,
            forall|j: int| 0 <= j < k ==> same_unres(#[trigger] out@[j], v@[perm@[j] as int]),
        decreases perm.len() - k,
    {
        out.push(copy_unres(&v[perm[k]]));
        k = k + 1;
    }
    proof {
        assert forall|a: int, b: int| 0 <= a < b < v@.len() implies !key_less(unres_key(#[trigger] out@[b]), unres_key(#[trigger] out@[a])) by {
            assert(key_view(kv[perm@[a] as int]@) == unres_key(v@[perm@[a] as int]));
            assert(key_view(kv[perm@[b] as int]@) == unres_key(v@[perm@[b] as int]));
        }
    }
    (out, Ghost(perm@))
}

/// Ambiguous resolutions in key order.
pub(crate) fn sort_amb(v: &Vec<AmbiguousResolution>) -> (r: (Vec<AmbiguousResolution>, Ghost<Seq<usize>>))
    ensures
        r.0@.len() == v@.len(),
        r.1@.len() == v@.len(),
        forall|k: int| 0 <= k < v@.len() ==> #[trigger] r.1@[k] < v@.len() && same_amb(r.0@[k], v@[r.1@[k] as int]),
        forall|a: int, b: int| 0 <= a < v@.len() && 0 <= b < v@.len() && a != b ==> #[trigger] r.1@[a] != #[trigger] r.1@[b],
        forall|i: usize| 0 <= i < v@.len() ==> #[trigger] r.1@.contains(i),
        forall|a: int, b: int| 0 <= a < b < v@.len() ==> !key_less(amb_key(#[trigger] r.0@[b]), amb_key(#[trigger] r.0@[a])),
{
    let mut keys: Vec<Vec<KeyPart>> = Vec::new();
    let mut i: usize = 0;
    while i < v.len()
        invariant
            i <= v@.len(),
            keys@.len() == i,
            forall|k: int| 0 <= k < i ==> key_view((#[trigger] keys@[k])@) == amb_key(v@[k]),
        decreases v.len() - i,
    {
        keys.push(amb_key_of(&v[i]));
        i = i + 1;
    }
    let ghost kv = keys@;
    let perm = key_order(keys);
    let mut out: Vec<AmbiguousResolution> = Vec::new();
    let mut k: usize = 0;
    while k < perm.len()
        invariant
            k <= perm@.len(),
            perm@.len() == v@.len(),
            kv.len() == v@.len(),
            forall|j: int| 0 <= j < perm@.len() ==> #[trigger] perm@[j] < kv.len(),
            out@.len() == k,
            forall|j: int| 0 <= j < k ==> same_amb(#[trigger] out@[j], v@[perm@[j] as int]),
        decreases perm.len() - k,
    {
        out.push(copy_amb(&v[perm[k]]));
        k = k + 1;
    }
    proof {
        assert forall|a: int, b: int| 0 <= a < b < v@.len() implies !key_less(amb_key(#[trigger] out@[b]), amb_key(#[trigger] out@[a])) by {
            assert(key_view(kv[perm@[a] as int]@) == amb_key(v@[perm@[a] as int]));
            assert(key_view(kv[perm@[b] as int]@) == amb_key(v@[perm@[b] as int]));
        }
    }
    (out, Ghost(perm@))
}

/// Approximations in key order.
pub(crate) fn sort_approx(v: &Vec<Approximation>) -> (r: (Vec<Approximation>, Ghost<Seq<usize>>))
    ensures
        r.0@.len() == v@.len(),
        r.1@.len() == v@.len(),
        forall|k: int| 0 <= k < v@.len() ==> #[trigger] r.1@[k] < v@.len() && same_approx(r.0@[k], v@[r.1@[k] as int]),
        forall|a: int, b: int| 0 <= a < v@.len() && 0 <= b < v@.len() && a != b ==> #[trigger] r.1@[a] != #[trigger] r.1@[b],
        forall|i: usize| 0 <= i < v@.len() ==> #[trigger] r.1@.contains(i),
        forall|a: int, b: int| 0 <= a < b < v@.len() ==> !key_less(approx_key(#[trigger] r.0@[b]), approx_key(#[trigger] r.0@[a])),
{
    let mut keys: Vec<Vec<KeyPart>> = Vec::new();
    let mut i: usize = 0;
    while i < v.len()
        invariant
            i <= v@.len(),
            keys@.len() == i,
            forall|k: int| 0 <= k < i ==> key_view((#[trigger] keys@[k])@) == approx_key(v@[k]),
        decreases v.len() - i,
    {
        keys.push(approx_key_of(&v[i]));
        i = i + 1;
    }
    let ghost kv = keys@;
    let perm = key_order(keys);
    let mut out: Vec<Approximation> = Vec::new();
    let mut k: usize = 0;
    while k < perm.len()
        invariant
            k <= perm@.len(),
            perm@.len() == v@.len(),
            kv.len() == v@.len(),
            forall|j: int| 0 <= j < perm@.len() ==> #[trigger] perm@[j] < kv.len(),
            out@.len() == k,
            forall|j: int| 0 <= j < k ==> same_approx(#[trigger] out@[j], v@[perm@[j] as int]),
        decreases perm.len() - k,
    {
        out.push(copy_approx(&v[perm[k]]));
        k = k + 1;
    }
    proof {
        assert forall|a: int, b: int| 0 <= a < b < v@.len() implies !key_less(approx_key(#[trigger] out@[b]), approx_key(#[trigger] out@[a])) by {
            assert(key_view(kv[perm@[a] as int]@) == approx_key(v@[perm@[a] as int]));
            assert(key_view(kv[perm@[b] as int]@) == approx_key(v@[perm@[b] as int]));
        }
    }
    (out, Ghost(perm@))
}

/// A string holding `s`.
pub(crate) fn text(s: &str) -> (r: String)
    ensures
        r@ == s@,
{
    chars_to_string(str_to_chars(s).as_slice())
}

/// The diagnostics that concern the sources `relevant_source_ids` and the
/// files `relevant_paths`: external references from or in them, names
/// their uses leave unresolved (less constructor lookups, synthetic names
/// and names an external reference explains), and names through which they
/// reach several definitions.
pub fn collect_query_diagnostics(
    cg: &CallGraph,
    relevant_source_ids: &Vec<NodeId>,
    relevant_paths: &Vec<String>,
    formatter: &PathFormatter,
) -> (r: QueryDiagnostics)
    requires
        cg.wf(),
        forall|k: int| 0 <= k < relevant_source_ids@.len() ==> #[trigger] relevant_source_ids@[k] < cg.nodes_arena@.len(),
        forall|a: int, b: int|
            0 <= a < relevant_source_ids@.len() && 0 <= b < relevant_source_ids@.len() && a != b ==> #[trigger] relevant_source_ids@[a]
                != #[trigger] relevant_source_ids@[b],
    ensures
        diagnostics_of(r, cg, relevant_source_ids@, texts(relevant_paths@), formatter@),
{
    let ghost ids = relevant_source_ids@;
    let ghost pv = texts(relevant_paths@);
    let ghost nv = names_of(cg, ids);
    let mut names: Vec<Vec<char>> = Vec::new();
    let mut i: usize = 0;
    while i < relevant_source_ids.len()
        invariant
            cg.wf(),
            ids == relevant_source_ids@,
            i <= ids.len(),
            forall|k: int| 0 <= k < ids.len() ==> #[trigger] ids[k] < cg.nodes_arena@.len(),
            crate::text::char_views(names@) == names_of(cg, ids).take(i as int),
        decreases ids.len() - i,
    {
        proof {
            assert(cg.nodes_arena@[ids[i as int] as int].ids_in(&cg.interner));
        }
        let c = str_to_chars(cg.nodes_arena[relevant_source_ids[i]].get_name(&cg.interner).as_str());
        let ghost n0 = names@;
        names.push(c);
        proof {
            assert(crate::text::char_views(names@) =~= crate::text::char_views(n0).push(c@));
            assert(crate::text::char_views(names@) =~= names_of(cg, ids).take(i as int + 1));
        }
        i = i + 1;
    }
    proof {
        assert(names_of(cg, ids).take(ids.len() as int) =~= nv);
    }
    let (ext0, supp, from0) = relevant_externals(cg, &names, relevant_paths, formatter);
    let mut un0: Vec<UnresolvedReference> = Vec::new();
    let mut am0: Vec<AmbiguousResolution> = Vec::new();
    let mut ap0: Vec<Approximation> = Vec::new();
    let ghost mut wu: Seq<(int, Seq<char>)> = Seq::empty();
    let ghost mut wa: Seq<(int, Seq<char>)> = Seq::empty();
    let mut q: usize = 0;
    while q < relevant_source_ids.len()
        invariant
            cg.wf(),
            ids == relevant_source_ids@,
            q <= ids.len(),
            forall|k: int| 0 <= k < ids.len() ==> #[trigger] ids[k] < cg.nodes_arena@.len(),
            forall|a: Seq<char>, b: Seq<char>| #[trigger] pair_views(supp@).contains((a, b)) <==> suppressed(
                cg.diagnostics.external_references@,
                nv,
                pv,
                formatter@,
                a,
                b,
            ),
            un0@.len() == wu.len(),
            forall|k: int| 0 <= k < wu.len() ==> 0 <= (#[trigger] wu[k]).0 < q && reported_unknown(cg, ids[wu[k].0] as int, wu[k].1, nv, pv, formatter@)
                && unres_entry(un0@[k], cg, ids[wu[k].0] as int, wu[k].1, formatter@),
            forall|a: int, b: int| 0 <= a < wu.len() && 0 <= b < wu.len() && a != b ==> #[trigger] wu[a] != #[trigger] wu[b],
            forall|p: int, n: Seq<char>| 0 <= p < q && #[trigger] reported_unknown(cg, ids[p] as int, n, nv, pv, formatter@) ==> wu.contains((p, n)),
            am0@.len() == wa.len(),
            ap0@.len() == wa.len(),
            forall|k: int| 0 <= k < wa.len() ==> 0 <= (#[trigger] wa[k]).0 < q && ambiguous_name(cg, ids[wa[k].0] as int, wa[k].1)
                && amb_entry(am0@[k], cg, ids[wa[k].0] as int, wa[k].1, formatter@)
                && approx_entry(ap0@[k], cg, ids[wa[k].0] as int, wa[k].1, formatter@),
            forall|a: int, b: int| 0 <= a < wa.len() && 0 <= b < wa.len() && a != b ==> #[trigger] wa[a] != #[trigger] wa[b],
            forall|p: int, n: Seq<char>| 0 <= p < q && #[trigger] ambiguous_name(cg, ids[p] as int, n) ==> wa.contains((p, n)),
        decreases ids.len() - q,
    {
        let s = relevant_source_ids[q];
        proof {
            assert(s < cg.nodes_arena@.len());
            assert(cg.nodes_arena@[s as int].ids_in(&cg.interner));
        }
        let (unknown, groups) = source_findings(cg, s, &supp, Ghost(nv), Ghost(pv), formatter);
        let node = &cg.nodes_arena[s];
        let src_name = node.get_name(&cg.interner);
        let path: Option<String> = match &node.filename {
            Some(fnm) => Some(formatter.format_location(fnm.as_str())),
            None => None,
        };
        let line = node.line;
        let ghost wu0 = wu;
        let ghost wa0 = wa;
        let mut j: usize = 0;
        while j < unknown.len()
            invariant
                cg.wf(),
                ids == relevant_source_ids@,
                q < ids.len(),
                s == ids[q as int],
                s < cg.nodes_arena@.len(),
                src_name@ == canonical(cg, s as int),
                opt_text(path) == opt_location(cg.nodes_arena@[s as int].filename, formatter@),
                line == cg.nodes_arena@[s as int].line,
                j <= unknown@.len(),
                forall|a: int, b: int| 0 <= a < unknown@.len() && 0 <= b < unknown@.len() && a != b ==> #[trigger] crate::text::char_views(unknown@)[a]
                    != #[trigger] crate::text::char_views(unknown@)[b],
                forall|n: Seq<char>| #[trigger] crate::text::char_views(unknown@).contains(n) <==> reported_unknown(cg, s as int, n, nv, pv, formatter@),
                un0@.len() == wu.len(),
                wu.len() == wu0.len() + j,
                wu.take(wu0.len() as int) == wu0,
                forall|k: int| wu0.len() <= k < wu.len() ==> (#[trigger] wu[k]) == (q as int, unknown@[k - wu0.len()]@),
                forall|k: int| 0 <= k < wu.len() ==> 0 <= (#[trigger] wu[k]).0 < q + 1 && reported_unknown(cg, ids[wu[k].0] as int, wu[k].1, nv, pv, formatter@)
                    && unres_entry(un0@[k], cg, ids[wu[k].0] as int, wu[k].1, formatter@),
                forall|k: int| 0 <= k < wu0.len() ==> (#[trigger] wu0[k]).0 < q,
                forall|a: int, b: int| 0 <= a < wu.len() && 0 <= b < wu.len() && a != b ==> #[trigger] wu[a] != #[trigger] wu[b],
            decreases unknown.len() - j,
        {
            let ghost u0 = un0@;
            let e = UnresolvedReference {
                kind: text("use"),
                source: copy_str(&src_name),
                symbol: chars_to_string(unknown[j].as_slice()),
                path: copy_opt_string(&path),
                line,
            };
            un0.push(e);
            proof {
                assert(crate::text::char_views(unknown@)[j as int] == unknown@[j as int]@);
                assert(crate::text::char_views(unknown@).contains(unknown@[j as int]@));
                let wprev = wu;
                wu = wu.push((q as int, unknown@[j as int]@));
                assert forall|k: int| 0 <= k < wu.len() implies 0 <= (#[trigger] wu[k]).0 < q + 1 && reported_unknown(cg, ids[wu[k].0] as int, wu[k].1, nv, pv, formatter@)
                    && unres_entry(un0@[k], cg, ids[wu[k].0] as int, wu[k].1, formatter@) by {
                    if k < wprev.len() {
                        assert(wu[k] == wprev[k]);
                        assert(un0@[k] == u0[k]);
                    } else {
                        assert(wu[k] == (q as int, unknown@[j as int]@));
                        assert(ids[q as int] == s);
                        assert(reported_unknown(cg, s as int, unknown@[j as int]@, nv, pv, formatter@));
                        assert(un0@[k] == e);
                        assert(e.kind@ == "use"@);
                        assert(e.source@ == canonical(cg, s as int));
                        assert(e.symbol@ == unknown@[j as int]@);
                        assert(opt_text(e.path) == opt_location(cg.nodes_arena@[s as int].filename, formatter@));
                        assert(e.line == cg.nodes_arena@[s as int].line);
                    }
                }
                assert forall|a: int, b: int| 0 <= a < wu.len() && 0 <= b < wu.len() && a != b implies #[trigger] wu[a] != #[trigger] wu[b] by {
                    if a < wprev.len() && b < wprev.len() {
                        assert(wu[a] == wprev[a] && wu[b] == wprev[b]);
                    } else if a < wu0.len() {
                        assert(wu0[a].0 < q);
                        assert(wu[a] == wu0[a]);
                    } else if b < wu0.len() {
                        assert(wu0[b].0 < q);
                        assert(wu[b] == wu0[b]);
                    } else {
                        assert(wu[a] == (q as int, unknown@[a - wu0.len()]@));
                        assert(wu[b] == (q as int, unknown@[b - wu0.len()]@));
                        assert(crate::text::char_views(unknown@)[a - wu0.len()] != crate::text::char_views(unknown@)[b - wu0.len()]);
                    }
                }
                assert(wu.take(wu0.len() as int) =~= wu0);
            }
            j = j + 1;
        }
        let mut g: usize = 0;
        while g < groups.len()
            invariant
                cg.wf(),
                ids == relevant_source_ids@,
                q < ids.len(),
                s == ids[q as int],
                s < cg.nodes_arena@.len(),
                src_name@ == canonical(cg, s as int),
                opt_text(path) == opt_location(cg.nodes_arena@[s as int].filename, formatter@),
                line == cg.nodes_arena@[s as int].line,
                g <= groups@.len(),
                forall|a: int, b: int| 0 <= a < groups@.len() && 0 <= b < groups@.len() && a != b ==> (#[trigger] groups@[a]).0@ != (#[trigger] groups@[b]).0@,
                forall|h: int| 0 <= h < groups@.len() ==> candidates_of(crate::text::char_views((#[trigger] groups@[h]).1@), cg, s as int, groups@[h].0@)
                    && groups@[h].1@.len() >= 2,
                am0@.len() == wa.len(),
                ap0@.len() == wa.len(),
                wa.len() == wa0.len() + g,
                wa.take(wa0.len() as int) == wa0,
                forall|k: int| wa0.len() <= k < wa.len() ==> (#[trigger] wa[k]) == (q as int, groups@[k - wa0.len()].0@),
                forall|k: int| 0 <= k < wa.len() ==> 0 <= (#[trigger] wa[k]).0 < q + 1 && ambiguous_name(cg, ids[wa[k].0] as int, wa[k].1)
                    && amb_entry(am0@[k], cg, ids[wa[k].0] as int, wa[k].1, formatter@)
                    && approx_entry(ap0@[k], cg, ids[wa[k].0] as int, wa[k].1, formatter@),
                forall|k: int| 0 <= k < wa0.len() ==> (#[trigger] wa0[k]).0 < q,
                forall|a: int, b: int| 0 <= a < wa.len() && 0 <= b < wa.len() && a != b ==> #[trigger] wa[a] != #[trigger] wa[b],
            decreases groups.len() - g,
        {
            let (gname, cands) = (&groups[g].0, &groups[g].1);
            let mut cand_strings: Vec<String> = Vec::new();
            let mut c: usize = 0;
            while c < cands.len()
                invariant
                    c <= cands@.len(),
                    texts(cand_strings@) == crate::text::char_views(cands@).take(c as int),
                decreases cands.len() - c,
            {
                let ghost cs0 = cand_strings@;
                let t = chars_to_string(cands[c].as_slice());
                cand_strings.push(t);
                proof {
                    assert(texts(cand_strings@) =~= texts(cs0).push(t@));
                    assert(texts(cand_strings@) =~= crate::text::char_views(cands@).take(c as int + 1));
                }
                c = c + 1;
            }
            proof {
                assert(crate::text::char_views(cands@).take(cands@.len() as int) =~= crate::text::char_views(cands@));
            }
            let ghost a0 = am0@;
            let ghost p0 = ap0@;
            let amb = AmbiguousResolution {
                kind: text("use"),
                source: copy_str(&src_name),
                symbol: chars_to_string(gname.as_slice()),
                candidate_targets: copy_strings(&cand_strings),
                path: copy_opt_string(&path),
                line,
            };
            let approx = Approximation {
                kind: text("resolution_widening"),
                source: copy_str(&src_name),
                symbol: Some(chars_to_string(gname.as_slice())),
                reason: text("multiple_candidate_targets"),
                candidate_targets: cand_strings,
                path: copy_opt_string(&path),
                line,
            };
            am0.push(amb);
            ap0.push(approx);
            proof {
                let h = g as int;
                assert(candidates_of(crate::text::char_views(groups@[h].1@), cg, s as int, groups@[h].0@));
                let cv = crate::text::char_views(groups@[h].1@);
                let (c1, c2) = (cv[0], cv[1]);
                assert(seq_less(cv[0], cv[1]));
                crate::order::lemma_less_irreflexive(cv[0]);
                assert(cv.contains(c1) && cv.contains(c2));
                assert(candidate(cg, s as int, groups@[h].0@, c1));
                assert(candidate(cg, s as int, groups@[h].0@, c2));
                assert(ambiguous_name(cg, s as int, groups@[h].0@));
                let wprev = wa;
                wa = wa.push((q as int, groups@[h].0@));
                assert forall|k: int| 0 <= k < wa.len() implies 0 <= (#[trigger] wa[k]).0 < q + 1 && ambiguous_name(cg, ids[wa[k].0] as int, wa[k].1)
                    && amb_entry(am0@[k], cg, ids[wa[k].0] as int, wa[k].1, formatter@)
                    && approx_entry(ap0@[k], cg, ids[wa[k].0] as int, wa[k].1, formatter@) by {
                    if k < wprev.len() {
                        assert(wa[k] == wprev[k]);
                        assert(am0@[k] == a0[k]);
                        assert(ap0@[k] == p0[k]);
                    }
                }
                assert forall|a: int, b: int| 0 <= a < wa.len() && 0 <= b < wa.len() && a != b implies #[trigger] wa[a] != #[trigger] wa[b] by {
                    if a < wprev.len() && b < wprev.len() {
                        assert(wa[a] == wprev[a] && wa[b] == wprev[b]);
                    } else if a < wa0.len() {
                        assert(wa0[a].0 < q);
                        assert(wa[a] == wa0[a]);
                    } else if b < wa0.len() {
                        assert(wa0[b].0 < q);
                        assert(wa[b] == wa0[b]);
                    } else {
                        assert(wa[a] == (q as int, groups@[a - wa0.len()].0@));
                        assert(wa[b] == (q as int, groups@[b - wa0.len()].0@));
                    }
                }
                assert(wa.take(wa0.len() as int) =~= wa0);
            }
            g = g + 1;
        }
        proof {
            assert forall|p: int, n: Seq<char>| 0 <= p < q + 1 && #[trigger] reported_unknown(cg, ids[p] as int, n, nv, pv, formatter@) implies wu.contains((p, n)) by {
                if p < q {
                    assert(wu0.contains((p, n)));
                    let z = choose|z: int| 0 <= z < wu0.len() && wu0[z] == (p, n);
                    assert(wu[z] == wu0[z]);
                } else {
                    assert(crate::text::char_views(unknown@).contains(n));
                    let z = choose|z: int| 0 <= z < unknown@.len() && crate::text::char_views(unknown@)[z] == n;
                    assert(wu[wu0.len() + z] == (q as int, unknown@[z]@));
                }
            }
            assert forall|p: int, n: Seq<char>| 0 <= p < q + 1 && #[trigger] ambiguous_name(cg, ids[p] as int, n) implies wa.contains((p, n)) by {
                if p < q {
                    assert(wa0.contains((p, n)));
                    let z = choose|z: int| 0 <= z < wa0.len() && wa0[z] == (p, n);
                    assert(wa[z] == wa0[z]);
                } else {
                    let z = choose|z: int| 0 <= z < groups@.len() && #[trigger] groups@[z].0@ == n;
                    assert(wa[wa0.len() + z] == (q as int, groups@[z].0@));
                }
            }
        }
        q = q + 1;
    }
    let (ext, pe) = sort_ext(&ext0);
    let (un, pu) = sort_unres(&un0);
    let (am, pa) = sort_amb(&am0);
    let (ap, pp) = sort_approx(&ap0);
    let r = QueryDiagnostics {
        summary: DiagnosticSummary {
            warnings: 0,
            unresolved_references: un.len(),
            ambiguous_resolutions: am.len(),
            external_references: ext.len(),
            approximations: ap.len(),
        },
        warnings: Vec::new(),
        unresolved_references: un,
        ambiguous_resolutions: am,
        external_references: ext,
        approximations: ap,
    };
    proof {
        let diags = cg.diagnostics.external_references@;
        let from = Seq::new(pe@.len(), |k: int| from0@[pe@[k] as int]);
        assert forall|k: int| 0 <= k < r.external_references@.len() implies 0 <= #[trigger] from[k] < diags.len() && diag_relevant(diags[from[k]], nv, pv, formatter@)
            && ext_entry(r.external_references@[k], diags[from[k]], formatter@) by {
            assert(pe@[k] < ext0@.len());
        }
        assert forall|a: int, b: int| 0 <= a < r.external_references@.len() && 0 <= b < r.external_references@.len() && a != b implies #[trigger] from[a] != #[trigger] from[b] by {
            assert(pe@[a] != pe@[b]);
            assert(pe@[a] < from0@.len() && pe@[b] < from0@.len());
            if pe@[a] < pe@[b] {
                assert(from0@[pe@[a] as int] < from0@[pe@[b] as int]);
            } else {
                assert(from0@[pe@[b] as int] < from0@[pe@[a] as int]);
            }
        }
        assert forall|i: int| 0 <= i < diags.len() && diag_relevant(#[trigger] diags[i], nv, pv, formatter@) implies from.contains(i) by {
            assert(from0@.contains(i));
            let z = choose|z: int| 0 <= z < from0@.len() && from0@[z] == i;
            assert(pe@.contains(z as usize));
            let y = choose|y: int| 0 <= y < pe@.len() && pe@[y] == z as usize;
            assert(from[y] == i);
        }
        let wu2 = Seq::new(pu@.len(), |k: int| wu[pu@[k] as int]);
        assert forall|k: int| 0 <= k < r.unresolved_references@.len() implies 0 <= (#[trigger] wu2[k]).0 < ids.len() && reported_unknown(cg, ids[wu2[k].0] as int, wu2[k].1, nv, pv, formatter@)
            && unres_entry(r.unresolved_references@[k], cg, ids[wu2[k].0] as int, wu2[k].1, formatter@) by {
            assert(pu@[k] < un0@.len());
        }
        assert forall|a: int, b: int| 0 <= a < r.unresolved_references@.len() && 0 <= b < r.unresolved_references@.len() && a != b implies #[trigger] wu2[a] != #[trigger] wu2[b] by {
            assert(pu@[a] != pu@[b]);
        }
        assert forall|p: int, n: Seq<char>| 0 <= p < ids.len() && #[trigger] reported_unknown(cg, ids[p] as int, n, nv, pv, formatter@) implies wu2.contains((p, n)) by {
            assert(wu.contains((p, n)));
            let z = choose|z: int| 0 <= z < wu.len() && wu[z] == (p, n);
            assert(pu@.contains(z as usize));
            let y = choose|y: int| 0 <= y < pu@.len() && pu@[y] == z as usize;
            assert(wu2[y] == (p, n));
        }
        let wa2 = Seq::new(pa@.len(), |k: int| wa[pa@[k] as int]);
        assert forall|k: int| 0 <= k < r.ambiguous_resolutions@.len() implies 0 <= (#[trigger] wa2[k]).0 < ids.len() && ambiguous_name(cg, ids[wa2[k].0] as int, wa2[k].1)
            && amb_entry(r.ambiguous_resolutions@[k], cg, ids[wa2[k].0] as int, wa2[k].1, formatter@) by {
            assert(pa@[k] < am0@.len());
        }
        assert forall|a: int, b: int| 0 <= a < r.ambiguous_resolutions@.len() && 0 <= b < r.ambiguous_resolutions@.len() && a != b implies #[trigger] wa2[a] != #[trigger] wa2[b] by {
            assert(pa@[a] != pa@[b]);
        }
        assert forall|p: int, n: Seq<char>| 0 <= p < ids.len() && #[trigger] ambiguous_name(cg, ids[p] as int, n) implies wa2.contains((p, n)) by {
            assert(wa.contains((p, n)));
            let z = choose|z: int| 0 <= z < wa.len() && wa[z] == (p, n);
            assert(pa@.contains(z as usize));
            let y = choose|y: int| 0 <= y < pa@.len() && pa@[y] == z as usize;
            assert(wa2[y] == (p, n));
        }
        let wp2 = Seq::new(pp@.len(), |k: int| wa[pp@[k] as int]);
        assert forall|k: int| 0 <= k < r.approximations@.len() implies 0 <= (#[trigger] wp2[k]).0 < ids.len() && ambiguous_name(cg, ids[wp2[k].0] as int, wp2[k].1)
            && approx_entry(r.approximations@[k], cg, ids[wp2[k].0] as int, wp2[k].1, formatter@) by {
            assert(pp@[k] < ap0@.len());
        }
        assert forall|a: int, b: int| 0 <= a < r.approximations@.len() && 0 <= b < r.approximations@.len() && a != b implies #[trigger] wp2[a] != #[trigger] wp2[b] by {
            assert(pp@[a] != pp@[b]);
        }
        assert forall|p: int, n: Seq<char>| 0 <= p < ids.len() && #[trigger] ambiguous_name(cg, ids[p] as int, n) implies wp2.contains((p, n)) by {
            assert(wa.contains((p, n)));
            let z = choose|z: int| 0 <= z < wa.len() && wa[z] == (p, n);
            assert(pp@.contains(z as usize));
            let y = choose|y: int| 0 <= y < pp@.len() && pp@[y] == z as usize;
            assert(wp2[y] == (p, n));
        }
        assert(r.warnings@.len() == 0);
    }
    r
}

/// What a target query asked.
#[derive(Debug, Clone)]
pub struct TargetQuery {
    pub target: String,
    pub target_kind: String,
    pub graph_mode: String,
}

/// What a symbol query asked.
#[derive(Debug, Clone)]
pub struct SymbolQuery {
    pub symbol: String,
    pub match_mode: String,
    pub graph_mode: String,
}

/// What a path query asked.
#[derive(Debug, Clone)]
pub struct PathQuery {
    pub source: String,
    pub target: String,
    pub match_mode: String,
    pub graph_mode: String,
}

/// A uses edge out of the queried symbol.
#[derive(Debug, Clone)]
pub struct OutgoingEdge {
    pub kind: String,
    pub target: SymbolRef,
}

/// A uses edge into the queried symbol.
#[derive(Debug, Clone)]
pub struct IncomingEdge {
    pub kind: String,
    pub source: SymbolRef,
}

/// Caller and callee counts of one symbol.
#[derive(Debug, Clone)]
pub struct SymbolStat {
    pub canonical_name: String,
    pub kind: String,
    pub caller_count: usize,
    pub callee_count: usize,
    pub location: Option<Location>,
}

/// The summary of a target.
#[derive(Debug, Clone)]
pub struct SummaryPayload {
    pub file_count: usize,
    /// Symbols per kind, by kind.
    pub symbol_counts: Vec<(String, usize)>,
    /// Uses edges into and out of the target, by direction.
    pub edge_counts: Vec<(String, usize)>,
    pub top_level_symbols: Vec<SymbolRef>,
    pub symbol_stats: Option<Vec<SymbolStat>>,
}

/// An edge of a call path.
#[derive(Debug, Clone)]
pub struct PathEdge {
    pub kind: String,
    pub source: String,
    pub target: String,
}

/// A call path: its symbols and the edges between them.
#[derive(Debug, Clone)]
pub struct PathResult {
    pub nodes: Vec<SymbolRef>,
    pub edges: Vec<PathEdge>,
}

/// A query's answer: the query and either its result with the relevant
/// diagnostics, or an error.
#[derive(Debug, Clone)]
pub enum QueryDocument<Q, P> {
    Answered { query: Q, payload: P, diagnostics: QueryDiagnostics },
    Failed { query: Q, error: QueryError },
}

/// The answer of each kind of query.
#[derive(Debug, Clone)]
pub enum QueryResponseInner {
    SymbolsIn(QueryDocument<TargetQuery, Vec<SymbolRef>>),
    Summary(QueryDocument<TargetQuery, SummaryPayload>),
    Callees(QueryDocument<SymbolQuery, (SymbolRef, Vec<OutgoingEdge>)>),
    Callers(QueryDocument<SymbolQuery, (SymbolRef, Vec<IncomingEdge>)>),
    Neighbors(QueryDocument<SymbolQuery, (SymbolRef, Vec<IncomingEdge>, Vec<OutgoingEdge>)>),
    Path(QueryDocument<PathQuery, Vec<PathResult>>),
}

/// The answer to a query.
#[derive(Debug, Clone)]
pub struct QueryResponse(pub QueryResponseInner);

/// The document holds an error.
pub open spec fn doc_is_error<Q, P>(d: QueryDocument<Q, P>) -> bool {
    d is Failed
}

/// The response holds an error.
pub open spec fn response_is_error(r: QueryResponse) -> bool {
    match r.0 {
        QueryResponseInner::SymbolsIn(d) => doc_is_error(d),
        QueryResponseInner::Summary(d) => doc_is_error(d),
        QueryResponseInner::Callees(d) => doc_is_error(d),
        QueryResponseInner::Callers(d) => doc_is_error(d),
        QueryResponseInner::Neighbors(d) => doc_is_error(d),
        QueryResponseInner::Path(d) => doc_is_error(d),
    }
}

impl QueryResponse {
    /// Whether the query failed.
    pub fn is_error(&self) -> (r: bool)
        ensures
            r == response_is_error(*self),
    {
        match &self.0 {
            QueryResponseInner::SymbolsIn(doc) => matches!(doc, QueryDocument::Failed { .. }),
            QueryResponseInner::Summary(doc) => matches!(doc, QueryDocument::Failed { .. }),
            QueryResponseInner::Callees(doc) => matches!(doc, QueryDocument::Failed { .. }),
            QueryResponseInner::Callers(doc) => matches!(doc, QueryDocument::Failed { .. }),
            QueryResponseInner::Neighbors(doc) => matches!(doc, QueryDocument::Failed { .. }),
            QueryResponseInner::Path(doc) => matches!(doc, QueryDocument::Failed { .. }),
        }
    }
}

/// The query record of a target query.
fn target_query(target: &str, target_kind: TargetKind, graph_mode: QueryGraphMode) -> (r: TargetQuery)
    ensures
        r.target@ == target@,
        r.target_kind@ == target_word(target_kind),
        r.graph_mode@ == graph_word(graph_mode),
{
    TargetQuery { target: text(target), target_kind: text(target_kind.as_str()), graph_mode: text(graph_mode.as_str()) }
}

/// The query record of a symbol query.
fn symbol_query(symbol: &str, match_mode: MatchMode) -> (r: SymbolQuery)
    ensures
        r.symbol@ == symbol@,
        r.match_mode@ == match_word(match_mode),
        r.graph_mode@ == "symbol"@,
{
    SymbolQuery { symbol: text(symbol), match_mode: text(match_mode.as_str()), graph_mode: text("symbol") }
}

/// The query record of a path query.
fn path_query(source: &str, target: &str, match_mode: MatchMode) -> (r: PathQuery)
    ensures
        r.source@ == source@,
        r.target@ == target@,
        r.match_mode@ == match_word(match_mode),
        r.graph_mode@ == "symbol"@,
{
    PathQuery { source: text(source), target: text(target), match_mode: text(match_mode.as_str()), graph_mode: text("symbol") }
}

/// A query error with no candidates.
fn simple_error(code: &str, message: Vec<char>) -> (r: QueryError)
    ensures
        r.code@ == code@,
        r.message@ == message@,
        r.matches@.len() == 0,
{
    QueryError { code: text(code), message: chars_to_string(message.as_slice()), matches: Vec::new() }
}

/// Node `i` lies in the target: in a file at or below it for path targets,
/// in the module or below it for module targets.
pub open spec fn in_target(cg: &CallGraph, i: int, target: Seq<char>, kind: TargetKind, f: FormatView) -> bool {
    match kind {
        TargetKind::Path => cg.nodes_arena@[i].filename matches Some(p) && crate::paths::strip_prefix(
            crate::paths::join_path(f.cwd, p@),
            crate::paths::join_path(f.cwd, target),
        ).is_some(),
        TargetKind::Module => module_matches(canonical(cg, i), target),
    }
}

impl QueryRenderOptions {
    /// How query output shows paths: below the root relative to it, the
    /// others relative to the working directory where they lie below it.
    pub open spec fn format_view(&self) -> FormatView {
        FormatView {
            root: match self.analysis_root {
                Some(r) => Some(crate::paths::join_path(self.cwd@, r@)),
                None => None,
            },
            cwd: self.cwd@,
            kind: crate::paths::PathKind::InputRelative,
        }
    }

    /// The path formatter of query output.
    pub fn formatter(&self) -> (r: PathFormatter)
        ensures
            r@ == self.format_view(),
    {
        let root: Option<&str> = match &self.analysis_root {
            Some(x) => Some(x.as_str()),
            None => None,
        };
        PathFormatter::for_queries(root, self.cwd.as_str())
    }
}

/// `ids` lists, each once and sorted by canonical name, the defined
/// reported nodes that lie in the target.
pub open spec fn lists_in_target(cg: &CallGraph, ids: Seq<NodeId>, target: Seq<char>, kind: TargetKind, f: FormatView) -> bool {
    &&& sorted_ids(cg, ids)
    &&& forall|k: int| 0 <= k < ids.len() ==> defined_public(cg, #[trigger] ids[k] as int) && in_target(cg, ids[k] as int, target, kind, f)
    &&& forall|i: int| #[trigger] defined_public(cg, i) && in_target(cg, i, target, kind, f) ==> ids.contains(i as NodeId)
}

/// The symbol is located in the file `p`.
pub open spec fn has_path(s: SymbolRef, p: Seq<char>) -> bool {
    s.location matches Some(l) && l.path@ == p
}

/// `paths` holds exactly the location paths of `syms`.
pub open spec fn paths_of(paths: Seq<Seq<char>>, syms: Seq<SymbolRef>) -> bool {
    forall|p: Seq<char>| #[trigger] paths.contains(p) <==> exists|k: int| 0 <= k < syms.len() && has_path(#[trigger] syms[k], p)
}

/// The location paths of some symbols.
fn symbol_paths(syms: &Vec<SymbolRef>) -> (r: Vec<String>)
    ensures
        paths_of(texts(r@), syms@),
{
    let mut out: Vec<String> = Vec::new();
    let mut k: usize = 0;
    while k < syms.len()
        invariant
            k <= syms@.len(),
            forall|p: Seq<char>| #[trigger] texts(out@).contains(p) <==> exists|j: int| 0 <= j < k && has_path(#[trigger] syms@[j], p),
        decreases syms.len() - k,
    {
        let ghost o0 = out@;
        let ghost tv0 = texts(o0);
        if let Some(l) = &syms[k].location {
            let c = copy_str(&l.path);
            out.push(c);
            proof {
                let tv = texts(out@);
                assert(tv =~= tv0.push(l.path@));
                assert(has_path(syms@[k as int], l.path@));
                assert forall|p: Seq<char>| #[trigger] texts(out@).contains(p) <==> exists|j: int| 0 <= j < k + 1 && has_path(#[trigger] syms@[j], p) by {
                    if tv.contains(p) {
                        let w = choose|w: int| 0 <= w < tv.len() && tv[w] == p;
                        if w < tv0.len() {
                            assert(tv0[w] == p);
                            assert(tv0.contains(p));
                        }
                    }
                    if exists|j: int| 0 <= j < k + 1 && has_path(#[trigger] syms@[j], p) {
                        let j = choose|j: int| 0 <= j < k + 1 && has_path(#[trigger] syms@[j], p);
                        if j < k {
                            assert(tv0.contains(p));
                            let w = choose|w: int| 0 <= w < tv0.len() && tv0[w] == p;
                            assert(tv[w] == p);
                        } else {
                            assert(tv[tv.len() - 1] == p);
                        }
                    }
                }
            }
        } else {
            proof {
                assert forall|p: Seq<char>| #[trigger] texts(out@).contains(p) <==> exists|j: int| 0 <= j < k + 1 && has_path(#[trigger] syms@[j], p) by {
                    if exists|j: int| 0 <= j < k + 1 && has_path(#[trigger] syms@[j], p) {
                        let j = choose|j: int| 0 <= j < k + 1 && has_path(#[trigger] syms@[j], p);
                        assert(j < k);
                    }
                }
            }
        }
        k = k + 1;
    }
    out
}

/// The symbol answer of `symbols_in` over the symbol graph: the symbols in
/// the target with their diagnostics, or `target_not_found`.
pub open spec fn symbols_answer(
    doc: QueryDocument<TargetQuery, Vec<SymbolRef>>,
    cg: &CallGraph,
    target: Seq<char>,
    kind: TargetKind,
    f: FormatView,
) -> bool {
    match doc {
        QueryDocument::Answered { query, payload, diagnostics } => {
            &&& query.target@ == target
            &&& query.target_kind@ == target_word(kind)
            &&& query.graph_mode@ == "symbol"@
            &&& exists|ids: Seq<NodeId>, paths: Seq<Seq<char>>|
                {
                    &&& ids.len() >= 1
                    &&& lists_in_target(cg, ids, target, kind, f)
                    &&& payload@.len() == ids.len()
                    &&& forall|k: int| 0 <= k < ids.len() ==> reports(#[trigger] payload@[k], cg.nodes_arena@[ids[k] as int], f, &cg.interner)
                    &&& paths_of(paths, payload@)
                    &&& diagnostics_of(diagnostics, cg, ids, paths, f)
                }
        },
        QueryDocument::Failed { query, error } => {
            &&& query.target@ == target
            &&& query.target_kind@ == target_word(kind)
            &&& query.graph_mode@ == "symbol"@
            &&& error.code@ == "target_not_found"@
            &&& error.message@ == "No symbols matched target '"@ + target + "'"@
            &&& error.matches@.len() == 0
            &&& forall|i: int| !(#[trigger] defined_public(cg, i) && in_target(cg, i, target, kind, f))
        },
    }
}

/// The symbols of the symbol graph in the target, sorted by canonical name.
fn symbols_in_graph(cg: &CallGraph, target: &str, target_kind: TargetKind, f: &PathFormatter) -> (r: QueryDocument<TargetQuery, Vec<SymbolRef>>)
    requires
        cg.wf(),
    ensures
        symbols_answer(r, cg, target@, target_kind, f@),
{
    let all = defined_public_node_ids(cg);
    let mut ids: Vec<NodeId> = Vec::new();
    let ghost mut picked: Seq<int> = Seq::empty();
    let mut k: usize = 0;
    while k < all.len()
        invariant
            cg.wf(),
            k <= all@.len(),
            lists_public(cg, all@),
            ids@.len() == picked.len(),
            forall|j: int| 0 <= j < picked.len() ==> 0 <= #[trigger] picked[j] < k && ids@[j] == all@[picked[j]],
            forall|a: int, b: int| 0 <= a < b < picked.len() ==> #[trigger] picked[a] < #[trigger] picked[b],
            forall|j: int| 0 <= j < ids@.len() ==> in_target(cg, #[trigger] ids@[j] as int, target@, target_kind, f@),
            forall|q: int| 0 <= q < k && in_target(cg, #[trigger] all@[q] as int, target@, target_kind, f@) ==> ids@.contains(all@[q]),
        decreases all.len() - k,
    {
        let id = all[k];
        proof {
            assert(defined_public(cg, id as int));
            assert(cg.nodes_arena@[id as int].ids_in(&cg.interner));
        }
        let node = &cg.nodes_arena[id];
        let hit = match target_kind {
            TargetKind::Path => match &node.filename {
                Some(p) => f.path_matches_target(p.as_str(), target),
                None => false,
            },
            TargetKind::Module => module_matches_target(node.get_name(&cg.interner).as_str(), target),
        };
        let ghost i0 = ids@;
        if hit {
            ids.push(id);
            proof {
                picked = picked.push(k as int);
            }
        }
        proof {
            assert forall|q: int| 0 <= q < k + 1 && in_target(cg, #[trigger] all@[q] as int, target@, target_kind, f@) implies ids@.contains(all@[q]) by {
                if q == k {
                    assert(ids@[ids@.len() - 1] == id);
                } else {
                    assert(i0.contains(all@[q]));
                    let w = choose|w: int| 0 <= w < i0.len() && i0[w] == all@[q];
                    assert(ids@[w] == i0[w]);
                }
            }
            assert forall|j: int| 0 <= j < ids@.len() implies in_target(cg, #[trigger] ids@[j] as int, target@, target_kind, f@) by {
                if j < i0.len() {
                    assert(ids@[j] == i0[j]);
                }
            }
        }
        k = k + 1;
    }
    let query = target_query(target, target_kind, QueryGraphMode::Symbol);
    proof {
        assert forall|a: int, b: int| 0 <= a < ids@.len() && 0 <= b < ids@.len() && a != b implies #[trigger] ids@[a] != #[trigger] ids@[b] by {
            assert(picked[a] != picked[b]);
            assert(all@[picked[a]] != all@[picked[b]]);
        }
        assert forall|a: int, b: int| 0 <= a < b < ids@.len() implies !seq_less(canonical(cg, #[trigger] ids@[b] as int), canonical(cg, #[trigger] ids@[a] as int)) by {
            assert(picked[a] < picked[b]);
        }
        assert forall|k: int| 0 <= k < ids@.len() implies #[trigger] ids@[k] < cg.nodes_arena@.len() by {
            assert(defined_public(cg, all@[picked[k]] as int));
        }
        assert forall|k: int| 0 <= k < ids@.len() implies defined_public(cg, #[trigger] ids@[k] as int) && in_target(cg, ids@[k] as int, target@, target_kind, f@) by {
            assert(defined_public(cg, all@[picked[k]] as int));
        }
        assert forall|i: int| #[trigger] defined_public(cg, i) && in_target(cg, i, target@, target_kind, f@) implies ids@.contains(i as NodeId) by {
            assert(all@.contains(i as NodeId));
            assert(cg.nodes_arena@.len() == cg.nodes_arena.len());
            let q = choose|q: int| 0 <= q < all@.len() && all@[q] == i as NodeId;
            assert(all@[q] as int == i);
            assert(in_target(cg, all@[q] as int, target@, target_kind, f@));
        }
    }
    if ids.len() == 0 {
        let mut m: Vec<char> = Vec::new();
        push_str(&mut m, "No symbols matched target '");
        push_str(&mut m, target);
        push_str(&mut m, "'");
        proof {
            assert(m@ =~= "No symbols matched target '"@ + target@ + "'"@);
            assert forall|i: int| !(#[trigger] defined_public(cg, i) && in_target(cg, i, target@, target_kind, f@)) by {
                if defined_public(cg, i) && in_target(cg, i, target@, target_kind, f@) {
                    assert(ids@.contains(i as NodeId));
                }
            }
        }
        let r = QueryDocument::Failed { query, error: simple_error("target_not_found", m) };
        proof {
            assert(symbols_answer(r, cg, target@, target_kind, f@));
        }
        return r;
    }
    let mut symbols: Vec<SymbolRef> = Vec::new();
    let mut j: usize = 0;
    while j < ids.len()
        invariant
            cg.wf(),
            j <= ids@.len(),
            forall|k: int| 0 <= k < ids@.len() ==> defined_public(cg, #[trigger] ids@[k] as int),
            symbols@.len() == j,
            forall|k: int| 0 <= k < j ==> reports(#[trigger] symbols@[k], cg.nodes_arena@[ids@[k] as int], f@, &cg.interner),
        decreases ids.len() - j,
    {
        proof {
            assert(defined_public(cg, ids@[j as int] as int));
            assert(cg.nodes_arena@[ids@[j as int] as int].ids_in(&cg.interner));
        }
        match symbol_ref(&cg.nodes_arena[ids[j]], f, &cg.interner) {
            Some(sref) => {
                symbols.push(sref);
            },
            None => {
                proof {
                    assert(false);
                }
            },
        }
        j = j + 1;
    }
    let paths = symbol_paths(&symbols);
    let diagnostics = collect_query_diagnostics(cg, &ids, &paths, f);
    let ghost pv = texts(paths@);
    let ghost sv = symbols@;
    let ghost dg = diagnostics;
    proof {
        assert(diagnostics_of(dg, cg, ids@, pv, f@));
    }
    let r = QueryDocument::Answered { query, payload: symbols, diagnostics };
    proof {
        assert(r->payload@ == sv);
        assert(r->diagnostics == dg);
        assert(ids@.len() >= 1);
        assert(lists_in_target(cg, ids@, target@, target_kind, f@));
        assert(paths_of(pv, sv));
        assert(forall|k: int| 0 <= k < ids@.len() ==> reports(#[trigger] sv[k], cg.nodes_arena@[ids@[k] as int], f@, &cg.interner));
        assert(symbols_answer(r, cg, target@, target_kind, f@));
    }
    r
}

/// Two symbol reports say the same.
pub open spec fn same_symbol(a: SymbolRef, b: SymbolRef) -> bool {
    &&& a.canonical_name@ == b.canonical_name@
    &&& a.kind@ == b.kind@
    &&& opt_text(a.name) == opt_text(b.name)
    &&& opt_text(a.namespace) == opt_text(b.namespace)
    &&& match a.location {
        Some(la) => b.location matches Some(lb) && la.path@ == lb.path@ && la.line == lb.line,
        None => b.location.is_none(),
    }
}

/// A copy of a symbol report.
fn copy_symbol(s: &SymbolRef) -> (r: SymbolRef)
    ensures
        same_symbol(r, *s),
{
    SymbolRef {
        canonical_name: copy_str(&s.canonical_name),
        kind: copy_str(&s.kind),
        name: copy_opt_string(&s.name),
        namespace: copy_opt_string(&s.namespace),
        location: match &s.location {
            Some(l) => Some(Location { path: copy_str(&l.path), line: l.line }),
            None => None,
        },
    }
}

/// `s` says the same as some report of `v`.
pub open spec fn from_some(s: SymbolRef, v: Seq<SymbolRef>) -> bool {
    exists|j: int| 0 <= j < v.len() && same_symbol(s, #[trigger] v[j])
}

/// Symbol reports sorted by canonical name.
fn sort_symbols(v: &Vec<SymbolRef>) -> (r: Vec<SymbolRef>)
    ensures
        r@.len() == v@.len(),
        forall|k: int| 0 <= k < r@.len() ==> #[trigger] from_some(r@[k], v@),
        forall|j: int| 0 <= j < v@.len() ==> #[trigger] from_some(v@[j], r@),
        forall|a: int, b: int| 0 <= a < b < r@.len() ==> !seq_less((#[trigger] r@[b]).canonical_name@, (#[trigger] r@[a]).canonical_name@),
{
    let mut keys: Vec<Vec<KeyPart>> = Vec::new();
    let mut i: usize = 0;
    while i < v.len()
        invariant
            i <= v@.len(),
            keys@.len() == i,
            forall|k: int| 0 <= k < i ==> key_view((#[trigger] keys@[k])@) == seq![KeyV::Text(v@[k].canonical_name@)],
        decreases v.len() - i,
    {
        let mut key: Vec<KeyPart> = Vec::new();
        push_text_key(&mut key, &v[i].canonical_name);
        proof {
            assert(key_view(key@) =~= seq![KeyV::Text(v@[i as int].canonical_name@)]);
        }
        keys.push(key);
        i = i + 1;
    }
    let ghost kv = keys@;
    let perm = key_order(keys);
    let mut out: Vec<SymbolRef> = Vec::new();
    let mut k: usize = 0;
    while k < perm.len()
        invariant
            k <= perm@.len(),
            perm@.len() == v@.len(),
            kv.len() == v@.len(),
            forall|j: int| 0 <= j < perm@.len() ==> #[trigger] perm@[j] < kv.len(),
            out@.len() == k,
            forall|j: int| 0 <= j < k ==> same_symbol(#[trigger] out@[j], v@[perm@[j] as int]),
        decreases perm.len() - k,
    {
        out.push(copy_symbol(&v[perm[k]]));
        k = k + 1;
    }
    proof {
        assert forall|k: int| 0 <= k < out@.len() implies #[trigger] from_some(out@[k], v@) by {
            assert(same_symbol(out@[k], v@[perm@[k] as int]));
        }
        assert forall|j: int| 0 <= j < v@.len() implies #[trigger] from_some(v@[j], out@) by {
            assert(perm@.contains(j as usize));
            let k = choose|k: int| 0 <= k < perm@.len() && perm@[k] == j as usize;
            assert(same_symbol(out@[k], v@[j]));
        }
        assert forall|a: int, b: int| 0 <= a < b < out@.len() implies !seq_less((#[trigger] out@[b]).canonical_name@, (#[trigger] out@[a]).canonical_name@) by {
            assert(key_view(kv[perm@[a] as int]@) == seq![KeyV::Text(v@[perm@[a] as int].canonical_name@)]);
            assert(key_view(kv[perm@[b] as int]@) == seq![KeyV::Text(v@[perm@[b] as int].canonical_name@)]);
            lemma_text_key_order(v@[perm@[b] as int].canonical_name@, v@[perm@[a] as int].canonical_name@);
        }
    }
    out
}

/// Module node `n` lies in the target: in its file, directory or module.
#[verifier::opaque]
pub open spec fn module_in_target(n: Node, interner: &Interner, target: Seq<char>, kind: TargetKind, f: FormatView) -> bool {
    match kind {
        TargetKind::Path => n.filename matches Some(p) && crate::paths::strip_prefix(
            crate::paths::join_path(f.cwd, p@),
            crate::paths::join_path(f.cwd, target),
        ).is_some(),
        TargetKind::Module => module_matches(n.full_name(interner), target),
    }
}

/// `r` reports module node `node`.
#[verifier::opaque]
pub open spec fn reports_module(r: SymbolRef, node: Node, f: FormatView, interner: &Interner) -> bool {
    reports(r, node, f, interner)
}

/// `r` reports one of the first `upto` nodes of `nodes`, one that lies in
/// the target.
#[verifier::opaque]
pub open spec fn reports_one_upto(
    r: SymbolRef,
    nodes: Seq<Node>,
    upto: int,
    interner: &Interner,
    target: Seq<char>,
    kind: TargetKind,
    f: FormatView,
) -> bool {
    exists|j: int|
        0 <= j < upto && j < nodes.len() && module_in_target(nodes[j], interner, target, kind, f) && #[trigger] reports_module(
            r,
            nodes[j],
            f,
            interner,
        )
}

/// Some item of `payload` reports `node`.
#[verifier::opaque]
pub open spec fn listed_in(node: Node, payload: Seq<SymbolRef>, interner: &Interner, f: FormatView) -> bool {
    exists|k: int| 0 <= k < payload.len() && #[trigger] reports_module(payload[k], node, f, interner)
}

/// `payload` reports exactly the nodes of `nodes` that lie in the target.
pub open spec fn reports_modules_in_target(
    payload: Seq<SymbolRef>,
    nodes: Seq<Node>,
    interner: &Interner,
    target: Seq<char>,
    kind: TargetKind,
    f: FormatView,
) -> bool {
    &&& forall|k: int|
        0 <= k < payload.len() ==> reports_one_upto(#[trigger] payload[k], nodes, nodes.len() as int, interner, target, kind, f)
    &&& forall|i: int|
        0 <= i < nodes.len() && module_in_target(nodes[i], interner, target, kind, f) ==> listed_in(
            #[trigger] nodes[i],
            payload,
            interner,
            f,
        )
}

/// The module answer of `symbols_in` over the module graph of `before`
/// (its names read through the interner of `after`): the modules in the
/// target, sorted by canonical name, with the diagnostics of their files;
/// or `target_not_found` when no module lies in the target.
pub open spec fn modules_answer(
    doc: QueryDocument<TargetQuery, Vec<SymbolRef>>,
    before: &CallGraph,
    after: &CallGraph,
    target: Seq<char>,
    kind: TargetKind,
    f: FormatView,
) -> bool {
    match doc {
        QueryDocument::Answered { query, payload, diagnostics } => {
            &&& query.target@ == target
            &&& query.target_kind@ == target_word(kind)
            &&& query.graph_mode@ == "module"@
            &&& payload@.len() >= 1
            &&& exists|nodes: Seq<Node>, edges: Seq<ValueSet>|
                #[trigger] before.is_module_graph(nodes, edges, &after.interner) && reports_modules_in_target(
                    payload@,
                    nodes,
                    &after.interner,
                    target,
                    kind,
                    f,
                )
            &&& forall|a: int, b: int| 0 <= a < b < payload@.len() ==> !seq_less((#[trigger] payload@[b]).canonical_name@, (#[trigger] payload@[a]).canonical_name@)
            &&& exists|paths: Seq<Seq<char>>| paths_of(paths, payload@) && diagnostics_of(diagnostics, after, Seq::empty(), paths, f)
        },
        QueryDocument::Failed { query, error } => {
            &&& query.target@ == target
            &&& query.target_kind@ == target_word(kind)
            &&& query.graph_mode@ == "module"@
            &&& error.code@ == "target_not_found"@
            &&& error.message@ == "No modules matched target '"@ + target + "'"@
            &&& error.matches@.len() == 0
            &&& exists|nodes: Seq<Node>, edges: Seq<ValueSet>|
                #[trigger] before.is_module_graph(nodes, edges, &after.interner) && forall|i: int|
                    0 <= i < nodes.len() ==> !module_in_target(#[trigger] nodes[i], &after.interner, target, kind, f)
        },
    }
}

/// A report the same as one of `node` reports `node`.
proof fn lemma_same_report(a: SymbolRef, b: SymbolRef, node: Node, f: FormatView, interner: &Interner)
    requires
        same_symbol(a, b),
        reports_module(b, node, f, interner),
    ensures
        reports_module(a, node, f, interner),
{
    reveal(reports_module);
}

/// Reporting one of the first nodes stays true of more of them.
proof fn lemma_upto_grows(r: SymbolRef, nodes: Seq<Node>, i: int, interner: &Interner, target: Seq<char>, kind: TargetKind, f: FormatView)
    requires
        reports_one_upto(r, nodes, i, interner, target, kind, f),
    ensures
        reports_one_upto(r, nodes, i + 1, interner, target, kind, f),
{
    reveal(reports_one_upto);
    let j = choose|j: int|
        0 <= j < i && j < nodes.len() && module_in_target(nodes[j], interner, target, kind, f) && #[trigger] reports_module(
            r,
            nodes[j],
            f,
            interner,
        );
    assert(0 <= j < i + 1 && j < nodes.len() && module_in_target(nodes[j], interner, target, kind, f) && reports_module(r, nodes[j], f, interner));
}

/// A report of node `i`, which lies in the target, reports one of the
/// first `i + 1` nodes.
proof fn lemma_upto_new(r: SymbolRef, nodes: Seq<Node>, i: int, interner: &Interner, target: Seq<char>, kind: TargetKind, f: FormatView)
    requires
        0 <= i < nodes.len(),
        module_in_target(nodes[i], interner, target, kind, f),
        reports_module(r, nodes[i], f, interner),
    ensures
        reports_one_upto(r, nodes, i + 1, interner, target, kind, f),
{
    reveal(reports_one_upto);
    assert(0 <= i < i + 1 && i < nodes.len() && module_in_target(nodes[i], interner, target, kind, f) && reports_module(r, nodes[i], f, interner));
}

/// A report the same as one of the nodes' reports one of them too.
proof fn lemma_upto_same(a: SymbolRef, b: SymbolRef, nodes: Seq<Node>, i: int, interner: &Interner, target: Seq<char>, kind: TargetKind, f: FormatView)
    requires
        same_symbol(a, b),
        reports_one_upto(b, nodes, i, interner, target, kind, f),
    ensures
        reports_one_upto(a, nodes, i, interner, target, kind, f),
{
    reveal(reports_one_upto);
    let j = choose|j: int|
        0 <= j < i && j < nodes.len() && module_in_target(nodes[j], interner, target, kind, f) && #[trigger] reports_module(
            b,
            nodes[j],
            f,
            interner,
        );
    lemma_same_report(a, b, nodes[j], f, interner);
    assert(0 <= j < i && j < nodes.len() && module_in_target(nodes[j], interner, target, kind, f) && reports_module(a, nodes[j], f, interner));
}

/// A node listed in `payload` stays listed when a report is added.
proof fn lemma_listed_push(node: Node, payload: Seq<SymbolRef>, x: SymbolRef, interner: &Interner, f: FormatView)
    requires
        listed_in(node, payload, interner, f) || reports_module(x, node, f, interner),
    ensures
        listed_in(node, payload.push(x), interner, f),
{
    reveal(listed_in);
    if listed_in(node, payload, interner, f) {
        let k = choose|k: int| 0 <= k < payload.len() && #[trigger] reports_module(payload[k], node, f, interner);
        assert(payload.push(x)[k] == payload[k]);
    } else {
        assert(payload.push(x)[payload.len() as int] == x);
    }
}

/// Nothing is listed in no reports.
proof fn lemma_listed_none(node: Node, interner: &Interner, f: FormatView)
    ensures
        !listed_in(node, Seq::empty(), interner, f),
{
    reveal(listed_in);
}

/// A node listed in `v` is listed in `w` when every item of `v` is the
/// same as one of `w`.
proof fn lemma_listed_moved(node: Node, v: Seq<SymbolRef>, w: Seq<SymbolRef>, interner: &Interner, f: FormatView)
    requires
        listed_in(node, v, interner, f),
        forall|j: int| 0 <= j < v.len() ==> #[trigger] from_some(v[j], w),
    ensures
        listed_in(node, w, interner, f),
{
    reveal(listed_in);
    let j = choose|j: int| 0 <= j < v.len() && #[trigger] reports_module(v[j], node, f, interner);
    assert(from_some(v[j], w));
    let k = choose|k: int| 0 <= k < w.len() && same_symbol(v[j], #[trigger] w[k]);
    lemma_same_report(w[k], v[j], node, f, interner);
}

/// The reports of the module nodes `nodes` that lie in the target, in
/// their order.
fn module_reports(nodes: &Vec<Node>, interner: &Interner, target: &str, target_kind: TargetKind, f: &PathFormatter) -> (r: Vec<SymbolRef>)
    requires
        forall|k: int| 0 <= k < nodes@.len() ==> #[trigger] nodes@[k].ids_in(interner),
        forall|k: int| 0 <= k < nodes@.len() ==> (#[trigger] nodes@[k]).flavor == Flavor::Module,
    ensures
        reports_modules_in_target(r@, nodes@, interner, target@, target_kind, f@),
{
    let ghost gn = nodes@;
    let mut found: Vec<SymbolRef> = Vec::new();
    let mut i: usize = 0;
    while i < nodes.len()
        invariant
            i <= nodes@.len(),
            gn == nodes@,
            forall|k: int| 0 <= k < nodes@.len() ==> #[trigger] nodes@[k].ids_in(interner),
            forall|k: int| 0 <= k < nodes@.len() ==> (#[trigger] nodes@[k]).flavor == Flavor::Module,
            forall|k: int|
                0 <= k < found@.len() ==> reports_one_upto(#[trigger] found@[k], gn, i as int, interner, target@, target_kind, f@),
            forall|j: int|
                0 <= j < i && module_in_target(gn[j], interner, target@, target_kind, f@) ==> listed_in(
                    #[trigger] gn[j],
                    found@,
                    interner,
                    f@,
                ),
        decreases nodes.len() - i,
    {
        let node = &nodes[i];
        proof {
            assert(nodes@[i as int].ids_in(interner));
            assert(nodes@[i as int].flavor == Flavor::Module);
        }
        let name = node.get_name(interner);
        let hit = match target_kind {
            TargetKind::Path => match &node.filename {
                Some(p) => f.path_matches_target(p.as_str(), target),
                None => false,
            },
            TargetKind::Module => module_matches_target(name.as_str(), target),
        };
        let ghost f0 = found@;
        proof {
            reveal(module_in_target);
            assert(hit == module_in_target(gn[i as int], interner, target@, target_kind, f@));
            assert forall|k: int| 0 <= k < f0.len() implies reports_one_upto(
                #[trigger] f0[k],
                gn,
                i as int + 1,
                interner,
                target@,
                target_kind,
                f@,
            ) by {
                lemma_upto_grows(f0[k], gn, i as int, interner, target@, target_kind, f@);
            }
        }
        if hit {
            match symbol_ref(node, f, interner) {
                Some(sref) => {
                    found.push(sref);
                    proof {
                        reveal(reports_module);
                        assert(reports_module(sref, gn[i as int], f@, interner));
                        lemma_upto_new(sref, gn, i as int, interner, target@, target_kind, f@);
                        assert(found@ == f0.push(sref));
                        assert forall|j: int|
                            0 <= j < i + 1 && module_in_target(gn[j], interner, target@, target_kind, f@) implies listed_in(
                            #[trigger] gn[j],
                            found@,
                            interner,
                            f@,
                        ) by {
                            lemma_listed_push(gn[j], f0, sref, interner, f@);
                        }
                    }
                },
                None => {
                    proof {
                        assert(public_kind(Flavor::Module).is_some());
                    }
                },
            }
        }
        i = i + 1;
    }
    found
}

/// The modules of the module graph in the target, sorted by canonical name.
fn symbols_in_modules(cg: &mut CallGraph, target: &str, target_kind: TargetKind, f: &PathFormatter) -> (r: QueryDocument<TargetQuery, Vec<SymbolRef>>)
    requires
        old(cg).wf(),
    ensures
        final(cg).wf(),
        final(cg).nodes_arena == old(cg).nodes_arena,
        final(cg).uses_edges == old(cg).uses_edges,
        final(cg).defines_edges == old(cg).defines_edges,
        final(cg).defined == old(cg).defined,
        final(cg).diagnostics == old(cg).diagnostics,
        old(cg).grows_to(final(cg)),
        modules_answer(r, old(cg), final(cg), target@, target_kind, f@),
{
    let (nodes, edges, _defined) = cg.derive_module_graph();
    let ghost gn = nodes@;
    let ghost ge = edges@;
    proof {
        assert forall|k: int| 0 <= k < nodes@.len() implies (#[trigger] nodes@[k]).flavor == Flavor::Module by {
            assert(old(cg).is_module_graph(gn, ge, &cg.interner));
        }
    }
    let found = module_reports(&nodes, &cg.interner, target, target_kind, f);
    let query = target_query(target, target_kind, QueryGraphMode::Module);
    if found.len() == 0 {
        let mut m: Vec<char> = Vec::new();
        push_str(&mut m, "No modules matched target '");
        push_str(&mut m, target);
        push_str(&mut m, "'");
        proof {
            assert(m@ =~= "No modules matched target '"@ + target@ + "'"@);
            assert(found@ =~= Seq::<SymbolRef>::empty());
            assert forall|j: int| 0 <= j < gn.len() implies !module_in_target(#[trigger] gn[j], &cg.interner, target@, target_kind, f@) by {
                lemma_listed_none(gn[j], &cg.interner, f@);
            }
            assert(old(cg).is_module_graph(gn, ge, &cg.interner));
        }
        return QueryDocument::Failed { query, error: simple_error("target_not_found", m) };
    }
    let symbols = sort_symbols(&found);
    let paths = symbol_paths(&symbols);
    let none: Vec<NodeId> = Vec::new();
    let diagnostics = collect_query_diagnostics(cg, &none, &paths, f);
    let ghost pv = texts(paths@);
    let ghost sv = symbols@;
    let ghost dg = diagnostics;
    proof {
        assert(none@ =~= Seq::<NodeId>::empty());
        assert(diagnostics_of(dg, cg, Seq::empty(), pv, f@));
        assert forall|k: int| 0 <= k < sv.len() implies reports_one_upto(
            #[trigger] sv[k],
            gn,
            gn.len() as int,
            &cg.interner,
            target@,
            target_kind,
            f@,
        ) by {
            assert(from_some(sv[k], found@));
            let j = choose|j: int| 0 <= j < found@.len() && same_symbol(sv[k], #[trigger] found@[j]);
            lemma_upto_same(sv[k], found@[j], gn, gn.len() as int, &cg.interner, target@, target_kind, f@);
        }
        assert forall|i: int|
            0 <= i < gn.len() && module_in_target(gn[i], &cg.interner, target@, target_kind, f@) implies listed_in(
            #[trigger] gn[i],
            sv,
            &cg.interner,
            f@,
        ) by {
            lemma_listed_moved(gn[i], found@, sv, &cg.interner, f@);
        }
        assert(reports_modules_in_target(sv, gn, &cg.interner, target@, target_kind, f@));
        assert(old(cg).is_module_graph(gn, ge, &cg.interner));
    }
    let r = QueryDocument::Answered { query, payload: symbols, diagnostics };
    proof {
        assert(r->payload@ == sv);
        assert(r->diagnostics == dg);
        assert(paths_of(pv, sv));
    }
    r
}

/// List the symbols defined in a file, directory or module.
///
/// Over the symbol graph: the defined symbols of reported kinds in the
/// target, by canonical name, with the diagnostics of their sources and
/// files. Over the module graph: the modules in the target, with the
/// diagnostics of their files. An error when nothing is in the target.
pub fn symbols_in(
    cg: &mut CallGraph,
    target: &str,
    target_kind: TargetKind,
    graph_mode: QueryGraphMode,
    render_options: &QueryRenderOptions,
) -> (r: QueryResponse)
    requires
        old(cg).wf(),
    ensures
        final(cg).wf(),
        final(cg).nodes_arena == old(cg).nodes_arena,
        final(cg).uses_edges == old(cg).uses_edges,
        final(cg).defines_edges == old(cg).defines_edges,
        final(cg).defined == old(cg).defined,
        final(cg).diagnostics == old(cg).diagnostics,
        old(cg).grows_to(final(cg)),
        r.0 matches QueryResponseInner::SymbolsIn(doc) && (graph_mode == QueryGraphMode::Symbol ==> symbols_answer(
            doc,
            final(cg),
            target@,
            target_kind,
            render_options.format_view(),
        )) && (graph_mode == QueryGraphMode::Module ==> modules_answer(
            doc,
            old(cg),
            final(cg),
            target@,
            target_kind,
            render_options.format_view(),
        )),
{
    let f = render_options.formatter();
    match graph_mode {
        QueryGraphMode::Symbol => {
            let doc = symbols_in_graph(cg, target, target_kind, &f);
            proof {
                assert(old(cg).grows_to(cg)) by {
                    assert(cg.interner@ == old(cg).interner@);
                }
            }
            QueryResponse(QueryResponseInner::SymbolsIn(doc))
        },
        QueryGraphMode::Module => {
            let doc = symbols_in_modules(cg, target, target_kind, &f);
            QueryResponse(QueryResponseInner::SymbolsIn(doc))
        },
    }
}

/// Which uses edges a summary counts.
pub enum EdgeCount {
    /// Every edge.
    All,
    /// Edges from defined sources into the symbols.
    Incoming,
    /// Edges from the symbols to defined targets.
    Outgoing,
    /// Edges from defined sources to the defined node named so.
    Callers(Seq<char>),
    /// Edges from the node named so to defined targets.
    Callees(Seq<char>),
}

/// Whether the edge from `s` to `t` is counted.
pub open spec fn counted(cg: &CallGraph, names: Seq<Seq<char>>, which: EdgeCount, s: int, t: int) -> bool {
    match which {
        EdgeCount::All => true,
        EdgeCount::Incoming => cg.defined@[s] && names.contains(canonical(cg, t)),
        EdgeCount::Outgoing => names.contains(canonical(cg, s)) && cg.defined@[t],
        EdgeCount::Callers(n) => cg.defined@[t] && canonical(cg, t) == n && cg.defined@[s],
        EdgeCount::Callees(n) => cg.defined@[t] && canonical(cg, s) == n,
    }
}

/// Counted edges among the first `lim` edges of source `s`.
pub open spec fn row_count(cg: &CallGraph, names: Seq<Seq<char>>, which: EdgeCount, s: int, lim: int) -> nat
    decreases lim,
{
    if lim <= 0 {
        0
    } else {
        row_count(cg, names, which, s, lim - 1) + if counted(cg, names, which, s, cg.uses_edges@[s]@[lim - 1] as int) {
            1nat
        } else {
            0nat
        }
    }
}

/// Counted edges of the first `lim` sources.
pub open spec fn rows_count(cg: &CallGraph, names: Seq<Seq<char>>, which: EdgeCount, lim: int) -> nat
    decreases lim,
{
    if lim <= 0 {
        0
    } else {
        rows_count(cg, names, which, lim - 1) + row_count(cg, names, which, lim - 1, cg.uses_edges@[lim - 1]@.len() as int)
    }
}

/// Counted uses edges of the graph.
pub open spec fn edge_count(cg: &CallGraph, names: Seq<Seq<char>>, which: EdgeCount) -> nat {
    rows_count(cg, names, which, cg.nodes_arena@.len() as int)
}

proof fn lemma_row_le_all(cg: &CallGraph, names: Seq<Seq<char>>, which: EdgeCount, s: int, lim: int)
    ensures
        row_count(cg, names, which, s, lim) <= row_count(cg, names, EdgeCount::All, s, lim),
    decreases lim,
{
    if lim > 0 {
        lemma_row_le_all(cg, names, which, s, lim - 1);
    }
}

proof fn lemma_rows_le_all(cg: &CallGraph, names: Seq<Seq<char>>, which: EdgeCount, lim: int)
    ensures
        rows_count(cg, names, which, lim) <= rows_count(cg, names, EdgeCount::All, lim),
    decreases lim,
{
    if lim > 0 {
        lemma_rows_le_all(cg, names, which, lim - 1);
        lemma_row_le_all(cg, names, which, lim - 1, cg.uses_edges@[lim - 1]@.len() as int);
    }
}

proof fn lemma_rows_grow(cg: &CallGraph, names: Seq<Seq<char>>, which: EdgeCount, a: int, b: int)
    requires
        0 <= a <= b,
    ensures
        rows_count(cg, names, which, a) <= rows_count(cg, names, which, b),
    decreases b - a,
{
    if a < b {
        lemma_rows_grow(cg, names, which, a, b - 1);
    }
}

proof fn lemma_row_grow(cg: &CallGraph, names: Seq<Seq<char>>, which: EdgeCount, s: int, a: int, b: int)
    requires
        0 <= a <= b,
    ensures
        row_count(cg, names, which, s, a) <= row_count(cg, names, which, s, b),
    decreases b - a,
{
    if a < b {
        lemma_row_grow(cg, names, which, s, a, b - 1);
    }
}

/// The number of uses edges, if it fits in a `usize`.
pub fn uses_edge_total(cg: &CallGraph) -> (r: Option<usize>)
    requires
        cg.wf(),
    ensures
        match r {
            Some(t) => t == edge_count(cg, Seq::empty(), EdgeCount::All),
            None => edge_count(cg, Seq::empty(), EdgeCount::All) > usize::MAX,
        },
{
    let ghost names: Seq<Seq<char>> = Seq::empty();
    let n = cg.nodes_arena.len();
    let mut acc: usize = 0;
    let mut s: usize = 0;
    while s < n
        invariant
            cg.wf(),
            n == cg.nodes_arena@.len(),
            s <= n,
            names == Seq::<Seq<char>>::empty(),
            acc == rows_count(cg, names, EdgeCount::All, s as int),
        decreases n - s,
    {
        let len = cg.uses_edges[s].len();
        proof {
            assert(cg.uses_edges@[s as int]@.len() == len);
            lemma_row_all_is_len(cg, names, s as int, len as int);
            assert(rows_count(cg, names, EdgeCount::All, s as int + 1) == acc + len);
        }
        if acc > usize::MAX - len {
            proof {
                lemma_rows_grow(cg, names, EdgeCount::All, s as int + 1, n as int);
                assert(names == Seq::<Seq<char>>::empty());
            }
            return None;
        }
        acc = acc + len;
        s = s + 1;
    }
    Some(acc)
}

proof fn lemma_row_all_is_len(cg: &CallGraph, names: Seq<Seq<char>>, s: int, lim: int)
    requires
        0 <= lim,
    ensures
        row_count(cg, names, EdgeCount::All, s, lim) == lim,
    decreases lim,
{
    if lim > 0 {
        lemma_row_all_is_len(cg, names, s, lim - 1);
    }
}

/// The kind of count an edge counter runs.
#[derive(Debug, Clone, Copy, PartialEq, Eq, Structural)]
enum CountKind {
    Incoming,
    Outgoing,
    Callers,
    Callees,
}

/// The counted edges for an exec count kind.
spec fn count_which(k: CountKind, name: Seq<char>) -> EdgeCount {
    match k {
        CountKind::Incoming => EdgeCount::Incoming,
        CountKind::Outgoing => EdgeCount::Outgoing,
        CountKind::Callers => EdgeCount::Callers(name),
        CountKind::Callees => EdgeCount::Callees(name),
    }
}

/// Count the uses edges of one kind.
fn count_uses(cg: &CallGraph, names: &Vec<Vec<char>>, kind: CountKind, name: &[char]) -> (r: usize)
    requires
        cg.wf(),
        edge_count(cg, crate::text::char_views(names@), EdgeCount::All) <= usize::MAX,
    ensures
        r == edge_count(cg, crate::text::char_views(names@), count_which(kind, name@)),
{
    let ghost nv = crate::text::char_views(names@);
    let ghost which = count_which(kind, name@);
    let n = cg.nodes_arena.len();
    let mut acc: usize = 0;
    let mut s: usize = 0;
    proof {
        lemma_rows_le_all(cg, nv, which, n as int);
    }
    while s < n
        invariant
            cg.wf(),
            n == cg.nodes_arena@.len(),
            s <= n,
            nv == crate::text::char_views(names@),
            which == count_which(kind, name@),
            rows_count(cg, nv, which, n as int) <= usize::MAX,
            acc == rows_count(cg, nv, which, s as int),
        decreases n - s,
    {
        proof {
            assert(crate::analyzer::graph::set_in(cg.uses_edges@[s as int], n as nat));
            assert(cg.nodes_arena@[s as int].ids_in(&cg.interner));
        }
        let targets = cg.uses_edges[s].as_slice();
        let src_name = str_to_chars(cg.nodes_arena[s].get_name(&cg.interner).as_str());
        let src_in = contains_text(names, src_name.as_slice());
        let mut m: usize = 0;
        while m < targets.len()
            invariant
                cg.wf(),
                n == cg.nodes_arena@.len(),
                s < n,
                targets@ == cg.uses_edges@[s as int]@,
                crate::analyzer::graph::set_in(cg.uses_edges@[s as int], n as nat),
                nv == crate::text::char_views(names@),
                which == count_which(kind, name@),
                src_name@ == canonical(cg, s as int),
                src_in == nv.contains(canonical(cg, s as int)),
                m <= targets@.len(),
                rows_count(cg, nv, which, n as int) <= usize::MAX,
                acc == rows_count(cg, nv, which, s as int) + row_count(cg, nv, which, s as int, m as int),
            decreases targets.len() - m,
        {
            let t = targets[m];
            proof {
                assert(t < n);
                assert(cg.nodes_arena@[t as int].ids_in(&cg.interner));
            }
            let tgt_name = str_to_chars(cg.nodes_arena[t].get_name(&cg.interner).as_str());
            let hit = match kind {
                CountKind::Incoming => cg.defined[s] && contains_text(names, tgt_name.as_slice()),
                CountKind::Outgoing => src_in && cg.defined[t],
                CountKind::Callers => cg.defined[t] && chars_eq(tgt_name.as_slice(), name) && cg.defined[s],
                CountKind::Callees => cg.defined[t] && chars_eq(src_name.as_slice(), name),
            };
            proof {
                assert(targets@[m as int] == t);
                assert(hit == counted(cg, nv, which, s as int, t as int));
                lemma_row_grow(cg, nv, which, s as int, m as int + 1, targets@.len() as int);
                lemma_rows_grow(cg, nv, which, s as int + 1, n as int);
            }
            if hit {
                acc = acc + 1;
            }
            m = m + 1;
        }
        s = s + 1;
    }
    acc
}

proof fn lemma_all_same_edges(c1: &CallGraph, c2: &CallGraph, names: Seq<Seq<char>>, lim: int)
    requires
        c1.uses_edges@ == c2.uses_edges@,
    ensures
        rows_count(c1, names, EdgeCount::All, lim) == rows_count(c2, names, EdgeCount::All, lim),
    decreases lim,
{
    if lim > 0 {
        lemma_all_same_edges(c1, c2, names, lim - 1);
        lemma_row_all_is_len(c1, names, lim - 1, c1.uses_edges@[lim - 1]@.len() as int);
        lemma_row_all_is_len(c2, names, lim - 1, c2.uses_edges@[lim - 1]@.len() as int);
    }
}

proof fn lemma_all_free(cg: &CallGraph, a: Seq<Seq<char>>, b: Seq<Seq<char>>, lim: int)
    ensures
        rows_count(cg, a, EdgeCount::All, lim) == rows_count(cg, b, EdgeCount::All, lim),
    decreases lim,
{
    if lim > 0 {
        lemma_all_free(cg, a, b, lim - 1);
        lemma_row_all_is_len(cg, a, lim - 1, cg.uses_edges@[lim - 1]@.len() as int);
        lemma_row_all_is_len(cg, b, lim - 1, cg.uses_edges@[lim - 1]@.len() as int);
    }
}

/// The canonical names of some symbol reports.
pub open spec fn sym_names(v: Seq<SymbolRef>) -> Seq<Seq<char>> {
    Seq::new(v.len(), |k: int| v[k].canonical_name@)
}

/// Number of reports of kind `kind`.
pub open spec fn kind_count(v: Seq<SymbolRef>, kind: Seq<char>) -> nat
    decreases v.len(),
{
    if v.len() == 0 {
        0
    } else {
        kind_count(v.drop_last(), kind) + if v.last().kind@ == kind {
            1nat
        } else {
            0nat
        }
    }
}

/// A report is top-level when it has no namespace or a namespace without
/// dots.
pub open spec fn top_level(s: SymbolRef) -> bool {
    match s.namespace {
        Some(ns) => !ns@.contains('.'),
        None => true,
    }
}

/// Whether a node of `cg` is defined.
pub open spec fn is_defined_node(cg: &CallGraph) -> spec_fn(usize) -> bool {
    |t: usize| cg.defined@[t as int]
}

/// Over the first `lim` nodes, the number of uses edges from a node named
/// `n` to a defined node.
pub open spec fn out_to_defined(cg: &CallGraph, n: Seq<char>, lim: int) -> nat
    decreases lim,
{
    if lim <= 0 {
        0
    } else {
        out_to_defined(cg, n, lim - 1) + if canonical(cg, lim - 1) == n {
            cg.uses_edges@[lim - 1]@.filter(is_defined_node(cg)).len()
        } else {
            0
        }
    }
}

proof fn lemma_callees_row(cg: &CallGraph, names: Seq<Seq<char>>, n: Seq<char>, s: int, lim: int)
    requires
        0 <= lim <= cg.uses_edges@[s]@.len(),
    ensures
        row_count(cg, names, EdgeCount::Callees(n), s, lim) == if canonical(cg, s) == n {
            cg.uses_edges@[s]@.take(lim).filter(is_defined_node(cg)).len()
        } else {
            0
        },
    decreases lim,
{
    let row = cg.uses_edges@[s]@;
    let pr = is_defined_node(cg);
    reveal(Seq::filter);
    if lim == 0 {
        assert(row.take(0).len() == 0);
        assert(row.take(0).filter(pr) == row.take(0));
    } else {
        lemma_callees_row(cg, names, n, s, lim - 1);
        let f = row.take(lim);
        assert(f.drop_last() =~= row.take(lim - 1));
        assert(f.last() == row[lim - 1]);
        assert(f.filter(pr) == if pr(f.last()) {
            f.drop_last().filter(pr).push(f.last())
        } else {
            f.drop_last().filter(pr)
        });
        assert(pr(row[lim - 1]) == cg.defined@[row[lim - 1] as int]);
    }
}

proof fn lemma_callees_rows(cg: &CallGraph, names: Seq<Seq<char>>, n: Seq<char>, lim: int)
    requires
        0 <= lim <= cg.nodes_arena@.len(),
        cg.uses_edges@.len() == cg.nodes_arena@.len(),
    ensures
        rows_count(cg, names, EdgeCount::Callees(n), lim) == out_to_defined(cg, n, lim),
    decreases lim,
{
    if lim > 0 {
        lemma_callees_rows(cg, names, n, lim - 1);
        let row = cg.uses_edges@[lim - 1]@;
        lemma_callees_row(cg, names, n, lim - 1, row.len() as int);
        assert(row.take(row.len() as int) =~= row);
    }
}

/// A symbol's callee count is the number of uses edges whose source is
/// that symbol and whose target is a defined node.
pub proof fn lemma_callee_count_law(st: SymbolStat, s: SymbolRef, cg: &CallGraph, names: Seq<Seq<char>>)
    requires
        cg.wf(),
        stat_of(st, s, cg, names),
    ensures
        st.callee_count == out_to_defined(cg, s.canonical_name@, cg.nodes_arena@.len() as int),
{
    lemma_callees_rows(cg, names, s.canonical_name@, cg.nodes_arena@.len() as int);
}

/// Whether a node of `cg` is defined and named `n`.
pub open spec fn is_defined_named(cg: &CallGraph, n: Seq<char>) -> spec_fn(usize) -> bool {
    |t: usize| cg.defined@[t as int] && canonical(cg, t as int) == n
}

/// Over the first `lim` nodes, the number of uses edges from a defined
/// node to a defined node named `n`.
pub open spec fn into_defined(cg: &CallGraph, n: Seq<char>, lim: int) -> nat
    decreases lim,
{
    if lim <= 0 {
        0
    } else {
        into_defined(cg, n, lim - 1) + if cg.defined@[lim - 1] {
            cg.uses_edges@[lim - 1]@.filter(is_defined_named(cg, n)).len()
        } else {
            0
        }
    }
}

proof fn lemma_callers_row(cg: &CallGraph, names: Seq<Seq<char>>, n: Seq<char>, s: int, lim: int)
    requires
        0 <= lim <= cg.uses_edges@[s]@.len(),
    ensures
        row_count(cg, names, EdgeCount::Callers(n), s, lim) == if cg.defined@[s] {
            cg.uses_edges@[s]@.take(lim).filter(is_defined_named(cg, n)).len()
        } else {
            0
        },
    decreases lim,
{
    let row = cg.uses_edges@[s]@;
    let pr = is_defined_named(cg, n);
    reveal(Seq::filter);
    if lim == 0 {
        assert(row.take(0).len() == 0);
        assert(row.take(0).filter(pr) == row.take(0));
    } else {
        lemma_callers_row(cg, names, n, s, lim - 1);
        let f = row.take(lim);
        assert(f.drop_last() =~= row.take(lim - 1));
        assert(f.last() == row[lim - 1]);
        assert(f.filter(pr) == if pr(f.last()) {
            f.drop_last().filter(pr).push(f.last())
        } else {
            f.drop_last().filter(pr)
        });
        assert(pr(row[lim - 1]) == (cg.defined@[row[lim - 1] as int] && canonical(cg, row[lim - 1] as int) == n));
    }
}

proof fn lemma_callers_rows(cg: &CallGraph, names: Seq<Seq<char>>, n: Seq<char>, lim: int)
    requires
        0 <= lim <= cg.nodes_arena@.len(),
        cg.uses_edges@.len() == cg.nodes_arena@.len(),
    ensures
        rows_count(cg, names, EdgeCount::Callers(n), lim) == into_defined(cg, n, lim),
    decreases lim,
{
    if lim > 0 {
        lemma_callers_rows(cg, names, n, lim - 1);
        let row = cg.uses_edges@[lim - 1]@;
        lemma_callers_row(cg, names, n, lim - 1, row.len() as int);
        assert(row.take(row.len() as int) =~= row);
    }
}

/// A symbol's caller count is the number of uses edges from a defined node
/// to the defined node of that name.
pub proof fn lemma_caller_count_law(st: SymbolStat, s: SymbolRef, cg: &CallGraph, names: Seq<Seq<char>>)
    requires
        cg.wf(),
        stat_of(st, s, cg, names),
    ensures
        st.caller_count == into_defined(cg, s.canonical_name@, cg.nodes_arena@.len() as int),
{
    lemma_callers_rows(cg, names, s.canonical_name@, cg.nodes_arena@.len() as int);
}

/// `st` gives the caller and callee counts of the report `s`.
pub open spec fn stat_of(st: SymbolStat, s: SymbolRef, cg: &CallGraph, names: Seq<Seq<char>>) -> bool {
    &&& st.canonical_name@ == s.canonical_name@
    &&& st.kind@ == s.kind@
    &&& st.caller_count == edge_count(cg, names, EdgeCount::Callers(s.canonical_name@))
    &&& st.callee_count == edge_count(cg, names, EdgeCount::Callees(s.canonical_name@))
    &&& match st.location {
        Some(l) => s.location matches Some(m) && l.path@ == m.path@ && l.line == m.line,
        None => s.location.is_none(),
    }
}

/// Sort key of a symbol stat: by caller count, then by name.
pub open spec fn stat_key(st: SymbolStat) -> Seq<KeyV> {
    seq![KeyV::Num(st.caller_count as nat), KeyV::Text(st.canonical_name@)]
}

/// The views of a list of (word, count) pairs.
pub open spec fn count_views(v: Seq<(String, usize)>) -> Seq<(Seq<char>, usize)> {
    Seq::new(v.len(), |k: int| (v[k].0@, v[k].1))
}

/// Some count is for `kind`.
pub open spec fn has_kind(counts: Seq<(Seq<char>, usize)>, kind: Seq<char>) -> bool {
    exists|k: int| 0 <= k < counts.len() && #[trigger] counts[k].0 == kind
}

/// `top` holds the top-level reports of `syms`, in order; `idx` tells
/// which.
pub open spec fn top_listing(top: Seq<SymbolRef>, syms: Seq<SymbolRef>, idx: Seq<int>) -> bool {
    &&& idx.len() == top.len()
    &&& forall|k: int| 0 <= k < idx.len() ==> 0 <= #[trigger] idx[k] < syms.len() && top_level(syms[idx[k]]) && same_symbol(
        top[k],
        syms[idx[k]],
    )
    &&& forall|a: int, b: int| 0 <= a < b < idx.len() ==> #[trigger] idx[a] < #[trigger] idx[b]
    &&& forall|j: int| 0 <= j < syms.len() && top_level(#[trigger] syms[j]) ==> idx.contains(j)
}

/// `stats` holds one stat per report of `syms` (`perm` tells which), by
/// caller count and then name.
pub open spec fn stats_listing(
    stats: Seq<SymbolStat>,
    syms: Seq<SymbolRef>,
    cg: &CallGraph,
    names: Seq<Seq<char>>,
    perm: Seq<int>,
) -> bool {
    &&& perm.len() == stats.len()
    &&& stats.len() == syms.len()
    &&& forall|k: int| 0 <= k < perm.len() ==> 0 <= #[trigger] perm[k] < syms.len() && stat_of(stats[k], syms[perm[k]], cg, names)
    &&& forall|a: int, b: int| 0 <= a < perm.len() && 0 <= b < perm.len() && a != b ==> #[trigger] perm[a] != #[trigger] perm[b]
    &&& forall|a: int, b: int| 0 <= a < b < stats.len() ==> !key_less(stat_key(#[trigger] stats[b]), stat_key(#[trigger] stats[a]))
}

/// `sp` summarizes the reports `syms`: distinct files, counts per kind
/// (by kind), uses edges in and out (over the symbol graph), the
/// top-level reports in order, and, when asked for over the symbol graph,
/// every report's caller and callee counts, by caller count then name.
pub open spec fn summary_of(
    sp: SummaryPayload,
    syms: Seq<SymbolRef>,
    cg: &CallGraph,
    mode: QueryGraphMode,
    include_stats: bool,
) -> bool {
    let names = sym_names(syms);
    let counts = count_views(sp.symbol_counts@);
    &&& exists|ps: Seq<Seq<char>>| #[trigger] paths_of(ps, syms) && ps.no_duplicates() && sp.file_count == ps.len()
    &&& forall|a: int, b: int| 0 <= a < b < counts.len() ==> seq_less((#[trigger] counts[a]).0, (#[trigger] counts[b]).0)
    &&& forall|k: int| 0 <= k < counts.len() ==> (#[trigger] counts[k]).1 == kind_count(syms, counts[k].0) && counts[k].1 >= 1
    &&& forall|j: int| 0 <= j < syms.len() ==> has_kind(counts, (#[trigger] syms[j]).kind@)
    &&& mode == QueryGraphMode::Symbol ==> count_views(sp.edge_counts@) == seq![
        ("incoming_uses"@, edge_count(cg, names, EdgeCount::Incoming) as usize),
        ("outgoing_uses"@, edge_count(cg, names, EdgeCount::Outgoing) as usize),
    ]
    &&& mode == QueryGraphMode::Module ==> sp.edge_counts@.len() == 0
    &&& exists|idx: Seq<int>| #[trigger] top_listing(sp.top_level_symbols@, syms, idx)
    &&& if include_stats && mode == QueryGraphMode::Symbol {
        sp.symbol_stats matches Some(stats) && exists|perm: Seq<int>| #[trigger] stats_listing(stats@, syms, cg, names, perm)
    } else {
        sp.symbol_stats.is_none()
    }
}

/// The strings of `v`, each once, in the order first met.
pub(crate) fn dedup_strings(v: &Vec<String>) -> (r: Vec<String>)
    ensures
        texts(r@).no_duplicates(),
        forall|p: Seq<char>| #[trigger] texts(r@).contains(p) <==> texts(v@).contains(p),
{
    let mut out: Vec<String> = Vec::new();
    let mut i: usize = 0;
    while i < v.len()
        invariant
            i <= v@.len(),
            texts(out@).no_duplicates(),
            forall|p: Seq<char>| #[trigger] texts(out@).contains(p) <==> texts(v@).take(i as int).contains(p),
        decreases v.len() - i,
    {
        let c = str_to_chars(v[i].as_str());
        let ghost o0 = out@;
        proof {
            assert(texts(v@).take(i as int + 1) =~= texts(v@).take(i as int).push(v@[i as int]@));
        }
        if !contains_string(&out, c.as_slice()) {
            out.push(copy_str(&v[i]));
            proof {
                assert(texts(out@) =~= texts(o0).push(v@[i as int]@));
            }
        }
        proof {
            assert forall|p: Seq<char>| #[trigger] texts(out@).contains(p) <==> texts(v@).take(i as int + 1).contains(p) by {
                let a = texts(out@);
                let b = texts(v@).take(i as int + 1);
                let a0 = texts(o0);
                let b0 = texts(v@).take(i as int);
                if a.contains(p) {
                    let w = choose|w: int| 0 <= w < a.len() && a[w] == p;
                    if w < a0.len() {
                        assert(a0[w] == p);
                        assert(a0.contains(p));
                        assert(b0.contains(p));
                        let z = choose|z: int| 0 <= z < b0.len() && b0[z] == p;
                        assert(b[z] == p);
                    } else {
                        assert(b[i as int] == p);
                    }
                }
                if b.contains(p) {
                    let z = choose|z: int| 0 <= z < b.len() && b[z] == p;
                    if z < i {
                        assert(b0[z] == p);
                        assert(a0.contains(p));
                        let w = choose|w: int| 0 <= w < a0.len() && a0[w] == p;
                        assert(a[w] == p);
                    } else {
                        if !a0.contains(p) {
                            assert(a[a.len() - 1] == p);
                        } else {
                            let w = choose|w: int| 0 <= w < a0.len() && a0[w] == p;
                            assert(a[w] == p);
                        }
                    }
                }
            }
        }
        i = i + 1;
    }
    proof {
        assert(texts(v@).take(v@.len() as int) =~= texts(v@));
    }
    out
}

/// Number of reports of `syms` whose kind is `kind`.
fn count_kind(syms: &Vec<SymbolRef>, kind: &[char]) -> (r: usize)
    ensures
        r == kind_count(syms@, kind@),
{
    let mut n: usize = 0;
    let mut i: usize = 0;
    while i < syms.len()
        invariant
            i <= syms@.len(),
            n == kind_count(syms@.take(i as int), kind@),
            n <= i,
        decreases syms.len() - i,
    {
        proof {
            assert(syms@.take(i as int + 1).drop_last() =~= syms@.take(i as int));
        }
        let k = str_to_chars(syms[i].kind.as_str());
        if chars_eq(k.as_slice(), kind) {
            n = n + 1;
        }
        i = i + 1;
    }
    proof {
        assert(syms@.take(syms@.len() as int) =~= syms@);
    }
    n
}

proof fn lemma_kind_count_pos(v: Seq<SymbolRef>, j: int)
    requires
        0 <= j < v.len(),
    ensures
        kind_count(v, v[j].kind@) >= 1,
    decreases v.len(),
{
    if j < v.len() - 1 {
        lemma_kind_count_pos(v.drop_last(), j);
    }
}

/// The counts per kind of some reports, by kind.
fn kind_counts(syms: &Vec<SymbolRef>) -> (r: Vec<(String, usize)>)
    ensures
        forall|a: int, b: int| 0 <= a < b < r@.len() ==> seq_less((#[trigger] count_views(r@)[a]).0, (#[trigger] count_views(r@)[b]).0),
        forall|k: int| 0 <= k < r@.len() ==> (#[trigger] count_views(r@)[k]).1 == kind_count(syms@, count_views(r@)[k].0) && count_views(r@)[k].1 >= 1,
        forall|j: int| 0 <= j < syms@.len() ==> has_kind(count_views(r@), (#[trigger] syms@[j]).kind@),
{
    let mut kinds: Vec<Vec<char>> = Vec::new();
    let mut i: usize = 0;
    while i < syms.len()
        invariant
            i <= syms@.len(),
            kinds@.len() == i,
            forall|k: int| 0 <= k < i ==> (#[trigger] kinds@[k])@ == syms@[k].kind@,
        decreases syms.len() - i,
    {
        kinds.push(str_to_chars(syms[i].kind.as_str()));
        i = i + 1;
    }
    let ghost kv = crate::text::char_views(kinds@);
    let uniq = sorted_unique(kinds);
    let mut out: Vec<(String, usize)> = Vec::new();
    let mut k: usize = 0;
    while k < uniq.len()
        invariant
            k <= uniq@.len(),
            strictly_sorted(crate::text::char_views(uniq@)),
            forall|c: Seq<char>| #[trigger] crate::text::char_views(uniq@).contains(c) <==> kv.contains(c),
            kv.len() == syms@.len(),
            forall|j: int| 0 <= j < syms@.len() ==> kv[j] == (#[trigger] syms@[j]).kind@,
            out@.len() == k,
            forall|q: int| 0 <= q < k ==> (#[trigger] count_views(out@)[q]).0 == uniq@[q]@ && count_views(out@)[q].1 == kind_count(syms@, uniq@[q]@)
                && count_views(out@)[q].1 >= 1,
        decreases uniq.len() - k,
    {
        let c = count_kind(syms, uniq[k].as_slice());
        proof {
            let uv = crate::text::char_views(uniq@);
            assert(uv[k as int] == uniq@[k as int]@);
            assert(uv.contains(uniq@[k as int]@));
            assert(kv.contains(uniq@[k as int]@));
            let j = choose|j: int| 0 <= j < kv.len() && kv[j] == uniq@[k as int]@;
            assert(kv[j] == syms@[j].kind@);
            lemma_kind_count_pos(syms@, j);
        }
        let ghost o0 = out@;
        out.push((chars_to_string(uniq[k].as_slice()), c));
        proof {
            assert forall|q: int| 0 <= q < k + 1 implies (#[trigger] count_views(out@)[q]).0 == uniq@[q]@ && count_views(out@)[q].1 == kind_count(syms@, uniq@[q]@)
                && count_views(out@)[q].1 >= 1 by {
                if q < k {
                    assert(out@[q] == o0[q]);
                    assert(count_views(out@)[q] == count_views(o0)[q]);
                }
            }
        }
        k = k + 1;
    }
    proof {
        let uv = crate::text::char_views(uniq@);
        let cv = count_views(out@);
        assert forall|a: int, b: int| 0 <= a < b < out@.len() implies seq_less((#[trigger] count_views(out@)[a]).0, (#[trigger] count_views(out@)[b]).0) by {
            assert(uv[a] == uniq@[a]@ && uv[b] == uniq@[b]@);
        }
        assert forall|j: int| 0 <= j < syms@.len() implies has_kind(count_views(out@), (#[trigger] syms@[j]).kind@) by {
            assert(kv[j] == syms@[j].kind@);
            assert(kv.contains(kv[j]));
            assert(uv.contains(syms@[j].kind@));
            let w = choose|w: int| 0 <= w < uv.len() && uv[w] == syms@[j].kind@;
            assert(cv[w].0 == uniq@[w]@);
        }
    }
    out
}

/// The top-level reports of `syms`, in order.
fn top_level_symbols(syms: &Vec<SymbolRef>) -> (r: Vec<SymbolRef>)
    ensures
        exists|idx: Seq<int>| #[trigger] top_listing(r@, syms@, idx),
{
    let mut out: Vec<SymbolRef> = Vec::new();
    let ghost mut idx: Seq<int> = Seq::empty();
    let mut i: usize = 0;
    while i < syms.len()
        invariant
            i <= syms@.len(),
            idx.len() == out@.len(),
            forall|k: int| 0 <= k < idx.len() ==> 0 <= #[trigger] idx[k] < i && top_level(syms@[idx[k]]) && same_symbol(out@[k], syms@[idx[k]]),
            forall|a: int, b: int| 0 <= a < b < idx.len() ==> #[trigger] idx[a] < #[trigger] idx[b],
            forall|j: int| 0 <= j < i && top_level(#[trigger] syms@[j]) ==> idx.contains(j),
        decreases syms.len() - i,
    {
        let top = match &syms[i].namespace {
            Some(ns) => !crate::text::contains_char(str_to_chars(ns.as_str()).as_slice(), '.'),
            None => true,
        };
        let ghost o0 = out@;
        let ghost i0 = idx;
        if top {
            out.push(copy_symbol(&syms[i]));
            proof {
                idx = idx.push(i as int);
            }
        }
        proof {
            assert forall|k: int| 0 <= k < idx.len() implies 0 <= #[trigger] idx[k] < i + 1 && top_level(syms@[idx[k]]) && same_symbol(out@[k], syms@[idx[k]]) by {
                if k < i0.len() {
                    assert(out@[k] == o0[k]);
                }
            }
            assert forall|j: int| 0 <= j < i + 1 && top_level(#[trigger] syms@[j]) implies idx.contains(j) by {
                if j < i {
                    assert(i0.contains(j));
                    let w = choose|w: int| 0 <= w < i0.len() && i0[w] == j;
                    assert(idx[w] == j);
                } else {
                    assert(idx[idx.len() - 1] == j);
                }
            }
        }
        i = i + 1;
    }
    proof {
        assert(top_listing(out@, syms@, idx));
    }
    out
}

/// The caller and callee counts of every report, by caller count and then
/// name.
fn symbol_stats(cg: &CallGraph, syms: &Vec<SymbolRef>, names: &Vec<Vec<char>>) -> (r: Vec<SymbolStat>)
    requires
        cg.wf(),
        crate::text::char_views(names@) == sym_names(syms@),
        edge_count(cg, sym_names(syms@), EdgeCount::All) <= usize::MAX,
    ensures
        exists|perm: Seq<int>| #[trigger] stats_listing(r@, syms@, cg, sym_names(syms@), perm),
{
    let ghost nv = sym_names(syms@);
    let mut stats: Vec<SymbolStat> = Vec::new();
    let mut keys: Vec<Vec<KeyPart>> = Vec::new();
    let mut i: usize = 0;
    while i < syms.len()
        invariant
            cg.wf(),
            i <= syms@.len(),
            nv == sym_names(syms@),
            crate::text::char_views(names@) == nv,
            edge_count(cg, nv, EdgeCount::All) <= usize::MAX,
            stats@.len() == i,
            keys@.len() == i,
            forall|k: int| 0 <= k < i ==> stat_of(#[trigger] stats@[k], syms@[k], cg, nv) && key_view(keys@[k]@) == stat_key(stats@[k]),
        decreases syms.len() - i,
    {
        let s = &syms[i];
        let name = str_to_chars(s.canonical_name.as_str());
        let callers = count_uses(cg, names, CountKind::Callers, name.as_slice());
        let callees = count_uses(cg, names, CountKind::Callees, name.as_slice());
        let st = SymbolStat {
            canonical_name: copy_str(&s.canonical_name),
            kind: copy_str(&s.kind),
            caller_count: callers,
            callee_count: callees,
            location: match &s.location {
                Some(l) => Some(Location { path: copy_str(&l.path), line: l.line }),
                None => None,
            },
        };
        let mut key: Vec<KeyPart> = Vec::new();
        key.push(KeyPart::Num(callers));
        push_text_key(&mut key, &st.canonical_name);
        proof {
            assert(key_view(key@) =~= stat_key(st));
        }
        let ghost s0 = stats@;
        let ghost k0 = keys@;
        stats.push(st);
        keys.push(key);
        proof {
            assert forall|k: int| 0 <= k < i + 1 implies stat_of(#[trigger] stats@[k], syms@[k], cg, nv) && key_view(keys@[k]@) == stat_key(stats@[k]) by {
                if k < i {
                    assert(stats@[k] == s0[k]);
                    assert(keys@[k] == k0[k]);
                }
            }
        }
        i = i + 1;
    }
    let ghost kv = keys@;
    let ghost sv = stats@;
    let perm = key_order(keys);
    let mut out: Vec<SymbolStat> = Vec::new();
    let mut k: usize = 0;
    while k < perm.len()
        invariant
            k <= perm@.len(),
            perm@.len() == sv.len(),
            sv == stats@,
            kv.len() == sv.len(),
            forall|j: int| 0 <= j < perm@.len() ==> #[trigger] perm@[j] < kv.len(),
            out@.len() == k,
            forall|j: int| 0 <= j < k ==> same_stat(#[trigger] out@[j], sv[perm@[j] as int]),
        decreases perm.len() - k,
    {
        out.push(copy_stat(&stats[perm[k]]));
        k = k + 1;
    }
    proof {
        let pm = Seq::new(perm@.len(), |j: int| perm@[j] as int);
        assert forall|j: int| 0 <= j < pm.len() implies 0 <= #[trigger] pm[j] < syms@.len() && stat_of(out@[j], syms@[pm[j]], cg, nv) by {
            assert(stat_of(sv[perm@[j] as int], syms@[perm@[j] as int], cg, nv));
        }
        assert forall|a: int, b: int| 0 <= a < pm.len() && 0 <= b < pm.len() && a != b implies #[trigger] pm[a] != #[trigger] pm[b] by {
            assert(perm@[a] != perm@[b]);
        }
        assert forall|a: int, b: int| 0 <= a < b < out@.len() implies !key_less(stat_key(#[trigger] out@[b]), stat_key(#[trigger] out@[a])) by {
            assert(key_view(kv[perm@[a] as int]@) == stat_key(sv[perm@[a] as int]));
            assert(key_view(kv[perm@[b] as int]@) == stat_key(sv[perm@[b] as int]));
        }
        assert(stats_listing(out@, syms@, cg, nv, pm));
    }
    out
}

/// Two stats say the same.
pub open spec fn same_stat(a: SymbolStat, b: SymbolStat) -> bool {
    &&& a.canonical_name@ == b.canonical_name@
    &&& a.kind@ == b.kind@
    &&& a.caller_count == b.caller_count
    &&& a.callee_count == b.callee_count
    &&& match a.location {
        Some(la) => b.location matches Some(lb) && la.path@ == lb.path@ && la.line == lb.line,
        None => b.location.is_none(),
    }
}

fn copy_stat(s: &SymbolStat) -> (r: SymbolStat)
    ensures
        same_stat(r, *s),
{
    SymbolStat {
        canonical_name: copy_str(&s.canonical_name),
        kind: copy_str(&s.kind),
        caller_count: s.caller_count,
        callee_count: s.callee_count,
        location: match &s.location {
            Some(l) => Some(Location { path: copy_str(&l.path), line: l.line }),
            None => None,
        },
    }
}

/// The summary built on the answer `base` of `symbols_in`: its error as
/// it is, or the summary of its symbols with the same query and
/// diagnostics.
pub open spec fn summary_answer(
    doc: QueryDocument<TargetQuery, SummaryPayload>,
    base: QueryDocument<TargetQuery, Vec<SymbolRef>>,
    cg: &CallGraph,
    mode: QueryGraphMode,
    include_stats: bool,
) -> bool {
    match base {
        QueryDocument::Failed { query, error } => doc matches QueryDocument::Failed { query: q2, error: e2 } && q2 == query
            && e2 == error,
        QueryDocument::Answered { query, payload, diagnostics } => doc matches QueryDocument::Answered {
            query: q2,
            payload: sp,
            diagnostics: d2,
        } && q2 == query && d2 == diagnostics && summary_of(sp, payload@, cg, mode, include_stats),
    }
}

/// The answer of `symbols_in` for this graph mode.
pub open spec fn base_answer(
    base: QueryDocument<TargetQuery, Vec<SymbolRef>>,
    before: &CallGraph,
    cg: &CallGraph,
    target: Seq<char>,
    kind: TargetKind,
    mode: QueryGraphMode,
    f: FormatView,
) -> bool {
    &&& mode == QueryGraphMode::Symbol ==> symbols_answer(base, cg, target, kind, f)
    &&& mode == QueryGraphMode::Module ==> modules_answer(base, before, cg, target, kind, f)
}

/// Summarize a file, directory or module: its symbols per kind, its files,
/// its uses edges in and out, its top-level symbols, and, when asked for,
/// each symbol's caller and callee counts.
///
/// The counts are of uses edges, which must number at most `usize::MAX`
/// (see `uses_edge_total`).
pub fn summary(
    cg: &mut CallGraph,
    target: &str,
    target_kind: TargetKind,
    graph_mode: QueryGraphMode,
    render_options: &QueryRenderOptions,
    include_stats: bool,
) -> (r: QueryResponse)
    requires
        old(cg).wf(),
        edge_count(old(cg), Seq::empty(), EdgeCount::All) <= usize::MAX,
    ensures
        final(cg).wf(),
        final(cg).nodes_arena == old(cg).nodes_arena,
        final(cg).uses_edges == old(cg).uses_edges,
        final(cg).defines_edges == old(cg).defines_edges,
        final(cg).defined == old(cg).defined,
        final(cg).diagnostics == old(cg).diagnostics,
        old(cg).grows_to(final(cg)),
        r.0 matches QueryResponseInner::Summary(doc) && exists|base: QueryDocument<TargetQuery, Vec<SymbolRef>>|
            #[trigger] base_answer(base, old(cg), final(cg), target@, target_kind, graph_mode, render_options.format_view())
                && summary_answer(doc, base, final(cg), graph_mode, include_stats),
{
    let response = symbols_in(cg, target, target_kind, graph_mode, render_options);
    let ghost base = response.0->SymbolsIn_0;
    proof {
        assert(base_answer(base, old(cg), cg, target@, target_kind, graph_mode, render_options.format_view()));
    }
    let doc = match response.0 {
        QueryResponseInner::SymbolsIn(d) => d,
        _ => {
            proof {
                assert(false);
            }
            return response;
        },
    };
    match doc {
        QueryDocument::Failed { query, error } => {
            let r = QueryResponse(QueryResponseInner::Summary(QueryDocument::Failed { query, error }));
            proof {
                assert(summary_answer(r.0->Summary_0, base, cg, graph_mode, include_stats));
            }
            r
        },
        QueryDocument::Answered { query, payload, diagnostics } => {
            let counts = kind_counts(&payload);
            let all_paths = symbol_paths(&payload);
            let files = dedup_strings(&all_paths);
            let mut names: Vec<Vec<char>> = Vec::new();
            let mut i: usize = 0;
            while i < payload.len()
                invariant
                    i <= payload@.len(),
                    crate::text::char_views(names@) == sym_names(payload@).take(i as int),
                decreases payload.len() - i,
            {
                let ghost n0 = names@;
                let c = str_to_chars(payload[i].canonical_name.as_str());
                names.push(c);
                proof {
                    assert(crate::text::char_views(names@) =~= crate::text::char_views(n0).push(c@));
                    assert(crate::text::char_views(names@) =~= sym_names(payload@).take(i as int + 1));
                }
                i = i + 1;
            }
            proof {
                assert(sym_names(payload@).take(payload@.len() as int) =~= sym_names(payload@));
                lemma_all_free(old(cg), Seq::empty(), sym_names(payload@), old(cg).nodes_arena@.len() as int);
                lemma_all_same_edges(old(cg), cg, sym_names(payload@), cg.nodes_arena@.len() as int);
                assert(edge_count(cg, sym_names(payload@), EdgeCount::All) <= usize::MAX);
                assert(crate::text::char_views(names@) == sym_names(payload@));
            }
            let mut edge_counts: Vec<(String, usize)> = Vec::new();
            if graph_mode == QueryGraphMode::Symbol {
                let empty: Vec<char> = Vec::new();
                let incoming = count_uses(cg, &names, CountKind::Incoming, empty.as_slice());
                let outgoing = count_uses(cg, &names, CountKind::Outgoing, empty.as_slice());
                edge_counts.push((text("incoming_uses"), incoming));
                edge_counts.push((text("outgoing_uses"), outgoing));
                proof {
                    assert(count_views(edge_counts@) =~= seq![
                        ("incoming_uses"@, edge_count(cg, sym_names(payload@), EdgeCount::Incoming) as usize),
                        ("outgoing_uses"@, edge_count(cg, sym_names(payload@), EdgeCount::Outgoing) as usize),
                    ]);
                }
            }
            let ghost cv = counts@;
            let ghost ev = edge_counts@;
            let stats = if include_stats && graph_mode == QueryGraphMode::Symbol {
                Some(symbol_stats(cg, &payload, &names))
            } else {
                None
            };
            let ghost st = stats;
            let top = top_level_symbols(&payload);
            let ghost idx = choose|idx: Seq<int>| #[trigger] top_listing(top@, payload@, idx);
            let ghost tv = top@;
            let sp = SummaryPayload {
                file_count: files.len(),
                symbol_counts: counts,
                edge_counts,
                top_level_symbols: top,
                symbol_stats: stats,
            };
            proof {
                assert(paths_of(texts(files@), payload@)) by {
                    assert forall|p: Seq<char>| #[trigger] texts(files@).contains(p) <==> exists|k: int| 0 <= k < payload@.len() && has_path(#[trigger] payload@[k], p) by {
                        assert(texts(files@).contains(p) <==> texts(all_paths@).contains(p));
                    }
                }
                assert(texts(files@).len() == files@.len());
                assert(sp.file_count == texts(files@).len());
                assert(exists|ps: Seq<Seq<char>>| #[trigger] paths_of(ps, payload@) && ps.no_duplicates() && sp.file_count == ps.len());
                assert(sp.top_level_symbols@ == tv);
                assert(top_listing(sp.top_level_symbols@, payload@, idx));
                assert(sp.symbol_counts@ == cv);
                assert(sp.edge_counts@ == ev);
                assert(sp.symbol_stats == st);
                if include_stats && graph_mode == QueryGraphMode::Symbol {
                    let stv = st->0;
                    let perm = choose|perm: Seq<int>| #[trigger] stats_listing(stv@, payload@, cg, sym_names(payload@), perm);
                    assert(stats_listing(stv@, payload@, cg, sym_names(payload@), perm));
                }
                assert(summary_of(sp, payload@, cg, graph_mode, include_stats));
            }
            let r = QueryResponse(QueryResponseInner::Summary(QueryDocument::Answered { query, payload: sp, diagnostics }));
            proof {
                assert(summary_answer(r.0->Summary_0, base, cg, graph_mode, include_stats));
            }
            r
        },
    }
}

/// Two outgoing edges say the same.
pub open spec fn same_out(a: OutgoingEdge, b: OutgoingEdge) -> bool {
    a.kind@ == b.kind@ && same_symbol(a.target, b.target)
}

/// Two incoming edges say the same.
pub open spec fn same_in(a: IncomingEdge, b: IncomingEdge) -> bool {
    a.kind@ == b.kind@ && same_symbol(a.source, b.source)
}

/// Symbols that say the same report the same node.
proof fn lemma_same_reports(a: SymbolRef, b: SymbolRef, node: Node, f: FormatView, interner: &Interner)
    requires
        same_symbol(a, b),
        reports(b, node, f, interner),
    ensures
        reports(a, node, f, interner),
{
}

/// `edges` are the uses edges from `src` to defined nodes of reported
/// kinds, each once (`w` tells to which), sorted by target name.
pub open spec fn out_listing(edges: Seq<OutgoingEdge>, cg: &CallGraph, src: int, f: FormatView, w: Seq<NodeId>) -> bool {
    &&& w.len() == edges.len()
    &&& forall|k: int| 0 <= k < w.len() ==> cg.uses_edges@[src]@.contains(#[trigger] w[k]) && defined_public(cg, w[k] as int)
        && edges[k].kind@ == "uses"@ && reports(edges[k].target, cg.nodes_arena@[w[k] as int], f, &cg.interner)
    &&& forall|a: int, b: int| 0 <= a < w.len() && 0 <= b < w.len() && a != b ==> #[trigger] w[a] != #[trigger] w[b]
    &&& forall|t: NodeId| cg.uses_edges@[src]@.contains(t) && #[trigger] defined_public(cg, t as int) ==> w.contains(t)
    &&& forall|a: int, b: int| 0 <= a < b < edges.len() ==> !seq_less(
        (#[trigger] edges[b]).target.canonical_name@,
        (#[trigger] edges[a]).target.canonical_name@,
    )
}

/// `edges` are the uses edges into `tgt` from defined nodes of reported
/// kinds, each once (`w` tells from which), sorted by source name.
pub open spec fn in_listing(edges: Seq<IncomingEdge>, cg: &CallGraph, tgt: int, f: FormatView, w: Seq<NodeId>) -> bool {
    &&& w.len() == edges.len()
    &&& forall|k: int| 0 <= k < w.len() ==> #[trigger] w[k] < cg.nodes_arena@.len() && cg.uses_edges@[w[k] as int]@.contains(
        tgt as NodeId,
    ) && defined_public(cg, w[k] as int) && edges[k].kind@ == "uses"@ && reports(
        edges[k].source,
        cg.nodes_arena@[w[k] as int],
        f,
        &cg.interner,
    )
    &&& forall|a: int, b: int| 0 <= a < w.len() && 0 <= b < w.len() && a != b ==> #[trigger] w[a] != #[trigger] w[b]
    &&& forall|s: int| 0 <= s < cg.nodes_arena@.len() && cg.uses_edges@[s]@.contains(tgt as NodeId) && #[trigger] defined_public(cg, s)
        ==> w.contains(s as NodeId)
    &&& forall|a: int, b: int| 0 <= a < b < edges.len() ==> !seq_less(
        (#[trigger] edges[b]).source.canonical_name@,
        (#[trigger] edges[a]).source.canonical_name@,
    )
}

/// `e` (with sort key `key`) is the uses edge from `src` to `t`.
pub open spec fn out_item(cg: &CallGraph, src: int, f: FormatView, t: NodeId, e: OutgoingEdge, key: Seq<KeyPart>) -> bool {
    &&& cg.uses_edges@[src]@.contains(t)
    &&& defined_public(cg, t as int)
    &&& e.kind@ == "uses"@
    &&& reports(e.target, cg.nodes_arena@[t as int], f, &cg.interner)
    &&& key_view(key) == seq![KeyV::Text(e.target.canonical_name@)]
}

/// The uses edges from `src` to defined nodes of reported kinds, sorted by
/// target name.
#[verifier::spinoff_prover]
#[verifier::rlimit(40)]
fn outgoing_of(cg: &CallGraph, src: NodeId, f: &PathFormatter) -> (r: Vec<OutgoingEdge>)
    requires
        cg.wf(),
        src < cg.nodes_arena@.len(),
    ensures
        exists|w: Seq<NodeId>| #[trigger] out_listing(r@, cg, src as int, f@, w),
{
    proof {
        assert(crate::analyzer::graph::set_in(cg.uses_edges@[src as int], cg.nodes_arena@.len()));
    }
    let targets = cg.uses_edges[src].as_slice();
    let mut found: Vec<OutgoingEdge> = Vec::new();
    let mut keys: Vec<Vec<KeyPart>> = Vec::new();
    let ghost mut w: Seq<NodeId> = Seq::empty();
    let mut m: usize = 0;
    while m < targets.len()
        invariant
            cg.wf(),
            src < cg.nodes_arena@.len(),
            targets@ == cg.uses_edges@[src as int]@,
            crate::analyzer::graph::set_in(cg.uses_edges@[src as int], cg.nodes_arena@.len()),
            m <= targets@.len(),
            w.len() == found@.len(),
            keys@.len() == found@.len(),
            forall|k: int| 0 <= k < w.len() ==> #[trigger] out_item(cg, src as int, f@, w[k], found@[k], keys@[k]@),
            forall|k: int| 0 <= k < w.len() ==> exists|j: int| 0 <= j < m && #[trigger] w[k] == targets@[j],
            forall|a: int, b: int| 0 <= a < w.len() && 0 <= b < w.len() && a != b ==> #[trigger] w[a] != #[trigger] w[b],
            forall|j: int| 0 <= j < m && defined_public(cg, #[trigger] targets@[j] as int) ==> w.contains(targets@[j]),
        decreases targets.len() - m,
    {
        let t = targets[m];
        proof {
            assert(t < cg.nodes_arena@.len());
            assert(cg.nodes_arena@[t as int].ids_in(&cg.interner));
            assert(targets@[m as int] == t);
        }
        let ghost w0 = w;
        let ghost f0 = found@;
        let ghost k0 = keys@;
        if cg.defined[t] {
            match symbol_ref(&cg.nodes_arena[t], f, &cg.interner) {
                Some(sref) => {
                    let mut key: Vec<KeyPart> = Vec::new();
                    push_text_key(&mut key, &sref.canonical_name);
                    proof {
                        assert(key_view(key@) =~= seq![KeyV::Text(sref.canonical_name@)]);
                    }
                    let ghost sv = sref;
                    let ghost kk = key@;
                    found.push(OutgoingEdge { kind: text("uses"), target: sref });
                    keys.push(key);
                    proof {
                        w = w.push(t);
                        assert(cg.uses_edges@[src as int]@.contains(t));
                        assert(defined_public(cg, t as int));
                        assert(found@[found@.len() - 1].target == sv);
                        assert(keys@[keys@.len() - 1]@ == kk);
                        assert(reports(sv, cg.nodes_arena@[t as int], f@, &cg.interner));
                    }
                },
                None => {},
            }
        }
        proof {
            assert forall|k: int| 0 <= k < w.len() implies #[trigger] out_item(cg, src as int, f@, w[k], found@[k], keys@[k]@) by {
                if k < w0.len() {
                    assert(found@[k] == f0[k]);
                    assert(keys@[k] == k0[k]);
                    assert(w[k] == w0[k]);
                    assert(out_item(cg, src as int, f@, w0[k], f0[k], k0[k]@));
                }
            }
            assert forall|k: int| 0 <= k < w.len() implies exists|j: int| 0 <= j < m + 1 && #[trigger] w[k] == targets@[j] by {
                if k < w0.len() {
                    let j = choose|j: int| 0 <= j < m && #[trigger] w0[k] == targets@[j];
                    assert(w[k] == targets@[j]);
                } else {
                    assert(w[k] == targets@[m as int]);
                }
            }
            assert forall|a: int, b: int| 0 <= a < w.len() && 0 <= b < w.len() && a != b implies #[trigger] w[a] != #[trigger] w[b] by {
                if a < w0.len() && b < w0.len() {
                } else if a < w0.len() {
                    let j = choose|j: int| 0 <= j < m && #[trigger] w0[a] == targets@[j];
                    assert(cg.uses_edges@[src as int]@.no_duplicates());
                    assert(targets@[j] != targets@[m as int]);
                } else if b < w0.len() {
                    let j = choose|j: int| 0 <= j < m && #[trigger] w0[b] == targets@[j];
                    assert(cg.uses_edges@[src as int]@.no_duplicates());
                    assert(targets@[j] != targets@[m as int]);
                }
            }
            assert forall|j: int| 0 <= j < m + 1 && defined_public(cg, #[trigger] targets@[j] as int) implies w.contains(targets@[j]) by {
                if j < m {
                    assert(w0.contains(targets@[j]));
                    let z = choose|z: int| 0 <= z < w0.len() && w0[z] == targets@[j];
                    assert(w[z] == targets@[j]);
                } else {
                    assert(w[w.len() - 1] == t);
                }
            }
        }
        m = m + 1;
    }
    let ghost kv = keys@;
    let ghost fv = found@;
    let perm = key_order(keys);
    let mut out: Vec<OutgoingEdge> = Vec::new();
    let mut k: usize = 0;
    while k < perm.len()
        invariant
            k <= perm@.len(),
            perm@.len() == fv.len(),
            fv == found@,
            kv.len() == fv.len(),
            forall|j: int| 0 <= j < perm@.len() ==> #[trigger] perm@[j] < kv.len(),
            out@.len() == k,
            forall|j: int| 0 <= j < k ==> same_out(#[trigger] out@[j], fv[perm@[j] as int]),
        decreases perm.len() - k,
    {
        let e = &found[perm[k]];
        out.push(OutgoingEdge { kind: copy_str(&e.kind), target: copy_symbol(&e.target) });
        k = k + 1;
    }
    proof {
        let w2 = Seq::new(perm@.len(), |j: int| w[perm@[j] as int]);
        assert forall|k: int| 0 <= k < w2.len() implies cg.uses_edges@[src as int]@.contains(#[trigger] w2[k]) && defined_public(cg, w2[k] as int)
            && out@[k].kind@ == "uses"@ && reports(out@[k].target, cg.nodes_arena@[w2[k] as int], f@, &cg.interner) by {
            let p = perm@[k] as int;
            assert(out_item(cg, src as int, f@, w[p], fv[p], kv[p]@));
            lemma_same_reports(out@[k].target, fv[p].target, cg.nodes_arena@[w[p] as int], f@, &cg.interner);
        }
        assert forall|a: int, b: int| 0 <= a < w2.len() && 0 <= b < w2.len() && a != b implies #[trigger] w2[a] != #[trigger] w2[b] by {
            assert(perm@[a] != perm@[b]);
        }
        assert forall|t: NodeId| cg.uses_edges@[src as int]@.contains(t) && #[trigger] defined_public(cg, t as int) implies w2.contains(t) by {
            let j = choose|j: int| 0 <= j < targets@.len() && targets@[j] == t;
            assert(defined_public(cg, targets@[j] as int));
            assert(w.contains(t));
            let z = choose|z: int| 0 <= z < w.len() && w[z] == t;
            assert(perm@.contains(z as usize));
            let y = choose|y: int| 0 <= y < perm@.len() && perm@[y] == z as usize;
            assert(w2[y] == t);
        }
        assert forall|a: int, b: int| 0 <= a < b < out@.len() implies !seq_less(
            (#[trigger] out@[b]).target.canonical_name@,
            (#[trigger] out@[a]).target.canonical_name@,
        ) by {
            let pa = perm@[a] as int;
            let pb = perm@[b] as int;
            assert(out_item(cg, src as int, f@, w[pa], fv[pa], kv[pa]@));
            assert(out_item(cg, src as int, f@, w[pb], fv[pb], kv[pb]@));
            assert(key_view(kv[pa]@) == seq![KeyV::Text(fv[pa].target.canonical_name@)]);
            assert(key_view(kv[pb]@) == seq![KeyV::Text(fv[pb].target.canonical_name@)]);
            lemma_text_key_order(fv[pb].target.canonical_name@, fv[pa].target.canonical_name@);
        }
        assert(out_listing(out@, cg, src as int, f@, w2));
    }
    out
}

/// `ids` lists, in increasing order, the defined nodes with a uses edge
/// into `tgt`.
pub open spec fn callers_of(ids: Seq<NodeId>, cg: &CallGraph, tgt: int) -> bool {
    &&& forall|k: int| 0 <= k < ids.len() ==> #[trigger] ids[k] < cg.nodes_arena@.len() && cg.defined@[ids[k] as int]
        && cg.uses_edges@[ids[k] as int]@.contains(tgt as NodeId)
    &&& forall|a: int, b: int| 0 <= a < b < ids.len() ==> #[trigger] ids[a] < #[trigger] ids[b]
    &&& forall|s: int| 0 <= s < cg.nodes_arena@.len() && cg.defined@[s] && #[trigger] cg.uses_edges@[s]@.contains(tgt as NodeId)
        ==> ids.contains(s as NodeId)
}

/// The uses edges into `tgt` from defined nodes of reported kinds, sorted
/// by source name, and every defined node with an edge into `tgt`.
#[verifier::spinoff_prover]
#[verifier::rlimit(40)]
fn incoming_of(cg: &CallGraph, tgt: NodeId, f: &PathFormatter) -> (r: (Vec<IncomingEdge>, Vec<NodeId>))
    requires
        cg.wf(),
        tgt < cg.nodes_arena@.len(),
    ensures
        exists|w: Seq<NodeId>| #[trigger] in_listing(r.0@, cg, tgt as int, f@, w),
        callers_of(r.1@, cg, tgt as int),
{
    let n = cg.nodes_arena.len();
    let mut found: Vec<IncomingEdge> = Vec::new();
    let mut keys: Vec<Vec<KeyPart>> = Vec::new();
    let mut sources: Vec<NodeId> = Vec::new();
    let ghost mut w: Seq<NodeId> = Seq::empty();
    let mut s: usize = 0;
    while s < n
        invariant
            cg.wf(),
            n == cg.nodes_arena@.len(),
            tgt < n,
            s <= n,
            w.len() == found@.len(),
            keys@.len() == found@.len(),
            forall|k: int| 0 <= k < w.len() ==> #[trigger] w[k] < s && cg.uses_edges@[w[k] as int]@.contains(tgt) && defined_public(cg, w[k] as int)
                && found@[k].kind@ == "uses"@ && reports(found@[k].source, cg.nodes_arena@[w[k] as int], f@, &cg.interner)
                && key_view(keys@[k]@) == seq![KeyV::Text(found@[k].source.canonical_name@)],
            forall|a: int, b: int| 0 <= a < b < w.len() ==> #[trigger] w[a] < #[trigger] w[b],
            forall|j: int| 0 <= j < s && cg.uses_edges@[j]@.contains(tgt) && #[trigger] defined_public(cg, j) ==> w.contains(j as NodeId),
            forall|k: int| 0 <= k < sources@.len() ==> #[trigger] sources@[k] < s && cg.defined@[sources@[k] as int]
                && cg.uses_edges@[sources@[k] as int]@.contains(tgt),
            forall|a: int, b: int| 0 <= a < b < sources@.len() ==> #[trigger] sources@[a] < #[trigger] sources@[b],
            forall|j: int| 0 <= j < s && cg.defined@[j] && #[trigger] cg.uses_edges@[j]@.contains(tgt) ==> sources@.contains(j as NodeId),
        decreases n - s,
    {
        let ghost w0 = w;
        let ghost f0 = found@;
        let ghost k0 = keys@;
        let ghost s0 = sources@;
        if cg.defined[s] && cg.uses_edges[s].contains(tgt) {
            sources.push(s);
            proof {
                assert(cg.nodes_arena@[s as int].ids_in(&cg.interner));
            }
            match symbol_ref(&cg.nodes_arena[s], f, &cg.interner) {
                Some(sref) => {
                    let mut key: Vec<KeyPart> = Vec::new();
                    push_text_key(&mut key, &sref.canonical_name);
                    proof {
                        assert(key_view(key@) =~= seq![KeyV::Text(sref.canonical_name@)]);
                    }
                    found.push(IncomingEdge { kind: text("uses"), source: sref });
                    keys.push(key);
                    proof {
                        w = w.push(s);
                    }
                },
                None => {},
            }
        }
        proof {
            assert forall|k: int| 0 <= k < w.len() implies #[trigger] w[k] < s + 1 && cg.uses_edges@[w[k] as int]@.contains(tgt) && defined_public(cg, w[k] as int)
                && found@[k].kind@ == "uses"@ && reports(found@[k].source, cg.nodes_arena@[w[k] as int], f@, &cg.interner)
                && key_view(keys@[k]@) == seq![KeyV::Text(found@[k].source.canonical_name@)] by {
                if k < w0.len() {
                    assert(found@[k] == f0[k]);
                    assert(keys@[k] == k0[k]);
                }
            }
            assert forall|j: int| 0 <= j < s + 1 && cg.uses_edges@[j]@.contains(tgt) && #[trigger] defined_public(cg, j) implies w.contains(j as NodeId) by {
                if j < s {
                    assert(w0.contains(j as NodeId));
                    let z = choose|z: int| 0 <= z < w0.len() && w0[z] == j as NodeId;
                    assert(w[z] == w0[z]);
                } else {
                    assert(w[w.len() - 1] == s);
                }
            }
            assert forall|k: int| 0 <= k < sources@.len() implies #[trigger] sources@[k] < s + 1 && cg.defined@[sources@[k] as int]
                && cg.uses_edges@[sources@[k] as int]@.contains(tgt) by {
                if k < s0.len() {
                    assert(sources@[k] == s0[k]);
                }
            }
            assert forall|j: int| 0 <= j < s + 1 && cg.defined@[j] && #[trigger] cg.uses_edges@[j]@.contains(tgt) implies sources@.contains(j as NodeId) by {
                if j < s {
                    assert(s0.contains(j as NodeId));
                    let z = choose|z: int| 0 <= z < s0.len() && s0[z] == j as NodeId;
                    assert(sources@[z] == s0[z]);
                } else {
                    assert(sources@[sources@.len() - 1] == s);
                }
            }
        }
        s = s + 1;
    }
    let ghost kv = keys@;
    let ghost fv = found@;
    let perm = key_order(keys);
    let mut out: Vec<IncomingEdge> = Vec::new();
    let mut k: usize = 0;
    while k < perm.len()
        invariant
            k <= perm@.len(),
            perm@.len() == fv.len(),
            fv == found@,
            kv.len() == fv.len(),
            forall|j: int| 0 <= j < perm@.len() ==> #[trigger] perm@[j] < kv.len(),
            out@.len() == k,
            forall|j: int| 0 <= j < k ==> same_in(#[trigger] out@[j], fv[perm@[j] as int]),
        decreases perm.len() - k,
    {
        let e = &found[perm[k]];
        out.push(IncomingEdge { kind: copy_str(&e.kind), source: copy_symbol(&e.source) });
        k = k + 1;
    }
    let ghost w2 = Seq::new(perm@.len(), |j: int| w[perm@[j] as int]);
    proof {
        assert forall|k: int| 0 <= k < w2.len() implies #[trigger] w2[k] < cg.nodes_arena@.len() && cg.uses_edges@[w2[k] as int]@.contains(
            tgt as NodeId,
        ) && defined_public(cg, w2[k] as int) && out@[k].kind@ == "uses"@ && reports(
            out@[k].source,
            cg.nodes_arena@[w2[k] as int],
            f@,
            &cg.interner,
        ) by {
            let p = perm@[k] as int;
            assert(w[p] < n);
            lemma_same_reports(out@[k].source, fv[p].source, cg.nodes_arena@[w[p] as int], f@, &cg.interner);
        }
        assert forall|a: int, b: int| 0 <= a < w2.len() && 0 <= b < w2.len() && a != b implies #[trigger] w2[a] != #[trigger] w2[b] by {
            assert(perm@[a] != perm@[b]);
            let pa = perm@[a] as int;
            let pb = perm@[b] as int;
            if pa < pb {
                assert(w[pa] < w[pb]);
            } else {
                assert(w[pb] < w[pa]);
            }
        }
        assert forall|j: int| 0 <= j < cg.nodes_arena@.len() && cg.uses_edges@[j]@.contains(tgt as NodeId) && #[trigger] defined_public(cg, j) implies w2.contains(j as NodeId) by {
            assert(w.contains(j as NodeId));
            let z = choose|z: int| 0 <= z < w.len() && w[z] == j as NodeId;
            assert(perm@.contains(z as usize));
            let y = choose|y: int| 0 <= y < perm@.len() && perm@[y] == z as usize;
            assert(w2[y] == j as NodeId);
        }
        assert forall|a: int, b: int| 0 <= a < b < out@.len() implies !seq_less(
            (#[trigger] out@[b]).source.canonical_name@,
            (#[trigger] out@[a]).source.canonical_name@,
        ) by {
            let pa = perm@[a] as int;
            let pb = perm@[b] as int;
            assert(w[pa] < n);
            assert(w[pb] < n);
            assert(key_view(kv[pa]@) == seq![KeyV::Text(fv[pa].source.canonical_name@)]);
            assert(key_view(kv[pb]@) == seq![KeyV::Text(fv[pb].source.canonical_name@)]);
            lemma_text_key_order(fv[pb].source.canonical_name@, fv[pa].source.canonical_name@);
        }
        assert(in_listing(out@, cg, tgt as int, f@, w2));
    }
    let ghost ov = out@;
    let r = (out, sources);
    proof {
        assert(r.0@ == ov);
        assert(in_listing(r.0@, cg, tgt as int, f@, w2));
    }
    r
}

/// A symbol query failed as `resolve_single_symbol` fails: no node or
/// several nodes answer it.
pub open spec fn symbol_failed(e: QueryError, cg: &CallGraph, symbol: Seq<char>, mode: MatchMode) -> bool {
    (not_found_error(e, symbol) && forall|i: int| !#[trigger] is_match(cg, i, symbol, mode)) || exists|ids: Seq<NodeId>|
        ids.len() >= 2 && #[trigger] lists_matches(cg, ids, symbol, mode) && ambiguous_error(e, symbol, cg, ids)
}

/// Node `id` is the one node that answers a symbol query.
pub open spec fn symbol_found(id: int, cg: &CallGraph, symbol: Seq<char>, mode: MatchMode) -> bool {
    is_match(cg, id, symbol, mode) && forall|i: int| #[trigger] is_match(cg, i, symbol, mode) ==> i == id
}

/// The query record of a symbol query.
pub open spec fn symbol_query_of(q: SymbolQuery, symbol: Seq<char>, mode: MatchMode) -> bool {
    q.symbol@ == symbol && q.match_mode@ == match_word(mode) && q.graph_mode@ == "symbol"@
}

/// The targets of some outgoing edges.
pub open spec fn out_targets(v: Seq<OutgoingEdge>) -> Seq<SymbolRef> {
    Seq::new(v.len(), |k: int| v[k].target)
}

/// The sources of some incoming edges.
pub open spec fn in_sources(v: Seq<IncomingEdge>) -> Seq<SymbolRef> {
    Seq::new(v.len(), |k: int| v[k].source)
}

/// Copies of the sources of some incoming edges.
fn sources_of(v: &Vec<IncomingEdge>) -> (r: Vec<SymbolRef>)
    ensures
        r@.len() == v@.len(),
        forall|k: int| 0 <= k < v@.len() ==> same_symbol(#[trigger] r@[k], v@[k].source),
{
    let mut out: Vec<SymbolRef> = Vec::new();
    let mut i: usize = 0;
    while i < v.len()
        invariant
            i <= v@.len(),
            out@.len() == i,
            forall|k: int| 0 <= k < i ==> same_symbol(#[trigger] out@[k], v@[k].source),
        decreases v.len() - i,
    {
        out.push(copy_symbol(&v[i].source));
        i = i + 1;
    }
    out
}

/// Same symbols have the same paths.
proof fn lemma_paths_same(paths: Seq<Seq<char>>, a: Seq<SymbolRef>, b: Seq<SymbolRef>)
    requires
        paths_of(paths, a),
        a.len() == b.len(),
        forall|k: int| 0 <= k < a.len() ==> same_symbol(#[trigger] a[k], b[k]),
    ensures
        paths_of(paths, b),
{
    assert forall|p: Seq<char>| #[trigger] paths.contains(p) <==> exists|k: int| 0 <= k < b.len() && has_path(#[trigger] b[k], p) by {
        if paths.contains(p) {
            let k = choose|k: int| 0 <= k < a.len() && has_path(#[trigger] a[k], p);
            assert(same_symbol(a[k], b[k]));
            assert(has_path(b[k], p));
        }
        if exists|k: int| 0 <= k < b.len() && has_path(#[trigger] b[k], p) {
            let k = choose|k: int| 0 <= k < b.len() && has_path(#[trigger] b[k], p);
            assert(same_symbol(a[k], b[k]));
            assert(has_path(a[k], p));
        }
    }
}

/// The callees answer: the symbol and its uses edges to defined symbols,
/// with the diagnostics of the symbol; or why the symbol was not found.
pub open spec fn callees_answer(
    doc: QueryDocument<SymbolQuery, (SymbolRef, Vec<OutgoingEdge>)>,
    cg: &CallGraph,
    symbol: Seq<char>,
    mode: MatchMode,
    f: FormatView,
) -> bool {
    match doc {
        QueryDocument::Answered { query, payload, diagnostics } => symbol_query_of(query, symbol, mode) && exists|src: int|
            #[trigger] symbol_found(src, cg, symbol, mode) && reports(payload.0, cg.nodes_arena@[src], f, &cg.interner) && (exists|
                w: Seq<NodeId>,
            | #[trigger] out_listing(payload.1@, cg, src, f, w)) && (exists|paths: Seq<Seq<char>>|
                #[trigger] paths_of(paths, seq![payload.0]) && diagnostics_of(diagnostics, cg, seq![src as NodeId], paths, f)),
        QueryDocument::Failed { query, error } => symbol_query_of(query, symbol, mode) && symbol_failed(error, cg, symbol, mode),
    }
}

/// List what a symbol calls: its uses edges to defined symbols, by name.
pub fn callees(cg: &CallGraph, symbol: &str, match_mode: MatchMode, render_options: &QueryRenderOptions) -> (r: QueryResponse)
    requires
        cg.wf(),
    ensures
        r.0 matches QueryResponseInner::Callees(doc) && callees_answer(doc, cg, symbol@, match_mode, render_options.format_view()),
{
    let f = render_options.formatter();
    let query = symbol_query(symbol, match_mode);
    match resolve_single_symbol(cg, symbol, match_mode) {
        Ok(source_id) => {
            proof {
                assert(cg.nodes_arena@[source_id as int].ids_in(&cg.interner));
            }
            let node = match symbol_ref(&cg.nodes_arena[source_id], &f, &cg.interner) {
                Some(s) => s,
                None => {
                    proof {
                        assert(false);
                    }
                    return QueryResponse(QueryResponseInner::Callees(QueryDocument::Failed { query, error: simple_error("", Vec::new()) }));
                },
            };
            let edges = outgoing_of(cg, source_id, &f);
            let ids = vec![source_id];
            let one = vec![copy_symbol(&node)];
            let paths = symbol_paths(&one);
            let diagnostics = collect_query_diagnostics(cg, &ids, &paths, &f);
            let ghost nd = node;
            let ghost ev = edges@;
            let ghost dg = diagnostics;
            let ghost pv = texts(paths@);
            proof {
                assert(ids@ =~= seq![source_id]);
                assert(one@ =~= seq![one@[0]]);
                lemma_paths_same(pv, one@, seq![nd]);
                assert(symbol_found(source_id as int, cg, symbol@, match_mode));
            }
            let r = QueryResponse(QueryResponseInner::Callees(QueryDocument::Answered { query, payload: (node, edges), diagnostics }));
            proof {
                let d = r.0->Callees_0;
                assert(d->payload.0 == nd);
                assert(d->payload.1@ == ev);
                assert(d->diagnostics == dg);
                assert(paths_of(pv, seq![nd]));
                assert(callees_answer(d, cg, symbol@, match_mode, f@));
            }
            r
        },
        Err(error) => QueryResponse(QueryResponseInner::Callees(QueryDocument::Failed { query, error })),
    }
}

/// The callers answer: the symbol and the uses edges into it from defined
/// symbols, with the diagnostics of those callers; or why the symbol was
/// not found.
pub open spec fn callers_answer(
    doc: QueryDocument<SymbolQuery, (SymbolRef, Vec<IncomingEdge>)>,
    cg: &CallGraph,
    symbol: Seq<char>,
    mode: MatchMode,
    f: FormatView,
) -> bool {
    match doc {
        QueryDocument::Answered { query, payload, diagnostics } => symbol_query_of(query, symbol, mode) && exists|tgt: int|
            #[trigger] symbol_found(tgt, cg, symbol, mode) && reports(payload.0, cg.nodes_arena@[tgt], f, &cg.interner) && (exists|
                w: Seq<NodeId>,
            | #[trigger] in_listing(payload.1@, cg, tgt, f, w)) && (exists|ids: Seq<NodeId>, paths: Seq<Seq<char>>|
                #[trigger] callers_of(ids, cg, tgt) && #[trigger] paths_of(paths, in_sources(payload.1@)) && diagnostics_of(
                    diagnostics,
                    cg,
                    ids,
                    paths,
                    f,
                )),
        QueryDocument::Failed { query, error } => symbol_query_of(query, symbol, mode) && symbol_failed(error, cg, symbol, mode),
    }
}

/// List what calls a symbol: the uses edges into it from defined symbols,
/// by name.
pub fn callers(cg: &CallGraph, symbol: &str, match_mode: MatchMode, render_options: &QueryRenderOptions) -> (r: QueryResponse)
    requires
        cg.wf(),
    ensures
        r.0 matches QueryResponseInner::Callers(doc) && callers_answer(doc, cg, symbol@, match_mode, render_options.format_view()),
{
    let f = render_options.formatter();
    let query = symbol_query(symbol, match_mode);
    match resolve_single_symbol(cg, symbol, match_mode) {
        Ok(target_id) => {
            proof {
                assert(cg.nodes_arena@[target_id as int].ids_in(&cg.interner));
            }
            let node = match symbol_ref(&cg.nodes_arena[target_id], &f, &cg.interner) {
                Some(s) => s,
                None => {
                    proof {
                        assert(false);
                    }
                    return QueryResponse(QueryResponseInner::Callers(QueryDocument::Failed { query, error: simple_error("", Vec::new()) }));
                },
            };
            let (edges, ids) = incoming_of(cg, target_id, &f);
            let srcs = sources_of(&edges);
            let paths = symbol_paths(&srcs);
            proof {
                assert forall|a: int, b: int| 0 <= a < ids@.len() && 0 <= b < ids@.len() && a != b implies #[trigger] ids@[a] != #[trigger] ids@[b] by {
                    if a < b {
                        assert(ids@[a] < ids@[b]);
                    } else {
                        assert(ids@[b] < ids@[a]);
                    }
                }
            }
            let diagnostics = collect_query_diagnostics(cg, &ids, &paths, &f);
            let ghost nd = node;
            let ghost ev = edges@;
            let ghost dg = diagnostics;
            let ghost pv = texts(paths@);
            let ghost iv = ids@;
            proof {
                assert forall|k: int| 0 <= k < srcs@.len() implies same_symbol(#[trigger] srcs@[k], in_sources(ev)[k]) by {
                    assert(same_symbol(srcs@[k], ev[k].source));
                }
                lemma_paths_same(pv, srcs@, in_sources(ev));
                assert(symbol_found(target_id as int, cg, symbol@, match_mode));
            }
            let r = QueryResponse(QueryResponseInner::Callers(QueryDocument::Answered { query, payload: (node, edges), diagnostics }));
            proof {
                let d = r.0->Callers_0;
                assert(d->payload.0 == nd);
                assert(d->payload.1@ == ev);
                assert(d->diagnostics == dg);
                assert(callers_of(iv, cg, target_id as int));
                assert(paths_of(pv, in_sources(ev)));
                assert(callers_answer(d, cg, symbol@, match_mode, f@));
            }
            r
        },
        Err(error) => QueryResponse(QueryResponseInner::Callers(QueryDocument::Failed { query, error })),
    }
}

/// `ids` lists, each once, the node `n` and every defined node with a uses
/// edge into it.
pub open spec fn neighbor_ids(ids: Seq<NodeId>, cg: &CallGraph, n: int) -> bool {
    &&& forall|k: int| 0 <= k < ids.len() ==> #[trigger] ids[k] < cg.nodes_arena@.len()
    &&& forall|a: int, b: int| 0 <= a < ids.len() && 0 <= b < ids.len() && a != b ==> #[trigger] ids[a] != #[trigger] ids[b]
    &&& forall|x: NodeId| #[trigger] ids.contains(x) <==> (x == n || (x < cg.nodes_arena@.len() && cg.defined@[x as int]
        && cg.uses_edges@[x as int]@.contains(n as NodeId)))
}

/// The neighbors answer: the symbol, the uses edges into it from defined
/// symbols and the uses edges from it to defined symbols, with the
/// diagnostics of the symbol and its callers; or why the symbol was not
/// found.
pub open spec fn neighbors_answer(
    doc: QueryDocument<SymbolQuery, (SymbolRef, Vec<IncomingEdge>, Vec<OutgoingEdge>)>,
    cg: &CallGraph,
    symbol: Seq<char>,
    mode: MatchMode,
    f: FormatView,
) -> bool {
    match doc {
        QueryDocument::Answered { query, payload, diagnostics } => symbol_query_of(query, symbol, mode) && exists|n: int|
            #[trigger] symbol_found(n, cg, symbol, mode) && reports(payload.0, cg.nodes_arena@[n], f, &cg.interner) && (exists|
                w: Seq<NodeId>,
            | #[trigger] in_listing(payload.1@, cg, n, f, w)) && (exists|w: Seq<NodeId>| #[trigger] out_listing(payload.2@, cg, n, f, w))
                && (exists|ids: Seq<NodeId>, paths: Seq<Seq<char>>|
                #[trigger] neighbor_ids(ids, cg, n) && #[trigger] paths_of(
                    paths,
                    in_sources(payload.1@) + out_targets(payload.2@),
                ) && diagnostics_of(diagnostics, cg, ids, paths, f)),
        QueryDocument::Failed { query, error } => symbol_query_of(query, symbol, mode) && symbol_failed(error, cg, symbol, mode),
    }
}

/// The node `n` followed by its callers other than itself.
fn with_callers(n: NodeId, callers: &Vec<NodeId>, cg: &CallGraph) -> (r: Vec<NodeId>)
    requires
        n < cg.nodes_arena@.len(),
        callers_of(callers@, cg, n as int),
    ensures
        neighbor_ids(r@, cg, n as int),
{
    let mut out: Vec<NodeId> = vec![n];
    let mut i: usize = 0;
    while i < callers.len()
        invariant
            n < cg.nodes_arena@.len(),
            callers_of(callers@, cg, n as int),
            i <= callers@.len(),
            out@.len() >= 1,
            out@[0] == n,
            forall|k: int| 0 <= k < out@.len() ==> #[trigger] out@[k] < cg.nodes_arena@.len(),
            forall|a: int, b: int| 0 <= a < out@.len() && 0 <= b < out@.len() && a != b ==> #[trigger] out@[a] != #[trigger] out@[b],
            forall|k: int| 1 <= k < out@.len() ==> exists|j: int| 0 <= j < i && #[trigger] out@[k] == callers@[j],
            forall|j: int| 0 <= j < i && #[trigger] callers@[j] != n ==> out@.contains(callers@[j]),
        decreases callers.len() - i,
    {
        let c = callers[i];
        let ghost o0 = out@;
        if c != n {
            out.push(c);
            proof {
                assert forall|a: int, b: int| 0 <= a < out@.len() && 0 <= b < out@.len() && a != b implies #[trigger] out@[a] != #[trigger] out@[b] by {
                    if a < o0.len() && b < o0.len() {
                        assert(o0[a] != o0[b]);
                    } else if a < o0.len() {
                        if a >= 1 {
                            let j = choose|j: int| 0 <= j < i && #[trigger] o0[a] == callers@[j];
                            assert(callers@[j] < callers@[i as int]);
                        }
                    } else if b < o0.len() {
                        if b >= 1 {
                            let j = choose|j: int| 0 <= j < i && #[trigger] o0[b] == callers@[j];
                            assert(callers@[j] < callers@[i as int]);
                        }
                    }
                }
                assert forall|k: int| 1 <= k < out@.len() implies exists|j: int| 0 <= j < i + 1 && #[trigger] out@[k] == callers@[j] by {
                    if k < o0.len() {
                        let j = choose|j: int| 0 <= j < i && #[trigger] o0[k] == callers@[j];
                        assert(out@[k] == callers@[j]);
                    } else {
                        assert(out@[k] == callers@[i as int]);
                    }
                }
                assert forall|j: int| 0 <= j < i + 1 && #[trigger] callers@[j] != n implies out@.contains(callers@[j]) by {
                    if j < i {
                        assert(o0.contains(callers@[j]));
                        let z = choose|z: int| 0 <= z < o0.len() && o0[z] == callers@[j];
                        assert(out@[z] == callers@[j]);
                    } else {
                        assert(out@[out@.len() - 1] == c);
                    }
                }
            }
        }
        i = i + 1;
    }
    proof {
        assert forall|x: NodeId| #[trigger] out@.contains(x) <==> (x == n || (x < cg.nodes_arena@.len() && cg.defined@[x as int]
            && cg.uses_edges@[x as int]@.contains(n as NodeId))) by {
            if out@.contains(x) && x != n {
                let z = choose|z: int| 0 <= z < out@.len() && out@[z] == x;
                if z >= 1 {
                    let j = choose|j: int| 0 <= j < callers@.len() && #[trigger] out@[z] == callers@[j];
                    assert(callers@[j] < cg.nodes_arena@.len());
                }
            }
            if x == n {
                assert(out@[0] == n);
            } else if x < cg.nodes_arena@.len() && cg.defined@[x as int] && cg.uses_edges@[x as int]@.contains(n as NodeId) {
                assert(callers@.contains(x));
                let j = choose|j: int| 0 <= j < callers@.len() && callers@[j] == x;
                assert(out@.contains(callers@[j]));
            }
        }
    }
    out
}

/// The symbols of some incoming edges followed by those of some outgoing
/// edges, copied.
fn neighbor_symbols(incoming: &Vec<IncomingEdge>, outgoing: &Vec<OutgoingEdge>) -> (r: Vec<SymbolRef>)
    ensures
        r@.len() == incoming@.len() + outgoing@.len(),
        forall|k: int| 0 <= k < r@.len() ==> same_symbol(#[trigger] r@[k], (in_sources(incoming@) + out_targets(outgoing@))[k]),
{
    let mut out = sources_of(incoming);
    let mut i: usize = 0;
    let ghost all = in_sources(incoming@) + out_targets(outgoing@);
    while i < outgoing.len()
        invariant
            all == in_sources(incoming@) + out_targets(outgoing@),
            i <= outgoing@.len(),
            out@.len() == incoming@.len() + i,
            forall|k: int| 0 <= k < out@.len() ==> same_symbol(#[trigger] out@[k], all[k]),
        decreases outgoing.len() - i,
    {
        out.push(copy_symbol(&outgoing[i].target));
        proof {
            assert(all[incoming@.len() + i] == outgoing@[i as int].target);
        }
        i = i + 1;
    }
    out
}

/// List the neighbors of a symbol: the uses edges into it and out of it
/// that join defined symbols, by name.
pub fn neighbors(cg: &CallGraph, symbol: &str, match_mode: MatchMode, render_options: &QueryRenderOptions) -> (r: QueryResponse)
    requires
        cg.wf(),
    ensures
        r.0 matches QueryResponseInner::Neighbors(doc) && neighbors_answer(doc, cg, symbol@, match_mode, render_options.format_view()),
{
    let f = render_options.formatter();
    let query = symbol_query(symbol, match_mode);
    match resolve_single_symbol(cg, symbol, match_mode) {
        Ok(node_id) => {
            proof {
                assert(cg.nodes_arena@[node_id as int].ids_in(&cg.interner));
            }
            let node = match symbol_ref(&cg.nodes_arena[node_id], &f, &cg.interner) {
                Some(s) => s,
                None => {
                    proof {
                        assert(false);
                    }
                    return QueryResponse(
                        QueryResponseInner::Neighbors(QueryDocument::Failed { query, error: simple_error("", Vec::new()) }),
                    );
                },
            };
            let (incoming, callers) = incoming_of(cg, node_id, &f);
            let outgoing = outgoing_of(cg, node_id, &f);
            let ids = with_callers(node_id, &callers, cg);
            let syms = neighbor_symbols(&incoming, &outgoing);
            let paths = symbol_paths(&syms);
            let diagnostics = collect_query_diagnostics(cg, &ids, &paths, &f);
            let ghost nd = node;
            let ghost iv = incoming@;
            let ghost ov = outgoing@;
            let ghost dg = diagnostics;
            let ghost pv = texts(paths@);
            let ghost idv = ids@;
            proof {
                lemma_paths_same(pv, syms@, in_sources(iv) + out_targets(ov));
                assert(symbol_found(node_id as int, cg, symbol@, match_mode));
            }
            let r = QueryResponse(
                QueryResponseInner::Neighbors(QueryDocument::Answered { query, payload: (node, incoming, outgoing), diagnostics }),
            );
            proof {
                let d = r.0->Neighbors_0;
                assert(d->payload.0 == nd);
                assert(d->payload.1@ == iv);
                assert(d->payload.2@ == ov);
                assert(d->diagnostics == dg);
                assert(neighbor_ids(idv, cg, node_id as int));
                assert(paths_of(pv, in_sources(iv) + out_targets(ov)));
                assert(neighbors_answer(d, cg, symbol@, match_mode, f@));
            }
            r
        },
        Err(error) => QueryResponse(QueryResponseInner::Neighbors(QueryDocument::Failed { query, error })),
    }
}

/// The query record of a path query.
pub open spec fn path_query_of(q: PathQuery, source: Seq<char>, target: Seq<char>, mode: MatchMode) -> bool {
    q.source@ == source && q.target@ == target && q.match_mode@ == match_word(mode) && q.graph_mode@ == "symbol"@
}

/// `e` reports that no call path joins the symbols named `a` and `b`.
pub open spec fn no_path_error(e: QueryError, a: Seq<char>, b: Seq<char>) -> bool {
    &&& e.code@ == "path_not_found"@
    &&& e.message@ == "No path connected '"@ + a + "' to '"@ + b + "'"@
    &&& e.matches@.len() == 0
}

/// `p` shows the call path `w`: its symbols, and a uses edge between each
/// symbol and the next, by canonical name.
pub open spec fn shows_path(p: PathResult, cg: &CallGraph, w: Seq<NodeId>, f: FormatView) -> bool {
    &&& p.nodes@.len() == w.len()
    &&& forall|k: int| 0 <= k < w.len() ==> reports(#[trigger] p.nodes@[k], cg.nodes_arena@[w[k] as int], f, &cg.interner)
    &&& p.edges@.len() + 1 == w.len()
    &&& forall|k: int| 0 <= k < p.edges@.len() ==> (#[trigger] p.edges@[k]).kind@ == "uses"@ && p.edges@[k].source@ == canonical(
        cg,
        w[k] as int,
    ) && p.edges@[k].target@ == canonical(cg, w[k + 1] as int)
}

/// The path answer: a shortest call path between the two symbols, with
/// the diagnostics of its symbols; or why the source or target symbol was
/// not found; or `path_not_found` when no call path joins them.
pub open spec fn path_answer(
    doc: QueryDocument<PathQuery, Vec<PathResult>>,
    cg: &CallGraph,
    source: Seq<char>,
    target: Seq<char>,
    mode: MatchMode,
    f: FormatView,
) -> bool {
    match doc {
        QueryDocument::Answered { query, payload, diagnostics } => path_query_of(query, source, target, mode) && exists|
            s: int,
            t: int,
            w: Seq<NodeId>,
        |
            #![trigger symbol_found(s, cg, source, mode), symbol_found(t, cg, target, mode), crate::search::shortest_walk(cg, w, s, t)]
            symbol_found(s, cg, source, mode) && symbol_found(t, cg, target, mode) && crate::search::shortest_walk(cg, w, s, t)
                && payload@.len() == 1 && shows_path(payload@[0], cg, w, f) && (exists|paths: Seq<Seq<char>>|
                #[trigger] paths_of(paths, payload@[0].nodes@) && diagnostics_of(diagnostics, cg, w, paths, f)),
        QueryDocument::Failed { query, error } => path_query_of(query, source, target, mode) && (symbol_failed(
            error,
            cg,
            source,
            mode,
        ) || (exists|s: int| #[trigger] symbol_found(s, cg, source, mode) && symbol_failed(error, cg, target, mode)) || (exists|
            s: int,
            t: int,
        |
            #![trigger symbol_found(s, cg, source, mode), symbol_found(t, cg, target, mode)]
            symbol_found(s, cg, source, mode) && symbol_found(t, cg, target, mode) && (forall|w: Seq<NodeId>|
                !#[trigger] crate::search::is_walk(cg, w, s, t)) && no_path_error(error, canonical(cg, s), canonical(cg, t)))),
    }
}

/// The symbols and edges of a call path.
fn path_result(cg: &CallGraph, ids: &Vec<NodeId>, f: &PathFormatter) -> (r: PathResult)
    requires
        cg.wf(),
        ids@.len() >= 1,
        forall|k: int| 0 <= k < ids@.len() ==> defined_public(cg, #[trigger] ids@[k] as int),
    ensures
        shows_path(r, cg, ids@, f@),
{
    let mut nodes: Vec<SymbolRef> = Vec::new();
    let mut edges: Vec<PathEdge> = Vec::new();
    let mut k: usize = 0;
    while k < ids.len()
        invariant
            cg.wf(),
            ids@.len() >= 1,
            forall|j: int| 0 <= j < ids@.len() ==> defined_public(cg, #[trigger] ids@[j] as int),
            k <= ids@.len(),
            nodes@.len() == k,
            forall|j: int| 0 <= j < k ==> reports(#[trigger] nodes@[j], cg.nodes_arena@[ids@[j] as int], f@, &cg.interner),
            edges@.len() + 1 == (if k == 0 { 1 } else { k as int }),
            forall|j: int| 0 <= j < edges@.len() ==> (#[trigger] edges@[j]).kind@ == "uses"@ && edges@[j].source@ == canonical(
                cg,
                ids@[j] as int,
            ) && edges@[j].target@ == canonical(cg, ids@[j + 1] as int),
        decreases ids.len() - k,
    {
        let id = ids[k];
        proof {
            assert(defined_public(cg, ids@[k as int] as int));
            assert(cg.nodes_arena@[id as int].ids_in(&cg.interner));
        }
        match symbol_ref(&cg.nodes_arena[id], f, &cg.interner) {
            Some(s) => nodes.push(s),
            None => {
                proof {
                    assert(false);
                }
            },
        }
        if k > 0 {
            let a = ids[k - 1];
            proof {
                assert(defined_public(cg, ids@[k - 1] as int));
                assert(cg.nodes_arena@[a as int].ids_in(&cg.interner));
            }
            let ghost e0 = edges@;
            edges.push(
                PathEdge {
                    kind: text("uses"),
                    source: cg.nodes_arena[a].get_name(&cg.interner),
                    target: cg.nodes_arena[id].get_name(&cg.interner),
                },
            );
            proof {
                assert forall|j: int| 0 <= j < edges@.len() implies (#[trigger] edges@[j]).kind@ == "uses"@ && edges@[j].source@
                    == canonical(cg, ids@[j] as int) && edges@[j].target@ == canonical(cg, ids@[j + 1] as int) by {
                    if j < e0.len() {
                        assert(edges@[j] == e0[j]);
                    }
                }
            }
        }
        k = k + 1;
    }
    PathResult { nodes, edges }
}

/// Find a shortest call path from one symbol to another: a breadth-first
/// search over uses edges into defined symbols, trying each symbol's
/// callees by canonical name.
pub fn path(cg: &CallGraph, source: &str, target: &str, match_mode: MatchMode, render_options: &QueryRenderOptions) -> (r: QueryResponse)
    requires
        cg.wf(),
    ensures
        r.0 matches QueryResponseInner::Path(doc) && path_answer(doc, cg, source@, target@, match_mode, render_options.format_view()),
{
    let f = render_options.formatter();
    let query = path_query(source, target, match_mode);
    let source_id = match resolve_single_symbol(cg, source, match_mode) {
        Ok(id) => id,
        Err(error) => {
            return QueryResponse(QueryResponseInner::Path(QueryDocument::Failed { query, error }));
        },
    };
    let target_id = match resolve_single_symbol(cg, target, match_mode) {
        Ok(id) => id,
        Err(error) => {
            proof {
                assert(symbol_found(source_id as int, cg, source@, match_mode));
            }
            return QueryResponse(QueryResponseInner::Path(QueryDocument::Failed { query, error }));
        },
    };
    proof {
        assert(symbol_found(source_id as int, cg, source@, match_mode));
        assert(symbol_found(target_id as int, cg, target@, match_mode));
        assert(cg.nodes_arena@[source_id as int].ids_in(&cg.interner));
        assert(cg.nodes_arena@[target_id as int].ids_in(&cg.interner));
    }
    match crate::search::shortest_path(cg, source_id, target_id) {
        None => {
            let a = cg.nodes_arena[source_id].get_name(&cg.interner);
            let b = cg.nodes_arena[target_id].get_name(&cg.interner);
            let mut m: Vec<char> = Vec::new();
            push_str(&mut m, "No path connected '");
            push_str(&mut m, a.as_str());
            push_str(&mut m, "' to '");
            push_str(&mut m, b.as_str());
            push_str(&mut m, "'");
            let error = simple_error("path_not_found", m);
            proof {
                assert(error.message@ =~= "No path connected '"@ + canonical(cg, source_id as int) + "' to '"@ + canonical(
                    cg,
                    target_id as int,
                ) + "'"@);
                assert(no_path_error(error, canonical(cg, source_id as int), canonical(cg, target_id as int)));
            }
            QueryResponse(QueryResponseInner::Path(QueryDocument::Failed { query, error }))
        },
        Some(ids) => {
            proof {
                assert forall|k: int| 0 <= k < ids@.len() implies defined_public(cg, #[trigger] ids@[k] as int) by {
                    if k == 0 {
                        assert(ids@[0] == source_id);
                    } else {
                        assert(crate::search::link(cg, ids@, k - 1));
                    }
                }
            }
            let result = path_result(cg, &ids, &f);
            let paths = symbol_paths(&result.nodes);
            let diagnostics = collect_query_diagnostics(cg, &ids, &paths, &f);
            let ghost rv = result;
            let ghost dg = diagnostics;
            let ghost pv = texts(paths@);
            let ghost iv = ids@;
            let r = QueryResponse(QueryResponseInner::Path(QueryDocument::Answered { query, payload: vec![result], diagnostics }));
            proof {
                let d = r.0->Path_0;
                assert(d->payload@[0] == rv);
                assert(d->diagnostics == dg);
                assert(paths_of(pv, rv.nodes@));
                assert(crate::search::shortest_walk(cg, iv, source_id as int, target_id as int));
                assert(path_answer(d, cg, source@, target@, match_mode, f@));
            }
            r
        },
    }
}

/// Callees and callers agree: a defined symbol `t` is among the callees
/// listed for `s` exactly when `s` is among the callers listed for `t`.
pub proof fn law_callees_callers_agree(
    cg: &CallGraph,
    s: int,
    t: int,
    f: FormatView,
    out: Seq<OutgoingEdge>,
    wo: Seq<NodeId>,
    inc: Seq<IncomingEdge>,
    wi: Seq<NodeId>,
)
    requires
        cg.wf(),
        defined_public(cg, s),
        defined_public(cg, t),
        out_listing(out, cg, s, f, wo),
        in_listing(inc, cg, t, f, wi),
    ensures
        wo.contains(t as NodeId) <==> wi.contains(s as NodeId),
{
    assert(cg.nodes_arena@.len() == cg.nodes_arena.len());
    assert((t as NodeId) as int == t);
    assert((s as NodeId) as int == s);
    if wo.contains(t as NodeId) {
        let k = choose|k: int| 0 <= k < wo.len() && wo[k] == t as NodeId;
        assert(cg.uses_edges@[s]@.contains(wo[k]));
        assert(defined_public(cg, s));
    }
    if wi.contains(s as NodeId) {
        let k = choose|k: int| 0 <= k < wi.len() && wi[k] == s as NodeId;
        assert(wi[k] < cg.nodes_arena@.len() && cg.uses_edges@[wi[k] as int]@.contains(t as NodeId));
        assert(defined_public(cg, t as NodeId as int));
    }
}

} // verus!
