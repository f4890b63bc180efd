//! The plain-text form of query answers.
use vstd::prelude::*;
use crate::order::{decimal, decimal_chars};
use crate::query::{
    IncomingEdge, OutgoingEdge, PathResult, QueryDocument, QueryError, QueryResponse, QueryResponseInner, SummaryPayload, SymbolRef,
    SymbolStat,
};
use crate::text::{char_views, chars_to_string, join, push_all, push_str, str_to_chars};

verus! {

/// Lines, each ended by a newline.
pub open spec fn text_lines(v: Seq<Seq<char>>) -> Seq<char>
    decreases v.len(),
{
    if v.len() == 0 {
        Seq::empty()
    } else {
        text_lines(v.drop_last()) + v.last() + seq!['\n']
    }
}

/// The bytes that `s` takes in UTF-8.
pub open spec fn utf8_len(s: Seq<char>) -> nat {
    vstd::utf8::encode_utf8(s).len()
}

/// The largest UTF-8 length among `v`, or 0.
pub open spec fn max_width(v: Seq<Seq<char>>) -> nat
    decreases v.len(),
{
    if v.len() == 0 {
        0
    } else {
        let w = max_width(v.drop_last());
        let l = utf8_len(v.last());
        if l > w {
            l
        } else {
            w
        }
    }
}

/// `s` followed by spaces up to `w` characters.
pub open spec fn padded(s: Seq<char>, w: nat) -> Seq<char> {
    if s.len() < w {
        s + Seq::new((w - s.len()) as nat, |i: int| ' ')
    } else {
        s
    }
}

/// The error line of a failed query.
pub open spec fn error_lines(e: QueryError) -> Seq<Seq<char>> {
    seq!["error: "@ + e.message@]
}

/// The canonical names of some symbols, each after `indent`.
pub open spec fn name_lines(v: Seq<SymbolRef>, indent: Seq<char>) -> Seq<Seq<char>> {
    Seq::new(v.len(), |k: int| indent + v[k].canonical_name@)
}

/// One indented `kind: count` line per count.
pub open spec fn count_lines(v: Seq<(String, usize)>) -> Seq<Seq<char>> {
    Seq::new(v.len(), |k: int| "  "@ + v[k].0@ + ": "@ + decimal(v[k].1 as nat))
}

/// One line per symbol stat, name and kind padded to the widest of each.
pub open spec fn stat_lines(v: Seq<SymbolStat>) -> Seq<Seq<char>> {
    let wn = max_width(Seq::new(v.len(), |k: int| v[k].canonical_name@));
    let wk = max_width(Seq::new(v.len(), |k: int| v[k].kind@));
    Seq::new(
        v.len(),
        |k: int|
            "  "@ + padded(v[k].canonical_name@, wn) + "  "@ + padded(v[k].kind@, wk) + "  callers:"@ + decimal(
                v[k].caller_count as nat,
            ) + "  callees:"@ + decimal(v[k].callee_count as nat),
    )
}

/// The lines of a summary: files, symbols by kind, then edges, top-level
/// symbols and symbol stats where there are any.
pub open spec fn summary_lines(p: SummaryPayload) -> Seq<Seq<char>> {
    seq!["files: "@ + decimal(p.file_count as nat), "symbols:"@] + count_lines(p.symbol_counts@) + (if p.edge_counts@.len() > 0 {
        seq!["edges:"@] + count_lines(p.edge_counts@)
    } else {
        Seq::empty()
    }) + (if p.top_level_symbols@.len() > 0 {
        seq!["top-level:"@] + name_lines(p.top_level_symbols@, "  "@)
    } else {
        Seq::empty()
    }) + match p.symbol_stats {
        Some(st) => seq!["symbol stats (by caller count):"@] + stat_lines(st@),
        None => Seq::empty(),
    }
}

/// One indented `[kind] target` line per outgoing edge.
pub open spec fn out_lines(v: Seq<OutgoingEdge>) -> Seq<Seq<char>> {
    Seq::new(v.len(), |k: int| "  ["@ + v[k].kind@ + "] "@ + v[k].target.canonical_name@)
}

/// One indented `[kind] source` line per incoming edge.
pub open spec fn in_lines(v: Seq<IncomingEdge>) -> Seq<Seq<char>> {
    Seq::new(v.len(), |k: int| "  ["@ + v[k].kind@ + "] "@ + v[k].source.canonical_name@)
}

/// The canonical names of a path's symbols.
pub open spec fn path_names(p: PathResult) -> Seq<Seq<char>> {
    Seq::new(p.nodes@.len(), |k: int| p.nodes@[k].canonical_name@)
}

/// One line per path, its names joined by arrows, with a blank line
/// between paths.
pub open spec fn path_lines(v: Seq<PathResult>) -> Seq<Seq<char>>
    decreases v.len(),
{
    if v.len() == 0 {
        Seq::empty()
    } else {
        path_lines(v.drop_last()) + (if v.len() > 1 {
            seq![Seq::<char>::empty()]
        } else {
            Seq::empty()
        }) + seq![join(path_names(v.last()), " -> "@)]
    }
}

/// The lines of the text form of an answer.
pub open spec fn response_lines(r: QueryResponse) -> Seq<Seq<char>> {
    match r.0 {
        QueryResponseInner::SymbolsIn(doc) => match doc {
            QueryDocument::Answered { payload, .. } => name_lines(payload@, Seq::empty()),
            QueryDocument::Failed { error, .. } => error_lines(error),
        },
        QueryResponseInner::Summary(doc) => match doc {
            QueryDocument::Answered { payload, .. } => summary_lines(payload),
            QueryDocument::Failed { error, .. } => error_lines(error),
        },
        QueryResponseInner::Callees(doc) => match doc {
            QueryDocument::Answered { payload, .. } => seq![payload.0.canonical_name@] + out_lines(payload.1@),
            QueryDocument::Failed { error, .. } => error_lines(error),
        },
        QueryResponseInner::Callers(doc) => match doc {
            QueryDocument::Answered { payload, .. } => seq![payload.0.canonical_name@] + in_lines(payload.1@),
            QueryDocument::Failed { error, .. } => error_lines(error),
        },
        QueryResponseInner::Neighbors(doc) => match doc {
            QueryDocument::Answered { payload, .. } => seq![payload.0.canonical_name@, "incoming:"@] + in_lines(payload.1@)
                + seq!["outgoing:"@] + out_lines(payload.2@),
            QueryDocument::Failed { error, .. } => error_lines(error),
        },
        QueryResponseInner::Path(doc) => match doc {
            QueryDocument::Answered { payload, .. } => path_lines(payload@),
            QueryDocument::Failed { error, .. } => error_lines(error),
        },
    }
}

/// In the text of an answered neighbors query, the symbol's line comes
/// first, then `incoming:`, then one line per incoming edge naming its
/// source, then `outgoing:`, then one line per outgoing edge naming its
/// target: each caller lies between `incoming:` and `outgoing:`, and each
/// callee after `outgoing:`.
pub proof fn lemma_neighbors_sections(r: QueryResponse)
    ensures
        r.0 matches QueryResponseInner::Neighbors(QueryDocument::Answered { payload, .. }) ==> {
            let lines = response_lines(r);
            let inc = payload.1@;
            let out = payload.2@;
            exists|i: int, o: int|
                #![trigger lines[i], lines[o]]
                {
                    &&& 0 < i < o < lines.len()
                    &&& lines[0] == payload.0.canonical_name@
                    &&& lines[i] == "incoming:"@
                    &&& lines[o] == "outgoing:"@
                    &&& o == i + 1 + inc.len()
                    &&& lines.len() == o + 1 + out.len()
                    &&& forall|k: int| 0 <= k < inc.len() ==> #[trigger] lines[i + 1 + k] == "  ["@ + inc[k].kind@ + "] "@
                        + inc[k].source.canonical_name@
                    &&& forall|k: int| 0 <= k < out.len() ==> #[trigger] lines[o + 1 + k] == "  ["@ + out[k].kind@ + "] "@
                        + out[k].target.canonical_name@
                }
        },
{
    if let QueryResponseInner::Neighbors(QueryDocument::Answered { payload, .. }) = r.0 {
        let lines = response_lines(r);
        let inc = payload.1@;
        let out = payload.2@;
        let i: int = 1;
        let o: int = 2 + inc.len() as int;
        assert(lines[i] == "incoming:"@);
        assert(lines[o] == "outgoing:"@);
        assert forall|k: int| 0 <= k < inc.len() implies #[trigger] lines[i + 1 + k] == "  ["@ + inc[k].kind@ + "] "@
            + inc[k].source.canonical_name@ by {}
        assert forall|k: int| 0 <= k < out.len() implies #[trigger] lines[o + 1 + k] == "  ["@ + out[k].kind@ + "] "@
            + out[k].target.canonical_name@ by {}
    }
}

/// The text of an answered callees query names the symbol, then each
/// outgoing edge's target, one per line; that of a callers query names
/// the symbol, then each incoming edge's source.
pub proof fn lemma_callee_caller_lines(r: QueryResponse)
    ensures
        r.0 matches QueryResponseInner::Callees(QueryDocument::Answered { payload, .. }) ==> {
            let lines = response_lines(r);
            &&& lines.len() == 1 + payload.1@.len()
            &&& lines[0] == payload.0.canonical_name@
            &&& forall|k: int| 0 <= k < payload.1@.len() ==> #[trigger] lines[1 + k] == "  ["@ + payload.1@[k].kind@ + "] "@
                + payload.1@[k].target.canonical_name@
        },
        r.0 matches QueryResponseInner::Callers(QueryDocument::Answered { payload, .. }) ==> {
            let lines = response_lines(r);
            &&& lines.len() == 1 + payload.1@.len()
            &&& lines[0] == payload.0.canonical_name@
            &&& forall|k: int| 0 <= k < payload.1@.len() ==> #[trigger] lines[1 + k] == "  ["@ + payload.1@[k].kind@ + "] "@
                + payload.1@[k].source.canonical_name@
        },
{
}

/// The characters of a string.
fn chars(s: &String) -> (r: Vec<char>)
    ensures
        r@ == s@,
        r@.len() <= isize::MAX,
{
    str_to_chars(s.as_str())
}

/// The line `prefix` followed by `s`.
fn line_of(prefix: &str, s: &String) -> (r: Vec<char>)
    ensures
        r@ == prefix@ + s@,
{
    let mut l: Vec<char> = Vec::new();
    push_str(&mut l, prefix);
    push_str(&mut l, s.as_str());
    l
}

/// Adds `more` after `lines`.
fn add_lines(lines: &mut Vec<Vec<char>>, more: Vec<Vec<char>>)
    ensures
        char_views(final(lines)@) == char_views(old(lines)@) + char_views(more@),
{
    let ghost a = lines@;
    let ghost b = more@;
    let mut m = more;
    lines.append(&mut m);
    proof {
        assert(char_views(lines@) =~= char_views(a) + char_views(b));
    }
}

/// Adds one line after `lines`.
fn add_line(lines: &mut Vec<Vec<char>>, l: Vec<char>)
    ensures
        char_views(final(lines)@) == char_views(old(lines)@).push(l@),
{
    let ghost a = lines@;
    let ghost lv = l@;
    lines.push(l);
    proof {
        assert(char_views(lines@) =~= char_views(a).push(lv));
    }
}

/// Indented names of some symbols.
fn names_of_symbols(v: &Vec<SymbolRef>, indent: &str) -> (r: Vec<Vec<char>>)
    ensures
        char_views(r@) == name_lines(v@, indent@),
{
    let mut out: Vec<Vec<char>> = Vec::new();
    let mut i: usize = 0;
    while i < v.len()
        invariant
            i <= v@.len(),
            char_views(out@) == name_lines(v@, indent@).take(i as int),
        decreases v.len() - i,
    {
        let ghost o0 = char_views(out@);
        add_line(&mut out, line_of(indent, &v[i].canonical_name));
        proof {
            assert(char_views(out@) =~= name_lines(v@, indent@).take(i + 1));
        }
        i = i + 1;
    }
    proof {
        assert(name_lines(v@, indent@).take(v@.len() as int) =~= name_lines(v@, indent@));
    }
    out
}

/// Indented `kind: count` lines.
fn counts_text(v: &Vec<(String, usize)>) -> (r: Vec<Vec<char>>)
    ensures
        char_views(r@) == count_lines(v@),
{
    let mut out: Vec<Vec<char>> = Vec::new();
    let mut i: usize = 0;
    while i < v.len()
        invariant
            i <= v@.len(),
            char_views(out@) == count_lines(v@).take(i as int),
        decreases v.len() - i,
    {
        let mut l = line_of("  ", &v[i].0);
        push_str(&mut l, ": ");
        let d = decimal_chars(v[i].1);
        push_all(&mut l, d.as_slice());
        add_line(&mut out, l);
        proof {
            assert(char_views(out@) =~= count_lines(v@).take(i + 1));
        }
        i = i + 1;
    }
    proof {
        assert(count_lines(v@).take(v@.len() as int) =~= count_lines(v@));
    }
    out
}

/// The UTF-8 length of a string.
fn utf8_width(s: &String) -> (r: usize)
    ensures
        r == utf8_len(s@),
{
    let b = s.as_str().as_bytes();
    b.len()
}

/// `s` padded with spaces to `w` characters.
fn pad_to(s: &String, w: usize) -> (r: Vec<char>)
    ensures
        r@ == padded(s@, w as nat),
{
    let mut out: Vec<char> = Vec::new();
    push_str(&mut out, s.as_str());
    let mut n: usize = out.len();
    while n < w
        invariant
            n >= s@.len(),
            out@ == s@ + Seq::new((n - s@.len()) as nat, |i: int| ' '),
            n <= w || n == s@.len(),
            n == out@.len(),
        decreases w - n,
    {
        out.push(' ');
        proof {
            assert(out@ =~= s@ + Seq::new((n + 1 - s@.len()) as nat, |i: int| ' '));
        }
        n = n + 1;
    }
    proof {
        if s@.len() < w {
            assert(n == w);
        } else {
            assert(out@ =~= s@);
        }
    }
    out
}

/// The stat lines of a summary.
fn stats_text(v: &Vec<SymbolStat>) -> (r: Vec<Vec<char>>)
    ensures
        char_views(r@) == stat_lines(v@),
{
    let ghost names = Seq::new(v@.len(), |k: int| v@[k].canonical_name@);
    let ghost kinds = Seq::new(v@.len(), |k: int| v@[k].kind@);
    let mut wn: usize = 0;
    let mut wk: usize = 0;
    let mut i: usize = 0;
    while i < v.len()
        invariant
            i <= v@.len(),
            names == Seq::new(v@.len(), |k: int| v@[k].canonical_name@),
            kinds == Seq::new(v@.len(), |k: int| v@[k].kind@),
            wn == max_width(names.take(i as int)),
            wk == max_width(kinds.take(i as int)),
        decreases v.len() - i,
    {
        proof {
            assert(names.take(i + 1).drop_last() =~= names.take(i as int));
            assert(kinds.take(i + 1).drop_last() =~= kinds.take(i as int));
        }
        let a = utf8_width(&v[i].canonical_name);
        if a > wn {
            wn = a;
        }
        let b = utf8_width(&v[i].kind);
        if b > wk {
            wk = b;
        }
        i = i + 1;
    }
    proof {
        assert(names.take(v@.len() as int) =~= names);
        assert(kinds.take(v@.len() as int) =~= kinds);
    }
    let mut out: Vec<Vec<char>> = Vec::new();
    let mut j: usize = 0;
    while j < v.len()
        invariant
            j <= v@.len(),
            wn == max_width(Seq::new(v@.len(), |k: int| v@[k].canonical_name@)),
            wk == max_width(Seq::new(v@.len(), |k: int| v@[k].kind@)),
            char_views(out@) == stat_lines(v@).take(j as int),
        decreases v.len() - j,
    {
        let mut l: Vec<char> = Vec::new();
        push_str(&mut l, "  ");
        let a = pad_to(&v[j].canonical_name, wn);
        push_all(&mut l, a.as_slice());
        push_str(&mut l, "  ");
        let b = pad_to(&v[j].kind, wk);
        push_all(&mut l, b.as_slice());
        push_str(&mut l, "  callers:");
        let c = decimal_chars(v[j].caller_count);
        push_all(&mut l, c.as_slice());
        push_str(&mut l, "  callees:");
        let d = decimal_chars(v[j].callee_count);
        push_all(&mut l, d.as_slice());
        add_line(&mut out, l);
        proof {
            assert(char_views(out@) =~= stat_lines(v@).take(j + 1));
        }
        j = j + 1;
    }
    proof {
        assert(stat_lines(v@).take(v@.len() as int) =~= stat_lines(v@));
    }
    out
}

/// The lines of a summary.
fn summary_text(p: &SummaryPayload) -> (r: Vec<Vec<char>>)
    ensures
        char_views(r@) == summary_lines(*p),
{
    let mut out: Vec<Vec<char>> = Vec::new();
    let mut first: Vec<char> = Vec::new();
    push_str(&mut first, "files: ");
    let d = decimal_chars(p.file_count);
    push_all(&mut first, d.as_slice());
    add_line(&mut out, first);
    let mut second: Vec<char> = Vec::new();
    push_str(&mut second, "symbols:");
    add_line(&mut out, second);
    add_lines(&mut out, counts_text(&p.symbol_counts));
    let ghost base = char_views(out@);
    if p.edge_counts.len() > 0 {
        let mut h: Vec<char> = Vec::new();
        push_str(&mut h, "edges:");
        add_line(&mut out, h);
        add_lines(&mut out, counts_text(&p.edge_counts));
    }
    proof {
        assert(char_views(out@) =~= base + (if p.edge_counts@.len() > 0 {
            seq!["edges:"@] + count_lines(p.edge_counts@)
        } else {
            Seq::empty()
        }));
    }
    let ghost base2 = char_views(out@);
    if p.top_level_symbols.len() > 0 {
        let mut h: Vec<char> = Vec::new();
        push_str(&mut h, "top-level:");
        add_line(&mut out, h);
        add_lines(&mut out, names_of_symbols(&p.top_level_symbols, "  "));
    }
    proof {
        assert(char_views(out@) =~= base2 + (if p.top_level_symbols@.len() > 0 {
            seq!["top-level:"@] + name_lines(p.top_level_symbols@, "  "@)
        } else {
            Seq::empty()
        }));
    }
    let ghost base3 = char_views(out@);
    match &p.symbol_stats {
        Some(st) => {
            let mut h: Vec<char> = Vec::new();
            push_str(&mut h, "symbol stats (by caller count):");
            add_line(&mut out, h);
            add_lines(&mut out, stats_text(st));
            proof {
                assert(char_views(out@) =~= base3 + (seq!["symbol stats (by caller count):"@] + stat_lines(st@)));
            }
        },
        None => {
            proof {
                assert(char_views(out@) =~= base3 + Seq::<Seq<char>>::empty());
            }
        },
    }
    proof {
        let fixed = seq!["files: "@ + decimal(p.file_count as nat), "symbols:"@];
        assert(summary_lines(*p) =~= fixed + count_lines(p.symbol_counts@) + (if p.edge_counts@.len() > 0 {
            seq!["edges:"@] + count_lines(p.edge_counts@)
        } else {
            Seq::empty()
        }) + (if p.top_level_symbols@.len() > 0 {
            seq!["top-level:"@] + name_lines(p.top_level_symbols@, "  "@)
        } else {
            Seq::empty()
        }) + match p.symbol_stats {
            Some(st) => seq!["symbol stats (by caller count):"@] + stat_lines(st@),
            None => Seq::empty(),
        });
    }
    out
}

/// Indented `[kind] target` lines.
fn out_text(v: &Vec<OutgoingEdge>) -> (r: Vec<Vec<char>>)
    ensures
        char_views(r@) == out_lines(v@),
{
    let mut out: Vec<Vec<char>> = Vec::new();
    let mut i: usize = 0;
    while i < v.len()
        invariant
            i <= v@.len(),
            char_views(out@) == out_lines(v@).take(i as int),
        decreases v.len() - i,
    {
        let mut l = line_of("  [", &v[i].kind);
        push_str(&mut l, "] ");
        push_str(&mut l, v[i].target.canonical_name.as_str());
        add_line(&mut out, l);
        proof {
            assert(char_views(out@) =~= out_lines(v@).take(i + 1));
        }
        i = i + 1;
    }
    proof {
        assert(out_lines(v@).take(v@.len() as int) =~= out_lines(v@));
    }
    out
}

/// Indented `[kind] source` lines.
fn in_text(v: &Vec<IncomingEdge>) -> (r: Vec<Vec<char>>)
    ensures
        char_views(r@) == in_lines(v@),
{
    let mut out: Vec<Vec<char>> = Vec::new();
    let mut i: usize = 0;
    while i < v.len()
        invariant
            i <= v@.len(),
            char_views(out@) == in_lines(v@).take(i as int),
        decreases v.len() - i,
    {
        let mut l = line_of("  [", &v[i].kind);
        push_str(&mut l, "] ");
        push_str(&mut l, v[i].source.canonical_name.as_str());
        add_line(&mut out, l);
        proof {
            assert(char_views(out@) =~= in_lines(v@).take(i + 1));
        }
        i = i + 1;
    }
    proof {
        assert(in_lines(v@).take(v@.len() as int) =~= in_lines(v@));
    }
    out
}

/// The names of a path joined by arrows.
fn path_line(p: &PathResult) -> (r: Vec<char>)
    ensures
        r@ == join(path_names(*p), " -> "@),
{
    let mut out: Vec<char> = Vec::new();
    let mut i: usize = 0;
    let ghost names = path_names(*p);
    while i < p.nodes.len()
        invariant
            names == path_names(*p),
            i <= p.nodes@.len(),
            out@ == join(names.take(i as int), " -> "@),
        decreases p.nodes.len() - i,
    {
        proof {
            assert(names.take(i + 1).drop_last() =~= names.take(i as int));
            assert(names.take(i + 1).last() == p.nodes@[i as int].canonical_name@);
        }
        if i > 0 {
            push_str(&mut out, " -> ");
        } else {
            proof {
                assert(names.take(1) =~= seq![names[0]]);
            }
        }
        push_str(&mut out, p.nodes[i].canonical_name.as_str());
        i = i + 1;
    }
    proof {
        assert(names.take(p.nodes@.len() as int) =~= names);
    }
    out
}

/// The lines of some paths.
fn paths_text(v: &Vec<PathResult>) -> (r: Vec<Vec<char>>)
    ensures
        char_views(r@) == path_lines(v@),
{
    let mut out: Vec<Vec<char>> = Vec::new();
    let mut i: usize = 0;
    while i < v.len()
        invariant
            i <= v@.len(),
            char_views(out@) == path_lines(v@.take(i as int)),
        decreases v.len() - i,
    {
        proof {
            assert(v@.take(i + 1).drop_last() =~= v@.take(i as int));
            assert(v@.take(i + 1).last() == v@[i as int]);
        }
        if i > 0 {
            add_line(&mut out, Vec::new());
        }
        add_line(&mut out, path_line(&v[i]));
        proof {
            assert(char_views(out@) =~= path_lines(v@.take(i + 1)));
        }
        i = i + 1;
    }
    proof {
        assert(v@.take(v@.len() as int) =~= v@);
    }
    out
}

/// Lines joined into text, each ended by a newline.
fn join_lines(lines: &Vec<Vec<char>>) -> (r: String)
    ensures
        r@ == text_lines(char_views(lines@)),
{
    let mut out: Vec<char> = Vec::new();
    let mut i: usize = 0;
    let ghost lv = char_views(lines@);
    while i < lines.len()
        invariant
            lv == char_views(lines@),
            i <= lines@.len(),
            out@ == text_lines(lv.take(i as int)),
        decreases lines.len() - i,
    {
        proof {
            assert(lv.take(i + 1).drop_last() =~= lv.take(i as int));
            assert(lv.take(i + 1).last() == lines@[i as int]@);
        }
        push_all(&mut out, lines[i].as_slice());
        out.push('\n');
        proof {
            assert(out@ =~= text_lines(lv.take(i + 1)));
        }
        i = i + 1;
    }
    proof {
        assert(lv.take(lines@.len() as int) =~= lv);
    }
    chars_to_string(out.as_slice())
}

/// The error line of a failed query.
fn error_text(e: &QueryError) -> (r: Vec<Vec<char>>)
    ensures
        char_views(r@) == error_lines(*e),
{
    let mut out: Vec<Vec<char>> = Vec::new();
    add_line(&mut out, line_of("error: ", &e.message));
    proof {
        assert(char_views(out@) =~= error_lines(*e));
    }
    out
}

impl QueryResponse {
    /// The text form of the answer: one line per symbol, count or edge, or
    /// an `error:` line.
    pub fn render_text(&self) -> (r: String)
        ensures
            r@ == text_lines(response_lines(*self)),
    {
        let mut lines: Vec<Vec<char>> = Vec::new();
        match &self.0 {
            QueryResponseInner::SymbolsIn(doc) => match doc {
                QueryDocument::Answered { payload, .. } => {
                    add_lines(&mut lines, names_of_symbols(payload, ""));
                    proof {
                        reveal_strlit("");
                        assert(""@ =~= Seq::<char>::empty());
                        assert(char_views(lines@) =~= name_lines(payload@, Seq::empty()));
                    }
                },
                QueryDocument::Failed { error, .. } => {
                    add_lines(&mut lines, error_text(error));
                },
            },
            QueryResponseInner::Summary(doc) => match doc {
                QueryDocument::Answered { payload, .. } => {
                    add_lines(&mut lines, summary_text(payload));
                },
                QueryDocument::Failed { error, .. } => {
                    add_lines(&mut lines, error_text(error));
                },
            },
            QueryResponseInner::Callees(doc) => match doc {
                QueryDocument::Answered { payload, .. } => {
                    add_line(&mut lines, chars(&payload.0.canonical_name));
                    add_lines(&mut lines, out_text(&payload.1));
                },
                QueryDocument::Failed { error, .. } => {
                    add_lines(&mut lines, error_text(error));
                },
            },
            QueryResponseInner::Callers(doc) => match doc {
                QueryDocument::Answered { payload, .. } => {
                    add_line(&mut lines, chars(&payload.0.canonical_name));
                    add_lines(&mut lines, in_text(&payload.1));
                },
                QueryDocument::Failed { error, .. } => {
                    add_lines(&mut lines, error_text(error));
                },
            },
            QueryResponseInner::Neighbors(doc) => match doc {
                QueryDocument::Answered { payload, .. } => {
                    add_line(&mut lines, chars(&payload.0.canonical_name));
                    let mut h: Vec<char> = Vec::new();
                    push_str(&mut h, "incoming:");
                    add_line(&mut lines, h);
                    add_lines(&mut lines, in_text(&payload.1));
                    let mut g: Vec<char> = Vec::new();
                    push_str(&mut g, "outgoing:");
                    add_line(&mut lines, g);
                    add_lines(&mut lines, out_text(&payload.2));
                },
                QueryDocument::Failed { error, .. } => {
                    add_lines(&mut lines, error_text(error));
                },
            },
            QueryResponseInner::Path(doc) => match doc {
                QueryDocument::Answered { payload, .. } => {
                    add_lines(&mut lines, paths_text(payload));
                },
                QueryDocument::Failed { error, .. } => {
                    add_lines(&mut lines, error_text(error));
                },
            },
        }
        proof {
            assert(char_views(lines@) =~= response_lines(*self));
        }
        join_lines(&lines)
    }
}

} // verus!
