//! The pre-pass: which names each scope of a module declares, gathered
//! from the syntax tree before any analysis.

use vstd::prelude::*;

use crate::analyzer::resolution::str_is;
use crate::analyzer::util::target_binds;
use crate::analyzer::session::{clone_scope_info, scope_pos, AnalysisSession, ScopeInfo};
use crate::intern::{Interner, SymId};
use crate::pyast::{PyExpr, PyModule, PyParams, PyStmt};
use crate::text::{chars_to_string, dot_join, str_to_chars};

verus! {

/// Put `scope` under `key`, replacing a scope already there.
pub fn put_scope(scopes: &mut Vec<(SymId, ScopeInfo)>, key: SymId, scope: ScopeInfo)
    ensures
        exists|p: int| 0 <= p < final(scopes)@.len() && final(scopes)@[p].0 == key,
        old(scopes)@.len() <= final(scopes)@.len(),
{
    match scope_pos(scopes, key) {
        Some(p) => {
            scopes.set(p, (key, scope));
            assert(scopes@[p as int].0 == key);
        },
        None => {
            scopes.push((key, scope));
            assert(scopes@[scopes@.len() - 1].0 == key);
        },
    }
}

/// `n` is declared in `sc`, and local there, under some symbol of
/// `interner`.
pub open spec fn declared_local(sc: ScopeInfo, interner: &Interner, n: Seq<char>) -> bool {
    exists|s: SymId|
        interner.has_id(s) && interner.str_of(s) == n && (exists|i: int| 0 <= i < sc.defs@.len() && #[trigger] sc.defs@[i].0 == s)
            && sc.locals@.contains(s)
}

/// `next` extends `sc` with declarations and locals only, each naming (in
/// `interner`) a member of `allowed`; new declarations hold no values.
pub open spec fn grows_locals(sc: ScopeInfo, next: ScopeInfo, interner: &Interner, allowed: Set<Seq<char>>) -> bool {
    &&& sc.defs@.is_prefix_of(next.defs@)
    &&& sc.locals@.is_prefix_of(next.locals@)
    &&& next.containers == sc.containers
    &&& next.all_exports == sc.all_exports
    &&& forall|i: int|
        sc.defs@.len() <= i < next.defs@.len() ==> interner.has_id(#[trigger] next.defs@[i].0) && allowed.contains(
            interner.str_of(next.defs@[i].0),
        ) && next.defs@[i].1@.len() == 0
    &&& forall|i: int|
        sc.locals@.len() <= i < next.locals@.len() ==> interner.has_id(#[trigger] next.locals@[i]) && allowed.contains(
            interner.str_of(next.locals@[i]),
        )
}

/// Growth composes, and what is declared stays declared.
proof fn lemma_grows_trans(
    a: ScopeInfo,
    b: ScopeInfo,
    c: ScopeInfo,
    i1: &Interner,
    i2: &Interner,
    al1: Set<Seq<char>>,
    al2: Set<Seq<char>>,
    al: Set<Seq<char>>,
)
    requires
        grows_locals(a, b, i1, al1),
        grows_locals(b, c, i2, al2),
        i1.extends(i2),
        al1.subset_of(al),
        al2.subset_of(al),
    ensures
        grows_locals(a, c, i2, al),
        forall|n: Seq<char>| declared_local(b, i1, n) ==> declared_local(c, i2, n),
{
    assert forall|i: int| a.defs@.len() <= i < c.defs@.len() implies i2.has_id(#[trigger] c.defs@[i].0) && al.contains(
        i2.str_of(c.defs@[i].0),
    ) && c.defs@[i].1@.len() == 0 by {
        if i < b.defs@.len() {
            assert(c.defs@[i] == b.defs@[i]);
            assert(i1.has_id(b.defs@[i].0));
            assert(al1.contains(i1.str_of(b.defs@[i].0)));
            assert(i2@[c.defs@[i].0.0 as int] == i1@[c.defs@[i].0.0 as int]);
        } else {
            assert(i2.has_id(c.defs@[i].0));
            assert(al2.contains(i2.str_of(c.defs@[i].0)));
        }
    }
    assert forall|i: int| a.locals@.len() <= i < c.locals@.len() implies i2.has_id(#[trigger] c.locals@[i]) && al.contains(
        i2.str_of(c.locals@[i]),
    ) by {
        if i < b.locals@.len() {
            assert(c.locals@[i] == b.locals@[i]);
            assert(i1.has_id(b.locals@[i]));
            assert(al1.contains(i1.str_of(b.locals@[i])));
            assert(i2@[c.locals@[i].0 as int] == i1@[c.locals@[i].0 as int]);
        } else {
            assert(i2.has_id(c.locals@[i]));
            assert(al2.contains(i2.str_of(c.locals@[i])));
        }
    }
    assert forall|n: Seq<char>| declared_local(b, i1, n) implies declared_local(c, i2, n) by {
        let s = choose|s: SymId|
            i1.has_id(s) && i1.str_of(s) == n && (exists|i: int| 0 <= i < b.defs@.len() && #[trigger] b.defs@[i].0 == s)
                && b.locals@.contains(s);
        let i = choose|i: int| 0 <= i < b.defs@.len() && #[trigger] b.defs@[i].0 == s;
        assert(c.defs@[i] == b.defs@[i]);
        assert(c.defs@[i].0 == s);
        assert(i2@[s.0 as int] == i1@[s.0 as int]);
        let k = choose|k: int| 0 <= k < b.locals@.len() && b.locals@[k] == s;
        assert(c.locals@[k] == b.locals@[k]);
        assert(c.locals@.contains(s));
        assert(i2.has_id(s) && i2.str_of(s) == n);
    }
}

/// No change is growth.
pub(crate) proof fn lemma_grows_refl(a: ScopeInfo, i: &Interner, al: Set<Seq<char>>)
    ensures
        grows_locals(a, a, i, al),
{
    assert(a.defs@.is_prefix_of(a.defs@));
    assert(a.locals@.is_prefix_of(a.locals@));
}

/// Intern `name` and declare it as a local of `scope`.
fn declare_local(scope: &mut ScopeInfo, interner: &mut Interner, name: &str)
    requires
        old(interner).wf(),
    ensures
        final(interner).wf(),
        old(interner).extends(final(interner)),
        grows_locals(*old(scope), *final(scope), final(interner), set![name@]),
        declared_local(*final(scope), final(interner), name@),
{
    let sym = interner.intern(name);
    let ghost s0 = *scope;
    let r = scope.declare(sym);
    let ghost s1 = *scope;
    scope.add_local(sym);
    proof {
        assert(scope.defs@[r as int].0 == sym);
        assert(scope.locals@.contains(sym)) by {
            if !s1.locals@.contains(sym) {
                assert(scope.locals@[scope.locals@.len() - 1] == sym);
            }
        }
        if (r as int) < s0.defs@.len() {
            assert(s0.defs@.is_prefix_of(scope.defs@));
        } else {
            assert(s0.defs@.is_prefix_of(scope.defs@));
        }
        assert(s0.locals@.is_prefix_of(scope.locals@));
        assert forall|i: int| s0.locals@.len() <= i < scope.locals@.len() implies interner.has_id(#[trigger] scope.locals@[i]) && set![name@].contains(
            interner.str_of(scope.locals@[i]),
        ) by {
            assert(scope.locals@[i] == sym);
        }
    }
}

/// The elements of a list or tuple display.
pub open spec fn display_elts(e: PyExpr) -> Option<Seq<PyExpr>> {
    match e {
        PyExpr::List { elts } => Some(elts@),
        PyExpr::Tuple { elts } => Some(elts@),
        _ => None,
    }
}

/// `x` is a string literal with the characters `t`.
pub open spec fn is_str_lit(x: PyExpr, t: Seq<char>) -> bool {
    x matches PyExpr::StrLit { value } && value@ == t
}

/// Some symbol of `v` has the characters `t`.
pub open spec fn lists_text(v: Seq<SymId>, interner: &Interner, t: Seq<char>) -> bool {
    exists|k: int| 0 <= k < v.len() && interner.str_of(v[k]) == t
}

/// The names listed by `__all__ = [...]` (or a tuple), when every element
/// is a string literal; `None` otherwise.
pub fn extract_all_exports(e: &PyExpr, interner: &mut Interner) -> (r: Option<Vec<SymId>>)
    requires
        old(interner).wf(),
    ensures
        final(interner).wf(),
        old(interner).extends(final(interner)),
        !(e is List || e is Tuple) ==> r is None,
        display_elts(*e) matches Some(es) ==> (r is Some <==> forall|i: int| 0 <= i < es.len() ==> (#[trigger] es[i]) is StrLit),
        r matches Some(v) ==> v@.no_duplicates(),
        r matches Some(v) ==> forall|k: int|
            0 <= k < v@.len() ==> final(interner).has_id(#[trigger] v@[k]) && exists|i: int|
                0 <= i < display_elts(*e).unwrap().len() && is_str_lit(display_elts(*e).unwrap()[i], final(interner).str_of(v@[k])),
        r matches Some(v) ==> forall|i: int, t: Seq<char>|
            0 <= i < display_elts(*e).unwrap().len() && #[trigger] is_str_lit(display_elts(*e).unwrap()[i], t) ==> lists_text(
                v@,
                final(interner),
                t,
            ),
{
    let elts = match e {
        PyExpr::List { elts } => elts,
        PyExpr::Tuple { elts } => elts,
        _ => return None,
    };
    let ghost es = elts@;
    let mut names: Vec<SymId> = Vec::new();
    let mut i: usize = 0;
    while i < elts.len()
        invariant
            interner.wf(),
            old(interner).extends(interner),
            display_elts(*e) == Some(es),
            es == elts@,
            i <= es.len(),
            forall|k: int| 0 <= k < i ==> (#[trigger] es[k]) is StrLit,
            names@.no_duplicates(),
            forall|k: int|
                0 <= k < names@.len() ==> interner.has_id(#[trigger] names@[k]) && exists|q: int|
                    0 <= q < i && is_str_lit(es[q], interner.str_of(names@[k])),
            forall|q: int, t: Seq<char>|
                0 <= q < i && #[trigger] is_str_lit(es[q], t) ==> exists|k: int| 0 <= k < names@.len() && interner.str_of(names@[k]) == t,
        decreases elts.len() - i,
    {
        match &elts[i] {
            PyExpr::StrLit { value } => {
                let ghost i0 = *interner;
                let sym = interner.intern(value.as_str());
                proof {
                    assert forall|k: int| 0 <= k < names@.len() implies interner.str_of(#[trigger] names@[k]) == i0.str_of(names@[k]) by {
                        assert(interner@[names@[k].0 as int] == i0@[names@[k].0 as int]);
                    }
                    assert(is_str_lit(es[i as int], value@));
                }
                let mut found = false;
                let mut j: usize = 0;
                while j < names.len()
                    invariant
                        j <= names@.len(),
                        found == exists|k: int| 0 <= k < j && names@[k] == sym,
                    decreases names.len() - j,
                {
                    if names[j] == sym {
                        found = true;
                    }
                    j = j + 1;
                }
                let ghost n0 = names@;
                if !found {
                    names.push(sym);
                }
                proof {
                    assert forall|a: int, b: int| 0 <= a < names@.len() && 0 <= b < names@.len() && a != b implies names@[a] != names@[b] by {
                        if a < n0.len() && b < n0.len() {
                            assert(n0[a] != n0[b]);
                        }
                    }
                    assert forall|k: int| 0 <= k < names@.len() implies interner.has_id(#[trigger] names@[k]) && exists|q: int|
                        0 <= q < i + 1 && is_str_lit(es[q], interner.str_of(names@[k])) by {
                        if k < n0.len() {
                            assert(names@[k] == n0[k]);
                            assert(interner.str_of(n0[k]) == i0.str_of(n0[k]));
                            let q = choose|q: int| 0 <= q < i && is_str_lit(es[q], i0.str_of(n0[k]));
                            assert(is_str_lit(es[q], interner.str_of(names@[k])));
                        } else {
                            assert(names@[k] == sym);
                            assert(is_str_lit(es[i as int], interner.str_of(names@[k])));
                        }
                    }
                    assert forall|q: int, t: Seq<char>| 0 <= q < i + 1 && #[trigger] is_str_lit(es[q], t) implies exists|k: int|
                        0 <= k < names@.len() && interner.str_of(names@[k]) == t by {
                        if q < i {
                            let k = choose|k: int| 0 <= k < n0.len() && i0.str_of(n0[k]) == t;
                            assert(names@[k] == n0[k]);
                            assert(interner.str_of(names@[k]) == t);
                        } else {
                            assert(t == value@);
                            if found {
                                let k = choose|k: int| 0 <= k < j && n0[k] == sym;
                                assert(interner.str_of(names@[k]) == t);
                            } else {
                                assert(names@[n0.len() as int] == sym);
                            }
                        }
                    }
                }
            },
            _ => {
                proof {
                    assert(!(es[i as int] is StrLit));
                }
                return None;
            },
        }
        i = i + 1;
    }
    proof {
        assert(display_elts(*e).unwrap() == es);
        assert forall|k: int| 0 <= k < names@.len() implies interner.has_id(#[trigger] names@[k]) && exists|q: int|
            0 <= q < es.len() && is_str_lit(es[q], interner.str_of(names@[k])) by {
            let q = choose|q: int| 0 <= q < i && is_str_lit(es[q], interner.str_of(names@[k]));
        }
        assert forall|q: int, t: Seq<char>|
            0 <= q < display_elts(*e).unwrap().len() && #[trigger] is_str_lit(display_elts(*e).unwrap()[q], t) implies lists_text(
            names@,
            interner,
            t,
        ) by {
            assert(is_str_lit(es[q], t));
        }
    }
    Some(names)
}

/// The names of the parameters of `p`.
pub open spec fn param_names(p: PyParams) -> Set<Seq<char>> {
    Set::new(
        |n: Seq<char>|
            (exists|i: int| 0 <= i < p.posonlyargs@.len() && (#[trigger] p.posonlyargs@[i]).name@ == n) || (exists|i: int|
                0 <= i < p.args@.len() && (#[trigger] p.args@[i]).name@ == n) || (exists|i: int|
                0 <= i < p.kwonlyargs@.len() && (#[trigger] p.kwonlyargs@[i]).name@ == n) || (p.vararg is Some
                && p.vararg.unwrap().name@ == n) || (p.kwarg is Some && p.kwarg.unwrap().name@ == n),
    )
}

/// One more declaration keeps the growth within `allowed` and what was
/// declared.
pub(crate) proof fn lemma_declare_step(
    a: ScopeInfo,
    b: ScopeInfo,
    c: ScopeInfo,
    i1: &Interner,
    i2: &Interner,
    allowed: Set<Seq<char>>,
    name: Seq<char>,
)
    requires
        grows_locals(a, b, i1, allowed),
        grows_locals(b, c, i2, set![name]),
        i1.extends(i2),
        allowed.contains(name),
    ensures
        grows_locals(a, c, i2, allowed),
        forall|n: Seq<char>| declared_local(b, i1, n) ==> declared_local(c, i2, n),
{
    assert(set![name].subset_of(allowed));
    assert(allowed.subset_of(allowed));
    lemma_grows_trans(a, b, c, i1, i2, allowed, set![name], allowed);
}

/// Two scopes with the same defs hold the same values.
pub proof fn lemma_def_holds_same(a: ScopeInfo, b: ScopeInfo, name: SymId, x: usize)
    requires
        a.defs@ == b.defs@,
        def_holds(a, name, x),
    ensures
        def_holds(b, name, x),
{
    let p = choose|p: int| 0 <= p < a.defs@.len() && a.defs@[p].0 == name && #[trigger] a.defs@[p].1@.contains(x);
    assert(b.defs@[p].1@.contains(x));
}

/// Some def of `name` in `sc` holds `x`.
pub open spec fn def_holds(sc: ScopeInfo, name: SymId, x: usize) -> bool {
    exists|p: int| 0 <= p < sc.defs@.len() && sc.defs@[p].0 == name && #[trigger] sc.defs@[p].1@.contains(x)
}

/// Some entry of `s` has key `k`.
pub open spec fn has_key(s: Seq<(SymId, ScopeInfo)>, k: SymId) -> bool {
    exists|q: int| 0 <= q < s.len() && s[q].0 == k
}

/// Declare each parameter of `params` as a local of `scope`.
fn declare_params(params: &PyParams, scope: &mut ScopeInfo, interner: &mut Interner)
    requires
        old(interner).wf(),
    ensures
        final(interner).wf(),
        old(interner).extends(final(interner)),
        grows_locals(*old(scope), *final(scope), final(interner), param_names(*params)),
        forall|n: Seq<char>| #[trigger] param_names(*params).contains(n) ==> declared_local(*final(scope), final(interner), n),
{
    let ghost pn = param_names(*params);
    proof {
        lemma_grows_refl(*scope, interner, pn);
    }
    let mut i: usize = 0;
    while i < params.posonlyargs.len()
        invariant
            interner.wf(),
            old(interner).extends(interner),
            pn == param_names(*params),
            grows_locals(*old(scope), *scope, interner, pn),
            i <= params.posonlyargs@.len(),
            forall|k: int| 0 <= k < i ==> declared_local(*scope, interner, (#[trigger] params.posonlyargs@[k]).name@),
        decreases params.posonlyargs.len() - i,
    {
        let ghost s0 = *scope;
        let ghost i0 = *interner;
        declare_local(scope, interner, params.posonlyargs[i].name.as_str());
        proof {
            assert(pn.contains(params.posonlyargs@[i as int].name@));
            lemma_declare_step(*old(scope), s0, *scope, &i0, interner, pn, params.posonlyargs@[i as int].name@);
        }
        i = i + 1;
    }
    let mut i: usize = 0;
    while i < params.args.len()
        invariant
            interner.wf(),
            old(interner).extends(interner),
            pn == param_names(*params),
            grows_locals(*old(scope), *scope, interner, pn),
            i <= params.args@.len(),
            forall|k: int| 0 <= k < params.posonlyargs@.len() ==> declared_local(*scope, interner, (#[trigger] params.posonlyargs@[k]).name@),
            forall|k: int| 0 <= k < i ==> declared_local(*scope, interner, (#[trigger] params.args@[k]).name@),
        decreases params.args.len() - i,
    {
        let ghost s0 = *scope;
        let ghost i0 = *interner;
        declare_local(scope, interner, params.args[i].name.as_str());
        proof {
            assert(pn.contains(params.args@[i as int].name@));
            lemma_declare_step(*old(scope), s0, *scope, &i0, interner, pn, params.args@[i as int].name@);
        }
        i = i + 1;
    }
    let mut i: usize = 0;
    while i < params.kwonlyargs.len()
        invariant
            interner.wf(),
            old(interner).extends(interner),
            pn == param_names(*params),
            grows_locals(*old(scope), *scope, interner, pn),
            i <= params.kwonlyargs@.len(),
            forall|k: int| 0 <= k < params.posonlyargs@.len() ==> declared_local(*scope, interner, (#[trigger] params.posonlyargs@[k]).name@),
            forall|k: int| 0 <= k < params.args@.len() ==> declared_local(*scope, interner, (#[trigger] params.args@[k]).name@),
            forall|k: int| 0 <= k < i ==> declared_local(*scope, interner, (#[trigger] params.kwonlyargs@[k]).name@),
        decreases params.kwonlyargs.len() - i,
    {
        let ghost s0 = *scope;
        let ghost i0 = *interner;
        declare_local(scope, interner, params.kwonlyargs[i].name.as_str());
        proof {
            assert(pn.contains(params.kwonlyargs@[i as int].name@));
            lemma_declare_step(*old(scope), s0, *scope, &i0, interner, pn, params.kwonlyargs@[i as int].name@);
        }
        i = i + 1;
    }
    if let Some(va) = &params.vararg {
        let ghost s0 = *scope;
        let ghost i0 = *interner;
        declare_local(scope, interner, va.name.as_str());
        proof {
            assert(pn.contains(va.name@));
            lemma_declare_step(*old(scope), s0, *scope, &i0, interner, pn, va.name@);
        }
    }
    if let Some(kw) = &params.kwarg {
        let ghost s0 = *scope;
        let ghost i0 = *interner;
        declare_local(scope, interner, kw.name.as_str());
        proof {
            assert(pn.contains(kw.name@));
            lemma_declare_step(*old(scope), s0, *scope, &i0, interner, pn, kw.name@);
            if params.vararg is Some {
                assert(declared_local(s0, &i0, params.vararg.unwrap().name@));
            }
        }
    }
    proof {
        assert forall|n: Seq<char>| #[trigger] pn.contains(n) implies declared_local(*scope, interner, n) by {
            if exists|i: int| 0 <= i < params.posonlyargs@.len() && (#[trigger] params.posonlyargs@[i]).name@ == n {
                let i = choose|i: int| 0 <= i < params.posonlyargs@.len() && (#[trigger] params.posonlyargs@[i]).name@ == n;
                assert(declared_local(*scope, interner, params.posonlyargs@[i].name@));
            } else if exists|i: int| 0 <= i < params.args@.len() && (#[trigger] params.args@[i]).name@ == n {
                let i = choose|i: int| 0 <= i < params.args@.len() && (#[trigger] params.args@[i]).name@ == n;
                assert(declared_local(*scope, interner, params.args@[i].name@));
            } else if exists|i: int| 0 <= i < params.kwonlyargs@.len() && (#[trigger] params.kwonlyargs@[i]).name@ == n {
                let i = choose|i: int| 0 <= i < params.kwonlyargs@.len() && (#[trigger] params.kwonlyargs@[i]).name@ == n;
                assert(declared_local(*scope, interner, params.kwonlyargs@[i].name@));
            }
        }
    }
}

/// The names assignment target `e` binds.
pub open spec fn target_names(e: PyExpr) -> Set<Seq<char>> {
    Set::new(|n: Seq<char>| target_binds(e, n))
}

/// Growth within a smaller set of names is growth within a larger one.
proof fn lemma_grows_weaken(a: ScopeInfo, b: ScopeInfo, i: &Interner, al1: Set<Seq<char>>, al: Set<Seq<char>>)
    requires
        grows_locals(a, b, i, al1),
        al1.subset_of(al),
    ensures
        grows_locals(a, b, i, al),
{
    lemma_grows_refl(a, i, al);
    assert(i.extends(i));
    lemma_grows_trans(a, a, b, i, i, al, al1, al);
}

/// Declare the names an assignment target binds (through tuples, lists
/// and starred targets) as locals of `scope`.
#[verifier::loop_isolation(false)]
pub fn collect_assign_target_names(target: &PyExpr, scope: &mut ScopeInfo, interner: &mut Interner)
    requires
        old(interner).wf(),
    ensures
        final(interner).wf(),
        old(interner).extends(final(interner)),
        grows_locals(*old(scope), *final(scope), final(interner), target_names(*target)),
        forall|n: Seq<char>| target_binds(*target, n) ==> declared_local(*final(scope), final(interner), n),
    decreases target,
{
    let ghost tn = target_names(*target);
    match target {
        PyExpr::Name { id, .. } => {
            declare_local(scope, interner, id.as_str());
            proof {
                assert(set![id@].subset_of(tn));
                lemma_grows_weaken(*old(scope), *scope, interner, set![id@], tn);
                assert forall|n: Seq<char>| target_binds(*target, n) implies declared_local(*scope, interner, n) by {
                    assert(n == id@);
                }
            }
        },
        PyExpr::Tuple { elts } | PyExpr::List { elts } => {
            let mut i: usize = 0;
            proof {
                lemma_grows_refl(*scope, interner, tn);
            }
            while i < elts.len()
                invariant
                    interner.wf(),
                    old(interner).extends(interner),
                    tn == target_names(*target),
                    target is Tuple ==> *elts == target->Tuple_elts,
                    target is List ==> *elts == target->List_elts,
                    target is Tuple || target is List,
                    i <= elts@.len(),
                    grows_locals(*old(scope), *scope, interner, tn),
                    forall|k: int, n: Seq<char>| 0 <= k < i && #[trigger] target_binds(elts@[k], n) ==> declared_local(*scope, interner, n),
                decreases elts.len() - i,
            {
                proof {
                    assert(decreases_to!(elts@ => elts@[i as int]));
                    assert(decreases_to!(*elts => elts@));
                    if target is Tuple {
                        assert(*elts == target->Tuple_elts);
                        assert(decreases_to!(*target => target->Tuple_elts));
                    } else {
                        assert(*elts == target->List_elts);
                        assert(decreases_to!(*target => target->List_elts));
                    }
                }
                let ghost s0 = *scope;
                let ghost i0 = *interner;
                collect_assign_target_names(&elts[i], scope, interner);
                proof {
                    assert(target_names(elts@[i as int]).subset_of(tn)) by {
                        assert forall|n: Seq<char>| target_names(elts@[i as int]).contains(n) implies tn.contains(n) by {
                            assert(target_binds(elts@[i as int], n));
                        }
                    }
                    lemma_grows_trans(*old(scope), s0, *scope, &i0, interner, tn, target_names(elts@[i as int]), tn);
                }
                i = i + 1;
            }
            proof {
                assert forall|n: Seq<char>| target_binds(*target, n) implies declared_local(*scope, interner, n) by {
                    let k = choose|k: int| 0 <= k < elts@.len() && target_binds(#[trigger] elts@[k], n);
                }
            }
        },
        PyExpr::Starred { value } => {
            collect_assign_target_names(value, scope, interner);
            proof {
                assert(target_names(**value).subset_of(tn)) by {
                    assert forall|n: Seq<char>| target_names(**value).contains(n) implies tn.contains(n) by {}
                }
                lemma_grows_weaken(*old(scope), *scope, interner, target_names(**value), tn);
                assert forall|n: Seq<char>| target_binds(*target, n) implies declared_local(*scope, interner, n) by {
                    assert(target_binds(**value, n));
                }
            }
        },
        _ => {
            proof {
                lemma_grows_refl(*scope, interner, tn);
                assert forall|n: Seq<char>| target_binds(*target, n) implies declared_local(*scope, interner, n) by {
                    assert(!(target is Name || target is Tuple || target is List || target is Starred));
                }
            }
        },
    }
}

/// Declare in `scope` every name that `stmts` bind at this scope level:
/// definitions, imports, assignment targets, loop and `with` targets,
/// exception names, and the bindings of nested blocks; record a literal
/// `__all__`.
#[verifier::loop_isolation(false)]
pub fn collect_scope_defs(stmts: &Vec<PyStmt>, scope: &mut ScopeInfo, interner: &mut Interner)
    requires
        old(interner).wf(),
    ensures
        final(interner).wf(),
        old(interner).extends(final(interner)),
    decreases stmts,
{
    let mut i: usize = 0;
    while i < stmts.len()
        invariant
            interner.wf(),
            old(interner).extends(interner),
        decreases stmts.len() - i,
    {
        proof {
            assert(decreases_to!(*stmts => stmts@));
            assert(decreases_to!(stmts@ => stmts@[i as int]));
        }
        let stmt = &stmts[i];
        match stmt {
            PyStmt::FunctionDef { name, .. } => {
                declare_local(scope, interner, name.as_str());
            },
            PyStmt::ClassDef { name, .. } => {
                declare_local(scope, interner, name.as_str());
            },
            PyStmt::Import { names } => {
                let mut j: usize = 0;
                while j < names.len()
                    invariant
                        interner.wf(),
                        old(interner).extends(interner),
                    decreases names.len() - j,
                {
                    let sym = match &names[j].asname {
                        Some(a) => interner.intern(a.as_str()),
                        None => interner.intern(names[j].name.as_str()),
                    };
                    let _ = scope.declare(sym);
                    j = j + 1;
                }
            },
            PyStmt::ImportFrom { names, .. } => {
                let mut j: usize = 0;
                while j < names.len()
                    invariant
                        interner.wf(),
                        old(interner).extends(interner),
                    decreases names.len() - j,
                {
                    if !str_is(&names[j].name, "*") {
                        let sym = match &names[j].asname {
                            Some(a) => interner.intern(a.as_str()),
                            None => interner.intern(names[j].name.as_str()),
                        };
                        let _ = scope.declare(sym);
                    }
                    j = j + 1;
                }
            },
            PyStmt::Assign { targets, value } => {
                let mut j: usize = 0;
                while j < targets.len()
                    invariant
                        interner.wf(),
                        old(interner).extends(interner),
                    decreases targets.len() - j,
                {
                    let t = &targets[j];
                    let is_all = match t {
                        PyExpr::Name { id, .. } => str_is(id, "__all__"),
                        _ => false,
                    };
                    if is_all {
                        if let Some(exports) = extract_all_exports(value, interner) {
                            scope.all_exports = Some(exports);
                        }
                    }
                    collect_assign_target_names(t, scope, interner);
                    j = j + 1;
                }
            },
            PyStmt::AugAssign { target, .. } => {
                collect_assign_target_names(target, scope, interner);
            },
            PyStmt::AnnAssign { target, .. } => {
                collect_assign_target_names(target, scope, interner);
            },
            PyStmt::For { target, body, orelse, .. } => {
                collect_assign_target_names(target, scope, interner);
                proof {
                    assert(decreases_to!(stmts@[i as int] => stmts@[i as int]->For_body));
                    assert(decreases_to!(stmts@[i as int] => stmts@[i as int]->For_orelse));
                }
                collect_scope_defs(body, scope, interner);
                collect_scope_defs(orelse, scope, interner);
            },
            PyStmt::With { items, body, .. } => {
                let mut j: usize = 0;
                while j < items.len()
                    invariant
                        interner.wf(),
                        old(interner).extends(interner),
                    decreases items.len() - j,
                {
                    if let Some(vars) = &items[j].optional_vars {
                        collect_assign_target_names(vars, scope, interner);
                    }
                    j = j + 1;
                }
                proof {
                    assert(decreases_to!(stmts@[i as int] => stmts@[i as int]->With_body));
                }
                collect_scope_defs(body, scope, interner);
            },
            PyStmt::Try { body, handlers, orelse, finalbody } => {
                let mut j: usize = 0;
                while j < handlers.len()
                    invariant
                        interner.wf(),
                        old(interner).extends(interner),
                    decreases handlers.len() - j,
                {
                    if let Some(n) = &handlers[j].name {
                        declare_local(scope, interner, n.as_str());
                    }
                    j = j + 1;
                }
                proof {
                    assert(decreases_to!(stmts@[i as int] => stmts@[i as int]->Try_body));
                    assert(decreases_to!(stmts@[i as int] => stmts@[i as int]->Try_orelse));
                    assert(decreases_to!(stmts@[i as int] => stmts@[i as int]->Try_finalbody));
                    assert(decreases_to!(stmts@[i as int] => stmts@[i as int]->Try_handlers));
                }
                collect_scope_defs(body, scope, interner);
                let mut j: usize = 0;
                while j < handlers.len()
                    invariant
                        interner.wf(),
                        old(interner).extends(interner),
                    decreases handlers.len() - j,
                {
                    proof {
                        assert(decreases_to!(*handlers => handlers@));
                        assert(decreases_to!(handlers@ => handlers@[j as int]));
                        assert(decreases_to!(handlers@[j as int] => handlers@[j as int].body));
                    }
                    collect_scope_defs(&handlers[j].body, scope, interner);
                    j = j + 1;
                }
                collect_scope_defs(orelse, scope, interner);
                collect_scope_defs(finalbody, scope, interner);
            },
            PyStmt::If { body, clauses, .. } => {
                proof {
                    assert(decreases_to!(stmts@[i as int] => stmts@[i as int]->If_body));
                    assert(decreases_to!(stmts@[i as int] => stmts@[i as int]->If_clauses));
                }
                collect_scope_defs(body, scope, interner);
                let mut j: usize = 0;
                while j < clauses.len()
                    invariant
                        interner.wf(),
                        old(interner).extends(interner),
                    decreases clauses.len() - j,
                {
                    proof {
                        assert(decreases_to!(*clauses => clauses@));
                        assert(decreases_to!(clauses@ => clauses@[j as int]));
                        assert(decreases_to!(clauses@[j as int] => clauses@[j as int].body));
                    }
                    collect_scope_defs(&clauses[j].body, scope, interner);
                    j = j + 1;
                }
            },
            PyStmt::While { body, orelse, .. } => {
                proof {
                    assert(decreases_to!(stmts@[i as int] => stmts@[i as int]->While_body));
                    assert(decreases_to!(stmts@[i as int] => stmts@[i as int]->While_orelse));
                }
                collect_scope_defs(body, scope, interner);
                collect_scope_defs(orelse, scope, interner);
            },
            _ => {},
        }
        i = i + 1;
    }
}

/// Build the scope of every function and class defined in `stmts`
/// (nested blocks included), namespaced under `parent_ns`.
#[verifier::loop_isolation(false)]
pub fn collect_nested_scopes(
    stmts: &Vec<PyStmt>,
    parent_ns: &[char],
    scopes: &mut Vec<(SymId, ScopeInfo)>,
    interner: &mut Interner,
)
    requires
        old(interner).wf(),
    ensures
        final(interner).wf(),
        old(interner).extends(final(interner)),
        old(scopes)@.len() <= final(scopes)@.len(),
    decreases stmts,
{
    let mut i: usize = 0;
    while i < stmts.len()
        invariant
            interner.wf(),
            old(interner).extends(interner),
            old(scopes)@.len() <= scopes@.len(),
        decreases stmts.len() - i,
    {
        proof {
            assert(decreases_to!(*stmts => stmts@));
            assert(decreases_to!(stmts@ => stmts@[i as int]));
        }
        let stmt = &stmts[i];
        match stmt {
            PyStmt::FunctionDef { name, params, body, .. } => {
                let ns = dot_join(parent_ns, str_to_chars(name.as_str()).as_slice());
                let mut scope = ScopeInfo::new();
                declare_params(params, &mut scope, interner);
                proof {
                    assert(decreases_to!(stmts@[i as int] => stmts@[i as int]->FunctionDef_body));
                }
                collect_scope_defs(body, &mut scope, interner);
                let ns_sym = interner.intern(chars_to_string(ns.as_slice()).as_str());
                put_scope(scopes, ns_sym, scope);
                collect_nested_scopes(body, ns.as_slice(), scopes, interner);
            },
            PyStmt::ClassDef { name, body, .. } => {
                let ns = dot_join(parent_ns, str_to_chars(name.as_str()).as_slice());
                let mut scope = ScopeInfo::new();
                proof {
                    assert(decreases_to!(stmts@[i as int] => stmts@[i as int]->ClassDef_body));
                }
                collect_scope_defs(body, &mut scope, interner);
                let ns_sym = interner.intern(chars_to_string(ns.as_slice()).as_str());
                put_scope(scopes, ns_sym, scope);
                collect_nested_scopes(body, ns.as_slice(), scopes, interner);
            },
            PyStmt::If { body, clauses, .. } => {
                proof {
                    assert(decreases_to!(stmts@[i as int] => stmts@[i as int]->If_body));
                    assert(decreases_to!(stmts@[i as int] => stmts@[i as int]->If_clauses));
                }
                collect_nested_scopes(body, parent_ns, scopes, interner);
                let mut j: usize = 0;
                while j < clauses.len()
                    invariant
                        interner.wf(),
                        old(interner).extends(interner),
                        old(scopes)@.len() <= scopes@.len(),
                    decreases clauses.len() - j,
                {
                    proof {
                        assert(decreases_to!(*clauses => clauses@));
                        assert(decreases_to!(clauses@ => clauses@[j as int]));
                        assert(decreases_to!(clauses@[j as int] => clauses@[j as int].body));
                    }
                    collect_nested_scopes(&clauses[j].body, parent_ns, scopes, interner);
                    j = j + 1;
                }
            },
            PyStmt::While { body, orelse, .. } => {
                proof {
                    assert(decreases_to!(stmts@[i as int] => stmts@[i as int]->While_body));
                    assert(decreases_to!(stmts@[i as int] => stmts@[i as int]->While_orelse));
                }
                collect_nested_scopes(body, parent_ns, scopes, interner);
                collect_nested_scopes(orelse, parent_ns, scopes, interner);
            },
            PyStmt::For { body, orelse, .. } => {
                proof {
                    assert(decreases_to!(stmts@[i as int] => stmts@[i as int]->For_body));
                    assert(decreases_to!(stmts@[i as int] => stmts@[i as int]->For_orelse));
                }
                collect_nested_scopes(body, parent_ns, scopes, interner);
                collect_nested_scopes(orelse, parent_ns, scopes, interner);
            },
            PyStmt::With { body, .. } => {
                proof {
                    assert(decreases_to!(stmts@[i as int] => stmts@[i as int]->With_body));
                }
                collect_nested_scopes(body, parent_ns, scopes, interner);
            },
            PyStmt::Try { body, handlers, orelse, finalbody } => {
                proof {
                    assert(decreases_to!(stmts@[i as int] => stmts@[i as int]->Try_body));
                    assert(decreases_to!(stmts@[i as int] => stmts@[i as int]->Try_orelse));
                    assert(decreases_to!(stmts@[i as int] => stmts@[i as int]->Try_finalbody));
                    assert(decreases_to!(stmts@[i as int] => stmts@[i as int]->Try_handlers));
                }
                collect_nested_scopes(body, parent_ns, scopes, interner);
                let mut j: usize = 0;
                while j < handlers.len()
                    invariant
                        interner.wf(),
                        old(interner).extends(interner),
                        old(scopes)@.len() <= scopes@.len(),
                    decreases handlers.len() - j,
                {
                    proof {
                        assert(decreases_to!(*handlers => handlers@));
                        assert(decreases_to!(handlers@ => handlers@[j as int]));
                        assert(decreases_to!(handlers@[j as int] => handlers@[j as int].body));
                    }
                    collect_nested_scopes(&handlers[j].body, parent_ns, scopes, interner);
                    j = j + 1;
                }
                collect_nested_scopes(orelse, parent_ns, scopes, interner);
                collect_nested_scopes(finalbody, parent_ns, scopes, interner);
            },
            _ => {},
        }
        i = i + 1;
    }
}

impl AnalysisSession {
    /// The scopes of a module: its own scope under `module_ns` (first),
    /// then the scope of every function and class it defines.
    pub fn build_scopes(module: &PyModule, module_ns: &[char], interner: &mut Interner) -> (r: Vec<(SymId, ScopeInfo)>)
        requires
            old(interner).wf(),
        ensures
            final(interner).wf(),
            old(interner).extends(final(interner)),
            r@.len() >= 1,
            final(interner).has_id(r@[0].0),
            final(interner).str_of(r@[0].0) == module_ns@,
    {
        let mut module_scope = ScopeInfo::new();
        collect_scope_defs(&module.body, &mut module_scope, interner);
        let ns_sym = interner.intern(chars_to_string(module_ns).as_str());
        let ghost i1 = *interner;
        let mut nested: Vec<(SymId, ScopeInfo)> = Vec::new();
        collect_nested_scopes(&module.body, module_ns, &mut nested, interner);
        proof {
            assert(interner@[ns_sym.0 as int] == i1@[ns_sym.0 as int]);
        }
        let mut scopes: Vec<(SymId, ScopeInfo)> = Vec::new();
        scopes.push((ns_sym, module_scope));
        scopes.append(&mut nested);
        assert(scopes@[0].0 == ns_sym);
        scopes
    }

    /// Merge the scopes of a module into the session: names and container
    /// facts are unioned into an existing scope, whose `__all__` is kept
    /// unless it has none; a new scope is added as it is.
    #[verifier::loop_isolation(false)]
    #[verifier::spinoff_prover]
    pub fn merge_scopes(&mut self, scopes: &Vec<(SymId, ScopeInfo)>)
        requires
            old(self).wf(),
        ensures
            old(self).evolves(final(self)),
            final(self).graph == old(self).graph,
            final(self).name_stack == old(self).name_stack,
            final(self).fqn_cache == old(self).fqn_cache,
            final(self).scope_stack == old(self).scope_stack,
            old(self).scopes@.len() <= final(self).scopes@.len(),
            forall|q: int| 0 <= q < old(self).scopes@.len() ==> (#[trigger] final(self).scopes@[q]).0 == old(self).scopes@[q].0,
            forall|q: int| old(self).scopes@.len() <= q < final(self).scopes@.len() ==> has_key(scopes@, (#[trigger] final(self).scopes@[q]).0),
            forall|a: int| 0 <= a < scopes@.len() ==> has_key(final(self).scopes@, (#[trigger] scopes@[a]).0),
            forall|q: int| 0 <= q < old(self).scopes@.len() && old(self).scopes@[q].1.all_exports is Some
                ==> (#[trigger] final(self).scopes@[q]).1.all_exports == old(self).scopes@[q].1.all_exports,
            forall|q: int, nm: SymId, x: usize| 0 <= q < old(self).scopes@.len() && #[trigger] def_holds(old(self).scopes@[q].1, nm, x)
                ==> def_holds(final(self).scopes@[q].1, nm, x),
            forall|a: int, d: int, x: usize| 0 <= a < scopes@.len() && 0 <= d < scopes@[a].1.defs@.len()
                && #[trigger] scopes@[a].1.defs@[d].1@.contains(x) ==> exists|q: int| 0 <= q < final(self).scopes@.len()
                && final(self).scopes@[q].0 == scopes@[a].0 && #[trigger] def_holds(final(self).scopes@[q].1, scopes@[a].1.defs@[d].0, x),
    {
        let mut i: usize = 0;
        while i < scopes.len()
            invariant
                i <= scopes@.len(),
                self.graph == old(self).graph,
                self.name_stack == old(self).name_stack,
                self.fqn_cache == old(self).fqn_cache,
                self.scope_stack == old(self).scope_stack,
                self.module_name == old(self).module_name,
                self.filename == old(self).filename,
                old(self).scopes@.len() <= self.scopes@.len(),
                forall|q: int| 0 <= q < old(self).scopes@.len() ==> (#[trigger] self.scopes@[q]).0 == old(self).scopes@[q].0,
                forall|q: int| old(self).scopes@.len() <= q < self.scopes@.len() ==> has_key(scopes@, (#[trigger] self.scopes@[q]).0),
                forall|a: int| 0 <= a < i ==> has_key(self.scopes@, (#[trigger] scopes@[a]).0),
                forall|q: int| 0 <= q < old(self).scopes@.len() && old(self).scopes@[q].1.all_exports is Some
                    ==> (#[trigger] self.scopes@[q]).1.all_exports == old(self).scopes@[q].1.all_exports,
                forall|q: int, nm: SymId, x: usize| 0 <= q < old(self).scopes@.len() && #[trigger] def_holds(old(self).scopes@[q].1, nm, x)
                    ==> def_holds(self.scopes@[q].1, nm, x),
                forall|a: int, d: int, x: usize| 0 <= a < i && 0 <= d < scopes@[a].1.defs@.len()
                    && #[trigger] scopes@[a].1.defs@[d].1@.contains(x) ==> exists|q: int| 0 <= q < self.scopes@.len()
                    && self.scopes@[q].0 == scopes@[a].0 && #[trigger] def_holds(self.scopes@[q].1, scopes@[a].1.defs@[d].0, x),
            decreases scopes.len() - i,
        {
            let ns = scopes[i].0;
            let sc = &scopes[i].1;
            let ghost before = self.scopes@;
            let pos = scope_pos(&self.scopes, ns);
            match pos {
                Some(p) => {
                    let mut j: usize = 0;
                    while j < sc.defs.len()
                        invariant
                            p < self.scopes@.len(),
                            before[p as int].0 == ns,
                            self.graph == old(self).graph,
                            self.name_stack == old(self).name_stack,
                            self.fqn_cache == old(self).fqn_cache,
                            self.scope_stack == old(self).scope_stack,
                            self.module_name == old(self).module_name,
                            self.filename == old(self).filename,
                            old(self).scopes@.len() <= self.scopes@.len(),
                            self.scopes@.len() == before.len(),
                            forall|q: int| 0 <= q < before.len() && q != p ==> #[trigger] self.scopes@[q] == before[q],
                            self.scopes@[p as int].0 == ns,
                            self.scopes@[p as int].1.all_exports == before[p as int].1.all_exports,
                            forall|nm: SymId, x: usize| #[trigger] def_holds(before[p as int].1, nm, x) ==> def_holds(self.scopes@[p as int].1, nm, x),
                            forall|d: int, x: usize| 0 <= d < j && #[trigger] sc.defs@[d].1@.contains(x)
                                ==> def_holds(self.scopes@[p as int].1, sc.defs@[d].0, x),
                        decreases sc.defs.len() - j,
                    {
                        let ghost prev = self.scopes@[p as int].1;
                        self.scopes[p].1.bind_all(sc.defs[j].0, &sc.defs[j].1);
                        proof {
                            let cur = self.scopes@[p as int].1;
                            let nm0 = sc.defs@[j as int].0;
                            let pp = choose|pp: int| {
                                &&& cur.first_def(nm0, pp)
                                &&& pp < prev.defs@.len() ==> prev.defs@[pp].0 == nm0
                                &&& cur.defs@[pp].1@.to_set() == (if pp < prev.defs@.len() {
                                    prev.defs@[pp].1@.to_set()
                                } else {
                                    Set::empty()
                                }) + sc.defs@[j as int].1@.to_set()
                                &&& forall|e: int| 0 <= e < cur.defs@.len() && e != pp ==> cur.defs@[e] == prev.defs@[e]
                                &&& cur.defs@.len() == if pp < prev.defs@.len() {
                                    prev.defs@.len()
                                } else {
                                    prev.defs@.len() + 1
                                }
                            };
                            assert forall|nm: SymId, x: usize| #[trigger] def_holds(prev, nm, x) implies def_holds(cur, nm, x) by {
                                let e = choose|e: int| 0 <= e < prev.defs@.len() && prev.defs@[e].0 == nm && #[trigger] prev.defs@[e].1@.contains(x);
                                if e == pp {
                                    assert(prev.defs@[e].1@.to_set().contains(x));
                                    assert(cur.defs@[e].1@.to_set().contains(x));
                                    assert(cur.defs@[e].1@.contains(x));
                                } else {
                                    assert(cur.defs@[e] == prev.defs@[e]);
                                }
                                assert(cur.defs@[e].1@.contains(x));
                            }
                            assert forall|d: int, x: usize| 0 <= d < j + 1 && #[trigger] sc.defs@[d].1@.contains(x)
                                implies def_holds(cur, sc.defs@[d].0, x) by {
                                if d == j {
                                    assert(sc.defs@[d].1@.to_set().contains(x));
                                    assert(cur.defs@[pp].1@.to_set().contains(x));
                                    assert(cur.defs@[pp].1@.contains(x));
                                } else {
                                    assert(def_holds(prev, sc.defs@[d].0, x));
                                }
                            }
                        }
                        j = j + 1;
                    }
                    let mut j: usize = 0;
                    while j < sc.containers.len()
                        invariant
                            p < self.scopes@.len(),
                            before[p as int].0 == ns,
                            self.graph == old(self).graph,
                            self.name_stack == old(self).name_stack,
                            self.fqn_cache == old(self).fqn_cache,
                            self.scope_stack == old(self).scope_stack,
                            self.module_name == old(self).module_name,
                            self.filename == old(self).filename,
                            old(self).scopes@.len() <= self.scopes@.len(),
                            self.scopes@.len() == before.len(),
                            forall|q: int| 0 <= q < before.len() && q != p ==> #[trigger] self.scopes@[q] == before[q],
                            self.scopes@[p as int].0 == ns,
                            self.scopes@[p as int].1.all_exports == before[p as int].1.all_exports,
                            forall|nm: SymId, x: usize| #[trigger] def_holds(before[p as int].1, nm, x) ==> def_holds(self.scopes@[p as int].1, nm, x),
                            forall|d: int, x: usize| 0 <= d < sc.defs@.len() && #[trigger] sc.defs@[d].1@.contains(x)
                                ==> def_holds(self.scopes@[p as int].1, sc.defs@[d].0, x),
                        decreases sc.containers.len() - j,
                    {
                        self.scopes[p].1.add_containers(sc.containers[j].0, &sc.containers[j].1);
                        j = j + 1;
                    }
                    let ghost mid = self.scopes@;
                    if self.scopes[p].1.all_exports.is_none() {
                        if let Some(ex) = &sc.all_exports {
                            let mut copy: Vec<SymId> = Vec::new();
                            let mut k: usize = 0;
                            while k < ex.len()
                                decreases ex.len() - k,
                            {
                                copy.push(ex[k]);
                                k = k + 1;
                            }
                            self.scopes[p].1.all_exports = Some(copy);
                        }
                    }
                    proof {
                        assert forall|nm: SymId, x: usize| #[trigger] def_holds(mid[p as int].1, nm, x) implies def_holds(self.scopes@[p as int].1, nm, x) by {
                            lemma_def_holds_same(mid[p as int].1, self.scopes@[p as int].1, nm, x);
                        }
                        assert forall|a: int, d: int, x: usize| 0 <= a < i + 1 && 0 <= d < scopes@[a].1.defs@.len()
                            && #[trigger] scopes@[a].1.defs@[d].1@.contains(x) implies exists|q: int| 0 <= q < self.scopes@.len()
                            && self.scopes@[q].0 == scopes@[a].0 && #[trigger] def_holds(self.scopes@[q].1, scopes@[a].1.defs@[d].0, x) by {
                            if a == i {
                                lemma_def_holds_same(mid[p as int].1, self.scopes@[p as int].1, scopes@[a].1.defs@[d].0, x);
                            } else {
                                let q0 = choose|q: int| 0 <= q < before.len() && before[q].0 == scopes@[a].0
                                    && #[trigger] def_holds(before[q].1, scopes@[a].1.defs@[d].0, x);
                                if q0 == p as int {
                                    lemma_def_holds_same(mid[p as int].1, self.scopes@[p as int].1, scopes@[a].1.defs@[d].0, x);
                                }
                                assert(def_holds(self.scopes@[q0].1, scopes@[a].1.defs@[d].0, x));
                            }
                        }
                    }
                },
                None => {
                    let copy = clone_scope_info(sc);
                    self.scopes.push((ns, copy));
                    proof {
                        assert forall|a: int, d: int, x: usize| 0 <= a < i + 1 && 0 <= d < scopes@[a].1.defs@.len()
                            && #[trigger] scopes@[a].1.defs@[d].1@.contains(x) implies exists|q: int| 0 <= q < self.scopes@.len()
                            && self.scopes@[q].0 == scopes@[a].0 && #[trigger] def_holds(self.scopes@[q].1, scopes@[a].1.defs@[d].0, x) by {
                            if a == i {
                                let q = before.len() as int;
                                assert(self.scopes@[q].1.defs@[d].1@ == sc.defs@[d].1@);
                                assert(def_holds(self.scopes@[q].1, scopes@[a].1.defs@[d].0, x));
                            } else {
                                let q0 = choose|q: int| 0 <= q < before.len() && before[q].0 == scopes@[a].0
                                    && #[trigger] def_holds(before[q].1, scopes@[a].1.defs@[d].0, x);
                                assert(self.scopes@[q0] == before[q0]);
                            }
                        }
                    }
                },
            }
            proof {
                assert(self.scopes@.len() >= before.len());
                assert forall|q: int| 0 <= q < before.len() implies (#[trigger] self.scopes@[q]).0 == before[q].0 by {}
                assert(has_key(self.scopes@, scopes@[i as int].0)) by {
                    if let Some(p) = pos {
                        assert(self.scopes@[p as int].0 == scopes@[i as int].0);
                    } else {
                        assert(self.scopes@[before.len() as int].0 == scopes@[i as int].0);
                    }
                }
                assert forall|q: int| old(self).scopes@.len() <= q < self.scopes@.len() implies has_key(scopes@, (#[trigger] self.scopes@[q]).0) by {
                    if q >= before.len() {
                        assert(scopes@[i as int].0 == self.scopes@[q].0);
                    } else {
                        assert(self.scopes@[q].0 == before[q].0);
                    }
                }
                assert forall|a: int| 0 <= a < i + 1 implies has_key(self.scopes@, (#[trigger] scopes@[a]).0) by {
                    if a < i {
                        assert(has_key(before, scopes@[a].0));
                        let q0 = choose|q: int| 0 <= q < before.len() && before[q].0 == scopes@[a].0;
                        assert(self.scopes@[q0].0 == scopes@[a].0);
                    }
                }
            }
            i = i + 1;
        }
    }
}

} // verus!
