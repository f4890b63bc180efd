//! Small helpers over expressions: dotted names, assignment target names
//! and literal subscript keys.

use vstd::prelude::*;

use crate::analyzer::session::LiteralKey;
use crate::pyast::PyExpr;
use crate::text::{char_views, chars_eq, dot_join, str_to_chars};

verus! {

/// The dotted name an expression spells: `a` for a name, `a.b.c` for an
/// attribute chain of names, and empty for anything else.
pub open spec fn dotted_name(e: PyExpr) -> Seq<char>
    decreases e,
{
    match e {
        PyExpr::Name { id, .. } => id@,
        PyExpr::Attribute { value, attr, .. } => dotted_name(*value) + seq!['.'] + attr@,
        _ => Seq::empty(),
    }
}

/// Extract the dotted name of an expression (see `dotted_name`).
pub fn get_ast_node_name(e: &PyExpr) -> (r: Vec<char>)
    ensures
        r@ == dotted_name(*e),
    decreases e,
{
    match e {
        PyExpr::Name { id, .. } => str_to_chars(id.as_str()),
        PyExpr::Attribute { value, attr, .. } => {
            let base = get_ast_node_name(value);
            let a = str_to_chars(attr.as_str());
            dot_join(base.as_slice(), a.as_slice())
        },
        _ => Vec::new(),
    }
}

/// Whether assignment target `e` binds `n`: a name, or a name inside
/// tuples, lists and starred targets.
pub open spec fn target_binds(e: PyExpr, n: Seq<char>) -> bool
    decreases e,
{
    match e {
        PyExpr::Name { id, .. } => id@ == n,
        PyExpr::Tuple { elts } => exists|i: int| 0 <= i < elts@.len() && target_binds(#[trigger] elts@[i], n),
        PyExpr::List { elts } => exists|i: int| 0 <= i < elts@.len() && target_binds(#[trigger] elts@[i], n),
        PyExpr::Starred { value } => target_binds(*value, n),
        _ => false,
    }
}

/// Add `name` to `names` unless it is already there.
pub fn add_unique(names: &mut Vec<Vec<char>>, name: Vec<char>)
    ensures
        forall|k: int| 0 <= k < old(names)@.len() ==> final(names)@[k] == old(names)@[k],
        exists|k: int| 0 <= k < final(names)@.len() && final(names)@[k]@ == name@,
        final(names)@.len() <= old(names)@.len() + 1,
        (exists|k: int| 0 <= k < old(names)@.len() && old(names)@[k]@ == name@) ==> final(names)@ == old(names)@,
        !(exists|k: int| 0 <= k < old(names)@.len() && old(names)@[k]@ == name@) ==> final(names)@ == old(names)@.push(name),
{
    let mut i: usize = 0;
    while i < names.len()
        invariant
            i <= names@.len(),
            names@ == old(names)@,
            forall|k: int| 0 <= k < i ==> old(names)@[k]@ != name@,
        decreases names.len() - i,
    {
        if chars_eq(names[i].as_slice(), name.as_slice()) {
            return;
        }
        i = i + 1;
    }
    names.push(name);
    assert(names@[names@.len() - 1]@ == names@.last()@);
}

/// Collect the names bound by an assignment target (names inside tuples,
/// lists and starred targets).
#[verifier::loop_isolation(false)]
pub fn collect_target_names_from_expr(target: &PyExpr, names: &mut Vec<Vec<char>>)
    ensures
        forall|k: int| 0 <= k < old(names)@.len() ==> #[trigger] final(names)@[k] == old(names)@[k],
        forall|k: int| old(names)@.len() <= k < final(names)@.len() ==> target_binds(*target, #[trigger] final(names)@[k]@),
        forall|n: Seq<char>| target_binds(*target, n) ==> exists|k: int| 0 <= k < final(names)@.len() && final(names)@[k]@ == n,
        old(names)@.len() <= final(names)@.len(),
    decreases target,
{
    match target {
        PyExpr::Name { id, .. } => {
            add_unique(names, str_to_chars(id.as_str()));
            proof {
                assert forall|n: Seq<char>| target_binds(*target, n) implies exists|k: int|
                    0 <= k < names@.len() && names@[k]@ == n by {
                    assert(n == id@);
                }
            }
        },
        PyExpr::Tuple { elts } | PyExpr::List { elts } => {
            let mut i: usize = 0;
            while i < elts.len()
                invariant
                    i <= elts@.len(),
                    target is Tuple ==> *elts == target->Tuple_elts,
                    target is List ==> *elts == target->List_elts,
                    target is Tuple || target is List,
                    old(names)@.len() <= names@.len(),
                    forall|k: int| 0 <= k < old(names)@.len() ==> #[trigger] names@[k] == old(names)@[k],
                    forall|k: int| old(names)@.len() <= k < names@.len() ==> target_binds(*target, #[trigger] names@[k]@),
                    forall|q: int, n: Seq<char>| 0 <= q < i && #[trigger] target_binds(elts@[q], n) ==> exists|k: int|
                        0 <= k < names@.len() && names@[k]@ == n,
                decreases elts.len() - i,
            {
                proof {
                    assert(decreases_to!(elts@ => elts@[i as int]));
                    assert(decreases_to!(*elts => elts@));
                    if target is Tuple {
                        assert(*elts == target->Tuple_elts);
                        assert(decreases_to!(*target => target->Tuple_elts));
                    } else {
                        assert(*elts == target->List_elts);
                        assert(decreases_to!(*target => target->List_elts));
                    }
                }
                let ghost n0 = names@;
                collect_target_names_from_expr(&elts[i], names);
                proof {
                    assert forall|k: int| old(names)@.len() <= k < names@.len() implies target_binds(*target, #[trigger] names@[k]@) by {
                        if k < n0.len() {
                            assert(names@[k] == n0[k]);
                        } else {
                            assert(target_binds(elts@[i as int], names@[k]@));
                        }
                    }
                    assert forall|q: int, n: Seq<char>| 0 <= q < i + 1 && #[trigger] target_binds(elts@[q], n) implies exists|k: int|
                        0 <= k < names@.len() && names@[k]@ == n by {
                        if q < i {
                            let k = choose|k: int| 0 <= k < n0.len() && n0[k]@ == n;
                            assert(names@[k] == n0[k]);
                        }
                    }
                }
                i = i + 1;
            }
            proof {
                assert forall|n: Seq<char>| target_binds(*target, n) implies exists|k: int| 0 <= k < names@.len() && names@[k]@ == n by {
                    let q = choose|q: int| 0 <= q < elts@.len() && target_binds(#[trigger] elts@[q], n);
                }
            }
        },
        PyExpr::Starred { value } => {
            collect_target_names_from_expr(value, names);
            proof {
                assert forall|n: Seq<char>| target_binds(*target, n) implies exists|k: int| 0 <= k < names@.len() && names@[k]@ == n by {
                    assert(target_binds(**value, n));
                }
            }
        },
        _ => {
            proof {
                assert forall|n: Seq<char>| target_binds(*target, n) implies exists|k: int| 0 <= k < names@.len() && names@[k]@ == n by {
                    assert(!(target is Name || target is Tuple || target is List || target is Starred));
                }
            }
        },
    }
}

/// The literal key of a subscript expression, when it is statically
/// known: a string literal, an integer literal that fits in an `i64`, or
/// the negation of one.
pub fn literal_key_from_expr(e: &PyExpr) -> (r: Option<LiteralKey>)
    ensures
        e matches PyExpr::StrLit { value } ==> (r matches Some(LiteralKey::Str(s)) && s@ == value@),
        e matches PyExpr::IntLit { value } ==> (match value {
            Some(i) => r matches Some(LiteralKey::Int(j)) && j == i,
            None => r is None,
        }),
        !(e is StrLit || e is IntLit || e is UnaryOp) ==> r is None,
{
    match e {
        PyExpr::StrLit { value } => Some(LiteralKey::Str(value.clone())),
        PyExpr::IntLit { value } => match value {
            Some(i) => Some(LiteralKey::Int(*i)),
            None => None,
        },
        PyExpr::UnaryOp { negate, operand } => {
            if *negate {
                match &**operand {
                    PyExpr::IntLit { value: Some(i) } => {
                        if *i == i64::MIN {
                            None
                        } else {
                            Some(LiteralKey::Int(-*i))
                        }
                    },
                    _ => None,
                }
            } else {
                None
            }
        },
        _ => None,
    }
}

/// The chain of names of an attribute expression (see `collect_attr_parts`).
pub open spec fn attr_parts(e: PyExpr) -> Seq<Seq<char>>
    decreases e,
{
    match e {
        PyExpr::Attribute { value, attr, .. } => {
            let base = match *value {
                PyExpr::Name { id, .. } => seq![id@],
                PyExpr::Attribute { .. } => attr_parts(*value),
                _ => Seq::empty(),
            };
            base.push(attr@)
        },
        _ => Seq::empty(),
    }
}

/// The chain of names of an attribute expression: `a.b.c` gives
/// `["a", "b", "c"]`; a base that is not a name or attribute contributes
/// nothing.
pub fn collect_attr_parts(e: &PyExpr) -> (r: Vec<Vec<char>>)
    ensures
        char_views(r@) == attr_parts(*e),
    decreases e,
{
    match e {
        PyExpr::Attribute { value, attr, .. } => {
            let mut parts = match &**value {
                PyExpr::Name { id, .. } => {
                    let mut v: Vec<Vec<char>> = Vec::new();
                    v.push(str_to_chars(id.as_str()));
                    proof {
                        assert(char_views(v@) =~= seq![id@]);
                    }
                    v
                },
                PyExpr::Attribute { .. } => collect_attr_parts(value),
                _ => Vec::new(),
            };
            let ghost p0 = char_views(parts@);
            let a = str_to_chars(attr.as_str());
            parts.push(a);
            proof {
                assert(char_views(parts@) =~= p0.push(attr@));
            }
            parts
        },
        _ => {
            let r: Vec<Vec<char>> = Vec::new();
            proof {
                assert(char_views(r@) =~= Seq::<Seq<char>>::empty());
            }
            r
        },
    }
}

} // verus!
