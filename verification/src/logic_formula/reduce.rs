//! Reduction of the disjunction of two cubes into a single cube.

use super::cube::{add_term_spec, consistent, cube_holds, has_negation, insertion_point, normal, sorted, DNFCube, lemma_insertion_point, lemma_insertion_point_bounds};
use super::term::{lemma_term_order_transitive, FormulaTerm, Term, VarId};
use vstd::prelude::*;

verus! {

/// The terms `head` put in front of a result, where there is one.
pub open spec fn prepend(head: Seq<Term>, r: Option<Seq<Term>>) -> Option<Seq<Term>> {
    match r {
        Some(s) => Some(head + s),
        None => None,
    }
}

/// The merge of the remaining terms `a` and `b` of two cubes.
///
/// `relaxed_a` says that the result has already dropped a term of the first
/// cube, `relaxed_b` the same of the second.  Heads that are equal are kept
/// once.  Heads that are a literal and its negation are both dropped, which
/// relaxes both sides and is allowed only while neither side is relaxed.
/// Of other heads the smaller one is dropped, which relaxes its side and is
/// allowed only while the other side is not relaxed.  Where one side has
/// run out the rest of the other side is dropped, which is allowed only
/// while the side that has run out is not relaxed.
pub open spec fn merge_spec(a: Seq<Term>, b: Seq<Term>, relaxed_a: bool, relaxed_b: bool) -> Option<
    Seq<Term>,
>
    decreases a.len() + b.len(),
{
    if a.len() == 0 && b.len() == 0 {
        Some(Seq::empty())
    } else if b.len() == 0 {
        if relaxed_b {
            None
        } else {
            Some(Seq::empty())
        }
    } else if a.len() == 0 {
        if relaxed_a {
            None
        } else {
            Some(Seq::empty())
        }
    } else if a[0] == b[0] {
        prepend(seq![a[0]], merge_spec(a.skip(1), b.skip(1), relaxed_a, relaxed_b))
    } else if a[0].is_literal() && a[0].negates(b[0]) {
        if relaxed_a || relaxed_b {
            None
        } else {
            merge_spec(a.skip(1), b.skip(1), true, true)
        }
    } else if a[0].lt(b[0]) {
        if relaxed_b {
            None
        } else {
            merge_spec(a.skip(1), b, true, relaxed_b)
        }
    } else {
        if relaxed_a {
            None
        } else {
            merge_spec(a, b.skip(1), relaxed_a, true)
        }
    }
}

/// The cube that the disjunction of the cubes `a` and `b` reduces to, or
/// `None` where the reduction does not find one.  A cube that starts with
/// `False` gives way to the other cube.
pub open spec fn reduce_spec(a: Seq<Term>, b: Seq<Term>) -> Option<Seq<Term>> {
    if a.len() > 0 && a[0] is False {
        Some(b)
    } else if b.len() > 0 && b[0] is False {
        Some(a)
    } else {
        merge_spec(a, b, false, false)
    }
}

/// A cube holds exactly if its first term and the rest of it hold.
pub proof fn lemma_cube_holds_split(c: Seq<Term>, interp: Set<int>)
    requires
        c.len() > 0,
    ensures
        cube_holds(c, interp) == (c[0].holds(interp) && cube_holds(c.skip(1), interp)),
{
    let rest = c.skip(1);
    if cube_holds(c, interp) {
        assert forall|i: int| 0 <= i < rest.len() implies (#[trigger] rest[i]).holds(interp) by {
            assert(rest[i] == c[i + 1]);
        }
    }
    if c[0].holds(interp) && cube_holds(rest, interp) {
        assert forall|i: int| 0 <= i < c.len() implies (#[trigger] c[i]).holds(interp) by {
            if i > 0 {
                assert(rest[i - 1] == c[i]);
            }
        }
    }
}

/// What a successful merge means, by the sides relaxed before it: with no
/// side relaxed the result holds where `a` or `b` holds; with one side
/// relaxed the result holds where the other side holds, and that is
/// wherever the relaxed side holds; with both relaxed all three agree.
pub proof fn lemma_merge_sound(
    a: Seq<Term>,
    b: Seq<Term>,
    relaxed_a: bool,
    relaxed_b: bool,
    interp: Set<int>,
)
    requires
        merge_spec(a, b, relaxed_a, relaxed_b) is Some,
    ensures
        ({
            let r = merge_spec(a, b, relaxed_a, relaxed_b)->0;
            let ra = cube_holds(a, interp);
            let rb = cube_holds(b, interp);
            let rr = cube_holds(r, interp);
            &&& !relaxed_a && !relaxed_b ==> rr == (ra || rb)
            &&& relaxed_a && !relaxed_b ==> rr == rb && (ra ==> rb)
            &&& !relaxed_a && relaxed_b ==> rr == ra && (rb ==> ra)
            &&& relaxed_a && relaxed_b ==> rr == ra && rr == rb
        }),
    decreases a.len() + b.len(),
{
    let r = merge_spec(a, b, relaxed_a, relaxed_b)->0;
    if a.len() == 0 && b.len() == 0 {
    } else if b.len() == 0 {
    } else if a.len() == 0 {
    } else {
        lemma_cube_holds_split(a, interp);
        lemma_cube_holds_split(b, interp);
        if a[0] == b[0] {
            let tail = merge_spec(a.skip(1), b.skip(1), relaxed_a, relaxed_b)->0;
            lemma_merge_sound(a.skip(1), b.skip(1), relaxed_a, relaxed_b, interp);
            assert(r == seq![a[0]] + tail);
            lemma_cube_holds_split(r, interp);
            assert(r.skip(1) =~= tail);
        } else if a[0].is_literal() && a[0].negates(b[0]) {
            lemma_merge_sound(a.skip(1), b.skip(1), true, true, interp);
        } else if a[0].lt(b[0]) {
            lemma_merge_sound(a.skip(1), b, true, relaxed_b, interp);
        } else {
            lemma_merge_sound(a, b.skip(1), relaxed_a, true, interp);
        }
    }
}

/// A reduction is never wrong: the reduced cube holds under exactly the
/// interpretations under which one of the two cubes holds.
pub proof fn lemma_reduce_sound(a: Seq<Term>, b: Seq<Term>, interp: Set<int>)
    requires
        reduce_spec(a, b) is Some,
    ensures
        cube_holds(reduce_spec(a, b)->0, interp) == (cube_holds(a, interp) || cube_holds(
            b,
            interp,
        )),
{
    if a.len() > 0 && a[0] is False {
        assert(!a[0].holds(interp));
    } else if b.len() > 0 && b[0] is False {
        assert(!b[0].holds(interp));
    } else {
        lemma_merge_sound(a, b, false, false, interp);
    }
}

/// Merging a cube with itself gives the cube, whatever was relaxed before.
pub proof fn lemma_merge_same(c: Seq<Term>, relaxed_a: bool, relaxed_b: bool)
    ensures
        merge_spec(c, c, relaxed_a, relaxed_b) == Some(c),
    decreases c.len(),
{
    if c.len() > 0 {
        lemma_merge_same(c.skip(1), relaxed_a, relaxed_b);
        assert(seq![c[0]] + c.skip(1) =~= c);
    } else {
        assert(c =~= Seq::empty());
    }
}

/// Reducing the disjunction of a cube with itself gives the cube.
pub proof fn lemma_reduce_same(c: Seq<Term>)
    ensures
        reduce_spec(c, c) == Some(c),
{
    lemma_merge_same(c, false, false);
}

/// A merge takes the terms that two cubes begin with alike as they are.
pub proof fn lemma_merge_common_prefix(
    head: Seq<Term>,
    a: Seq<Term>,
    b: Seq<Term>,
    relaxed_a: bool,
    relaxed_b: bool,
)
    ensures
        merge_spec(head + a, head + b, relaxed_a, relaxed_b) == prepend(
            head,
            merge_spec(a, b, relaxed_a, relaxed_b),
        ),
    decreases head.len(),
{
    let tail = merge_spec(a, b, relaxed_a, relaxed_b);
    if head.len() == 0 {
        assert(head + a =~= a);
        assert(head + b =~= b);
        if tail is Some {
            assert(head + tail->0 =~= tail->0);
        }
    } else {
        let rest = head.skip(1);
        lemma_merge_common_prefix(rest, a, b, relaxed_a, relaxed_b);
        assert((head + a).skip(1) =~= rest + a);
        assert((head + b).skip(1) =~= rest + b);
        assert((head + a)[0] == head[0]);
        assert((head + b)[0] == head[0]);
        if tail is Some {
            assert(seq![head[0]] + (rest + tail->0) =~= head + tail->0);
        }
    }
}

/// In a sorted cube that holds neither literal of a variable, both literals
/// have the same insertion point.
pub proof fn lemma_insertion_point_of_literals(c: Seq<Term>, v: int)
    requires
        sorted(c),
        !c.contains(Term::Var(v)),
        !c.contains(Term::NegVar(v)),
    ensures
        insertion_point(c, Term::Var(v)) == insertion_point(c, Term::NegVar(v)),
{
    lemma_insertion_point_bounds(c, Term::Var(v));
    let p = insertion_point(c, Term::Var(v));
    assert forall|k: int| 0 <= k < p implies (#[trigger] c[k]).lt(Term::NegVar(v)) by {
        assert(c[k].lt(Term::Var(v)));
    }
    if p < c.len() {
        assert(c.contains(c[p]));
        assert(!c[p].lt(Term::NegVar(v)));
    }
    lemma_insertion_point(c, Term::NegVar(v), p);
}

/// A sequence with a term inserted is what stands before the place, the
/// term, and what stands behind.
proof fn lemma_insert_splits(c: Seq<Term>, p: int, t: Term)
    requires
        0 <= p <= c.len(),
    ensures
        c.insert(p, t) == c.take(p) + (seq![t] + c.skip(p)),
        c == c.take(p) + c.skip(p),
{
    assert(c.insert(p, t) =~= c.take(p) + (seq![t] + c.skip(p)));
    assert(c =~= c.take(p) + c.skip(p));
}

/// Two cubes that differ in the polarity of one literal only reduce to
/// what they have in common: for a cube `c` in normal form that holds
/// neither `False` nor a literal of the variable `v`, the disjunction of
/// `c` with `Var(v)` added and `c` with `NegVar(v)` added reduces to `c`,
/// in both orders.
pub proof fn lemma_reduce_complementary(c: Seq<Term>, v: int)
    requires
        normal(c),
        !c.contains(Term::False),
        !c.contains(Term::Var(v)),
        !c.contains(Term::NegVar(v)),
    ensures
        reduce_spec(add_term_spec(c, Term::Var(v)), add_term_spec(c, Term::NegVar(v))) == Some(c),
        reduce_spec(add_term_spec(c, Term::NegVar(v)), add_term_spec(c, Term::Var(v))) == Some(c),
{
    let pos = Term::Var(v);
    let neg = Term::NegVar(v);
    assert(!has_negation(c, pos)) by {
        if has_negation(c, pos) {
            let i = choose|i: int| 0 <= i < c.len() && (#[trigger] c[i]).negates(pos);
            assert(c.contains(c[i]));
        }
    }
    assert(!has_negation(c, neg)) by {
        if has_negation(c, neg) {
            let i = choose|i: int| 0 <= i < c.len() && (#[trigger] c[i]).negates(neg);
            assert(c.contains(c[i]));
        }
    }
    lemma_insertion_point_of_literals(c, v);
    lemma_insertion_point_bounds(c, pos);
    let p = insertion_point(c, pos);
    let a = c.insert(p, pos);
    let b = c.insert(p, neg);
    assert(a == add_term_spec(c, pos));
    assert(b == add_term_spec(c, neg));
    let head = c.take(p);
    let rest = c.skip(p);
    lemma_insert_splits(c, p, pos);
    lemma_insert_splits(c, p, neg);
    let ta = seq![pos] + rest;
    let tb = seq![neg] + rest;
    assert(ta.skip(1) =~= rest);
    assert(tb.skip(1) =~= rest);
    lemma_merge_same(rest, true, true);
    assert(merge_spec(ta, tb, false, false) == Some(rest));
    assert(merge_spec(tb, ta, false, false) == Some(rest));
    lemma_merge_common_prefix(head, ta, tb, false, false);
    lemma_merge_common_prefix(head, tb, ta, false, false);
    assert(a.len() > 0 && b.len() > 0);
    assert(!(a[0] is False)) by {
        if p > 0 {
            assert(a[0] == c[0]);
            assert(c.contains(c[0]));
        }
    }
    assert(!(b[0] is False)) by {
        if p > 0 {
            assert(b[0] == c[0]);
            assert(c.contains(c[0]));
        }
    }
}

/// A cube absorbs a cube that says more: for a cube `c` in normal form
/// without `False` and any term `x`, the disjunction of `c` and `c` with
/// `x` added reduces to `c`, in both orders.
pub proof fn lemma_reduce_absorbs(c: Seq<Term>, x: Term)
    requires
        normal(c),
        !c.contains(Term::False),
    ensures
        reduce_spec(c, add_term_spec(c, x)) == Some(c),
        reduce_spec(add_term_spec(c, x), c) == Some(c),
{
    let d = add_term_spec(c, x);
    assert(c.len() > 0 ==> !(c[0] is False)) by {
        if c.len() > 0 {
            assert(c.contains(c[0]));
        }
    }
    if has_negation(c, x) {
        assert(d[0] is False);
        assert(c.len() > 0);
    } else if c.contains(x) {
        lemma_reduce_same(c);
    } else {
        lemma_insertion_point_bounds(c, x);
        let p = insertion_point(c, x);
        let head = c.take(p);
        let rest = c.skip(p);
        lemma_insert_splits(c, p, x);
        let tb = seq![x] + rest;
        assert(tb.skip(1) =~= rest);
        lemma_merge_same(rest, false, true);
        lemma_merge_same(rest, true, false);
        if rest.len() > 0 {
            assert(rest[0] == c[p]);
            assert(c.contains(c[p]));
            assert(!rest[0].negates(x)) by {
                if rest[0].negates(x) {
                    assert(c[p].negates(x));
                }
            }
            assert(!x.negates(rest[0]));
        }
        assert(merge_spec(rest, tb, false, false) == Some(rest));
        assert(merge_spec(tb, rest, false, false) == Some(rest));
        lemma_merge_common_prefix(head, rest, tb, false, false);
        lemma_merge_common_prefix(head, tb, rest, false, false);
        if x is False {
            assert(p == 0) by {
                if p > 0 {
                    assert(c[0].lt(x));
                }
            }
            assert(d[0] is False);
        } else {
            assert(!(d[0] is False)) by {
                if p > 0 {
                    assert(d[0] == c[0]);
                }
            }
        }
    }
}

/// What a merge keeps are terms of both cubes, in their order: the result
/// is no longer than either cube, equals a cube that it is as long as, holds
/// terms of both cubes only, and is sorted where the first cube is.
pub proof fn lemma_merge_keeps_common_terms(
    a: Seq<Term>,
    b: Seq<Term>,
    relaxed_a: bool,
    relaxed_b: bool,
)
    requires
        merge_spec(a, b, relaxed_a, relaxed_b) is Some,
    ensures
        ({
            let r = merge_spec(a, b, relaxed_a, relaxed_b)->0;
            &&& r.len() <= a.len()
            &&& r.len() <= b.len()
            &&& r.len() == a.len() ==> r == a
            &&& r.len() == b.len() ==> r == b
            &&& forall|i: int| 0 <= i < r.len() ==> a.contains(#[trigger] r[i])
            &&& forall|i: int| 0 <= i < r.len() ==> b.contains(#[trigger] r[i])
            &&& sorted(a) ==> sorted(r)
        }),
    decreases a.len() + b.len(),
{
    let r = merge_spec(a, b, relaxed_a, relaxed_b)->0;
    if a.len() == 0 && b.len() == 0 {
        assert(r =~= a);
    } else if b.len() == 0 {
        assert(r =~= b);
    } else if a.len() == 0 {
        assert(r =~= a);
    } else {
        let a1 = a.skip(1);
        let b1 = b.skip(1);
        if a[0] == b[0] {
            lemma_merge_keeps_common_terms(a1, b1, relaxed_a, relaxed_b);
            let tail = merge_spec(a1, b1, relaxed_a, relaxed_b)->0;
            assert(r == seq![a[0]] + tail);
            if tail.len() == a1.len() {
                assert(r =~= a);
            }
            if tail.len() == b1.len() {
                assert(r =~= b);
            }
            assert forall|i: int| 0 <= i < r.len() implies a.contains(#[trigger] r[i]) by {
                if i > 0 {
                    assert(r[i] == tail[i - 1]);
                    let k = choose|k: int| 0 <= k < a1.len() && a1[k] == tail[i - 1];
                    assert(a[k + 1] == a1[k]);
                }
            }
            assert forall|i: int| 0 <= i < r.len() implies b.contains(#[trigger] r[i]) by {
                if i > 0 {
                    assert(r[i] == tail[i - 1]);
                    let k = choose|k: int| 0 <= k < b1.len() && b1[k] == tail[i - 1];
                    assert(b[k + 1] == b1[k]);
                }
            }
            if sorted(a) {
                assert(sorted(a1)) by {
                    assert forall|i: int, j: int| 0 <= i < j < a1.len() implies (#[trigger] a1[i]).lt(
                        #[trigger] a1[j],
                    ) by {
                        assert(a1[i] == a[i + 1]);
                        assert(a1[j] == a[j + 1]);
                    }
                }
                assert forall|i: int, j: int| 0 <= i < j < r.len() implies (#[trigger] r[i]).lt(
                    #[trigger] r[j],
                ) by {
                    assert(r[j] == tail[j - 1]);
                    let k = choose|k: int| 0 <= k < a1.len() && a1[k] == tail[j - 1];
                    assert(a[k + 1] == a1[k]);
                    if i == 0 {
                        assert(a[0].lt(a[k + 1]));
                    } else {
                        assert(r[i] == tail[i - 1]);
                    }
                }
            }
        } else {
            let (na, nb, fa, fb) = if a[0].is_literal() && a[0].negates(b[0]) {
                (a1, b1, true, true)
            } else if a[0].lt(b[0]) {
                (a1, b, true, relaxed_b)
            } else {
                (a, b1, relaxed_a, true)
            };
            lemma_merge_keeps_common_terms(na, nb, fa, fb);
            assert(r == merge_spec(na, nb, fa, fb)->0);
            assert forall|i: int| 0 <= i < r.len() implies a.contains(#[trigger] r[i]) by {
                let k = choose|k: int| 0 <= k < na.len() && na[k] == r[i];
                if na == a1 {
                    assert(a[k + 1] == a1[k]);
                }
            }
            assert forall|i: int| 0 <= i < r.len() implies b.contains(#[trigger] r[i]) by {
                let k = choose|k: int| 0 <= k < nb.len() && nb[k] == r[i];
                if nb == b1 {
                    assert(b[k + 1] == b1[k]);
                }
            }
            if sorted(a) && na == a1 {
                assert forall|i: int, j: int| 0 <= i < j < a1.len() implies (#[trigger] a1[i]).lt(
                    #[trigger] a1[j],
                ) by {
                    assert(a1[i] == a[i + 1]);
                    assert(a1[j] == a[j + 1]);
                }
            }
        }
    }
}

/// A reduction holds terms of the two cubes only.
pub proof fn lemma_reduce_terms(a: Seq<Term>, b: Seq<Term>)
    requires
        reduce_spec(a, b) is Some,
    ensures
        forall|i: int|
            0 <= i < reduce_spec(a, b)->0.len() ==> a.contains(#[trigger] reduce_spec(a, b)->0[i])
                || b.contains(reduce_spec(a, b)->0[i]),
{
    let r = reduce_spec(a, b)->0;
    if a.len() > 0 && a[0] is False {
        assert forall|i: int| 0 <= i < r.len() implies b.contains(#[trigger] r[i]) by {}
    } else if b.len() > 0 && b[0] is False {
        assert forall|i: int| 0 <= i < r.len() implies a.contains(#[trigger] r[i]) by {}
    } else {
        lemma_merge_keeps_common_terms(a, b, false, false);
    }
}

/// The reduction of two cubes in normal form is in normal form.
pub proof fn lemma_reduce_normal(a: Seq<Term>, b: Seq<Term>)
    requires
        normal(a),
        normal(b),
        reduce_spec(a, b) is Some,
    ensures
        normal(reduce_spec(a, b)->0),
{
    let r = reduce_spec(a, b)->0;
    if a.len() > 0 && a[0] is False {
    } else if b.len() > 0 && b[0] is False {
    } else {
        lemma_merge_keeps_common_terms(a, b, false, false);
        assert forall|i: int, j: int| 0 <= i < r.len() && 0 <= j < r.len() implies !(
        #[trigger] r[i]).negates(#[trigger] r[j]) by {
            let ki = choose|k: int| 0 <= k < a.len() && a[k] == r[i];
            let kj = choose|k: int| 0 <= k < a.len() && a[k] == r[j];
            assert(!a[ki].negates(a[kj]));
        }
    }
}

/// Every term of `x` is a term of `y`.
pub open spec fn subset(x: Seq<Term>, y: Seq<Term>) -> bool {
    forall|i: int| 0 <= i < x.len() ==> y.contains(#[trigger] x[i])
}

/// The cubes differ at the place `i` only, where the one holds a literal
/// and the other one its negation.
pub open spec fn differ_at(a: Seq<Term>, b: Seq<Term>, i: int) -> bool {
    &&& 0 <= i < a.len()
    &&& i < b.len()
    &&& a[i].is_literal()
    &&& a[i].negates(b[i])
    &&& a.remove(i) == b.remove(i)
}

/// What the disjunction of two cubes reduces to, said directly: a cube
/// that holds all terms of the other one gives way to the other one; two
/// cubes that differ in the polarity of one literal only give what they
/// have in common; other cubes are not reduced.
pub open spec fn reduce_direct(a: Seq<Term>, b: Seq<Term>) -> Option<Seq<Term>> {
    if subset(b, a) {
        Some(b)
    } else if subset(a, b) {
        Some(a)
    } else if exists|i: int| differ_at(a, b, i) {
        Some(a.remove(choose|i: int| differ_at(a, b, i)))
    } else {
        None
    }
}

/// The rest of a sorted cube is sorted, and its terms come behind the first
/// term.
proof fn lemma_sorted_rest(a: Seq<Term>)
    requires
        sorted(a),
        a.len() > 0,
    ensures
        sorted(a.skip(1)),
        forall|t: Term| a.skip(1).contains(t) ==> a[0].lt(t),
        forall|t: Term| a.contains(t) ==> t == a[0] || a.skip(1).contains(t),
{
    let rest = a.skip(1);
    assert forall|i: int, j: int| 0 <= i < j < rest.len() implies (#[trigger] rest[i]).lt(
        #[trigger] rest[j],
    ) by {
        assert(rest[i] == a[i + 1]);
        assert(rest[j] == a[j + 1]);
    }
    assert forall|t: Term| rest.contains(t) implies a[0].lt(t) by {
        let i = choose|i: int| 0 <= i < rest.len() && rest[i] == t;
        assert(rest[i] == a[i + 1]);
    }
    assert forall|t: Term| a.contains(t) implies t == a[0] || rest.contains(t) by {
        let i = choose|i: int| 0 <= i < a.len() && a[i] == t;
        if i > 0 {
            assert(rest[i - 1] == a[i]);
        }
    }
}

/// Where a merge succeeds, the cubes are as the sides relaxed before it
/// allow: with the first side relaxed the second cube is the result and
/// part of the first one, and the other way round; with both relaxed the
/// cubes are the same; with none relaxed one of the cubes is the result and
/// part of the other one, or the cubes differ in the polarity of one
/// literal and the result is what they have in common.
pub proof fn lemma_merge_explained(a: Seq<Term>, b: Seq<Term>, relaxed_a: bool, relaxed_b: bool)
    requires
        merge_spec(a, b, relaxed_a, relaxed_b) is Some,
    ensures
        ({
            let r = merge_spec(a, b, relaxed_a, relaxed_b)->0;
            &&& relaxed_a && relaxed_b ==> r == a && r == b
            &&& relaxed_a && !relaxed_b ==> r == b && subset(b, a)
            &&& !relaxed_a && relaxed_b ==> r == a && subset(a, b)
            &&& !relaxed_a && !relaxed_b ==> {
                ||| r == b && subset(b, a)
                ||| r == a && subset(a, b)
                ||| exists|i: int, j: int|
                    #![trigger a[i], b[j]]
                    0 <= i < a.len() && 0 <= j < b.len() && a[i].is_literal() && a[i].negates(b[j])
                        && r == a.remove(i) && r == b.remove(j)
            }
        }),
    decreases a.len() + b.len(),
{
    let r = merge_spec(a, b, relaxed_a, relaxed_b)->0;
    if a.len() == 0 && b.len() == 0 {
        assert(r =~= a);
        assert(r =~= b);
    } else if b.len() == 0 {
        assert(r =~= b);
    } else if a.len() == 0 {
        assert(r =~= a);
    } else {
        let a1 = a.skip(1);
        let b1 = b.skip(1);
        if a[0] == b[0] {
            lemma_merge_explained(a1, b1, relaxed_a, relaxed_b);
            let tail = merge_spec(a1, b1, relaxed_a, relaxed_b)->0;
            assert(r == seq![a[0]] + tail);
            if tail == a1 {
                assert(r =~= a);
            }
            if tail == b1 {
                assert(r =~= b);
            }
            if subset(b1, a1) {
                assert forall|i: int| 0 <= i < b.len() implies a.contains(#[trigger] b[i]) by {
                    if i == 0 {
                        assert(a[0] == b[0]);
                    } else {
                        assert(b1[i - 1] == b[i]);
                        let k = choose|k: int| 0 <= k < a1.len() && a1[k] == b1[i - 1];
                        assert(a[k + 1] == b[i]);
                    }
                }
            }
            if subset(a1, b1) {
                assert forall|i: int| 0 <= i < a.len() implies b.contains(#[trigger] a[i]) by {
                    if i == 0 {
                        assert(b[0] == a[0]);
                    } else {
                        assert(a1[i - 1] == a[i]);
                        let k = choose|k: int| 0 <= k < b1.len() && b1[k] == a1[i - 1];
                        assert(b[k + 1] == a[i]);
                    }
                }
            }
            if !relaxed_a && !relaxed_b {
                if tail == b1 && subset(b1, a1) {
                } else if tail == a1 && subset(a1, b1) {
                } else {
                    let (i, j) = choose|i: int, j: int|
                        #![trigger a1[i], b1[j]]
                        0 <= i < a1.len() && 0 <= j < b1.len() && a1[i].is_literal()
                            && a1[i].negates(b1[j]) && tail == a1.remove(i) && tail == b1.remove(
                            j,
                        );
                    assert(a[i + 1] == a1[i]);
                    assert(b[j + 1] == b1[j]);
                    assert(r =~= a.remove(i + 1));
                    assert(r =~= b.remove(j + 1));
                }
            }
        } else if a[0].is_literal() && a[0].negates(b[0]) {
            lemma_merge_explained(a1, b1, true, true);
            assert(r =~= a.remove(0));
            assert(r =~= b.remove(0));
        } else if a[0].lt(b[0]) {
            lemma_merge_explained(a1, b, true, relaxed_b);
            assert forall|i: int| 0 <= i < b.len() implies a.contains(#[trigger] b[i]) by {
                let k = choose|k: int| 0 <= k < a1.len() && a1[k] == b[i];
                assert(a[k + 1] == b[i]);
            }
        } else {
            lemma_merge_explained(a, b1, relaxed_a, true);
            assert forall|i: int| 0 <= i < a.len() implies b.contains(#[trigger] a[i]) by {
                let k = choose|k: int| 0 <= k < b1.len() && b1[k] == a[i];
                assert(b[k + 1] == a[i]);
            }
        }
    }
}

/// A sorted and consistent cube that holds all terms of a sorted cube
/// gives way to it in a merge, whether its own side is relaxed or not, as
/// long as the other side is not.  `first` says that the first cube is the
/// one that holds the terms of the other one.
pub proof fn lemma_merge_absorbs(a: Seq<Term>, b: Seq<Term>, relaxed: bool, first: bool)
    requires
        sorted(a),
        sorted(b),
        first ==> consistent(a) && subset(b, a),
        !first ==> consistent(b) && subset(a, b),
    ensures
        first ==> merge_spec(a, b, relaxed, false) == Some(b),
        !first ==> merge_spec(a, b, false, relaxed) == Some(a),
    decreases a.len() + b.len(),
{
    if a.len() == 0 && b.len() == 0 {
        assert(a =~= b);
        assert(a =~= Seq::<Term>::empty());
    } else if first {
        if b.len() == 0 {
            assert(b =~= Seq::<Term>::empty());
        } else {
            assert(a.contains(b[0]));
            lemma_sorted_rest(a);
            lemma_sorted_rest(b);
            let a1 = a.skip(1);
            let b1 = b.skip(1);
            if a[0] == b[0] {
                assert forall|i: int| 0 <= i < b1.len() implies a1.contains(#[trigger] b1[i]) by {
                    assert(b1[i] == b[i + 1]);
                    assert(b1.contains(b1[i]));
                    assert(a.contains(b[i + 1]));
                }
                assert(consistent(a1)) by {
                    assert forall|i: int, j: int|
                        0 <= i < a1.len() && 0 <= j < a1.len() implies !(#[trigger] a1[i]).negates(
                        #[trigger] a1[j],
                    ) by {
                        assert(a1[i] == a[i + 1]);
                        assert(a1[j] == a[j + 1]);
                    }
                }
                lemma_merge_absorbs(a1, b1, relaxed, true);
                assert(seq![a[0]] + b1 =~= b);
            } else {
                assert(a1.contains(b[0]));
                assert(a[0].lt(b[0]));
                assert(!a[0].negates(b[0])) by {
                    let k = choose|k: int| 0 <= k < a.len() && a[k] == b[0];
                    assert(!a[0].negates(a[k]));
                }
                assert forall|i: int| 0 <= i < b.len() implies a1.contains(#[trigger] b[i]) by {
                    assert(a.contains(b[i]));
                    if i > 0 {
                        assert(b[0].lt(b[i]));
                        lemma_term_order_transitive(a[0], b[0], b[i]);
                    }
                }
                assert(consistent(a1)) by {
                    assert forall|i: int, j: int|
                        0 <= i < a1.len() && 0 <= j < a1.len() implies !(#[trigger] a1[i]).negates(
                        #[trigger] a1[j],
                    ) by {
                        assert(a1[i] == a[i + 1]);
                        assert(a1[j] == a[j + 1]);
                    }
                }
                lemma_merge_absorbs(a1, b, true, true);
            }
        }
    } else {
        if a.len() == 0 {
            assert(a =~= Seq::<Term>::empty());
        } else {
            assert(b.contains(a[0]));
            lemma_sorted_rest(a);
            lemma_sorted_rest(b);
            let a1 = a.skip(1);
            let b1 = b.skip(1);
            if a[0] == b[0] {
                assert forall|i: int| 0 <= i < a1.len() implies b1.contains(#[trigger] a1[i]) by {
                    assert(a1[i] == a[i + 1]);
                    assert(a1.contains(a1[i]));
                    assert(b.contains(a[i + 1]));
                }
                assert(consistent(b1)) by {
                    assert forall|i: int, j: int|
                        0 <= i < b1.len() && 0 <= j < b1.len() implies !(#[trigger] b1[i]).negates(
                        #[trigger] b1[j],
                    ) by {
                        assert(b1[i] == b[i + 1]);
                        assert(b1[j] == b[j + 1]);
                    }
                }
                lemma_merge_absorbs(a1, b1, relaxed, false);
                assert(seq![a[0]] + a1 =~= a);
            } else {
                assert(b1.contains(a[0]));
                assert(b[0].lt(a[0]));
                assert(!a[0].negates(b[0])) by {
                    let k = choose|k: int| 0 <= k < b.len() && b[k] == a[0];
                    assert(!b[k].negates(b[0]));
                }
                assert(!a[0].lt(b[0]));
                assert forall|i: int| 0 <= i < a.len() implies b1.contains(#[trigger] a[i]) by {
                    assert(b.contains(a[i]));
                    if i > 0 {
                        assert(a[0].lt(a[i]));
                        lemma_term_order_transitive(b[0], a[0], a[i]);
                    }
                }
                assert(consistent(b1)) by {
                    assert forall|i: int, j: int|
                        0 <= i < b1.len() && 0 <= j < b1.len() implies !(#[trigger] b1[i]).negates(
                        #[trigger] b1[j],
                    ) by {
                        assert(b1[i] == b[i + 1]);
                        assert(b1[j] == b[j + 1]);
                    }
                }
                lemma_merge_absorbs(a, b1, true, false);
            }
        }
    }
}

/// Sorted cubes of which one is the other one with one term taken out and
/// the negation of a literal put in, hold the literal and its negation at
/// the same place.
proof fn lemma_differ_at_same_place(a: Seq<Term>, b: Seq<Term>, i: int, j: int)
    requires
        sorted(a),
        sorted(b),
        0 <= i < a.len(),
        0 <= j < b.len(),
        a[i].is_literal(),
        a[i].negates(b[j]),
        a.remove(i) == b.remove(j),
    ensures
        i == j,
{
    let c = a.remove(i);
    if i < j {
        assert(c[i] == a[i + 1]);
        assert(c[i] == b[i]);
        assert(a[i].lt(a[i + 1]));
        assert(b[i].lt(b[j]));
    }
    if j < i {
        assert(c[j] == b[j + 1]);
        assert(c[j] == a[j]);
        assert(b[j].lt(b[j + 1]));
        assert(a[j].lt(a[i]));
    }
}

/// The reduction of two cubes in normal form that do not hold `False` is
/// what the direct statement says.
pub proof fn lemma_reduce_is_direct(a: Seq<Term>, b: Seq<Term>)
    requires
        normal(a),
        normal(b),
        !a.contains(Term::False),
        !b.contains(Term::False),
    ensures
        reduce_spec(a, b) == reduce_direct(a, b),
{
    assert(a.len() > 0 ==> !(a[0] is False)) by {
        if a.len() > 0 {
            assert(a.contains(a[0]));
        }
    }
    assert(b.len() > 0 ==> !(b[0] is False)) by {
        if b.len() > 0 {
            assert(b.contains(b[0]));
        }
    }
    let merged = merge_spec(a, b, false, false);
    if subset(b, a) {
        lemma_merge_absorbs(a, b, false, true);
    } else if subset(a, b) {
        lemma_merge_absorbs(a, b, false, false);
    } else if exists|i: int| differ_at(a, b, i) {
        let i = choose|i: int| differ_at(a, b, i);
        let c = a.remove(i);
        let head = a.take(i);
        let rest = a.skip(i + 1);
        assert(head =~= c.take(i));
        assert(rest =~= c.skip(i));
        assert(b.take(i) =~= b.remove(i).take(i));
        assert(b.skip(i + 1) =~= b.remove(i).skip(i));
        let ta = seq![a[i]] + rest;
        let tb = seq![b[i]] + rest;
        assert(a =~= head + ta);
        assert(b =~= head + tb);
        assert(ta.skip(1) =~= rest);
        assert(tb.skip(1) =~= rest);
        super::term::lemma_negates_symmetric(a[i], b[i]);
        lemma_merge_same(rest, true, true);
        assert(merge_spec(ta, tb, false, false) == Some(rest));
        lemma_merge_common_prefix(head, ta, tb, false, false);
        assert(head + rest =~= c);
    } else {
        if merged is Some {
            lemma_merge_explained(a, b, false, false);
            let r = merged->0;
            let (i, j) = choose|i: int, j: int|
                #![trigger a[i], b[j]]
                0 <= i < a.len() && 0 <= j < b.len() && a[i].is_literal() && a[i].negates(b[j]) && r
                    == a.remove(i) && r == b.remove(j);
            lemma_differ_at_same_place(a, b, i, j);
            assert(differ_at(a, b, i));
        }
    }
}

/// A cube that can be merged with another one into a single cube.
pub trait ReductibleDNFCube<Id>: Sized + View<V = Seq<Term>> {
    /// Attempts to reduce disjunction of two cubes into a single cube.
    ///
    /// The cubes are merged term by term.  For cubes in normal form that do
    /// not hold `False` this comes to the following: a cube that holds all
    /// terms of the other one gives way to the other one; two cubes that
    /// differ in the polarity of one literal only give what they have in
    /// common; other cubes are not reduced.
    fn try_to_reduce_disjunction(&self, other: &Self) -> (r: Option<Self>)
        ensures
            match r {
                Some(c) => reduce_spec(self@, other@) == Some(c@),
                None => reduce_spec(self@, other@) is None,
            },
            normal(self@) && normal(other@) ==> (r matches Some(c) ==> normal(c@)),
            normal(self@) && normal(other@) && !self@.contains(Term::False) && !other@.contains(
                Term::False,
            ) ==> match r {
                Some(c) => reduce_direct(self@, other@) == Some(c@),
                None => reduce_direct(self@, other@) is None,
            },
    ;
}

impl<Id: VarId> ReductibleDNFCube<Id> for DNFCube<Id> {
    fn try_to_reduce_disjunction(&self, other: &Self) -> (r: Option<Self>) {
        let ghost a = self@;
        let ghost b = other@;
        proof {
            if normal(a) && normal(b) {
                if reduce_spec(a, b) is Some {
                    lemma_reduce_normal(a, b);
                }
                if !a.contains(Term::False) && !b.contains(Term::False) {
                    lemma_reduce_is_direct(a, b);
                }
            }
        }
        let n = self.terms.len();
        let m = other.terms.len();
        if n > 0 {
            assert(self.terms[0]@ == a[0]);
            if let FormulaTerm::False = &self.terms[0] {
                return Some(other.dup());
            }
        }
        if m > 0 {
            assert(other.terms[0]@ == b[0]);
            if let FormulaTerm::False = &other.terms[0] {
                return Some(self.dup());
            }
        }
        let mut reduced: DNFCube<Id> = DNFCube::new();
        let mut less_strict_than_me = false;
        let mut less_strict_than_other = false;
        let mut i: usize = 0;
        let mut j: usize = 0;
        proof {
            assert(a.skip(0) =~= a);
            assert(b.skip(0) =~= b);
            let whole = merge_spec(a, b, false, false);
            if whole is Some {
                assert(reduced@ + whole->0 =~= whole->0);
            }
        }
        loop
            invariant
                a == self@,
                b == other@,
                n == self.terms.len(),
                m == other.terms.len(),
                i <= n,
                j <= m,
                normal(a) && normal(b) && reduce_spec(a, b) is Some ==> normal(
                    reduce_spec(a, b)->0,
                ),
                normal(a) && normal(b) && !a.contains(Term::False) && !b.contains(Term::False)
                    ==> reduce_spec(a, b) == reduce_direct(a, b),
                reduce_spec(a, b) == prepend(
                    reduced@,
                    merge_spec(
                        a.skip(i as int),
                        b.skip(j as int),
                        less_strict_than_me,
                        less_strict_than_other,
                    ),
                ),
            decreases (n - i) + (m - j),
        {
            let ghost ra = a.skip(i as int);
            let ghost rb = b.skip(j as int);
            if i == n && j == m {
                assert(reduced@ + Seq::<Term>::empty() =~= reduced@);
                return Some(reduced);
            }
            if j == m {
                if less_strict_than_other {
                    return None;
                }
                assert(reduced@ + Seq::<Term>::empty() =~= reduced@);
                return Some(reduced);
            }
            if i == n {
                if less_strict_than_me {
                    return None;
                }
                assert(reduced@ + Seq::<Term>::empty() =~= reduced@);
                return Some(reduced);
            }
            let mine = &self.terms[i];
            let others = &other.terms[j];
            assert(mine@ == ra[0]);
            assert(others@ == rb[0]);
            assert(ra.skip(1) =~= a.skip(i as int + 1));
            assert(rb.skip(1) =~= b.skip(j as int + 1));
            let is_literal = match mine {
                FormulaTerm::Var(_) => true,
                FormulaTerm::NegVar(_) => true,
                _ => false,
            };
            if mine.same_term(others) {
                let ghost before = reduced@;
                reduced.terms.push(mine.dup());
                proof {
                    assert(reduced@ =~= before.push(ra[0]));
                    let tail = merge_spec(
                        ra.skip(1),
                        rb.skip(1),
                        less_strict_than_me,
                        less_strict_than_other,
                    );
                    if tail is Some {
                        assert(before + (seq![ra[0]] + tail->0) =~= reduced@ + tail->0);
                    }
                }
                i += 1;
                j += 1;
            } else if is_literal && mine.neg_eq(others) {
                if less_strict_than_me || less_strict_than_other {
                    return None;
                }
                less_strict_than_me = true;
                less_strict_than_other = true;
                i += 1;
                j += 1;
            } else if mine.precedes(others) {
                if less_strict_than_other {
                    return None;
                }
                less_strict_than_me = true;
                i += 1;
            } else {
                if less_strict_than_me {
                    return None;
                }
                less_strict_than_other = true;
                j += 1;
            }
        }
    }
}

} // verus!
