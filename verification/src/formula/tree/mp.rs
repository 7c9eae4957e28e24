//! Modus ponens on trees: the premise is renamed apart from the
//! implication and unified with its antecedent, and the unifier is put
//! into the consequent.

use vstd::prelude::*;
use crate::formula::canon::{lemma_occurs_concat, occurs_in};
use crate::formula::flat::{
    is_formula, lemma_skip_past, lemma_skip_tail, lemma_unique_reading, skip, Flat, Sym,
};
use crate::formula::langs::imp_neg::{imp, neg, ImpNeg, Variants};
use crate::formula::language::Bare;
use crate::formula::solve::{
    applied, burden, follows, held, hopeless, lemma_burden_concat, lemma_cycle,
    lemma_follows_bind, lemma_follows_done, lemma_follows_drop, lemma_follows_split,
    lemma_follows_start, lemma_follows_stuck, lemma_live_fewer, live, principal, solves_all,
    Eqs,
};
use crate::formula::subst::{
    apply, compose, is_mgu, lemma_apply_concat, lemma_apply_one, proper, single, unifiable,
    unifies, Subst,
};
use crate::formula::tree::{bound, Formula};

verus! {

/// The formula in flat prefix form.
pub open spec fn flatten(f: Formula) -> Flat<Variants<Bare>>
    decreases f,
{
    match f {
        Formula::Var(x) => seq![Sym::Var(x as nat)],
        Formula::Implication(a, b) => seq![imp()] + flatten(*a) + flatten(*b),
        Formula::Not(a) => seq![neg()] + flatten(*a),
    }
}

/// The pairs in flat prefix form.
pub open spec fn flat_pairs(eqs: Seq<(Formula, Formula)>) -> Eqs<Variants<Bare>> {
    eqs.map_values(|p: (Formula, Formula)| (flatten(p.0), flatten(p.1)))
}

/// The substitution that a list of bindings stands for: each variable
/// becomes what the first binding for it gives.
pub open spec fn subst_of(s: Seq<(usize, Formula)>) -> Subst<Variants<Bare>> {
    |v: nat|
        if v <= usize::MAX {
            match bound(s, v as usize) {
                Some(t) => flatten(t),
                None => seq![Sym::Var(v)],
            }
        } else {
            seq![Sym::Var(v)]
        }
}

/// The flat form of a tree is a formula with as many symbols as the
/// tree has constructors and variables, and its variables are those of
/// the tree.
pub proof fn lemma_flatten(f: Formula)
    ensures
        is_formula::<ImpNeg>(flatten(f)),
        flatten(f).len() == f.size(),
        forall|v: nat| occurs_in(flatten(f), v) ==> v <= usize::MAX && f.mentions(v as usize),
        forall|x: usize| #[trigger] f.mentions(x) ==> occurs_in(flatten(f), x as nat),
    decreases f,
{
    let whole = flatten(f);
    match f {
        Formula::Var(x) => {
            assert(skip::<ImpNeg>(whole, 1, 0) == 1);
            assert(whole[0] == Sym::<Variants<Bare>>::Var(x as nat));
        },
        Formula::Implication(a, b) => {
            lemma_flatten(*a);
            lemma_flatten(*b);
            let fa = flatten(*a);
            let fb = flatten(*b);
            let rest = fa + fb;
            assert(whole =~= seq![imp()] + rest);
            assert(rest =~= whole.subrange(1, whole.len() as int));
            lemma_skip_tail::<ImpNeg>(whole, rest, 1, 2);
            lemma_skip_past::<ImpNeg>(fa, fb, 1);
            assert(whole[0] == imp());
            assert forall|v: nat| occurs_in(whole, v) implies v <= usize::MAX && f.mentions(
                v as usize,
            ) by {
                lemma_occurs_concat(seq![imp()], rest, v);
                lemma_occurs_concat(fa, fb, v);
                if occurs_in(seq![imp()], v) {
                    let t = choose|t: int|
                        0 <= t < 1 && seq![imp()][t] == Sym::<Variants<Bare>>::Var(v);
                    assert(false);
                }
            }
            assert forall|x: usize| f.mentions(x) implies occurs_in(whole, x as nat) by {
                lemma_occurs_concat(seq![imp()], rest, x as nat);
                lemma_occurs_concat(fa, fb, x as nat);
                if a.mentions(x) {
                    assert(occurs_in(fa, x as nat));
                } else {
                    assert(b.mentions(x));
                    assert(occurs_in(fb, x as nat));
                }
            }
        },
        Formula::Not(a) => {
            lemma_flatten(*a);
            let fa = flatten(*a);
            assert(fa =~= whole.subrange(1, whole.len() as int));
            lemma_skip_tail::<ImpNeg>(whole, fa, 1, 1);
            assert(whole[0] == neg());
            assert forall|v: nat| occurs_in(whole, v) implies v <= usize::MAX && f.mentions(
                v as usize,
            ) by {
                lemma_occurs_concat(seq![neg()], fa, v);
                if occurs_in(seq![neg()], v) {
                    let t = choose|t: int|
                        0 <= t < 1 && seq![neg()][t] == Sym::<Variants<Bare>>::Var(v);
                    assert(false);
                }
            }
            assert forall|x: usize| f.mentions(x) implies occurs_in(whole, x as nat) by {
                lemma_occurs_concat(seq![neg()], fa, x as nat);
                assert(a.mentions(x));
                assert(occurs_in(fa, x as nat));
                assert(whole =~= seq![neg()] + fa);
            }
        },
    }
}

/// To put a formula in the place of a variable of a tree is to
/// substitute in its flat form.
pub proof fn lemma_flatten_replaced(f: Formula, x: usize, t: Formula)
    ensures
        flatten(f.replaced(x, t)) == apply(single(x as nat, flatten(t)), flatten(f)),
    decreases f,
{
    let tau = single(x as nat, flatten(t));
    match f {
        Formula::Var(y) => {
            lemma_apply_one(tau, Sym::<Variants<Bare>>::Var(y as nat));
        },
        Formula::Implication(a, b) => {
            lemma_flatten_replaced(*a, x, t);
            lemma_flatten_replaced(*b, x, t);
            lemma_apply_concat(tau, seq![imp()] + flatten(*a), flatten(*b));
            lemma_apply_concat(tau, seq![imp()], flatten(*a));
            lemma_apply_one(tau, imp());
        },
        Formula::Not(a) => {
            lemma_flatten_replaced(*a, x, t);
            lemma_apply_concat(tau, seq![neg()], flatten(*a));
            lemma_apply_one(tau, neg());
        },
    }
}

/// To put the bindings of a list into a tree is to apply the
/// substitution that the list stands for to its flat form.
pub proof fn lemma_flatten_replaced_all(f: Formula, s: Seq<(usize, Formula)>)
    ensures
        flatten(f.replaced_all(s)) == apply(subst_of(s), flatten(f)),
    decreases f,
{
    let sigma = subst_of(s);
    match f {
        Formula::Var(y) => {
            lemma_apply_one(sigma, Sym::<Variants<Bare>>::Var(y as nat));
        },
        Formula::Implication(a, b) => {
            lemma_flatten_replaced_all(*a, s);
            lemma_flatten_replaced_all(*b, s);
            lemma_apply_concat(sigma, seq![imp()] + flatten(*a), flatten(*b));
            lemma_apply_concat(sigma, seq![imp()], flatten(*a));
            lemma_apply_one(sigma, imp());
        },
        Formula::Not(a) => {
            lemma_flatten_replaced_all(*a, s);
            lemma_apply_concat(sigma, seq![neg()], flatten(*a));
            lemma_apply_one(sigma, neg());
        },
    }
}

/// Whether the variable `x` stands in the formula `t`.
pub fn occurs(x: usize, t: &Formula) -> (found: bool)
    ensures
        found == t.mentions(x),
    decreases t,
{
    match t {
        Formula::Var(y) => x == *y,
        Formula::Implication(a, b) => occurs(x, a) || occurs(x, b),
        Formula::Not(a) => occurs(x, a),
    }
}

/// The largest variable of a formula.
pub fn max_var(f: &Formula) -> (top: usize)
    ensures
        top == f.top(),
    decreases f,
{
    match f {
        Formula::Var(x) => *x,
        Formula::Implication(a, b) => {
            let l = max_var(a);
            let r = max_var(b);
            if l >= r {
                l
            } else {
                r
            }
        },
        Formula::Not(a) => max_var(a),
    }
}

/// Adds `n` to each variable of a formula.
pub fn add_to_var(f: &mut Formula, n: usize)
    requires
        old(f).top() + n <= usize::MAX,
    ensures
        *final(f) == old(f).raised(n as nat),
    decreases *old(f),
{
    match f {
        Formula::Var(x) => {
            *x = *x + n;
        },
        Formula::Implication(a, b) => {
            add_to_var(a, n);
            add_to_var(b, n);
        },
        Formula::Not(a) => {
            add_to_var(a, n);
        },
    }
}

/// The larger of the largest variables of two formulas.
pub open spec fn top_of(a: Formula, b: Formula) -> usize {
    if a.top() >= b.top() {
        a.top()
    } else {
        b.top()
    }
}

/// Moves the variables of `p` up by the largest variable of `a` and `b`.
/// Where the variables of `p` are above 0, this takes them above those
/// of `a` and `b`.
pub fn make_disjoint(p: &mut Formula, a: &Formula, b: &Formula)
    requires
        old(p).top() + top_of(*a, *b) <= usize::MAX,
    ensures
        *final(p) == old(p).raised(top_of(*a, *b) as nat),
{
    let l = max_var(a);
    let r = max_var(b);
    let m = if l >= r {
        l
    } else {
        r
    };
    add_to_var(p, m);
}


/// A substitution makes two implications the same exactly if it makes
/// their antecedents the same and their consequents the same.
pub proof fn lemma_split_implication(
    t: Subst<Variants<Bare>>,
    a1: Formula,
    b1: Formula,
    a2: Formula,
    b2: Formula,
)
    requires
        proper::<ImpNeg>(t),
    ensures
        unifies(
            t,
            flatten(Formula::Implication(Box::new(a1), Box::new(b1))),
            flatten(Formula::Implication(Box::new(a2), Box::new(b2))),
        ) <==> unifies(t, flatten(a1), flatten(a2)) && unifies(t, flatten(b1), flatten(b2)),
{
    let l = flatten(Formula::Implication(Box::new(a1), Box::new(b1)));
    let r = flatten(Formula::Implication(Box::new(a2), Box::new(b2)));
    let head = seq![imp()];
    lemma_flatten(a1);
    lemma_flatten(b1);
    lemma_flatten(a2);
    lemma_flatten(b2);
    lemma_apply_concat(t, head + flatten(a1), flatten(b1));
    lemma_apply_concat(t, head, flatten(a1));
    lemma_apply_concat(t, head + flatten(a2), flatten(b2));
    lemma_apply_concat(t, head, flatten(a2));
    lemma_apply_one(t, imp());
    let x1 = apply(t, flatten(a1));
    let y1 = apply(t, flatten(b1));
    let x2 = apply(t, flatten(a2));
    let y2 = apply(t, flatten(b2));
    crate::formula::subst::lemma_apply_is_formula::<ImpNeg>(t, flatten(a1));
    crate::formula::subst::lemma_apply_is_formula::<ImpNeg>(t, flatten(a2));
    if unifies(t, l, r) {
        assert(x1 + y1 =~= (head + x1 + y1).subrange(1, (head + x1 + y1).len() as int));
        assert(x2 + y2 =~= (head + x2 + y2).subrange(1, (head + x2 + y2).len() as int));
        lemma_unique_reading::<ImpNeg>(x1, y1, x2, y2);
    }
}

/// A substitution makes two negations the same exactly if it makes
/// their operands the same.
pub proof fn lemma_split_negation(t: Subst<Variants<Bare>>, a: Formula, b: Formula)
    ensures
        unifies(t, flatten(Formula::Not(Box::new(a))), flatten(Formula::Not(Box::new(b))))
            <==> unifies(t, flatten(a), flatten(b)),
{
    let head = seq![neg()];
    lemma_apply_concat(t, head, flatten(a));
    lemma_apply_concat(t, head, flatten(b));
    lemma_apply_one(t, neg());
    let x = apply(t, flatten(a));
    let y = apply(t, flatten(b));
    if unifies(t, flatten(Formula::Not(Box::new(a))), flatten(Formula::Not(Box::new(b)))) {
        assert(x =~= (head + x).subrange(1, (head + x).len() as int));
        assert(y =~= (head + y).subrange(1, (head + y).len() as int));
    }
}

/// No substitution makes an implication and a negation the same.
pub proof fn lemma_clash(t: Subst<Variants<Bare>>, a: Formula, b: Formula, c: Formula)
    ensures
        !unifies(
            t,
            flatten(Formula::Implication(Box::new(a), Box::new(b))),
            flatten(Formula::Not(Box::new(c))),
        ),
        !unifies(
            t,
            flatten(Formula::Not(Box::new(c))),
            flatten(Formula::Implication(Box::new(a), Box::new(b))),
        ),
{
    let l = flatten(Formula::Implication(Box::new(a), Box::new(b)));
    let r = flatten(Formula::Not(Box::new(c)));
    lemma_apply_concat(t, seq![imp()] + flatten(a), flatten(b));
    lemma_apply_concat(t, seq![imp()], flatten(a));
    lemma_apply_concat(t, seq![neg()], flatten(c));
    lemma_apply_one(t, imp());
    lemma_apply_one(t, neg());
    assert(apply(t, l)[0] == imp());
    assert(apply(t, r)[0] == neg());
    assert(imp() != neg());
}

/// What the first binding for a variable gives, in a list whose terms
/// have had `t` put in the place of `x` and to which the binding of `x`
/// to `t` was added at the end.
pub open spec fn rebound(s: Seq<(usize, Formula)>, x: usize, t: Formula) -> Seq<(usize, Formula)> {
    s.map_values(|b: (usize, Formula)| (b.0, b.1.replaced(x, t))).push((x, t))
}

/// The list that `rebound` makes stands for the substitution of `t` for
/// `x` after the substitution that the list stood for, where the list
/// had no binding for `x`.
pub proof fn lemma_rebound(s: Seq<(usize, Formula)>, x: usize, t: Formula)
    requires
        bound(s, x) is None,
    ensures
        subst_of(rebound(s, x, t)) == compose(single(x as nat, flatten(t)), subst_of(s)),
{
    let tau = single(x as nat, flatten(t));
    let now = subst_of(rebound(s, x, t));
    let want = compose(tau, subst_of(s));
    assert forall|v: nat| #[trigger] now(v) == want(v) by {
        lemma_apply_one(tau, Sym::<Variants<Bare>>::Var(v));
        if v <= usize::MAX {
            lemma_rebound_at(s, x, t, v as usize);
            match bound(s, v as usize) {
                Some(u) => {
                    lemma_flatten_replaced(u, x, t);
                },
                None => {},
            }
        }
    }
    assert(now =~= want);
}

proof fn lemma_rebound_at(s: Seq<(usize, Formula)>, x: usize, t: Formula, v: usize)
    ensures
        bound(rebound(s, x, t), v) == match bound(s, v) {
            Some(u) => Some(u.replaced(x, t)),
            None => if v == x {
                Some(t)
            } else {
                None
            },
        },
    decreases s.len(),
{
    let r = rebound(s, x, t);
    if s.len() == 0 {
        assert(r.drop_first() =~= Seq::<(usize, Formula)>::empty());
        assert(bound(r.drop_first(), v) is None);
    } else {
        assert(r[0] == (s[0].0, s[0].1.replaced(x, t)));
        assert(r.drop_first() =~= rebound(s.drop_first(), x, t));
        lemma_rebound_at(s.drop_first(), x, t, v);
    }
}

/// Puts `s.1` in the place of the variable `s.0` on both sides of every
/// pair.
fn subst_pairs(work: &mut Vec<(Formula, Formula)>, s: &(usize, Formula))
    ensures
        flat_pairs(final(work)@) == applied(
            single(s.0 as nat, flatten(s.1)),
            flat_pairs(old(work)@),
        ),
{
    let ghost before = work@;
    let ghost tau = single(s.0 as nat, flatten(s.1));
    let n = work.len();
    let mut i: usize = 0;
    while i < n
        invariant
            n == work@.len() == before.len(),
            i <= n,
            tau == single(s.0 as nat, flatten(s.1)),
            forall|t: int|
                0 <= t < i ==> (#[trigger] work@[t]).0 == before[t].0.replaced(s.0, s.1)
                    && work@[t].1 == before[t].1.replaced(s.0, s.1),
            forall|t: int| i <= t < n ==> #[trigger] work@[t] == before[t],
        decreases n - i,
    {
        let mut l = work[i].0.clone();
        let mut r = work[i].1.clone();
        l.subst(s);
        r.subst(s);
        work.set(i, (l, r));
        i += 1;
    }
    proof {
        let now = flat_pairs(work@);
        let want = applied(tau, flat_pairs(before));
        assert forall|t: int| 0 <= t < n implies now[t] == want[t] by {
            lemma_flatten_replaced(before[t].0, s.0, s.1);
            lemma_flatten_replaced(before[t].1, s.0, s.1);
        }
        assert(now =~= want);
    }
}

/// Puts `s.1` in the place of the variable `s.0` in the term of every
/// binding, and adds the binding `s` at the end.
fn subst_solution(solution: &mut Vec<(usize, Formula)>, s: (usize, Formula))
    ensures
        final(solution)@ == rebound(old(solution)@, s.0, s.1),
{
    let ghost before = solution@;
    let n = solution.len();
    let mut i: usize = 0;
    while i < n
        invariant
            n == solution@.len() == before.len(),
            i <= n,
            forall|t: int|
                0 <= t < i ==> #[trigger] solution@[t] == (
                    before[t].0,
                    before[t].1.replaced(s.0, s.1),
                ),
            forall|t: int| i <= t < n ==> #[trigger] solution@[t] == before[t],
        decreases n - i,
    {
        let x = solution[i].0;
        let mut a = solution[i].1.clone();
        a.subst(&s);
        solution.set(i, (x, a));
        i += 1;
    }
    solution.push(s);
    proof {
        assert(solution@ =~= rebound(before, s.0, s.1));
    }
}

/// The bound above every variable.
pub open spec fn var_limit() -> nat {
    (usize::MAX + 1) as nat
}

/// Unifies the two formulas of every pair: a list of bindings that
/// stands for a most general substitution making them the same, or
/// nothing where there is none.
///
/// One pair is taken at a time. Two equal variables are dropped. A
/// variable that meets another formula is bound to it and gives way to
/// it in every pair and in every binding made so far, unless it stands
/// in that formula: then nothing can be done. Two implications give
/// way to the pairs of their operands, and so do two negations; of an
/// implication and a negation, nothing can be done.
pub fn try_unify_many(eqs: Vec<(Formula, Formula)>) -> (found: Option<Vec<(usize, Formula)>>)
    ensures
        match found {
            Some(solution) => principal::<ImpNeg>(subst_of(solution@), flat_pairs(eqs@)),
            None => hopeless::<ImpNeg>(flat_pairs(eqs@)),
        },
{
    let ghost w0 = flat_pairs(eqs@);
    let mut work = eqs;
    let mut solution: Vec<(usize, Formula)> = Vec::new();
    proof {
        assert forall|i: int| 0 <= i < w0.len() implies is_formula::<ImpNeg>((#[trigger] w0[i]).0)
            && is_formula::<ImpNeg>(w0[i].1) by {
            lemma_flatten(eqs@[i].0);
            lemma_flatten(eqs@[i].1);
        }
        lemma_follows_start::<ImpNeg>(w0);
        assert(subst_of(solution@) =~= crate::formula::subst::identity());
    }
    loop
        invariant
            w0 == flat_pairs(eqs@),
            follows::<ImpNeg>(w0, flat_pairs(work@), subst_of(solution@)),
            forall|v: usize|
                bound(solution@, v) is Some ==> !held(flat_pairs(work@), v as nat),
        decreases live(flat_pairs(work@), var_limit()), burden(flat_pairs(work@)),
    {
        let ghost w = flat_pairs(work@);
        let ghost sigma = subst_of(solution@);
        let ghost bindings = solution@;
        if work.len() == 0 {
            proof {
                lemma_follows_done::<ImpNeg>(w0, w, sigma);
            }
            return Some(solution);
        }
        let (l, r) = work.pop().unwrap();
        let ghost rest = flat_pairs(work@);
        proof {
            assert(rest =~= w.drop_last());
            assert(w.last() == (flatten(l), flatten(r)));
            assert(w[w.len() - 1] == w.last());
            lemma_flatten(l);
            lemma_flatten(r);
            assert(w =~= rest + seq![w.last()]);
            lemma_burden_concat(rest, seq![w.last()]);
            assert(seq![w.last()].drop_last() =~= Seq::<
                (Flat<Variants<Bare>>, Flat<Variants<Bare>>),
            >::empty());
            assert(burden(seq![w.last()]) == flatten(l).len());
        }
        match (l, r) {
            (Formula::Implication(a1, b1), Formula::Implication(a2, b2)) => {
                let ghost parts = seq![(flatten(*a1), flatten(*a2)), (flatten(*b1), flatten(*b2))];
                proof {
                    lemma_flatten(*a1);
                    lemma_flatten(*a2);
                    lemma_flatten(*b1);
                    lemma_flatten(*b2);
                    assert forall|t: Subst<Variants<Bare>>| proper::<ImpNeg>(t) implies (unifies(
                        t,
                        w.last().0,
                        w.last().1,
                    ) <==> #[trigger] solves_all(t, parts)) by {
                        lemma_split_implication(t, *a1, *b1, *a2, *b2);
                        if solves_all(t, parts) {
                            assert(unifies(t, parts[0].0, parts[0].1));
                            assert(unifies(t, parts[1].0, parts[1].1));
                        }
                    }
                    assert forall|v: nat| held(parts, v) implies occurs_in(w.last().0, v)
                        || occurs_in(w.last().1, v) by {
                        let i = choose|i: int|
                            0 <= i < parts.len() && (occurs_in((#[trigger] parts[i]).0, v)
                                || occurs_in(parts[i].1, v));
                        lemma_occurs_concat(seq![imp()] + flatten(*a1), flatten(*b1), v);
                        lemma_occurs_concat(seq![imp()], flatten(*a1), v);
                        lemma_occurs_concat(seq![imp()] + flatten(*a2), flatten(*b2), v);
                        lemma_occurs_concat(seq![imp()], flatten(*a2), v);
                    }
                    lemma_follows_split::<ImpNeg>(w0, w, sigma, parts);
                    lemma_burden_concat(rest, parts);
                    assert(parts.drop_last() =~= seq![(flatten(*a1), flatten(*a2))]);
                    assert(parts.drop_last().drop_last() =~= Seq::<
                        (Flat<Variants<Bare>>, Flat<Variants<Bare>>),
                    >::empty());
                    assert(burden(parts.drop_last()) == flatten(*a1).len());
                    assert(burden(parts) == flatten(*a1).len() + flatten(*b1).len());
                }
                work.push((*a1, *a2));
                work.push((*b1, *b2));
                proof {
                    let next = flat_pairs(work@);
                    assert(next =~= rest + parts);
                    assert forall|v: nat| held(next, v) implies held(w, v) by {
                        let i = choose|i: int|
                            0 <= i < next.len() && (occurs_in((#[trigger] next[i]).0, v)
                                || occurs_in(next[i].1, v));
                        if i < rest.len() {
                            assert(next[i] == w[i]);
                        } else {
                            assert(next[i] == parts[i - rest.len()]);
                            assert(held(parts, v));
                        }
                    }
                    lemma_live_fewer(w, next, var_limit(), 0);
                }
            },
            (Formula::Not(a), Formula::Not(b)) => {
                let ghost parts = seq![(flatten(*a), flatten(*b))];
                proof {
                    lemma_flatten(*a);
                    lemma_flatten(*b);
                    assert forall|t: Subst<Variants<Bare>>| proper::<ImpNeg>(t) implies (unifies(
                        t,
                        w.last().0,
                        w.last().1,
                    ) <==> #[trigger] solves_all(t, parts)) by {
                        lemma_split_negation(t, *a, *b);
                        if solves_all(t, parts) {
                            assert(unifies(t, parts[0].0, parts[0].1));
                        }
                    }
                    assert forall|v: nat| held(parts, v) implies occurs_in(w.last().0, v)
                        || occurs_in(w.last().1, v) by {
                        let i = choose|i: int|
                            0 <= i < parts.len() && (occurs_in((#[trigger] parts[i]).0, v)
                                || occurs_in(parts[i].1, v));
                        lemma_occurs_concat(seq![neg()], flatten(*a), v);
                        lemma_occurs_concat(seq![neg()], flatten(*b), v);
                    }
                    lemma_follows_split::<ImpNeg>(w0, w, sigma, parts);
                    lemma_burden_concat(rest, parts);
                    assert(parts.drop_last() =~= Seq::<
                        (Flat<Variants<Bare>>, Flat<Variants<Bare>>),
                    >::empty());
                    assert(burden(parts) == flatten(*a).len());
                }
                work.push((*a, *b));
                proof {
                    let next = flat_pairs(work@);
                    assert(next =~= rest + parts);
                    assert forall|v: nat| held(next, v) implies held(w, v) by {
                        let i = choose|i: int|
                            0 <= i < next.len() && (occurs_in((#[trigger] next[i]).0, v)
                                || occurs_in(next[i].1, v));
                        if i < rest.len() {
                            assert(next[i] == w[i]);
                        } else {
                            assert(next[i] == parts[i - rest.len()]);
                            assert(held(parts, v));
                        }
                    }
                    lemma_live_fewer(w, next, var_limit(), 0);
                }
            },
            (Formula::Implication(a, b), Formula::Not(c)) => {
                proof {
                    assert forall|t: Subst<Variants<Bare>>| proper::<ImpNeg>(t) implies !#[trigger] unifies(
                        t,
                        w.last().0,
                        w.last().1,
                    ) by {
                        lemma_clash(t, *a, *b, *c);
                    }
                    lemma_follows_stuck::<ImpNeg>(w0, w, sigma);
                }
                return None;
            },
            (Formula::Not(c), Formula::Implication(a, b)) => {
                proof {
                    assert forall|t: Subst<Variants<Bare>>| proper::<ImpNeg>(t) implies !#[trigger] unifies(
                        t,
                        w.last().0,
                        w.last().1,
                    ) by {
                        lemma_clash(t, *a, *b, *c);
                    }
                    lemma_follows_stuck::<ImpNeg>(w0, w, sigma);
                }
                return None;
            },
            (t, Formula::Var(x)) => {
                let same = match &t {
                    Formula::Var(y) => *y == x,
                    _ => false,
                };
                if same {
                    proof {
                        lemma_follows_drop::<ImpNeg>(w0, w, sigma);
                        assert forall|v: nat| held(rest, v) implies held(w, v) by {
                            let i = choose|i: int|
                                0 <= i < rest.len() && (occurs_in((#[trigger] rest[i]).0, v)
                                    || occurs_in(rest[i].1, v));
                            assert(rest[i] == w[i]);
                        }
                        lemma_live_fewer(w, rest, var_limit(), 0);
                    }
                } else if occurs(x, &t) {
                    proof {
                        assert(flatten(t).len() > 1);
                        assert forall|s: Subst<Variants<Bare>>| proper::<ImpNeg>(
                            s,
                        ) implies !#[trigger] unifies(s, w.last().0, w.last().1) by {
                            lemma_cycle::<ImpNeg>(s, x as nat, flatten(t));
                        }
                        lemma_follows_stuck::<ImpNeg>(w0, w, sigma);
                    }
                    return None;
                } else {
                    proof {
                        lemma_follows_bind::<ImpNeg>(w0, w, sigma, x as nat, flatten(t));
                        lemma_live_fewer(
                            w,
                            applied(single(x as nat, flatten(t)), rest),
                            var_limit(),
                            x as nat,
                        );
                        lemma_rebound(solution@, x, t);
                    }
                    let ghost term = t;
                    let s = (x, t);
                    subst_pairs(&mut work, &s);
                    subst_solution(&mut solution, s);
                    proof {
                        assert forall|v: usize| bound(solution@, v) is Some implies !held(
                            flat_pairs(work@),
                            v as nat,
                        ) by {
                            lemma_rebound_at(bindings, x, term, v);
                            let next = applied(single(x as nat, flatten(term)), rest);
                            assert(flat_pairs(work@) == next);
                            if held(next, v as nat) {
                                assert(held(w, v as nat) && v as nat != x as nat);
                                assert(bound(bindings, v) is Some);
                            }
                        }
                    }
                }
            },
            (Formula::Var(x), t) => {
                if occurs(x, &t) {
                    proof {
                        assert(flatten(t).len() > 1);
                        assert forall|s: Subst<Variants<Bare>>| proper::<ImpNeg>(
                            s,
                        ) implies !#[trigger] unifies(s, w.last().0, w.last().1) by {
                            lemma_cycle::<ImpNeg>(s, x as nat, flatten(t));
                        }
                        lemma_follows_stuck::<ImpNeg>(w0, w, sigma);
                    }
                    return None;
                } else {
                    proof {
                        lemma_follows_bind::<ImpNeg>(w0, w, sigma, x as nat, flatten(t));
                        lemma_live_fewer(
                            w,
                            applied(single(x as nat, flatten(t)), rest),
                            var_limit(),
                            x as nat,
                        );
                        lemma_rebound(solution@, x, t);
                    }
                    let ghost term = t;
                    let s = (x, t);
                    subst_pairs(&mut work, &s);
                    subst_solution(&mut solution, s);
                    proof {
                        assert forall|v: usize| bound(solution@, v) is Some implies !held(
                            flat_pairs(work@),
                            v as nat,
                        ) by {
                            lemma_rebound_at(bindings, x, term, v);
                            let next = applied(single(x as nat, flatten(term)), rest);
                            assert(flat_pairs(work@) == next);
                            if held(next, v as nat) {
                                assert(held(w, v as nat) && v as nat != x as nat);
                                assert(bound(bindings, v) is Some);
                            }
                        }
                    }
                }
            },
        }
    }
}


/// Unifies two formulas: a list of bindings that stands for a most
/// general unifier, or nothing where they cannot be unified.
pub fn try_unify(a: Formula, b: Formula) -> (found: Option<Vec<(usize, Formula)>>)
    ensures
        match found {
            Some(solution) => is_mgu::<ImpNeg>(subst_of(solution@), flatten(a), flatten(b)),
            None => !unifiable::<ImpNeg>(flatten(a), flatten(b)),
        },
{
    let eqs = vec![(a, b)];
    let ghost w = flat_pairs(eqs@);
    proof {
        assert(w.len() == 1);
        assert(w[0] == (flatten(a), flatten(b)));
    }
    let found = try_unify_many(eqs);
    proof {
        match &found {
            Some(solution) => {
                let s = subst_of(solution@);
                assert(unifies(s, w[0].0, w[0].1));
                assert forall|t: Subst<Variants<Bare>>| proper::<ImpNeg>(t) && #[trigger] unifies(
                    t,
                    flatten(a),
                    flatten(b),
                ) implies crate::formula::subst::absorbs(t, s) by {
                    assert(solves_all(t, w));
                }
            },
            None => {
                if unifiable::<ImpNeg>(flatten(a), flatten(b)) {
                    let t = choose|t: Subst<Variants<Bare>>|
                        proper::<ImpNeg>(t) && #[trigger] unifies(t, flatten(a), flatten(b));
                    assert(solves_all(t, w));
                }
            },
        }
    }
    found
}

/// Whether `r` is what modus ponens gives of the premise `p` and the
/// implication of `a` and `b`: with the variables of `p` moved up by
/// the largest variable of `a` and `b`, the consequent `b` under a most
/// general unifier of `p` and the antecedent `a`, or nothing where the
/// two cannot be unified.
pub open spec fn mp_tree(p: Formula, a: Formula, b: Formula, r: Option<Formula>) -> bool {
    let moved = flatten(p.raised(top_of(a, b) as nat));
    match r {
        Some(f) => exists|s: Subst<Variants<Bare>>| #[trigger]
            is_mgu::<ImpNeg>(s, moved, flatten(a)) && flatten(f) == apply(s, flatten(b)),
        None => !unifiable::<ImpNeg>(moved, flatten(a)),
    }
}

/// Applies modus ponens to the formula `p` and the implication of `a`
/// and `b`, by unifying `p` and `a`.
pub fn try_apply_mp(p: &Formula, a: &Formula, b: &Formula) -> (r: Option<Formula>)
    requires
        p.top() + top_of(*a, *b) <= usize::MAX,
    ensures
        mp_tree(*p, *a, *b, r),
{
    let mut p_disj = p.clone();
    make_disjoint(&mut p_disj, a, b);
    match try_unify(p_disj, a.clone()) {
        Some(subst) => {
            let mut b_new = b.clone();
            b_new.subst_many(&subst);
            proof {
                lemma_flatten_replaced_all(*b, subst@);
            }
            Some(b_new)
        },
        None => None,
    }
}

} // verus!
