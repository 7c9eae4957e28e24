//! Unification of a list of pairs of formulas: what each step of the
//! work keeps, and what it has found when the work is done.

use vstd::prelude::*;
use crate::formula::canon::occurs_in;
use crate::formula::flat::{is_formula, lemma_formula_not_empty, Flat, Sym};
use crate::formula::language::Language;
use crate::formula::subst::{
    absorbs, apply, compose, identity, lemma_apply_fixed, lemma_apply_holds,
    lemma_apply_is_formula, lemma_apply_one, proper, single, unifies, Subst,
};
use crate::formula::unify::{lemma_absorbed, lemma_single_vars, lemma_var_is_formula};

verus! {

/// Pairs of formulas that are to be made the same.
pub type Eqs<K> = Seq<(Flat<K>, Flat<K>)>;

/// Whether `s` makes the two formulas of every pair the same.
pub open spec fn solves_all<K>(s: Subst<K>, w: Eqs<K>) -> bool {
    forall|i: int| 0 <= i < w.len() ==> unifies(s, (#[trigger] w[i]).0, w[i].1)
}

/// Whether the variable `v` stands in one of the pairs.
pub open spec fn held<K>(w: Eqs<K>, v: nat) -> bool {
    exists|i: int| 0 <= i < w.len() && (occurs_in((#[trigger] w[i]).0, v) || occurs_in(w[i].1, v))
}

/// Whether both sides of every pair are formulas.
pub open spec fn all_formulas<L: Language>(w: Eqs<L::Shape>) -> bool {
    forall|i: int|
        0 <= i < w.len() ==> is_formula::<L>((#[trigger] w[i]).0) && is_formula::<L>(w[i].1)
}

/// The pairs with `s` applied to both sides of each.
pub open spec fn applied<K>(s: Subst<K>, w: Eqs<K>) -> Eqs<K> {
    w.map_values(|p: (Flat<K>, Flat<K>)| (apply(s, p.0), apply(s, p.1)))
}

/// Whether `s` is a most general solution of the pairs: it is a
/// solution, and every solution is `s` followed by a substitution.
pub open spec fn principal<L: Language>(s: Subst<L::Shape>, w: Eqs<L::Shape>) -> bool {
    &&& proper::<L>(s)
    &&& solves_all(s, w)
    &&& forall|t: Subst<L::Shape>| proper::<L>(t) && #[trigger] solves_all(t, w) ==> absorbs(t, s)
}

/// Whether no substitution solves the pairs.
pub open spec fn hopeless<L: Language>(w: Eqs<L::Shape>) -> bool {
    forall|t: Subst<L::Shape>| proper::<L>(t) ==> !#[trigger] solves_all(t, w)
}

/// How the pairs `w` that are left derive from the pairs `w0`, by the
/// substitution `s` made so far: `s` leaves alone the variables that the
/// pairs still hold and those that it brings in, and the solutions of
/// `w0` are the solutions of `w` that `s` does not change.
pub open spec fn follows<L: Language>(w0: Eqs<L::Shape>, w: Eqs<L::Shape>, s: Subst<L::Shape>) -> bool {
    &&& proper::<L>(s)
    &&& all_formulas::<L>(w)
    &&& forall|v: nat| held(w, v) ==> #[trigger] s(v) == seq![Sym::<L::Shape>::Var(v)]
    &&& forall|v: nat, u: nat|
        occurs_in(#[trigger] s(v), u) ==> #[trigger] s(u) == seq![Sym::<L::Shape>::Var(u)]
    &&& forall|t: Subst<L::Shape>|
        proper::<L>(t) ==> (#[trigger] solves_all(t, w0) <==> absorbs(t, s) && solves_all(t, w))
}

/// At the start nothing has been substituted.
pub proof fn lemma_follows_start<L: Language>(w: Eqs<L::Shape>)
    requires
        all_formulas::<L>(w),
    ensures
        follows::<L>(w, w, identity()),
{
    let s = identity::<L::Shape>();
    assert forall|v: nat| is_formula::<L>(#[trigger] s(v)) by {
        lemma_var_is_formula::<L>(v);
    }
    assert forall|v: nat, u: nat| occurs_in(#[trigger] s(v), u) implies #[trigger] s(u) == seq![
        Sym::<L::Shape>::Var(u),
    ] by {}
    assert forall|t: Subst<L::Shape>| proper::<L>(t) implies (#[trigger] solves_all(t, w)
        <==> absorbs(t, s) && solves_all(t, w)) by {
        assert forall|v: nat| apply(t, #[trigger] s(v)) == t(v) by {
            lemma_apply_one(t, Sym::<L::Shape>::Var(v));
        }
    }
}

/// A pair of equal formulas can be left out.
pub proof fn lemma_follows_drop<L: Language>(
    w0: Eqs<L::Shape>,
    w: Eqs<L::Shape>,
    s: Subst<L::Shape>,
)
    requires
        follows::<L>(w0, w, s),
        w.len() > 0,
        w.last().0 == w.last().1,
    ensures
        follows::<L>(w0, w.drop_last(), s),
{
    let rest = w.drop_last();
    assert forall|i: int| 0 <= i < rest.len() implies is_formula::<L>((#[trigger] rest[i]).0)
        && is_formula::<L>(rest[i].1) by {
        assert(rest[i] == w[i]);
    }
    assert forall|v: nat| held(rest, v) implies #[trigger] s(v) == seq![
        Sym::<L::Shape>::Var(v),
    ] by {
        let i = choose|i: int|
            0 <= i < rest.len() && (occurs_in((#[trigger] rest[i]).0, v) || occurs_in(
                rest[i].1,
                v,
            ));
        assert(rest[i] == w[i]);
        assert(held(w, v));
    }
    assert forall|t: Subst<L::Shape>| proper::<L>(t) implies (#[trigger] solves_all(t, w0)
        <==> absorbs(t, s) && solves_all(t, rest)) by {
        if solves_all(t, w) {
            assert forall|i: int| 0 <= i < rest.len() implies unifies(
                t,
                (#[trigger] rest[i]).0,
                rest[i].1,
            ) by {
                assert(rest[i] == w[i]);
            }
        }
        if solves_all(t, rest) {
            assert forall|i: int| 0 <= i < w.len() implies unifies(
                t,
                (#[trigger] w[i]).0,
                w[i].1,
            ) by {
                if i < rest.len() {
                    assert(rest[i] == w[i]);
                } else {
                    assert(w[i] == w.last());
                }
            }
        }
    }
}

/// A pair can give way to other pairs that have the same solutions and
/// hold no other variables.
pub proof fn lemma_follows_split<L: Language>(
    w0: Eqs<L::Shape>,
    w: Eqs<L::Shape>,
    s: Subst<L::Shape>,
    parts: Eqs<L::Shape>,
)
    requires
        follows::<L>(w0, w, s),
        w.len() > 0,
        all_formulas::<L>(parts),
        forall|v: nat| held(parts, v) ==> occurs_in(w.last().0, v) || occurs_in(w.last().1, v),
        forall|t: Subst<L::Shape>|
            proper::<L>(t) ==> (unifies(t, w.last().0, w.last().1) <==> #[trigger] solves_all(
                t,
                parts,
            )),
    ensures
        follows::<L>(w0, w.drop_last() + parts, s),
{
    let rest = w.drop_last();
    let next = rest + parts;
    assert(w[w.len() - 1] == w.last());
    assert forall|i: int| 0 <= i < next.len() implies is_formula::<L>((#[trigger] next[i]).0)
        && is_formula::<L>(next[i].1) by {
        if i < rest.len() {
            assert(next[i] == w[i]);
        } else {
            assert(next[i] == parts[i - rest.len()]);
        }
    }
    assert forall|v: nat| held(next, v) implies #[trigger] s(v) == seq![
        Sym::<L::Shape>::Var(v),
    ] by {
        let i = choose|i: int|
            0 <= i < next.len() && (occurs_in((#[trigger] next[i]).0, v) || occurs_in(
                next[i].1,
                v,
            ));
        if i < rest.len() {
            assert(next[i] == w[i]);
            assert(held(w, v));
        } else {
            assert(next[i] == parts[i - rest.len()]);
            assert(held(parts, v));
            assert(held(w, v));
        }
    }
    assert forall|t: Subst<L::Shape>| proper::<L>(t) implies (#[trigger] solves_all(t, w0)
        <==> absorbs(t, s) && solves_all(t, next)) by {
        if solves_all(t, w) {
            assert(unifies(t, w.last().0, w.last().1));
            assert(solves_all(t, parts));
            assert forall|i: int| 0 <= i < next.len() implies unifies(
                t,
                (#[trigger] next[i]).0,
                next[i].1,
            ) by {
                if i < rest.len() {
                    assert(next[i] == w[i]);
                } else {
                    assert(next[i] == parts[i - rest.len()]);
                }
            }
        }
        if solves_all(t, next) {
            assert forall|i: int| 0 <= i < parts.len() implies unifies(
                t,
                (#[trigger] parts[i]).0,
                parts[i].1,
            ) by {
                assert(next[rest.len() + i] == parts[i]);
            }
            assert(solves_all(t, parts));
            assert forall|i: int| 0 <= i < w.len() implies unifies(
                t,
                (#[trigger] w[i]).0,
                w[i].1,
            ) by {
                if i < rest.len() {
                    assert(next[i] == w[i]);
                }
            }
        }
    }
}

/// Where the last pair has no solution, the pairs that there were have
/// none.
pub proof fn lemma_follows_stuck<L: Language>(
    w0: Eqs<L::Shape>,
    w: Eqs<L::Shape>,
    s: Subst<L::Shape>,
)
    requires
        follows::<L>(w0, w, s),
        w.len() > 0,
        forall|t: Subst<L::Shape>| proper::<L>(t) ==> !#[trigger] unifies(t, w.last().0, w.last().1),
    ensures
        hopeless::<L>(w0),
{
    assert(w[w.len() - 1] == w.last());
    assert forall|t: Subst<L::Shape>| proper::<L>(t) implies !#[trigger] solves_all(t, w0) by {
        if solves_all(t, w) {
            assert(unifies(t, w.last().0, w.last().1));
        }
    }
}

/// A variable cannot be made the same as a longer formula in which it
/// stands.
pub proof fn lemma_cycle<L: Language>(t: Subst<L::Shape>, x: nat, f: Flat<L::Shape>)
    requires
        proper::<L>(t),
        occurs_in(f, x),
        f.len() > 1,
    ensures
        !unifies(t, seq![Sym::<L::Shape>::Var(x)], f),
        !unifies(t, f, seq![Sym::<L::Shape>::Var(x)]),
{
    assert forall|v: nat| (#[trigger] t(v)).len() >= 1 by {
        lemma_formula_not_empty::<L>(t(v));
    }
    let at = choose|at: int| 0 <= at < f.len() && f[at] == Sym::<L::Shape>::Var(x);
    lemma_apply_holds(t, f, at);
    lemma_apply_one(t, Sym::<L::Shape>::Var(x));
}

/// A variable that meets a formula in which it does not stand gives way
/// to that formula, in every pair.
pub proof fn lemma_follows_bind<L: Language>(
    w0: Eqs<L::Shape>,
    w: Eqs<L::Shape>,
    s: Subst<L::Shape>,
    x: nat,
    term: Flat<L::Shape>,
)
    requires
        follows::<L>(w0, w, s),
        w.len() > 0,
        w.last() == (seq![Sym::<L::Shape>::Var(x)], term) || w.last() == (
            term,
            seq![Sym::<L::Shape>::Var(x)],
        ),
        !occurs_in(term, x),
    ensures
        follows::<L>(w0, applied(single(x, term), w.drop_last()), compose(single(x, term), s)),
        forall|v: nat|
            held(applied(single(x, term), w.drop_last()), v) ==> held(w, v) && v != x,
        held(w, x),
{
    assert(w[w.len() - 1] == w.last());
    let tau = single(x, term);
    let s2 = compose(tau, s);
    let rest = w.drop_last();
    let next = applied(tau, rest);
    let me = seq![Sym::<L::Shape>::Var(x)];
    assert(me[0] == Sym::<L::Shape>::Var(x));
    assert(occurs_in(me, x));
    assert(held(w, x));
    assert(is_formula::<L>(term));
    assert forall|v: nat| is_formula::<L>(#[trigger] tau(v)) by {
        lemma_var_is_formula::<L>(v);
    }
    assert forall|v: nat| is_formula::<L>(#[trigger] s2(v)) by {
        assert(is_formula::<L>(s(v)));
        lemma_apply_is_formula::<L>(tau, s(v));
    }
    assert forall|i: int| 0 <= i < next.len() implies is_formula::<L>((#[trigger] next[i]).0)
        && is_formula::<L>(next[i].1) by {
        assert(rest[i] == w[i]);
        lemma_apply_is_formula::<L>(tau, rest[i].0);
        lemma_apply_is_formula::<L>(tau, rest[i].1);
    }
    assert forall|v: nat| held(next, v) implies held(w, v) && v != x by {
        let i = choose|i: int|
            0 <= i < next.len() && (occurs_in((#[trigger] next[i]).0, v) || occurs_in(
                next[i].1,
                v,
            ));
        assert(rest[i] == w[i]);
        if occurs_in(next[i].0, v) {
            lemma_single_vars(x, term, rest[i].0, v);
        } else {
            lemma_single_vars(x, term, rest[i].1, v);
        }
        if !((occurs_in(rest[i].0, v) || occurs_in(rest[i].1, v)) && v != x) {
            assert(occurs_in(term, v));
        }
    }
    assert forall|v: nat| held(next, v) implies #[trigger] s2(v) == seq![
        Sym::<L::Shape>::Var(v),
    ] by {
        assert(held(w, v) && v != x);
        assert(s(v) == seq![Sym::<L::Shape>::Var(v)]);
        lemma_apply_one(tau, Sym::<L::Shape>::Var(v));
    }
    assert forall|v: nat, u: nat| occurs_in(#[trigger] s2(v), u) implies #[trigger] s2(u)
        == seq![Sym::<L::Shape>::Var(u)] by {
        lemma_single_vars(x, term, s(v), u);
        if occurs_in(s(v), u) && u != x {
            assert(s(u) == seq![Sym::<L::Shape>::Var(u)]);
        } else {
            assert(occurs_in(term, u));
            assert(held(w, u));
            assert(s(u) == seq![Sym::<L::Shape>::Var(u)]);
        }
        lemma_apply_one(tau, Sym::<L::Shape>::Var(u));
    }
    assert forall|t: Subst<L::Shape>| proper::<L>(t) implies (#[trigger] solves_all(t, w0)
        <==> absorbs(t, s2) && solves_all(t, next)) by {
        lemma_apply_one(t, Sym::<L::Shape>::Var(x));
        assert(s(x) == seq![Sym::<L::Shape>::Var(x)]);
        lemma_apply_one(tau, Sym::<L::Shape>::Var(x));
        if absorbs(t, s) && solves_all(t, w) {
            assert(unifies(t, w.last().0, w.last().1));
            assert forall|v: nat| apply(t, #[trigger] tau(v)) == t(v) by {
                lemma_apply_one(t, Sym::<L::Shape>::Var(v));
            }
            assert(absorbs(t, tau));
            assert forall|v: nat| apply(t, #[trigger] s2(v)) == t(v) by {
                lemma_absorbed(t, tau, s(v));
                assert(apply(t, s(v)) == t(v));
            }
            assert forall|i: int| 0 <= i < next.len() implies unifies(
                t,
                (#[trigger] next[i]).0,
                next[i].1,
            ) by {
                assert(rest[i] == w[i]);
                lemma_absorbed(t, tau, rest[i].0);
                lemma_absorbed(t, tau, rest[i].1);
            }
        }
        if absorbs(t, s2) && solves_all(t, next) {
            assert(apply(t, s2(x)) == t(x));
            assert(s2(x) == term);
            assert forall|v: nat| apply(t, #[trigger] tau(v)) == t(v) by {
                lemma_apply_one(t, Sym::<L::Shape>::Var(v));
            }
            assert(absorbs(t, tau));
            assert forall|v: nat| apply(t, #[trigger] s(v)) == t(v) by {
                lemma_absorbed(t, tau, s(v));
                assert(apply(t, s2(v)) == t(v));
            }
            assert forall|i: int| 0 <= i < w.len() implies unifies(
                t,
                (#[trigger] w[i]).0,
                w[i].1,
            ) by {
                if i < rest.len() {
                    assert(rest[i] == w[i]);
                    assert(unifies(t, next[i].0, next[i].1));
                    lemma_absorbed(t, tau, rest[i].0);
                    lemma_absorbed(t, tau, rest[i].1);
                }
            }
        }
    }
}

/// When no pair is left, the substitution made is a most general
/// solution of the pairs that there were.
pub proof fn lemma_follows_done<L: Language>(w0: Eqs<L::Shape>, w: Eqs<L::Shape>, s: Subst<L::Shape>)
    requires
        follows::<L>(w0, w, s),
        w.len() == 0,
    ensures
        principal::<L>(s, w0),
{
    assert forall|v: nat| apply(s, #[trigger] s(v)) == s(v) by {
        lemma_apply_fixed(s, s(v));
    }
    assert(absorbs(s, s));
    assert(solves_all(s, w));
    assert(solves_all(s, w0));
}


/// The number of variables below `n` that stand in the pairs.
pub open spec fn live<K>(w: Eqs<K>, n: nat) -> nat
    decreases n,
{
    if n == 0 {
        0
    } else {
        live(w, (n - 1) as nat) + if held(w, (n - 1) as nat) {
            1nat
        } else {
            0nat
        }
    }
}

/// Pairs that hold no variables but those of others hold no more of
/// them, and fewer if they lack one.
pub proof fn lemma_live_fewer<K>(w: Eqs<K>, next: Eqs<K>, n: nat, x: nat)
    requires
        forall|v: nat| held(next, v) ==> held(w, v),
    ensures
        live(next, n) <= live(w, n),
        x < n && held(w, x) && !held(next, x) ==> live(next, n) < live(w, n),
    decreases n,
{
    if n > 0 {
        lemma_live_fewer(w, next, (n - 1) as nat, x);
    }
}

/// The work that the pairs hold: the lengths of their left sides, added
/// up.
pub open spec fn burden<K>(w: Eqs<K>) -> nat
    decreases w.len(),
{
    if w.len() == 0 {
        0
    } else {
        burden(w.drop_last()) + w.last().0.len()
    }
}

/// The work of pairs put one after the other adds up.
pub proof fn lemma_burden_concat<K>(a: Eqs<K>, b: Eqs<K>)
    ensures
        burden(a + b) == burden(a) + burden(b),
    decreases b.len(),
{
    if b.len() == 0 {
        assert(a + b =~= a);
    } else {
        assert((a + b).drop_last() =~= a + b.drop_last());
        assert((a + b).last() == b.last());
        lemma_burden_concat(a, b.drop_last());
    }
}

} // verus!
