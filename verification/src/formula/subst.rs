//! Substitutions on flat formulas, unifiers, and most general unifiers.

use vstd::prelude::*;
use crate::formula::canon::occurs_in;
use crate::formula::flat::{
    is_formula, lemma_skip_lower, lemma_skip_moved, lemma_skip_past, lemma_skip_tail, skip,
    weight, Flat, Sym,
};
use crate::formula::language::Language;

verus! {

/// A substitution: the term that takes the place of each variable.
pub type Subst<K> = spec_fn(nat) -> Flat<K>;

/// What takes the place of one symbol.
pub open spec fn image<K>(s: Subst<K>, x: Sym<K>) -> Flat<K> {
    match x {
        Sym::Var(v) => s(v),
        Sym::Op(k) => seq![Sym::Op(k)],
    }
}

/// `f` with each variable replaced by the term that `s` gives it.
pub open spec fn apply<K>(s: Subst<K>, f: Flat<K>) -> Flat<K>
    decreases f.len(),
{
    if f.len() == 0 {
        Seq::empty()
    } else {
        apply(s, f.drop_last()) + image(s, f.last())
    }
}

/// The substitution that changes nothing.
pub open spec fn identity<K>() -> Subst<K> {
    |v: nat| seq![Sym::Var(v)]
}

/// The substitution that puts `t` in the place of `x` and changes
/// nothing else.
pub open spec fn single<K>(x: nat, t: Flat<K>) -> Subst<K> {
    |v: nat|
        if v == x {
            t
        } else {
            seq![Sym::Var(v)]
        }
}

/// `inner`, and then `outer` on the result.
pub open spec fn compose<K>(outer: Subst<K>, inner: Subst<K>) -> Subst<K> {
    |v: nat| apply(outer, inner(v))
}

/// Whether `s` puts a formula in the place of each variable.
pub open spec fn proper<L: Language>(s: Subst<L::Shape>) -> bool {
    forall|v: nat| is_formula::<L>(#[trigger] s(v))
}

/// Whether `s` makes `a` and `b` the same.
pub open spec fn unifies<K>(s: Subst<K>, a: Flat<K>, b: Flat<K>) -> bool {
    apply(s, a) == apply(s, b)
}

/// Whether some substitution makes `a` and `b` the same.
pub open spec fn unifiable<L: Language>(a: Flat<L::Shape>, b: Flat<L::Shape>) -> bool {
    exists|s: Subst<L::Shape>| proper::<L>(s) && #[trigger] unifies(s, a, b)
}

/// Whether `outer` is unchanged by `inner` before it: then `outer` is
/// `inner` followed by a substitution, namely by itself.
pub open spec fn absorbs<K>(outer: Subst<K>, inner: Subst<K>) -> bool {
    forall|v: nat| apply(outer, #[trigger] inner(v)) == outer(v)
}

/// Whether `s` is a most general unifier of `a` and `b`: it makes them
/// the same, and every substitution that does is `s` followed by a
/// substitution.
pub open spec fn is_mgu<L: Language>(s: Subst<L::Shape>, a: Flat<L::Shape>, b: Flat<L::Shape>) -> bool {
    &&& proper::<L>(s)
    &&& unifies(s, a, b)
    &&& forall|t: Subst<L::Shape>| proper::<L>(t) && #[trigger] unifies(t, a, b) ==> absorbs(t, s)
}

/// Substitution goes through a sequence piece by piece.
pub proof fn lemma_apply_concat<K>(s: Subst<K>, a: Flat<K>, b: Flat<K>)
    ensures
        apply(s, a + b) == apply(s, a) + apply(s, b),
    decreases b.len(),
{
    if b.len() == 0 {
        assert(a + b =~= a);
        assert(apply(s, a) + apply(s, b) =~= apply(s, a));
    } else {
        assert((a + b).drop_last() =~= a + b.drop_last());
        assert((a + b).last() == b.last());
        lemma_apply_concat(s, a, b.drop_last());
        assert(apply(s, a + b) =~= apply(s, a) + apply(s, b));
    }
}

/// A single symbol becomes its image.
pub proof fn lemma_apply_one<K>(s: Subst<K>, x: Sym<K>)
    ensures
        apply(s, seq![x]) == image(s, x),
{
    let f = seq![x];
    assert(f.drop_last() =~= Seq::<Sym<K>>::empty());
    assert(apply(s, f.drop_last()) =~= Seq::<Sym<K>>::empty());
    assert(apply(s, f) =~= image(s, x));
}

/// A substitution that leaves the variables of `f` alone leaves `f`
/// alone.
pub proof fn lemma_apply_fixed<K>(s: Subst<K>, f: Flat<K>)
    requires
        forall|v: nat| occurs_in(f, v) ==> #[trigger] s(v) == seq![Sym::<K>::Var(v)],
    ensures
        apply(s, f) == f,
    decreases f.len(),
{
    if f.len() > 0 {
        let g = f.drop_last();
        assert forall|v: nat| occurs_in(g, v) implies #[trigger] s(v) == seq![
            Sym::<K>::Var(v),
        ] by {
            let t = choose|t: int| 0 <= t < g.len() && g[t] == Sym::<K>::Var(v);
            assert(f[t] == Sym::<K>::Var(v));
        }
        lemma_apply_fixed(s, g);
        match f.last() {
            Sym::Var(v) => {
                assert(f[f.len() - 1] == Sym::<K>::Var(v));
                assert(occurs_in(f, v));
            },
            Sym::Op(k) => {},
        }
        assert(apply(s, f) =~= f);
    } else {
        assert(apply(s, f) =~= f);
    }
}

/// Two substitutions that agree on the variables of `f` do the same to
/// `f`.
pub proof fn lemma_apply_agree<K>(s: Subst<K>, r: Subst<K>, f: Flat<K>)
    requires
        forall|v: nat| occurs_in(f, v) ==> #[trigger] s(v) == r(v),
    ensures
        apply(s, f) == apply(r, f),
    decreases f.len(),
{
    if f.len() > 0 {
        let g = f.drop_last();
        assert forall|v: nat| occurs_in(g, v) implies #[trigger] s(v) == r(v) by {
            let t = choose|t: int| 0 <= t < g.len() && g[t] == Sym::<K>::Var(v);
            assert(f[t] == Sym::<K>::Var(v));
        }
        lemma_apply_agree(s, r, g);
        match f.last() {
            Sym::Var(v) => {
                assert(f[f.len() - 1] == Sym::<K>::Var(v));
                assert(occurs_in(f, v));
            },
            Sym::Op(k) => {},
        }
    }
}

/// To substitute twice is to substitute once with the composition.
pub proof fn lemma_apply_compose<K>(outer: Subst<K>, inner: Subst<K>, f: Flat<K>)
    ensures
        apply(outer, apply(inner, f)) == apply(compose(outer, inner), f),
    decreases f.len(),
{
    if f.len() > 0 {
        lemma_apply_compose(outer, inner, f.drop_last());
        lemma_apply_concat(outer, apply(inner, f.drop_last()), image(inner, f.last()));
        match f.last() {
            Sym::Var(v) => {},
            Sym::Op(k) => {
                lemma_apply_one(outer, Sym::<K>::Op(k));
            },
        }
    }
}

/// To rename and then substitute is to substitute for each variable
/// what its new name gets.
pub proof fn lemma_apply_rename<K>(s: Subst<K>, r: spec_fn(nat) -> nat, f: Flat<K>)
    ensures
        apply(s, crate::formula::canon::rename(f, r)) == apply(|v: nat| s(r(v)), f),
    decreases f.len(),
{
    let g = crate::formula::canon::rename(f, r);
    if f.len() > 0 {
        lemma_apply_rename(s, r, f.drop_last());
        assert(g.drop_last() =~= crate::formula::canon::rename(f.drop_last(), r));
    }
}

/// The length of what `f` becomes is at least that of `f`, where each
/// variable becomes something.
pub proof fn lemma_apply_len<K>(s: Subst<K>, f: Flat<K>)
    requires
        forall|v: nat| (#[trigger] s(v)).len() >= 1,
    ensures
        apply(s, f).len() >= f.len(),
    decreases f.len(),
{
    if f.len() > 0 {
        lemma_apply_len(s, f.drop_last());
    }
}

/// What a variable of `f` becomes is no longer than what `f` becomes.
pub proof fn lemma_apply_holds<K>(s: Subst<K>, f: Flat<K>, t: int)
    requires
        forall|v: nat| (#[trigger] s(v)).len() >= 1,
        0 <= t < f.len(),
    ensures
        apply(s, f).len() >= image(s, f[t]).len() + f.len() - 1,
    decreases f.len(),
{
    if t == f.len() - 1 {
        lemma_apply_len(s, f.drop_last());
    } else {
        lemma_apply_holds(s, f.drop_last(), t);
        assert(f.drop_last()[t] == f[t]);
        match f.last() {
            Sym::Var(v) => {
                assert(s(v).len() >= 1);
            },
            Sym::Op(k) => {},
        }
    }
}

/// What is owed after `k` subterms of `f` is owed after what they
/// become: substitution keeps `k` terms `k` terms.
pub proof fn lemma_apply_skip<L: Language>(s: Subst<L::Shape>, f: Flat<L::Shape>, i: int, k: nat)
    requires
        proper::<L>(s),
        0 <= i <= f.len(),
        skip::<L>(f, i, k) <= f.len(),
    ensures
        skip::<L>(apply(s, f.subrange(i, skip::<L>(f, i, k))), 0, k) == apply(
            s,
            f.subrange(i, skip::<L>(f, i, k)),
        ).len(),
    decreases f.len() - i,
{
    let j = skip::<L>(f, i, k);
    lemma_skip_lower::<L>(f, i, k);
    if k == 0 {
        assert(f.subrange(i, j) =~= Seq::<Sym<L::Shape>>::empty());
    } else {
        let x = f[i];
        let w = weight::<L>(x);
        let owed = (k - 1 + w) as nat;
        lemma_skip_lower::<L>(f, i + 1, owed);
        lemma_apply_skip::<L>(s, f, i + 1, owed);
        let rest = apply(s, f.subrange(i + 1, j));
        assert(f.subrange(i, j) =~= seq![x] + f.subrange(i + 1, j));
        lemma_apply_concat(s, seq![x], f.subrange(i + 1, j));
        lemma_apply_one(s, x);
        let whole = apply(s, f.subrange(i, j));
        assert(whole == image(s, x) + rest);
        match x {
            Sym::Var(v) => {
                assert(is_formula::<L>(s(v)));
                lemma_skip_past::<L>(s(v), rest, (k - 1) as nat);
            },
            Sym::Op(c) => {
                assert(whole[0] == x);
                assert(rest =~= whole.subrange(1, whole.len() as int));
                lemma_skip_tail::<L>(whole, rest, 1, owed);
            },
        }
    }
}

/// Substitution keeps a formula a formula.
pub proof fn lemma_apply_is_formula<L: Language>(s: Subst<L::Shape>, f: Flat<L::Shape>)
    requires
        proper::<L>(s),
        is_formula::<L>(f),
    ensures
        is_formula::<L>(apply(s, f)),
{
    lemma_apply_skip::<L>(s, f, 0, 1);
    assert(f.subrange(0, f.len() as int) =~= f);
}

/// Two sequences of `m` terms each, each followed by something, make
/// the same whole only if they are the same.
pub proof fn lemma_unique_split<L: Language>(
    a: Flat<L::Shape>,
    x: Flat<L::Shape>,
    b: Flat<L::Shape>,
    y: Flat<L::Shape>,
    m: nat,
)
    requires
        skip::<L>(a, 0, m) == a.len(),
        skip::<L>(b, 0, m) == b.len(),
        a + x == b + y,
    ensures
        a == b,
        x == y,
{
    assert forall|t: int| 0 <= t < a.len() implies (a + x)[t] == a[t] by {}
    assert forall|t: int| 0 <= t < b.len() implies (b + y)[t] == b[t] by {}
    lemma_skip_moved::<L>(a, a + x, 0, m, 0);
    lemma_skip_moved::<L>(b, b + y, 0, m, 0);
    assert(a =~= (a + x).subrange(0, a.len() as int));
    assert(b =~= (b + y).subrange(0, b.len() as int));
    assert(x =~= (a + x).subrange(a.len() as int, (a + x).len() as int));
    assert(y =~= (b + y).subrange(b.len() as int, (b + y).len() as int));
}


/// Where a substitution that puts something in the place of each
/// variable does not make a sequence longer, it puts one symbol in the
/// place of each symbol.
pub proof fn lemma_apply_rigid<K>(s: Subst<K>, f: Flat<K>)
    requires
        forall|v: nat| (#[trigger] s(v)).len() >= 1,
        apply(s, f).len() == f.len(),
    ensures
        forall|i: int|
            0 <= i < f.len() ==> image(s, #[trigger] f[i]).len() == 1 && apply(s, f)[i] == image(
                s,
                f[i],
            )[0],
    decreases f.len(),
{
    if f.len() > 0 {
        let g = f.drop_last();
        lemma_apply_len(s, g);
        match f.last() {
            Sym::Var(v) => {
                assert(s(v).len() >= 1);
            },
            Sym::Op(k) => {},
        }
        assert(apply(s, f) == apply(s, g) + image(s, f.last()));
        assert(apply(s, g).len() == g.len());
        assert(image(s, f.last()).len() == 1);
        lemma_apply_rigid(s, g);
        assert forall|i: int| 0 <= i < f.len() implies image(s, #[trigger] f[i]).len() == 1
            && apply(s, f)[i] == image(s, f[i])[0] by {
            if i < g.len() {
                assert(g[i] == f[i]);
                assert(image(s, g[i]).len() == 1 && apply(s, g)[i] == image(s, g[i])[0]);
            } else {
                assert(f[i] == f.last());
            }
        }
    }
}

/// Most general unifiers differ by a renaming of variables only: what
/// two of them make of a sequence has the same canonical form.
pub proof fn law_mgu_unique<L: Language>(
    s1: Subst<L::Shape>,
    s2: Subst<L::Shape>,
    a: Flat<L::Shape>,
    b: Flat<L::Shape>,
    c: Flat<L::Shape>,
)
    requires
        is_mgu::<L>(s1, a, b),
        is_mgu::<L>(s2, a, b),
    ensures
        crate::formula::canon::canon(apply(s1, c)) == crate::formula::canon::canon(apply(s2, c)),
{
    let x = apply(s1, c);
    let y = apply(s2, c);
    assert(absorbs(s2, s1));
    assert(absorbs(s1, s2));
    crate::formula::unify::lemma_absorbed(s2, s1, c);
    crate::formula::unify::lemma_absorbed(s1, s2, c);
    assert(apply(s2, x) == y);
    assert(apply(s1, y) == x);
    assert forall|v: nat| (#[trigger] s1(v)).len() >= 1 by {
        crate::formula::flat::lemma_formula_not_empty::<L>(s1(v));
    }
    assert forall|v: nat| (#[trigger] s2(v)).len() >= 1 by {
        crate::formula::flat::lemma_formula_not_empty::<L>(s2(v));
    }
    lemma_apply_len(s2, x);
    lemma_apply_len(s1, y);
    lemma_apply_rigid(s2, x);
    lemma_apply_rigid(s1, y);
    let r = |v: nat|
        match s2(v)[0] {
            Sym::Var(u) => u,
            Sym::Op(_) => 0nat,
        };
    let renamed = crate::formula::canon::rename(x, r);
    assert forall|i: int| 0 <= i < x.len() implies y[i] == renamed[i] by {
        assert(image(s2, x[i]).len() == 1 && y[i] == image(s2, x[i])[0]);
        assert(image(s1, y[i]).len() == 1 && x[i] == image(s1, y[i])[0]);
    }
    assert(y =~= renamed);
    assert forall|v: nat, w: nat|
        occurs_in(x, v) && occurs_in(x, w) && r(v) == r(w) implies v == w by {
        let i = choose|i: int| 0 <= i < x.len() && x[i] == Sym::<L::Shape>::Var(v);
        let j = choose|j: int| 0 <= j < x.len() && x[j] == Sym::<L::Shape>::Var(w);
        assert(image(s2, x[i]).len() == 1 && y[i] == image(s2, x[i])[0]);
        assert(image(s2, x[j]).len() == 1 && y[j] == image(s2, x[j])[0]);
        assert(image(s1, y[i]).len() == 1 && x[i] == image(s1, y[i])[0]);
        assert(image(s1, y[j]).len() == 1 && x[j] == image(s1, y[j])[0]);
    }
    crate::formula::canon::lemma_canon_rename(x, r);
}

} // verus!
