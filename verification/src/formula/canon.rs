//! The canonical naming of variables: the first variable that a formula
//! mentions is 0, the next new one is 1, and so on.

use vstd::prelude::*;
use crate::formula::flat::{is_formula, lemma_skip_by_weight, Flat, Sym};
use crate::formula::language::Language;

verus! {

/// Whether the variable `v` stands somewhere in `f`.
pub open spec fn occurs_in<K>(f: Flat<K>, v: nat) -> bool {
    exists|t: int| 0 <= t < f.len() && f[t] == Sym::<K>::Var(v)
}

/// The variables among the first `n` symbols of `f`, each once, in the
/// order in which they first occur.
pub open spec fn seen<K>(f: Flat<K>, n: int) -> Seq<nat>
    decreases n,
{
    if n <= 0 {
        Seq::empty()
    } else {
        let before = seen(f, n - 1);
        match f[n - 1] {
            Sym::Var(v) => if before.contains(v) {
                before
            } else {
                before.push(v)
            },
            Sym::Op(_) => before,
        }
    }
}

/// The variables of `f`, each once, in the order in which they first
/// occur.
pub open spec fn variables<K>(f: Flat<K>) -> Seq<nat> {
    seen(f, f.len() as int)
}

/// The canonical name of the variable `v` of `f`: the number of
/// variables that first occur before it.
pub open spec fn label<K>(f: Flat<K>, v: nat) -> nat {
    variables(f).index_of(v) as nat
}

/// `f` with each variable `v` replaced by `r(v)`.
pub open spec fn rename<K>(f: Flat<K>, r: spec_fn(nat) -> nat) -> Flat<K> {
    Seq::new(
        f.len(),
        |i: int|
            match f[i] {
                Sym::Var(v) => Sym::Var(r(v)),
                Sym::Op(k) => Sym::Op(k),
            },
    )
}

/// `f` with `by` added to each variable.
pub open spec fn shift<K>(f: Flat<K>, by: nat) -> Flat<K> {
    rename(f, |v: nat| v + by)
}

/// The largest variable of `f`, or 0 if it has none.
pub open spec fn max_var<K>(f: Flat<K>) -> nat
    decreases f.len(),
{
    if f.len() == 0 {
        0
    } else {
        let before = max_var(f.drop_last());
        match f.last() {
            Sym::Var(v) => if v > before {
                v
            } else {
                before
            },
            Sym::Op(_) => before,
        }
    }
}

/// Whether `r` gives different names to different variables of `f`.
pub open spec fn injective_on<K>(r: spec_fn(nat) -> nat, f: Flat<K>) -> bool {
    forall|v: nat, w: nat| occurs_in(f, v) && occurs_in(f, w) && r(v) == r(w) ==> v == w
}

/// `f` with its variables renamed to their canonical names.
pub open spec fn canon<K>(f: Flat<K>) -> Flat<K> {
    rename(f, |v: nat| label(f, v))
}

/// Whether the variables of `f` have their canonical names: the `j`-th
/// variable to occur first is `j`.
pub open spec fn is_canonical<K>(f: Flat<K>) -> bool {
    forall|j: int| 0 <= j < variables(f).len() ==> variables(f)[j] == j
}

/// A variable stands in a sequence of two pieces exactly if it stands in
/// one of them.
pub proof fn lemma_occurs_concat<K>(a: Flat<K>, b: Flat<K>, v: nat)
    ensures
        occurs_in(a + b, v) <==> occurs_in(a, v) || occurs_in(b, v),
{
    let whole = a + b;
    if occurs_in(a, v) {
        let t = choose|t: int| 0 <= t < a.len() && a[t] == Sym::<K>::Var(v);
        assert(whole[t] == Sym::<K>::Var(v));
    }
    if occurs_in(b, v) {
        let t = choose|t: int| 0 <= t < b.len() && b[t] == Sym::<K>::Var(v);
        assert(whole[a.len() + t] == Sym::<K>::Var(v));
    }
    if occurs_in(whole, v) {
        let t = choose|t: int| 0 <= t < whole.len() && whole[t] == Sym::<K>::Var(v);
        if t < a.len() {
            assert(a[t] == Sym::<K>::Var(v));
        } else {
            assert(b[t - a.len()] == Sym::<K>::Var(v));
        }
    }
}

/// Renaming keeps a formula a formula.
pub proof fn lemma_rename_is_formula<L: Language>(f: Flat<L::Shape>, r: spec_fn(nat) -> nat)
    requires
        is_formula::<L>(f),
    ensures
        is_formula::<L>(rename(f, r)),
{
    lemma_skip_by_weight::<L>(f, rename(f, r), 0, 1);
}

/// `seen` lists each variable of the first `n` symbols once and nothing
/// else, and grows with `n`.
pub proof fn lemma_seen<K>(f: Flat<K>, n: int)
    requires
        0 <= n <= f.len(),
    ensures
        seen(f, n).no_duplicates(),
        seen(f, n).len() <= n,
        forall|v: nat|
            seen(f, n).contains(v) <==> exists|t: int| 0 <= t < n && f[t] == Sym::<K>::Var(v),
    decreases n,
{
    if n > 0 {
        lemma_seen(f, n - 1);
        let before = seen(f, n - 1);
        let now = seen(f, n);
        assert forall|v: nat| now.contains(v) <==> exists|t: int|
            0 <= t < n && f[t] == Sym::<K>::Var(v) by {
            if now.contains(v) {
                let j = choose|j: int| 0 <= j < now.len() && now[j] == v;
                if j < before.len() {
                    assert(before[j] == v);
                    assert(before.contains(v));
                    let t = choose|t: int| 0 <= t < n - 1 && f[t] == Sym::<K>::Var(v);
                    assert(0 <= t < n && f[t] == Sym::<K>::Var(v));
                } else {
                    assert(f[n - 1] == Sym::<K>::Var(v));
                }
            }
            if exists|t: int| 0 <= t < n && f[t] == Sym::<K>::Var(v) {
                let t = choose|t: int| 0 <= t < n && f[t] == Sym::<K>::Var(v);
                if t < n - 1 {
                    assert(before.contains(v));
                    let j = choose|j: int| 0 <= j < before.len() && before[j] == v;
                    assert(now[j] == v);
                } else {
                    if before.contains(v) {
                    } else {
                        assert(now[before.len() as int] == v);
                    }
                }
            }
        }
    }
}

/// What was seen among the first `n` symbols begins what is seen among
/// the first `m`, for `n <= m`.
pub proof fn lemma_seen_grows<K>(f: Flat<K>, n: int, m: int)
    requires
        0 <= n <= m <= f.len(),
    ensures
        seen(f, n).len() <= seen(f, m).len(),
        forall|j: int| 0 <= j < seen(f, n).len() ==> seen(f, m)[j] == seen(f, n)[j],
    decreases m - n,
{
    if n < m {
        lemma_seen_grows(f, n, m - 1);
    }
}

/// The variables of `f` are those that occur in it, each once.
pub proof fn lemma_variables<K>(f: Flat<K>)
    ensures
        variables(f).no_duplicates(),
        variables(f).len() <= f.len(),
        forall|v: nat| variables(f).contains(v) <==> occurs_in(f, v),
{
    lemma_seen(f, f.len() as int);
}

/// The canonical name of the `j`-th variable to occur first is `j`.
pub proof fn lemma_label<K>(f: Flat<K>, j: int)
    requires
        0 <= j < variables(f).len(),
    ensures
        label(f, variables(f)[j]) == j,
{
    lemma_variables(f);
    let vars = variables(f);
    let v = vars[j];
    assert(vars.contains(v));
    let at = vars.index_of(v);
    assert(0 <= at < vars.len() && vars[at] == v);
}

/// Renaming that keeps different variables apart renames what is seen,
/// place by place.
pub proof fn lemma_seen_rename<K>(f: Flat<K>, r: spec_fn(nat) -> nat, n: int)
    requires
        0 <= n <= f.len(),
        injective_on(r, f),
    ensures
        seen(rename(f, r), n) == seen(f, n).map_values(r),
    decreases n,
{
    let g = rename(f, r);
    if n > 0 {
        lemma_seen_rename(f, r, n - 1);
        lemma_seen(f, n - 1);
        let before = seen(f, n - 1);
        let before_g = seen(g, n - 1);
        match f[n - 1] {
            Sym::Var(v) => {
                assert(g[n - 1] == Sym::<K>::Var(r(v)));
                assert(occurs_in(f, v));
                if before.contains(v) {
                    let j = choose|j: int| 0 <= j < before.len() && before[j] == v;
                    assert(before_g[j] == r(v));
                    assert(before_g.contains(r(v)));
                } else {
                    if before_g.contains(r(v)) {
                        let j = choose|j: int| 0 <= j < before_g.len() && before_g[j] == r(v);
                        let w = before[j];
                        assert(before.contains(w));
                        let t = choose|t: int| 0 <= t < n - 1 && f[t] == Sym::<K>::Var(w);
                        assert(occurs_in(f, w));
                        assert(w == v);
                    }
                    assert(seen(g, n) =~= seen(f, n).map_values(r));
                }
            },
            Sym::Op(k) => {
                assert(g[n - 1] == Sym::<K>::Op(k));
            },
        }
    } else {
        assert(seen(g, n) =~= seen(f, n).map_values(r));
    }
}

/// Alpha equivalence: a renaming that keeps different variables apart
/// does not change the canonical form.
pub proof fn lemma_canon_rename<K>(f: Flat<K>, r: spec_fn(nat) -> nat)
    requires
        injective_on(r, f),
    ensures
        canon(rename(f, r)) == canon(f),
{
    let g = rename(f, r);
    lemma_seen_rename(f, r, f.len() as int);
    lemma_variables(f);
    lemma_variables(g);
    assert forall|i: int| 0 <= i < f.len() implies canon(g)[i] == canon(f)[i] by {
        match f[i] {
            Sym::Var(v) => {
                assert(occurs_in(f, v));
                let j = variables(f).index_of(v);
                assert(variables(f).contains(v));
                assert(0 <= j < variables(f).len() && variables(f)[j] == v);
                assert(variables(g)[j] == r(v));
                lemma_label(g, j);
                lemma_label(f, j);
            },
            Sym::Op(k) => {},
        }
    }
    assert(canon(g) =~= canon(f));
}

/// The canonical names keep different variables apart.
pub proof fn lemma_label_injective<K>(f: Flat<K>)
    ensures
        injective_on(|v: nat| label(f, v), f),
{
    lemma_variables(f);
    assert forall|v: nat, w: nat|
        occurs_in(f, v) && occurs_in(f, w) && label(f, v) == label(f, w) implies v == w by {
        assert(variables(f).contains(v));
        assert(variables(f).contains(w));
        let j = variables(f).index_of(v);
        let k = variables(f).index_of(w);
        assert(variables(f)[j] == v && variables(f)[k] == w);
    }
}

/// The canonical form is canonical.
pub proof fn lemma_canon_is_canonical<K>(f: Flat<K>)
    ensures
        is_canonical(canon(f)),
{
    let r = |v: nat| label(f, v);
    lemma_label_injective(f);
    lemma_seen_rename(f, r, f.len() as int);
    assert forall|j: int| 0 <= j < variables(canon(f)).len() implies variables(canon(f))[j]
        == j by {
        lemma_label(f, j);
    }
}

/// A canonical formula is its own canonical form.
pub proof fn lemma_canonical_fixed<K>(f: Flat<K>)
    requires
        is_canonical(f),
    ensures
        canon(f) == f,
{
    lemma_variables(f);
    assert forall|i: int| 0 <= i < f.len() implies canon(f)[i] == f[i] by {
        match f[i] {
            Sym::Var(v) => {
                assert(occurs_in(f, v));
                assert(variables(f).contains(v));
                let j = variables(f).index_of(v);
                assert(0 <= j < variables(f).len() && variables(f)[j] == v);
            },
            Sym::Op(k) => {},
        }
    }
    assert(canon(f) =~= f);
}

/// Canonical equivalence: to take the canonical form twice is to take
/// it once.
pub proof fn lemma_canon_idempotent<K>(f: Flat<K>)
    ensures
        canon(canon(f)) == canon(f),
{
    lemma_canon_is_canonical(f);
    lemma_canonical_fixed(canon(f));
}

/// The largest variable of `f` is 0 or a variable of `f`, and no
/// variable of `f` is larger.
pub proof fn lemma_max_var<K>(f: Flat<K>)
    ensures
        max_var(f) == 0 || occurs_in(f, max_var(f)),
        forall|v: nat| occurs_in(f, v) ==> v <= max_var(f),
    decreases f.len(),
{
    if f.len() > 0 {
        let g = f.drop_last();
        lemma_max_var(g);
        assert(f =~= g + seq![f.last()]);
        lemma_occurs_concat(g, seq![f.last()], max_var(f));
        match f.last() {
            Sym::Var(v) => {
                assert(seq![f.last()][0] == Sym::<K>::Var(v));
            },
            Sym::Op(_) => {},
        }
        assert forall|v: nat| occurs_in(f, v) implies v <= max_var(f) by {
            lemma_occurs_concat(g, seq![f.last()], v);
            if !occurs_in(g, v) {
                let t = choose|t: int|
                    0 <= t < seq![f.last()].len() && seq![f.last()][t] == Sym::<K>::Var(v);
            }
        }
    }
}

/// In a canonical formula each variable is less than the number of
/// variables, and so less than the length.
pub proof fn lemma_canonical_bound<K>(f: Flat<K>, v: nat)
    requires
        is_canonical(f),
        occurs_in(f, v),
    ensures
        v < variables(f).len() <= f.len(),
{
    lemma_variables(f);
    assert(variables(f).contains(v));
    let j = choose|j: int| 0 <= j < variables(f).len() && variables(f)[j] == v;
    assert(variables(f)[j] == j);
}

} // verus!
