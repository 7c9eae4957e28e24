//! Unification on an arena: what a substitution made in place does to the
//! terms that the slots stand for, and why the work ends.

use vstd::prelude::*;
use crate::formula::canon::{lemma_occurs_concat, occurs_in};
use crate::formula::flat::{is_formula, lemma_formula_not_empty, skip, Flat, Sym};
use crate::formula::graph::{
    flat_at, flat_upto, lemma_flat_is_formula, lemma_skip_upto, ranked, slot_ranked, Graph, Rank,
    Slot,
};
use crate::formula::language::Language;
use crate::formula::subst::{
    absorbs, apply, compose, identity, lemma_apply_agree, lemma_apply_compose,
    lemma_apply_concat, lemma_apply_fixed, lemma_apply_holds, lemma_apply_is_formula,
    lemma_apply_one, lemma_apply_skip, lemma_unique_split, proper, single, unifies, Subst,
};

verus! {

/// Whether some slot of the arena holds the variable `v`.
pub open spec fn has_var<K>(g: Graph<K>, v: nat) -> bool {
    exists|i: int| 0 <= i < g.len() && g[i] == Slot::<K>::Var(v)
}

/// The arena in which `with` has taken the place of the variable `x` in
/// every slot that held it.
pub open spec fn replaced<K>(g: Graph<K>, x: nat, with: Slot<K>) -> Graph<K> {
    g.map_values(
        |s: Slot<K>|
            if s == Slot::<K>::Var(x) {
                with
            } else {
                s
            },
    )
}

/// The rank `rk` with `by` added at every slot below which the variable
/// `x` stands.
pub open spec fn lifted<K>(g: Graph<K>, rk: Rank, x: nat, by: nat) -> Rank {
    |i: int|
        if 0 <= i < g.len() && occurs_in(flat_at(g, rk, i), x) {
            rk(i) + by
        } else {
            rk(i)
        }
}

/// A variable of one of the first `n` operands is a variable of what
/// they stand for together.
pub proof fn lemma_upto_occurs<K>(
    g: Graph<K>,
    rk: Rank,
    ops: Seq<nat>,
    n: nat,
    bound: nat,
    t: int,
    v: nat,
)
    requires
        0 <= t < n <= ops.len(),
        rk(ops[t] as int) < bound,
        occurs_in(flat_at(g, rk, ops[t] as int), v),
    ensures
        occurs_in(flat_upto(g, rk, ops, n, bound), v),
    decreases n,
{
    let before = flat_upto(g, rk, ops, (n - 1) as nat, bound);
    let c = ops[n - 1] as int;
    let last = if rk(c) < bound {
        flat_at(g, rk, c)
    } else {
        Seq::empty()
    };
    lemma_occurs_concat(before, last, v);
    if t < n - 1 {
        lemma_upto_occurs(g, rk, ops, (n - 1) as nat, bound, t, v);
    }
}

/// A variable of an operand is a variable of the node.
pub proof fn lemma_operand_occurs<L: Language>(g: Graph<L::Shape>, rk: Rank, i: int, t: int, v: nat)
    requires
        ranked::<L>(g, rk),
        0 <= i < g.len(),
        g[i] is Op,
        0 <= t < g[i]->Op_1.len(),
        occurs_in(flat_at(g, rk, g[i]->Op_1[t] as int), v),
    ensures
        occurs_in(flat_at(g, rk, i), v),
{
    assert(slot_ranked::<L>(g, rk, i));
    let ops = g[i]->Op_1;
    assert(0 <= ops[t] < g.len() && rk(ops[t] as int) < rk(i));
    lemma_upto_occurs(g, rk, ops, ops.len(), rk(i), t, v);
    lemma_occurs_concat(
        seq![Sym::Op(g[i]->Op_0)],
        flat_upto(g, rk, ops, ops.len(), rk(i)),
        v,
    );
}

/// A variable of what a slot stands for is held by some slot.
pub proof fn lemma_flat_vars<L: Language>(g: Graph<L::Shape>, rk: Rank, i: int, v: nat)
    requires
        ranked::<L>(g, rk),
        0 <= i < g.len(),
        occurs_in(flat_at(g, rk, i), v),
    ensures
        has_var(g, v),
    decreases rk(i) + 1, 0nat,
{
    assert(slot_ranked::<L>(g, rk, i));
    match g[i] {
        Slot::Var(w) => {
            let f = flat_at(g, rk, i);
            let t = choose|t: int| 0 <= t < f.len() && f[t] == Sym::<L::Shape>::Var(v);
            assert(g[i] == Slot::<L::Shape>::Var(v));
        },
        Slot::Op(k, ops) => {
            lemma_occurs_concat(
                seq![Sym::<L::Shape>::Op(k)],
                flat_upto(g, rk, ops, ops.len(), rk(i)),
                v,
            );
            let head = seq![Sym::<L::Shape>::Op(k)];
            if occurs_in(head, v) {
                let t = choose|t: int| 0 <= t < head.len() && head[t] == Sym::<L::Shape>::Var(v);
                assert(false);
            }
            lemma_upto_vars::<L>(g, rk, i, ops, ops.len(), v);
        },
    }
}

proof fn lemma_upto_vars<L: Language>(
    g: Graph<L::Shape>,
    rk: Rank,
    i: int,
    ops: Seq<nat>,
    n: nat,
    v: nat,
)
    requires
        ranked::<L>(g, rk),
        0 <= i < g.len(),
        n <= ops.len(),
        forall|c: int| 0 <= c < ops.len() ==> 0 <= #[trigger] ops[c] < g.len(),
        occurs_in(flat_upto(g, rk, ops, n, rk(i)), v),
    ensures
        has_var(g, v),
    decreases rk(i), n,
{
    if n == 0 {
        let f = flat_upto(g, rk, ops, n, rk(i));
        let t = choose|t: int| 0 <= t < f.len() && f[t] == Sym::<L::Shape>::Var(v);
        assert(false);
    } else {
        let before = flat_upto(g, rk, ops, (n - 1) as nat, rk(i));
        let c = ops[n - 1] as int;
        let last = if rk(c) < rk(i) {
            flat_at(g, rk, c)
        } else {
            Seq::empty()
        };
        lemma_occurs_concat(before, last, v);
        if occurs_in(before, v) {
            lemma_upto_vars::<L>(g, rk, i, ops, (n - 1) as nat, v);
        } else {
            if rk(c) < rk(i) {
                assert(0 <= ops[n - 1] < g.len());
                lemma_flat_vars::<L>(g, rk, c, v);
            } else {
                let t = choose|t: int| 0 <= t < last.len() && last[t] == Sym::<L::Shape>::Var(v);
                assert(false);
            }
        }
    }
}

/// The arena stays in order when the contents of the slot at `b` take
/// the place of a variable that does not stand below that slot.
pub proof fn lemma_replaced_ranked<L: Language>(g: Graph<L::Shape>, rk: Rank, x: nat, b: int)
    requires
        ranked::<L>(g, rk),
        0 <= b < g.len(),
        !occurs_in(flat_at(g, rk, b), x),
    ensures
        ranked::<L>(replaced(g, x, g[b]), lifted(g, rk, x, rk(b) + 1)),
{
    let h = replaced(g, x, g[b]);
    let up = lifted(g, rk, x, rk(b) + 1);
    assert forall|i: int| 0 <= i < h.len() implies #[trigger] slot_ranked::<L>(h, up, i) by {
        assert(slot_ranked::<L>(g, rk, i));
        assert(slot_ranked::<L>(g, rk, b));
        if g[i] == Slot::<L::Shape>::Var(x) {
            assert(h[i] == g[b]);
            assert(flat_at(g, rk, i)[0] == Sym::<L::Shape>::Var(x));
            assert(occurs_in(flat_at(g, rk, i), x));
            match g[b] {
                Slot::Var(_) => {},
                Slot::Op(k, ops) => {
                    assert forall|c: int| 0 <= c < ops.len() implies 0 <= #[trigger] ops[c]
                        < h.len() && up(ops[c] as int) < up(i) by {
                        if occurs_in(flat_at(g, rk, ops[c] as int), x) {
                            lemma_operand_occurs::<L>(g, rk, b, c, x);
                        }
                    }
                },
            }
        } else {
            assert(h[i] == g[i]);
            match g[i] {
                Slot::Var(_) => {},
                Slot::Op(k, ops) => {
                    assert forall|c: int| 0 <= c < ops.len() implies 0 <= #[trigger] ops[c]
                        < h.len() && up(ops[c] as int) < up(i) by {
                        if occurs_in(flat_at(g, rk, ops[c] as int), x) {
                            lemma_operand_occurs::<L>(g, rk, i, c, x);
                        }
                    }
                },
            }
        }
    }
}

/// After the contents of the slot at `b` have taken the place of the
/// variable `x`, which does not stand below that slot, every slot
/// stands for what it stood for before with the term of `b` in the place
/// of `x`.
pub proof fn lemma_replaced_flat<L: Language>(g: Graph<L::Shape>, rk: Rank, x: nat, b: int, i: int)
    requires
        ranked::<L>(g, rk),
        0 <= b < g.len(),
        0 <= i < g.len(),
        !occurs_in(flat_at(g, rk, b), x),
    ensures
        flat_at(replaced(g, x, g[b]), lifted(g, rk, x, rk(b) + 1), i) == apply(
            single(x, flat_at(g, rk, b)),
            flat_at(g, rk, i),
        ),
    decreases lifted(g, rk, x, rk(b) + 1)(i) + 1, 0nat,
{
    let h = replaced(g, x, g[b]);
    let up = lifted(g, rk, x, rk(b) + 1);
    let tau = single(x, flat_at(g, rk, b));
    lemma_replaced_ranked::<L>(g, rk, x, b);
    assert(slot_ranked::<L>(h, up, i));
    assert(slot_ranked::<L>(g, rk, i));
    assert(slot_ranked::<L>(g, rk, b));
    if g[i] == Slot::<L::Shape>::Var(x) {
        assert(h[i] == g[b]);
        lemma_apply_one(tau, Sym::<L::Shape>::Var(x));
        assert(flat_at(g, rk, i) =~= seq![Sym::<L::Shape>::Var(x)]);
        match g[b] {
            Slot::Var(y) => {},
            Slot::Op(k, ops) => {
                lemma_replaced_upto::<L>(g, rk, x, b, ops, ops.len(), rk(b), up(i));
                let inner = flat_upto(g, rk, ops, ops.len(), rk(b));
                lemma_occurs_concat(seq![Sym::<L::Shape>::Op(k)], inner, x);
                assert forall|v: nat| occurs_in(inner, v) implies #[trigger] tau(v) == seq![
                    Sym::<L::Shape>::Var(v),
                ] by {}
                lemma_apply_fixed(tau, inner);
            },
        }
    } else {
        assert(h[i] == g[i]);
        match g[i] {
            Slot::Var(v) => {
                lemma_apply_one(tau, Sym::<L::Shape>::Var(v));
                assert(flat_at(g, rk, i) =~= seq![Sym::<L::Shape>::Var(v)]);
            },
            Slot::Op(k, ops) => {
                lemma_replaced_upto::<L>(g, rk, x, b, ops, ops.len(), rk(i), up(i));
                lemma_apply_concat(
                    tau,
                    seq![Sym::<L::Shape>::Op(k)],
                    flat_upto(g, rk, ops, ops.len(), rk(i)),
                );
                lemma_apply_one(tau, Sym::<L::Shape>::Op(k));
            },
        }
    }
}

proof fn lemma_replaced_upto<L: Language>(
    g: Graph<L::Shape>,
    rk: Rank,
    x: nat,
    b: int,
    ops: Seq<nat>,
    n: nat,
    bound: nat,
    raised: nat,
)
    requires
        ranked::<L>(g, rk),
        0 <= b < g.len(),
        !occurs_in(flat_at(g, rk, b), x),
        n <= ops.len(),
        forall|c: int|
            0 <= c < ops.len() ==> 0 <= #[trigger] ops[c] < g.len() && rk(ops[c] as int) < bound
                && lifted(g, rk, x, rk(b) + 1)(ops[c] as int) < raised,
    ensures
        flat_upto(replaced(g, x, g[b]), lifted(g, rk, x, rk(b) + 1), ops, n, raised) == apply(
            single(x, flat_at(g, rk, b)),
            flat_upto(g, rk, ops, n, bound),
        ),
    decreases raised, n,
{
    let tau = single(x, flat_at(g, rk, b));
    if n == 0 {
        assert(apply(tau, flat_upto(g, rk, ops, n, bound)) =~= Seq::<Sym<L::Shape>>::empty());
    } else {
        let c = ops[n - 1] as int;
        assert(0 <= ops[n - 1] < g.len());
        lemma_replaced_upto::<L>(g, rk, x, b, ops, (n - 1) as nat, bound, raised);
        lemma_replaced_flat::<L>(g, rk, x, b, c);
        lemma_apply_concat(tau, flat_upto(g, rk, ops, (n - 1) as nat, bound), flat_at(g, rk, c));
    }
}


/// Pairs of arena positions whose terms are to be made the same.
pub type Pairs = Seq<(int, int)>;

/// Whether every position of every pair lies in the arena.
pub open spec fn pairs_within<K>(g: Graph<K>, w: Pairs) -> bool {
    forall|t: int|
        0 <= t < w.len() ==> 0 <= (#[trigger] w[t]).0 < g.len() && 0 <= w[t].1 < g.len()
}

/// Whether `s` makes the two terms of every pair the same.
pub open spec fn solves<K>(s: Subst<K>, g: Graph<K>, rk: Rank, w: Pairs) -> bool {
    forall|t: int|
        0 <= t < w.len() ==> unifies(
            s,
            flat_at(g, rk, (#[trigger] w[t]).0),
            flat_at(g, rk, w[t].1),
        )
}

/// Whether `s` is a most general solution of the pairs: it is a
/// solution, and every solution is `s` followed by a substitution.
pub open spec fn most_general<L: Language>(
    s: Subst<L::Shape>,
    g: Graph<L::Shape>,
    rk: Rank,
    w: Pairs,
) -> bool {
    &&& proper::<L>(s)
    &&& solves(s, g, rk, w)
    &&& forall|t: Subst<L::Shape>| proper::<L>(t) && #[trigger] solves(t, g, rk, w) ==> absorbs(t, s)
}

/// Whether no substitution solves the pairs.
pub open spec fn unsolvable<L: Language>(g: Graph<L::Shape>, rk: Rank, w: Pairs) -> bool {
    forall|t: Subst<L::Shape>| proper::<L>(t) ==> !#[trigger] solves(t, g, rk, w)
}

/// How the arena `g` with the pairs `w` that are left derives from the
/// arena `g0` with the pairs `w0`, by the substitution `s` made so far:
/// each slot stands for what it stood for with `s` applied; `s` leaves
/// alone the variables that the arena still holds and those that it
/// brings in; and the solutions of `w0` are the solutions of `w` that
/// `s` does not change.
pub open spec fn tracks<L: Language>(
    g0: Graph<L::Shape>,
    rk0: Rank,
    w0: Pairs,
    g: Graph<L::Shape>,
    rk: Rank,
    w: Pairs,
    s: Subst<L::Shape>,
) -> bool {
    &&& g.len() == g0.len()
    &&& proper::<L>(s)
    &&& forall|i: int|
        0 <= i < g.len() ==> #[trigger] flat_at(g, rk, i) == apply(s, flat_at(g0, rk0, i))
    &&& forall|v: nat| has_var(g, v) ==> #[trigger] s(v) == seq![Sym::<L::Shape>::Var(v)]
    &&& forall|v: nat, u: nat|
        occurs_in(#[trigger] s(v), u) ==> #[trigger] s(u) == seq![Sym::<L::Shape>::Var(u)]
    &&& forall|t: Subst<L::Shape>|
        proper::<L>(t) ==> (#[trigger] solves(t, g0, rk0, w0) <==> absorbs(t, s) && solves(
            t,
            g,
            rk,
            w,
        ))
}

/// A variable is a formula.
pub proof fn lemma_var_is_formula<L: Language>(v: nat)
    ensures
        is_formula::<L>(seq![Sym::<L::Shape>::Var(v)]),
{
    let f = seq![Sym::<L::Shape>::Var(v)];
    assert(skip::<L>(f, 1, 0) == 1);
}

/// At the start nothing has been substituted.
pub proof fn lemma_tracks_start<L: Language>(g: Graph<L::Shape>, rk: Rank, w: Pairs)
    ensures
        tracks::<L>(g, rk, w, g, rk, w, identity()),
{
    let s = identity::<L::Shape>();
    assert forall|v: nat| is_formula::<L>(#[trigger] s(v)) by {
        lemma_var_is_formula::<L>(v);
    }
    assert forall|i: int| 0 <= i < g.len() implies #[trigger] flat_at(g, rk, i) == apply(
        s,
        flat_at(g, rk, i),
    ) by {
        lemma_apply_fixed(s, flat_at(g, rk, i));
    }
    assert forall|v: nat, u: nat| occurs_in(#[trigger] s(v), u) implies #[trigger] s(u) == seq![
        Sym::<L::Shape>::Var(u),
    ] by {}
    assert forall|t: Subst<L::Shape>| proper::<L>(t) implies (#[trigger] solves(t, g, rk, w)
        <==> absorbs(t, s) && solves(t, g, rk, w)) by {
        assert forall|v: nat| apply(t, #[trigger] s(v)) == t(v) by {
            lemma_apply_one(t, Sym::<L::Shape>::Var(v));
        }
    }
}

/// A pair of equal terms can be left out.
pub proof fn lemma_tracks_drop<L: Language>(
    g0: Graph<L::Shape>,
    rk0: Rank,
    w0: Pairs,
    g: Graph<L::Shape>,
    rk: Rank,
    w: Pairs,
    s: Subst<L::Shape>,
)
    requires
        tracks::<L>(g0, rk0, w0, g, rk, w, s),
        w.len() > 0,
        flat_at(g, rk, w.last().0) == flat_at(g, rk, w.last().1),
    ensures
        tracks::<L>(g0, rk0, w0, g, rk, w.drop_last(), s),
{
    let rest = w.drop_last();
    assert forall|t: Subst<L::Shape>| proper::<L>(t) implies (#[trigger] solves(t, g0, rk0, w0)
        <==> absorbs(t, s) && solves(t, g, rk, rest)) by {
        if solves(t, g, rk, w) {
            assert forall|q: int| 0 <= q < rest.len() implies unifies(
                t,
                flat_at(g, rk, (#[trigger] rest[q]).0),
                flat_at(g, rk, rest[q].1),
            ) by {
                assert(rest[q] == w[q]);
            }
        }
        if solves(t, g, rk, rest) {
            assert forall|q: int| 0 <= q < w.len() implies unifies(
                t,
                flat_at(g, rk, (#[trigger] w[q]).0),
                flat_at(g, rk, w[q].1),
            ) by {
                if q < rest.len() {
                    assert(rest[q] == w[q]);
                }
            }
        }
    }
}

/// A substitution makes the operands of two nodes the same, taken
/// together, exactly if it makes them the same pair by pair.
pub proof fn lemma_unify_operands<L: Language>(
    t: Subst<L::Shape>,
    g: Graph<L::Shape>,
    rk: Rank,
    lops: Seq<nat>,
    rops: Seq<nat>,
    n: nat,
    lbound: nat,
    rbound: nat,
)
    requires
        proper::<L>(t),
        ranked::<L>(g, rk),
        n <= lops.len(),
        n <= rops.len(),
        forall|c: int|
            0 <= c < n ==> 0 <= #[trigger] lops[c] < g.len() && rk(lops[c] as int) < lbound,
        forall|c: int|
            0 <= c < n ==> 0 <= #[trigger] rops[c] < g.len() && rk(rops[c] as int) < rbound,
    ensures
        unifies(t, flat_upto(g, rk, lops, n, lbound), flat_upto(g, rk, rops, n, rbound))
            <==> forall|c: int|
            0 <= c < n ==> unifies(
                t,
                flat_at(g, rk, #[trigger] lops[c] as int),
                flat_at(g, rk, rops[c] as int),
            ),
    decreases n,
{
    if n > 0 {
        let m = (n - 1) as nat;
        lemma_unify_operands::<L>(t, g, rk, lops, rops, m, lbound, rbound);
        let la = flat_upto(g, rk, lops, m, lbound);
        let ra = flat_upto(g, rk, rops, m, rbound);
        assert(0 <= lops[n - 1] < g.len() && 0 <= rops[n - 1] < g.len());
        let lx = flat_at(g, rk, lops[n - 1] as int);
        let rx = flat_at(g, rk, rops[n - 1] as int);
        lemma_apply_concat(t, la, lx);
        lemma_apply_concat(t, ra, rx);
        assert forall|c: int| 0 <= c < m implies rk(#[trigger] lops[c] as int) < lbound
            && is_formula::<L>(flat_at(g, rk, lops[c] as int)) by {
            lemma_flat_is_formula::<L>(g, rk, lops[c] as int);
        }
        assert forall|c: int| 0 <= c < m implies rk(#[trigger] rops[c] as int) < rbound
            && is_formula::<L>(flat_at(g, rk, rops[c] as int)) by {
            lemma_flat_is_formula::<L>(g, rk, rops[c] as int);
        }
        lemma_skip_upto::<L>(g, rk, lops, m, lbound);
        lemma_skip_upto::<L>(g, rk, rops, m, rbound);
        lemma_apply_skip::<L>(t, la, 0, m);
        lemma_apply_skip::<L>(t, ra, 0, m);
        assert(la.subrange(0, la.len() as int) =~= la);
        assert(ra.subrange(0, ra.len() as int) =~= ra);
        if unifies(t, flat_upto(g, rk, lops, n, lbound), flat_upto(g, rk, rops, n, rbound)) {
            lemma_unique_split::<L>(apply(t, la), apply(t, lx), apply(t, ra), apply(t, rx), m);
            assert forall|c: int| 0 <= c < n implies unifies(
                t,
                flat_at(g, rk, #[trigger] lops[c] as int),
                flat_at(g, rk, rops[c] as int),
            ) by {}
        }
        if forall|c: int|
            0 <= c < n ==> unifies(
                t,
                flat_at(g, rk, #[trigger] lops[c] as int),
                flat_at(g, rk, rops[c] as int),
            ) {
            assert(unifies(t, lx, rx)) by {
                assert(0 <= lops[n - 1] < g.len());
            }
        }
    }
}

/// The pairs of the operands of two nodes, from left to right.
pub open spec fn operand_pairs(lops: Seq<nat>, rops: Seq<nat>, n: nat) -> Pairs {
    Seq::new(n, |c: int| (lops[c] as int, rops[c] as int))
}

/// Two nodes of one constructor can give way to the pairs of their
/// operands.
pub proof fn lemma_tracks_split<L: Language>(
    g0: Graph<L::Shape>,
    rk0: Rank,
    w0: Pairs,
    g: Graph<L::Shape>,
    rk: Rank,
    w: Pairs,
    s: Subst<L::Shape>,
)
    requires
        tracks::<L>(g0, rk0, w0, g, rk, w, s),
        ranked::<L>(g, rk),
        pairs_within(g, w),
        w.len() > 0,
        g[w.last().0] is Op,
        g[w.last().1] is Op,
        g[w.last().0]->Op_0 == g[w.last().1]->Op_0,
    ensures
        tracks::<L>(
            g0,
            rk0,
            w0,
            g,
            rk,
            w.drop_last() + operand_pairs(
                g[w.last().0]->Op_1,
                g[w.last().1]->Op_1,
                g[w.last().0]->Op_1.len(),
            ),
            s,
        ),
        pairs_within(
            g,
            w.drop_last() + operand_pairs(
                g[w.last().0]->Op_1,
                g[w.last().1]->Op_1,
                g[w.last().0]->Op_1.len(),
            ),
        ),
{
    let l = w.last().0;
    let r = w.last().1;
    assert(w[w.len() - 1] == w.last());
    assert(slot_ranked::<L>(g, rk, l));
    assert(slot_ranked::<L>(g, rk, r));
    let k = g[l]->Op_0;
    let lops = g[l]->Op_1;
    let rops = g[r]->Op_1;
    let n = lops.len();
    let kids = operand_pairs(lops, rops, n);
    let rest = w.drop_last();
    let next = rest + kids;
    let head = seq![Sym::<L::Shape>::Op(k)];
    let lu = flat_upto(g, rk, lops, n, rk(l));
    let ru = flat_upto(g, rk, rops, n, rk(r));
    assert forall|q: int| 0 <= q < next.len() implies 0 <= (#[trigger] next[q]).0 < g.len() && 0
        <= next[q].1 < g.len() by {
        if q < rest.len() {
            assert(next[q] == w[q]);
        } else {
            let c = q - rest.len();
            assert(next[q] == kids[c]);
            assert(0 <= lops[c] < g.len() && 0 <= rops[c] < g.len());
        }
    }
    assert forall|t: Subst<L::Shape>| proper::<L>(t) implies (#[trigger] solves(t, g0, rk0, w0)
        <==> absorbs(t, s) && solves(t, g, rk, next)) by {
        lemma_unify_operands::<L>(t, g, rk, lops, rops, n, rk(l), rk(r));
        lemma_apply_concat(t, head, lu);
        lemma_apply_concat(t, head, ru);
        lemma_apply_one(t, Sym::<L::Shape>::Op(k));
        assert(unifies(t, flat_at(g, rk, l), flat_at(g, rk, r)) <==> unifies(t, lu, ru)) by {
            if unifies(t, flat_at(g, rk, l), flat_at(g, rk, r)) {
                assert(apply(t, lu) =~= (head + apply(t, lu)).subrange(
                    1,
                    (head + apply(t, lu)).len() as int,
                ));
                assert(apply(t, ru) =~= (head + apply(t, ru)).subrange(
                    1,
                    (head + apply(t, ru)).len() as int,
                ));
            }
        }
        if solves(t, g, rk, w) {
            assert(unifies(t, flat_at(g, rk, l), flat_at(g, rk, r)));
            assert forall|q: int| 0 <= q < next.len() implies unifies(
                t,
                flat_at(g, rk, (#[trigger] next[q]).0),
                flat_at(g, rk, next[q].1),
            ) by {
                if q < rest.len() {
                    assert(next[q] == w[q]);
                } else {
                    let c = q - rest.len();
                    assert(next[q] == kids[c]);
                    assert(0 <= lops[c] < g.len());
                }
            }
        }
        if solves(t, g, rk, next) {
            assert forall|c: int| 0 <= c < n implies unifies(
                t,
                flat_at(g, rk, #[trigger] lops[c] as int),
                flat_at(g, rk, rops[c] as int),
            ) by {
                assert(next[rest.len() + c] == kids[c]);
            }
            assert forall|q: int| 0 <= q < w.len() implies unifies(
                t,
                flat_at(g, rk, (#[trigger] w[q]).0),
                flat_at(g, rk, w[q].1),
            ) by {
                if q < rest.len() {
                    assert(next[q] == w[q]);
                }
            }
        }
    }
}

/// Two nodes of different constructors cannot be made the same.
pub proof fn lemma_tracks_clash<L: Language>(
    g0: Graph<L::Shape>,
    rk0: Rank,
    w0: Pairs,
    g: Graph<L::Shape>,
    rk: Rank,
    w: Pairs,
    s: Subst<L::Shape>,
)
    requires
        tracks::<L>(g0, rk0, w0, g, rk, w, s),
        pairs_within(g, w),
        w.len() > 0,
        g[w.last().0] is Op,
        g[w.last().1] is Op,
        g[w.last().0]->Op_0 != g[w.last().1]->Op_0,
    ensures
        unsolvable::<L>(g0, rk0, w0),
{
    let l = w.last().0;
    let r = w.last().1;
    assert(w[w.len() - 1] == w.last());
    assert forall|t: Subst<L::Shape>| proper::<L>(t) implies !#[trigger] solves(
        t,
        g0,
        rk0,
        w0,
    ) by {
        if solves(t, g, rk, w) {
            assert(unifies(t, flat_at(g, rk, l), flat_at(g, rk, r)));
            let lk = g[l]->Op_0;
            let rk_ = g[r]->Op_0;
            let lu = flat_upto(g, rk, g[l]->Op_1, g[l]->Op_1.len(), rk(l));
            let ru = flat_upto(g, rk, g[r]->Op_1, g[r]->Op_1.len(), rk(r));
            lemma_apply_concat(t, seq![Sym::<L::Shape>::Op(lk)], lu);
            lemma_apply_concat(t, seq![Sym::<L::Shape>::Op(rk_)], ru);
            lemma_apply_one(t, Sym::<L::Shape>::Op(lk));
            lemma_apply_one(t, Sym::<L::Shape>::Op(rk_));
            assert(apply(t, flat_at(g, rk, l))[0] == Sym::<L::Shape>::Op(lk));
            assert(apply(t, flat_at(g, rk, r))[0] == Sym::<L::Shape>::Op(rk_));
        }
    }
}

/// A variable cannot be made the same as a term in which it stands below
/// a constructor.
pub proof fn lemma_tracks_cycle<L: Language>(
    g0: Graph<L::Shape>,
    rk0: Rank,
    w0: Pairs,
    g: Graph<L::Shape>,
    rk: Rank,
    w: Pairs,
    s: Subst<L::Shape>,
    a: int,
    b: int,
    x: nat,
)
    requires
        tracks::<L>(g0, rk0, w0, g, rk, w, s),
        pairs_within(g, w),
        w.len() > 0,
        w.last() == (a, b) || w.last() == (b, a),
        g[a] == Slot::<L::Shape>::Var(x),
        g[b] is Op,
        occurs_in(flat_at(g, rk, b), x),
    ensures
        unsolvable::<L>(g0, rk0, w0),
{
    assert(w[w.len() - 1] == w.last());
    let fa = flat_at(g, rk, a);
    let fb = flat_at(g, rk, b);
    assert(fa =~= seq![Sym::<L::Shape>::Var(x)]);
    assert forall|t: Subst<L::Shape>| proper::<L>(t) implies !#[trigger] solves(
        t,
        g0,
        rk0,
        w0,
    ) by {
        if solves(t, g, rk, w) {
            assert(unifies(t, fa, fb));
            assert forall|v: nat| (#[trigger] t(v)).len() >= 1 by {
                lemma_formula_not_empty::<L>(t(v));
            }
            let at = choose|at: int| 0 <= at < fb.len() && fb[at] == Sym::<L::Shape>::Var(x);
            assert(fb[0] == Sym::<L::Shape>::Op(g[b]->Op_0));
            assert(at >= 1);
            lemma_apply_holds(t, fb, at);
            lemma_apply_one(t, Sym::<L::Shape>::Var(x));
        }
    }
}

/// The variables of a term in which `t` has taken the place of `x` are
/// the others of the term, and those of `t` if `x` stood in the term.
pub proof fn lemma_single_vars<K>(x: nat, t: Flat<K>, f: Flat<K>, u: nat)
    requires
        occurs_in(apply(single(x, t), f), u),
    ensures
        (occurs_in(f, u) && u != x) || (occurs_in(f, x) && occurs_in(t, u)),
    decreases f.len(),
{
    let tau = single(x, t);
    if f.len() == 0 {
        let e = apply(tau, f);
        let q = choose|q: int| 0 <= q < e.len() && e[q] == Sym::<K>::Var(u);
        assert(false);
    } else {
        let before = f.drop_last();
        lemma_occurs_concat(apply(tau, before), crate::formula::subst::image(tau, f.last()), u);
        assert(f =~= before + seq![f.last()]);
        lemma_occurs_concat(before, seq![f.last()], u);
        lemma_occurs_concat(before, seq![f.last()], x);
        if occurs_in(apply(tau, before), u) {
            lemma_single_vars(x, t, before, u);
        } else {
            let img = crate::formula::subst::image(tau, f.last());
            match f.last() {
                Sym::Var(v) => {
                    assert(seq![f.last()][0] == Sym::<K>::Var(v));
                    if v == x {
                        assert(occurs_in(seq![f.last()], x));
                    } else {
                        let q = choose|q: int| 0 <= q < img.len() && img[q] == Sym::<K>::Var(u);
                        assert(u == v);
                        assert(occurs_in(seq![f.last()], u));
                    }
                },
                Sym::Op(k) => {
                    let q = choose|q: int| 0 <= q < img.len() && img[q] == Sym::<K>::Var(u);
                    assert(false);
                },
            }
        }
    }
}

/// What `outer` does after `inner` it does alone, where `inner` does not
/// change `outer`.
pub proof fn lemma_absorbed<K>(outer: Subst<K>, inner: Subst<K>, f: Flat<K>)
    requires
        absorbs(outer, inner),
    ensures
        apply(outer, apply(inner, f)) == apply(outer, f),
{
    lemma_apply_compose(outer, inner, f);
    assert forall|v: nat| occurs_in(f, v) implies #[trigger] compose(outer, inner)(v) == outer(
        v,
    ) by {
        assert(apply(outer, inner(v)) == outer(v));
    }
    lemma_apply_agree(compose(outer, inner), outer, f);
}

/// A variable that meets a term in which it does not stand gives way to
/// that term, in every slot.
pub proof fn lemma_tracks_bind<L: Language>(
    g0: Graph<L::Shape>,
    rk0: Rank,
    w0: Pairs,
    g: Graph<L::Shape>,
    rk: Rank,
    w: Pairs,
    s: Subst<L::Shape>,
    a: int,
    b: int,
    x: nat,
)
    requires
        tracks::<L>(g0, rk0, w0, g, rk, w, s),
        ranked::<L>(g, rk),
        pairs_within(g, w),
        w.len() > 0,
        w.last() == (a, b) || w.last() == (b, a),
        g[a] == Slot::<L::Shape>::Var(x),
        !occurs_in(flat_at(g, rk, b), x),
    ensures
        tracks::<L>(
            g0,
            rk0,
            w0,
            replaced(g, x, g[b]),
            lifted(g, rk, x, rk(b) + 1),
            w.drop_last(),
            compose(single(x, flat_at(g, rk, b)), s),
        ),
        ranked::<L>(replaced(g, x, g[b]), lifted(g, rk, x, rk(b) + 1)),
        pairs_within(replaced(g, x, g[b]), w.drop_last()),
{
    assert(w[w.len() - 1] == w.last());
    let h = replaced(g, x, g[b]);
    let up = lifted(g, rk, x, rk(b) + 1);
    let term = flat_at(g, rk, b);
    let tau = single(x, term);
    let s2 = compose(tau, s);
    let rest = w.drop_last();
    lemma_replaced_ranked::<L>(g, rk, x, b);
    lemma_flat_is_formula::<L>(g, rk, b);
    assert(flat_at(g, rk, a) =~= seq![Sym::<L::Shape>::Var(x)]);
    assert forall|q: int| 0 <= q < rest.len() implies 0 <= (#[trigger] rest[q]).0 < h.len() && 0
        <= rest[q].1 < h.len() by {
        assert(rest[q] == w[q]);
    }
    assert forall|v: nat| is_formula::<L>(#[trigger] tau(v)) by {
        lemma_var_is_formula::<L>(v);
    }
    assert forall|v: nat| is_formula::<L>(#[trigger] s2(v)) by {
        assert(is_formula::<L>(s(v)));
        lemma_apply_is_formula::<L>(tau, s(v));
    }
    assert forall|i: int| 0 <= i < h.len() implies #[trigger] flat_at(h, up, i) == apply(
        s2,
        flat_at(g0, rk0, i),
    ) by {
        lemma_replaced_flat::<L>(g, rk, x, b, i);
        assert(flat_at(g, rk, i) == apply(s, flat_at(g0, rk0, i)));
        lemma_apply_compose(tau, s, flat_at(g0, rk0, i));
    }
    assert(has_var(g, x));
    assert forall|v: nat| has_var(h, v) implies #[trigger] s2(v) == seq![
        Sym::<L::Shape>::Var(v),
    ] by {
        let i = choose|i: int| 0 <= i < h.len() && h[i] == Slot::<L::Shape>::Var(v);
        if g[i] == Slot::<L::Shape>::Var(x) {
            assert(g[b] == Slot::<L::Shape>::Var(v));
            assert(term =~= seq![Sym::<L::Shape>::Var(v)]);
            assert(term[0] == Sym::<L::Shape>::Var(v));
            assert(v != x);
            assert(has_var(g, v));
        } else {
            assert(g[i] == Slot::<L::Shape>::Var(v));
            assert(has_var(g, v));
        }
        assert(s(v) == seq![Sym::<L::Shape>::Var(v)]);
        lemma_apply_one(tau, Sym::<L::Shape>::Var(v));
    }
    assert forall|v: nat, u: nat| occurs_in(#[trigger] s2(v), u) implies #[trigger] s2(u)
        == seq![Sym::<L::Shape>::Var(u)] by {
        lemma_single_vars(x, term, s(v), u);
        if occurs_in(s(v), u) && u != x {
            assert(s(u) == seq![Sym::<L::Shape>::Var(u)]);
        } else {
            lemma_flat_vars::<L>(g, rk, b, u);
            assert(s(u) == seq![Sym::<L::Shape>::Var(u)]);
        }
        lemma_apply_one(tau, Sym::<L::Shape>::Var(u));
    }
    assert forall|t: Subst<L::Shape>| proper::<L>(t) implies (#[trigger] solves(t, g0, rk0, w0)
        <==> absorbs(t, s2) && solves(t, h, up, rest)) by {
        lemma_apply_one(t, Sym::<L::Shape>::Var(x));
        assert(s(x) == seq![Sym::<L::Shape>::Var(x)]);
        lemma_apply_one(tau, Sym::<L::Shape>::Var(x));
        if absorbs(t, s) && solves(t, g, rk, w) {
            assert(unifies(t, flat_at(g, rk, a), term));
            assert forall|v: nat| apply(t, #[trigger] tau(v)) == t(v) by {
                lemma_apply_one(t, Sym::<L::Shape>::Var(v));
            }
            assert(absorbs(t, tau));
            assert forall|v: nat| apply(t, #[trigger] s2(v)) == t(v) by {
                lemma_absorbed(t, tau, s(v));
                assert(apply(t, s(v)) == t(v));
            }
            assert forall|q: int| 0 <= q < rest.len() implies unifies(
                t,
                flat_at(h, up, (#[trigger] rest[q]).0),
                flat_at(h, up, rest[q].1),
            ) by {
                assert(rest[q] == w[q]);
                lemma_replaced_flat::<L>(g, rk, x, b, rest[q].0);
                lemma_replaced_flat::<L>(g, rk, x, b, rest[q].1);
                lemma_absorbed(t, tau, flat_at(g, rk, rest[q].0));
                lemma_absorbed(t, tau, flat_at(g, rk, rest[q].1));
            }
        }
        if absorbs(t, s2) && solves(t, h, up, rest) {
            assert(apply(t, s2(x)) == t(x));
            assert(s2(x) == term);
            assert forall|v: nat| apply(t, #[trigger] tau(v)) == t(v) by {
                lemma_apply_one(t, Sym::<L::Shape>::Var(v));
            }
            assert(absorbs(t, tau));
            assert forall|v: nat| apply(t, #[trigger] s(v)) == t(v) by {
                lemma_absorbed(t, tau, s(v));
                assert(apply(t, s2(v)) == t(v));
            }
            assert forall|q: int| 0 <= q < w.len() implies unifies(
                t,
                flat_at(g, rk, (#[trigger] w[q]).0),
                flat_at(g, rk, w[q].1),
            ) by {
                if q < rest.len() {
                    assert(rest[q] == w[q]);
                    lemma_replaced_flat::<L>(g, rk, x, b, rest[q].0);
                    lemma_replaced_flat::<L>(g, rk, x, b, rest[q].1);
                    lemma_absorbed(t, tau, flat_at(g, rk, rest[q].0));
                    lemma_absorbed(t, tau, flat_at(g, rk, rest[q].1));
                }
            }
        }
    }
}

/// When no pair is left, the substitution made is a most general
/// solution of the pairs that there were.
pub proof fn lemma_tracks_done<L: Language>(
    g0: Graph<L::Shape>,
    rk0: Rank,
    w0: Pairs,
    g: Graph<L::Shape>,
    rk: Rank,
    w: Pairs,
    s: Subst<L::Shape>,
)
    requires
        tracks::<L>(g0, rk0, w0, g, rk, w, s),
        w.len() == 0,
    ensures
        most_general::<L>(s, g0, rk0, w0),
{
    assert forall|v: nat| apply(s, #[trigger] s(v)) == s(v) by {
        lemma_apply_fixed(s, s(v));
    }
    assert(absorbs(s, s));
    assert(solves(s, g, rk, w));
    assert(solves(s, g0, rk0, w0));
}


/// The number of variables below `n` that the arena holds.
pub open spec fn count_vars<K>(g: Graph<K>, n: nat) -> nat
    decreases n,
{
    if n == 0 {
        0
    } else {
        count_vars(g, (n - 1) as nat) + if has_var(g, (n - 1) as nat) {
            1nat
        } else {
            0nat
        }
    }
}

/// An arena that holds no variables but those of another holds no more
/// of them, and fewer if it lacks one.
pub proof fn lemma_count_fewer<K>(g: Graph<K>, h: Graph<K>, n: nat, x: nat)
    requires
        forall|v: nat| has_var(h, v) ==> has_var(g, v),
    ensures
        count_vars(h, n) <= count_vars(g, n),
        x < n && has_var(g, x) && !has_var(h, x) ==> count_vars(h, n) < count_vars(g, n),
    decreases n,
{
    if n > 0 {
        lemma_count_fewer(g, h, (n - 1) as nat, x);
    }
}

/// Once the contents of a slot that does not hold `x` have taken the
/// place of `x`, the arena holds `x` no more, and no variable that it
/// did not hold.
pub proof fn lemma_replaced_vars<K>(g: Graph<K>, x: nat, b: int)
    requires
        0 <= b < g.len(),
        g[b] != Slot::<K>::Var(x),
    ensures
        !has_var(replaced(g, x, g[b]), x),
        forall|v: nat| has_var(replaced(g, x, g[b]), v) ==> has_var(g, v),
{
    let h = replaced(g, x, g[b]);
    assert forall|v: nat| has_var(h, v) implies has_var(g, v) by {
        let i = choose|i: int| 0 <= i < h.len() && h[i] == Slot::<K>::Var(v);
        if g[i] == Slot::<K>::Var(x) {
            assert(g[b] == Slot::<K>::Var(v));
        } else {
            assert(g[i] == Slot::<K>::Var(v));
        }
    }
    if has_var(h, x) {
        let i = choose|i: int| 0 <= i < h.len() && h[i] == Slot::<K>::Var(x);
        assert(false);
    }
}

/// The work that the pairs hold: the sizes of their left terms, added
/// up.
pub open spec fn load<K>(g: Graph<K>, rk: Rank, w: Pairs) -> nat
    decreases w.len(),
{
    if w.len() == 0 {
        0
    } else {
        load(g, rk, w.drop_last()) + flat_at(g, rk, w.last().0).len()
    }
}

/// The pairs of the operands of a node hold less work than the pair of
/// the node: as much as the operands are long.
pub proof fn lemma_load_operands<K>(
    g: Graph<K>,
    rk: Rank,
    rest: Pairs,
    lops: Seq<nat>,
    rops: Seq<nat>,
    n: nat,
    bound: nat,
)
    requires
        n <= lops.len(),
        forall|c: int| 0 <= c < n ==> rk(#[trigger] lops[c] as int) < bound,
    ensures
        load(g, rk, rest + operand_pairs(lops, rops, n)) == load(g, rk, rest) + flat_upto(
            g,
            rk,
            lops,
            n,
            bound,
        ).len(),
    decreases n,
{
    if n == 0 {
        assert(rest + operand_pairs(lops, rops, n) =~= rest);
    } else {
        let m = (n - 1) as nat;
        lemma_load_operands(g, rk, rest, lops, rops, m, bound);
        let now = rest + operand_pairs(lops, rops, n);
        assert(now.drop_last() =~= rest + operand_pairs(lops, rops, m));
        assert(now.last() == (lops[n - 1] as int, rops[n - 1] as int));
        assert(rk(lops[n - 1] as int) < bound);
    }
}


/// A most general solution of one pair is a most general unifier of its
/// two terms.
pub proof fn lemma_one_pair<L: Language>(
    s: Subst<L::Shape>,
    g: Graph<L::Shape>,
    rk: Rank,
    l: int,
    r: int,
)
    requires
        most_general::<L>(s, g, rk, seq![(l, r)]),
    ensures
        crate::formula::subst::is_mgu::<L>(s, flat_at(g, rk, l), flat_at(g, rk, r)),
{
    let w = seq![(l, r)];
    assert(w[0] == (l, r));
    assert(unifies(s, flat_at(g, rk, w[0].0), flat_at(g, rk, w[0].1)));
    assert forall|t: Subst<L::Shape>| proper::<L>(t) && #[trigger] unifies(
        t,
        flat_at(g, rk, l),
        flat_at(g, rk, r),
    ) implies absorbs(t, s) by {
        assert(solves(t, g, rk, w));
    }
}

/// Where one pair has no solution, its two terms cannot be unified.
pub proof fn lemma_no_pair<L: Language>(g: Graph<L::Shape>, rk: Rank, l: int, r: int)
    requires
        unsolvable::<L>(g, rk, seq![(l, r)]),
    ensures
        !crate::formula::subst::unifiable::<L>(flat_at(g, rk, l), flat_at(g, rk, r)),
{
    let w = seq![(l, r)];
    if crate::formula::subst::unifiable::<L>(flat_at(g, rk, l), flat_at(g, rk, r)) {
        let t = choose|t: Subst<L::Shape>|
            proper::<L>(t) && #[trigger] unifies(t, flat_at(g, rk, l), flat_at(g, rk, r));
        assert(solves(t, g, rk, w));
    }
}


/// The arena with `by` added to every variable.
pub open spec fn raised<K>(g: Graph<K>, by: nat) -> Graph<K> {
    g.map_values(
        |s: Slot<K>|
            match s {
                Slot::Var(v) => Slot::Var(v + by),
                Slot::Op(k, ops) => s,
            },
    )
}

/// An arena in which every variable was raised is in order as it was,
/// and every slot stands for what it stood for with its variables
/// raised as much.
pub proof fn lemma_raised<L: Language>(g: Graph<L::Shape>, rk: Rank, by: nat, i: int)
    requires
        ranked::<L>(g, rk),
        0 <= i < g.len(),
    ensures
        ranked::<L>(raised(g, by), rk),
        flat_at(raised(g, by), rk, i) == crate::formula::canon::shift(flat_at(g, rk, i), by),
    decreases rk(i) + 1, 0nat,
{
    let h = raised(g, by);
    assert forall|t: int| 0 <= t < h.len() implies #[trigger] slot_ranked::<L>(h, rk, t) by {
        assert(slot_ranked::<L>(g, rk, t));
    }
    assert(slot_ranked::<L>(g, rk, i));
    match g[i] {
        Slot::Var(v) => {
            assert(flat_at(h, rk, i) =~= crate::formula::canon::shift(flat_at(g, rk, i), by));
        },
        Slot::Op(k, ops) => {
            lemma_raised_upto::<L>(g, rk, by, ops, ops.len(), rk(i));
            assert(flat_at(h, rk, i) =~= crate::formula::canon::shift(flat_at(g, rk, i), by));
        },
    }
}

proof fn lemma_raised_upto<L: Language>(
    g: Graph<L::Shape>,
    rk: Rank,
    by: nat,
    ops: Seq<nat>,
    n: nat,
    bound: nat,
)
    requires
        ranked::<L>(g, rk),
        n <= ops.len(),
        forall|c: int|
            0 <= c < ops.len() ==> 0 <= #[trigger] ops[c] < g.len() && rk(ops[c] as int) < bound,
    ensures
        flat_upto(raised(g, by), rk, ops, n, bound) == crate::formula::canon::shift(
            flat_upto(g, rk, ops, n, bound),
            by,
        ),
    decreases bound, n,
{
    if n == 0 {
        assert(flat_upto(raised(g, by), rk, ops, n, bound) =~= crate::formula::canon::shift(
            flat_upto(g, rk, ops, n, bound),
            by,
        ));
    } else {
        assert(0 <= ops[n - 1] < g.len());
        lemma_raised_upto::<L>(g, rk, by, ops, (n - 1) as nat, bound);
        lemma_raised::<L>(g, rk, by, ops[n - 1] as int);
        assert(flat_upto(raised(g, by), rk, ops, n, bound) =~= crate::formula::canon::shift(
            flat_upto(g, rk, ops, n, bound),
            by,
        ));
    }
}

} // verus!
