//! Modus ponens on flat formulas: the premise and the implication are
//! written to one arena, the premise and the antecedent are unified in
//! place, and the consequent is read back.

use vstd::prelude::*;

use crate::formula::canon::{
    canon, lemma_canonical_bound, lemma_max_var, lemma_rename_is_formula, max_var, occurs_in,
    shift, variables,
};
use crate::formula::flat::{
    end_of, is_formula, lemma_skip_lower, lemma_skip_more, lemma_skip_split,
    lemma_subterm_is_formula, lemma_unique_reading, skip, subterm, Flat, Sym,
};
use crate::formula::graph::{
    flat_at, flat_upto, forward_rank, lemma_flat_is_formula, lemma_flat_local,
    lemma_forward_ranked, ranked, slot_ranked, Graph, Rank,
};
use crate::formula::subst::{apply, is_mgu, proper, unifiable, unifies, Subst};
use crate::formula::unify::most_general;
use crate::formula::language::{arena_limit, graph_of, slot_of, syms_of, Language, Normal, Term};
use crate::formula::language::arena::Arena;
use crate::formula::language::unification::{pairs_of, unify_many};

verus! {

/// Whether the root of `f` is the implication.
pub open spec fn is_implication<L: Language>(f: Flat<L::Shape>) -> bool {
    f.len() > 0 && match f[0] {
        Sym::Op(k) => L::implication(k),
        Sym::Var(_) => false,
    }
}

/// The left operand of the root of `f`.
pub open spec fn antecedent<L: Language>(f: Flat<L::Shape>) -> Flat<L::Shape> {
    subterm::<L>(f, 1)
}

/// The right operand of the root of `f`, where the root takes two.
pub open spec fn consequent<L: Language>(f: Flat<L::Shape>) -> Flat<L::Shape> {
    subterm::<L>(f, end_of::<L>(f, 1))
}

/// Whether `r` is what modus ponens gives of the premise `p` and the
/// formula `f`.
///
/// Where `f` is no implication, that is nothing. Else the variables of
/// `f` are renamed apart from those of `p`; if `p` and the antecedent
/// of `f` cannot be made the same, it is nothing again; and if they can,
/// it is the consequent under a most general unifier of the two, with
/// canonical variable names.
pub open spec fn mp_result<L: Language>(
    p: Flat<L::Shape>,
    f: Flat<L::Shape>,
    r: Option<Flat<L::Shape>>,
) -> bool {
    if !is_implication::<L>(f) {
        r is None
    } else {
        let by = max_var(p) + 1;
        let a = shift(antecedent::<L>(f), by);
        let c = shift(consequent::<L>(f), by);
        match r {
            None => !unifiable::<L>(p, a),
            Some(n) => exists|s: Subst<L::Shape>| #[trigger]
                is_mgu::<L>(s, p, a) && n == canon(apply(s, c)),
        }
    }
}

/// The views of an optional formula.
pub open spec fn view_of<L: Language>(r: Option<Normal<L>>) -> Option<Flat<L::Shape>> {
    match r {
        Some(n) => Some(n@),
        None => None,
    }
}

/// An implication is its root, its antecedent and its consequent, one
/// after the other, and both operands are formulas.
pub proof fn lemma_implication_parts<L: Language>(f: Flat<L::Shape>)
    requires
        is_formula::<L>(f),
        is_implication::<L>(f),
    ensures
        f == seq![f[0]] + antecedent::<L>(f) + consequent::<L>(f),
        is_formula::<L>(antecedent::<L>(f)),
        is_formula::<L>(consequent::<L>(f)),
        1 < end_of::<L>(f, 1) < f.len(),
        end_of::<L>(f, end_of::<L>(f, 1)) == f.len(),
{
    L::laws();
    let e = end_of::<L>(f, 1);
    assert(skip::<L>(f, 0, 1) == skip::<L>(f, 1, 2));
    lemma_skip_more::<L>(f, 1, 1, 1);
    lemma_skip_lower::<L>(f, 1, 1);
    lemma_skip_split::<L>(f, 1, 1, 1);
    lemma_skip_lower::<L>(f, e, 1);
    lemma_subterm_is_formula::<L>(f, 1);
    lemma_subterm_is_formula::<L>(f, e);
    assert(f =~= seq![f[0]] + antecedent::<L>(f) + consequent::<L>(f));
}

/// The largest variable of a formula, or 0 if it has none.
fn largest_var<L: Language>(p: &Normal<L>) -> (top: u16)
    ensures
        top == max_var(p@),
{
    let ghost pf = p@;
    let mut top: u16 = 0;
    let mut i: usize = 0;
    proof {
        assert(pf.subrange(0, 0) =~= Seq::<Sym<L::Shape>>::empty());
    }
    while i < p.terms.len()
        invariant
            pf == syms_of(p.terms@),
            i <= p.terms@.len(),
            top == max_var(pf.subrange(0, i as int)),
        decreases p.terms@.len() - i,
    {
        proof {
            assert(pf.subrange(0, i as int + 1).drop_last() =~= pf.subrange(0, i as int));
        }
        match p.terms[i] {
            Term::Var(x) => {
                if x > top {
                    top = x;
                }
            },
            Term::Term(_) => {},
        }
        i += 1;
    }
    proof {
        assert(pf.subrange(0, pf.len() as int) =~= pf);
    }
    top
}

/// In an arena that is in order, the two operands of a node that stands
/// for an implication stand for its antecedent and its consequent.
pub proof fn lemma_implication_operands<L: Language>(
    g: Graph<L::Shape>,
    rk: Rank,
    at: int,
    f: Flat<L::Shape>,
)
    requires
        ranked::<L>(g, rk),
        0 <= at < g.len(),
        flat_at(g, rk, at) == f,
        is_formula::<L>(f),
        is_implication::<L>(f),
    ensures
        g[at] is Op,
        g[at]->Op_0 == f[0]->Op_0,
        g[at]->Op_1.len() == 2,
        0 <= g[at]->Op_1[0] < g.len(),
        0 <= g[at]->Op_1[1] < g.len(),
        flat_at(g, rk, g[at]->Op_1[0] as int) == antecedent::<L>(f),
        flat_at(g, rk, g[at]->Op_1[1] as int) == consequent::<L>(f),
{
    L::laws();
    assert(slot_ranked::<L>(g, rk, at));
    let ops = g[at]->Op_1;
    assert(0 <= ops[0] < g.len() && 0 <= ops[1] < g.len());
    let fa = flat_at(g, rk, ops[0] as int);
    let fc = flat_at(g, rk, ops[1] as int);
    let bound = rk(at);
    assert(flat_upto(g, rk, ops, 0, bound) =~= Seq::<Sym<L::Shape>>::empty());
    assert(flat_upto(g, rk, ops, 1, bound) =~= fa);
    assert(flat_upto(g, rk, ops, 2, bound) =~= fa + fc);
    lemma_implication_parts::<L>(f);
    lemma_flat_is_formula::<L>(g, rk, ops[0] as int);
    lemma_flat_is_formula::<L>(g, rk, ops[1] as int);
    let head = seq![f[0]];
    let ant = antecedent::<L>(f);
    let con = consequent::<L>(f);
    assert(fa + fc =~= (head + (fa + fc)).subrange(1, (head + (fa + fc)).len() as int));
    assert(ant + con =~= (head + ant + con).subrange(1, (head + ant + con).len() as int));
    assert(head + (fa + fc) =~= f);
    lemma_unique_reading::<L>(fa, fc, ant, con);
}

/// Renaming goes through the parts of an implication.
proof fn lemma_shift_parts<L: Language>(f: Flat<L::Shape>, by: nat)
    requires
        is_formula::<L>(f),
        is_implication::<L>(f),
    ensures
        is_formula::<L>(shift(f, by)),
        is_implication::<L>(shift(f, by)),
        antecedent::<L>(shift(f, by)) == shift(antecedent::<L>(f), by),
        consequent::<L>(shift(f, by)) == shift(consequent::<L>(f), by),
{
    let g = shift(f, by);
    lemma_rename_is_formula::<L>(f, |v: nat| v + by);
    lemma_implication_parts::<L>(f);
    crate::formula::flat::lemma_skip_by_weight::<L>(f, g, 1, 1);
    let e = end_of::<L>(f, 1);
    crate::formula::flat::lemma_skip_by_weight::<L>(f, g, e, 1);
    assert(antecedent::<L>(g) =~= shift(antecedent::<L>(f), by));
    assert(consequent::<L>(g) =~= shift(consequent::<L>(f), by));
}

/// Writes the premise and the implication to a fresh arena, the
/// implication with its variables moved above `top`, and returns the
/// arena with the positions of the antecedent and the consequent. The
/// premise stands at 0.
fn load_pair<L: Language>(p: &Normal<L>, f: &Normal<L>, top: u16) -> (loaded: (
    Arena<L>,
    u16,
    u16,
))
    requires
        p@.len() + f@.len() <= u16::MAX,
        is_implication::<L>(f@),
        top == max_var(p@),
    ensures
        loaded.0.wf(),
        loaded.1 < loaded.0@.len(),
        loaded.2 < loaded.0@.len(),
        loaded.0.term_at(0) == p@,
        loaded.0.term_at(loaded.1 as int) == shift(antecedent::<L>(f@), (top + 1) as nat),
        loaded.0.term_at(loaded.2 as int) == shift(consequent::<L>(f@), (top + 1) as nat),
{
    let ghost pf = p@;
    let ghost ff = f@;
    proof {
        use_type_invariant(p);
        use_type_invariant(f);
        lemma_max_var(pf);
        if max_var(pf) != 0 {
            lemma_canonical_bound(pf, max_var(pf));
        }
        assert forall|v: nat| occurs_in(ff, v) implies v + (top + 1) <= u16::MAX by {
            lemma_canonical_bound(ff, v);
        }
        assert forall|v: nat| occurs_in(pf, v) implies v + 0 <= u16::MAX by {
            lemma_canonical_bound(pf, v);
        }
    }
    let mut slots: Vec<Term<L::Node>> = Vec::with_capacity(p.len() + f.len());
    let p_at = p.write_into(&mut slots, 0);
    let ghost g1 = graph_of::<L>(slots@);
    let ghost s1 = slots@;
    let f_at = f.write_into(&mut slots, top + 1);
    let ghost g0 = graph_of::<L>(slots@);
    let ghost rk0 = forward_rank(arena_limit());
    let ghost by = (top + 1) as nat;
    proof {
        assert forall|t: int| 0 <= t < g1.len() implies g0[t] == g1[t] by {
            assert(slots@[t] == s1[t]);
        }
        lemma_flat_local::<L>(g1, g0, arena_limit(), 0, 0);
        assert(shift(pf, 0) =~= pf);
        lemma_forward_ranked::<L>(g0, arena_limit());
        lemma_shift_parts::<L>(ff, by);
        lemma_implication_operands::<L>(g0, rk0, f_at as int, shift(ff, by));
        assert(g0[f_at as int] == slot_of::<L>(slots@[f_at as int]));
    }
    match slots[f_at as usize] {
        Term::Term(node) => {
            match L::match_implication(&node) {
                Some(pair) => {
                    let a = pair[0];
                    let c = pair[1];
                    proof {
                        let ops = L::operands(node).map_values(|c: u16| c as nat);
                        assert(ops[0] == a && ops[1] == c);
                    }
                    (Arena::of_written(slots), a, c)
                },
                None => {
                    proof {
                        assert(false);
                    }
                    (Arena::of_written(slots), 0, 0)
                },
            }
        },
        Term::Var(_) => {
            proof {
                assert(false);
            }
            (Arena::of_written(slots), 0, 0)
        },
    }
}

/// Modus ponens: from the premise `p` and the implication `f`, the
/// consequent of `f` under a most general unifier of `p` and the
/// antecedent of `f`.
///
/// Both formulas are written to one arena, `f` with its variables moved
/// above those of `p`; the premise and the antecedent are unified in
/// place; the consequent is read back.
pub fn modus_ponens<L: Language>(p: &Normal<L>, f: &Normal<L>) -> (r: Option<Normal<L>>)
    requires
        is_implication::<L>(f@) ==> p@.len() + f@.len() <= u16::MAX,
    ensures
        mp_result::<L>(p@, f@, view_of(r)),
{
    proof {
        use_type_invariant(f);
    }
    match f.terms[0] {
        Term::Term(shape) => {
            if !L::is_implication(&shape) {
                return None;
            }
        },
        Term::Var(_) => {
            return None;
        },
    }
    let top = largest_var(p);
    let (mut arena, a, c) = load_pair(p, f, top);
    let ghost g0 = arena@;
    let ghost rk0 = arena.rank();
    let ghost ant = shift(antecedent::<L>(f@), (top + 1) as nat);
    let ghost con = shift(consequent::<L>(f@), (top + 1) as nat);
    let eqs = vec![(0u16, a)];
    proof {
        assert(pairs_of(eqs@) =~= seq![(0int, a as int)]);
    }
    if unify_many(&mut arena, eqs) {
        let read = Normal::from_arena(&arena, c as usize);
        proof {
            let s = choose|s: Subst<L::Shape>|
                #![trigger most_general::<L>(s, g0, rk0, seq![(0int, a as int)])]
                most_general::<L>(s, g0, rk0, seq![(0int, a as int)]) && forall|i: int|
                    0 <= i < g0.len() ==> #[trigger] arena.term_at(i) == apply(
                        s,
                        flat_at(g0, rk0, i),
                    );
            assert(arena.term_at(c as int) == apply(s, con));
            crate::formula::unify::lemma_one_pair::<L>(s, g0, rk0, 0, a as int);
        }
        Some(read)
    } else {
        proof {
            crate::formula::unify::lemma_no_pair::<L>(g0, rk0, 0, a as int);
        }
        None
    }
}

/// Determinism of modus ponens: the premise and the implication
/// determine what it gives.
pub proof fn law_mp_unique<L: Language>(
    p: Flat<L::Shape>,
    f: Flat<L::Shape>,
    first: Option<Flat<L::Shape>>,
    second: Option<Flat<L::Shape>>,
)
    requires
        mp_result::<L>(p, f, first),
        mp_result::<L>(p, f, second),
    ensures
        first == second,
{
    if is_implication::<L>(f) {
        let by = max_var(p) + 1;
        let a = shift(antecedent::<L>(f), by);
        let c = shift(consequent::<L>(f), by);
        match (first, second) {
            (Some(n1), Some(n2)) => {
                let s1 = choose|s: Subst<L::Shape>| #[trigger]
                    is_mgu::<L>(s, p, a) && n1 == canon(apply(s, c));
                let s2 = choose|s: Subst<L::Shape>| #[trigger]
                    is_mgu::<L>(s, p, a) && n2 == canon(apply(s, c));
                crate::formula::subst::law_mgu_unique::<L>(s1, s2, p, a, c);
            },
            (Some(n1), None) => {
                let s1 = choose|s: Subst<L::Shape>| #[trigger]
                    is_mgu::<L>(s, p, a) && n1 == canon(apply(s, c));
                assert(proper::<L>(s1) && unifies(s1, p, a));
            },
            (None, Some(n2)) => {
                let s2 = choose|s: Subst<L::Shape>| #[trigger]
                    is_mgu::<L>(s, p, a) && n2 == canon(apply(s, c));
                assert(proper::<L>(s2) && unifies(s2, p, a));
            },
            (None, None) => {},
        }
    }
}

/// Of a formula that is no implication modus ponens gives nothing,
/// whatever the premise.
pub proof fn law_mp_needs_implication<L: Language>(
    p: Flat<L::Shape>,
    f: Flat<L::Shape>,
    r: Option<Flat<L::Shape>>,
)
    requires
        !is_implication::<L>(f),
        mp_result::<L>(p, f, r),
    ensures
        r is None,
{
}

/// Whether `r` is derived from the premise `p` and the implication `f`
/// by the substitutions `t` and `s`: `t` makes of `p` what `s` makes of
/// the antecedent of `f`, and `r` is what `s` makes of the consequent,
/// with canonical variable names.
pub open spec fn derives<L: Language>(
    t: Subst<L::Shape>,
    s: Subst<L::Shape>,
    p: Flat<L::Shape>,
    f: Flat<L::Shape>,
    r: Flat<L::Shape>,
) -> bool {
    &&& proper::<L>(t)
    &&& proper::<L>(s)
    &&& apply(t, p) == apply(s, antecedent::<L>(f))
    &&& r == canon(apply(s, consequent::<L>(f)))
}

/// The substitution that does to the variables below `by` what `t`
/// does, and to the variable `by + v` what `s` does to `v`.
pub open spec fn joined<K>(t: Subst<K>, s: Subst<K>, by: nat) -> Subst<K> {
    |v: nat|
        if v < by {
            t(v)
        } else {
            s((v - by) as nat)
        }
}

/// The joined substitution does to a formula with variables below `by`
/// what its first part does, and to a formula whose variables were
/// moved up by `by` what its second part does to the formula itself.
proof fn lemma_joined<K>(t: Subst<K>, s: Subst<K>, by: nat, low: Flat<K>, high: Flat<K>)
    requires
        max_var(low) < by,
    ensures
        apply(joined(t, s, by), low) == apply(t, low),
        apply(joined(t, s, by), shift(high, by)) == apply(s, high),
{
    let both = joined(t, s, by);
    assert forall|v: nat| occurs_in(low, v) implies #[trigger] both(v) == t(v) by {
        lemma_max_var(low);
    }
    crate::formula::subst::lemma_apply_agree(both, t, low);
    let moved = |v: nat| both((|w: nat| w + by)(v));
    crate::formula::subst::lemma_apply_rename(both, |w: nat| w + by, high);
    assert forall|v: nat| occurs_in(high, v) implies #[trigger] moved(v) == s(v) by {
        assert(((v + by) - by) as nat == v);
    }
    crate::formula::subst::lemma_apply_agree(moved, s, high);
}

/// Soundness of modus ponens: where it gives `r` of the premise `p` and
/// the formula `f`, `f` is an implication, and there are substitutions
/// under which the premise and the antecedent become the same and the
/// consequent, with canonical variable names, becomes `r`.
pub proof fn law_mp_sound<L: Language>(p: Flat<L::Shape>, f: Flat<L::Shape>, r: Flat<L::Shape>)
    requires
        mp_result::<L>(p, f, Some(r)),
    ensures
        is_implication::<L>(f),
        exists|t: Subst<L::Shape>, s: Subst<L::Shape>| #[trigger] derives::<L>(t, s, p, f, r),
{
    let by = max_var(p) + 1;
    let a = shift(antecedent::<L>(f), by);
    let c = shift(consequent::<L>(f), by);
    let t = choose|t: Subst<L::Shape>| #[trigger] is_mgu::<L>(t, p, a) && r == canon(apply(t, c));
    let s = |v: nat| t((|w: nat| w + by)(v));
    crate::formula::subst::lemma_apply_rename(t, |w: nat| w + by, antecedent::<L>(f));
    crate::formula::subst::lemma_apply_rename(t, |w: nat| w + by, consequent::<L>(f));
    assert forall|v: nat| is_formula::<L>(#[trigger] s(v)) by {
        assert(is_formula::<L>(t(v + by)));
    }
    assert(derives::<L>(t, s, p, f, r));
}

/// Modus ponens gives the most general conclusion: where it gives `r` of
/// the premise `p` and the implication `f`, and `t` makes of `p` what
/// `s` makes of the antecedent of `f`, what `s` makes of the consequent
/// is an instance of `r`.
pub proof fn law_mp_most_general<L: Language>(
    p: Flat<L::Shape>,
    f: Flat<L::Shape>,
    r: Flat<L::Shape>,
    t: Subst<L::Shape>,
    s: Subst<L::Shape>,
)
    requires
        mp_result::<L>(p, f, Some(r)),
        proper::<L>(t),
        proper::<L>(s),
        apply(t, p) == apply(s, antecedent::<L>(f)),
    ensures
        exists|u: Subst<L::Shape>|
            proper::<L>(u) && #[trigger] apply(u, r) == apply(s, consequent::<L>(f)),
{
    let by = max_var(p) + 1;
    let a = shift(antecedent::<L>(f), by);
    let c = shift(consequent::<L>(f), by);
    let m = choose|m: Subst<L::Shape>| #[trigger] is_mgu::<L>(m, p, a) && r == canon(apply(m, c));
    let both = joined(t, s, by);
    lemma_joined(t, s, by, p, antecedent::<L>(f));
    lemma_joined(t, s, by, p, consequent::<L>(f));
    assert forall|v: nat| is_formula::<L>(#[trigger] both(v)) by {
        if v < by {
            assert(is_formula::<L>(t(v)));
        } else {
            assert(is_formula::<L>(s((v - by) as nat)));
        }
    }
    assert(unifies(both, p, a));
    assert(crate::formula::subst::absorbs(both, m));
    let x = apply(m, c);
    crate::formula::unify::lemma_absorbed(both, m, c);
    assert(apply(both, x) == apply(s, consequent::<L>(f)));
    let names = variables(x);
    let u = |n: nat|
        if n < names.len() {
            both(names[n as int])
        } else {
            both(0)
        };
    let lab = |v: nat| crate::formula::canon::label(x, v);
    crate::formula::subst::lemma_apply_rename(u, lab, x);
    let through = |v: nat| u(lab(v));
    assert forall|v: nat| occurs_in(x, v) implies #[trigger] through(v) == both(v) by {
        crate::formula::canon::lemma_variables(x);
        assert(names.contains(v));
        let at = names.index_of(v);
        assert(names[at] == v);
    }
    crate::formula::subst::lemma_apply_agree(through, both, x);
    assert forall|n: nat| is_formula::<L>(#[trigger] u(n)) by {
        if n < names.len() {
            assert(is_formula::<L>(both(names[n as int])));
        } else {
            assert(is_formula::<L>(both(0)));
        }
    }
    assert(apply(u, r) == apply(s, consequent::<L>(f)));
}

} // verus!
