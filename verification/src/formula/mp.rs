//! Modus ponens on flat formulas of implication and negation: the
//! premise and the implication are written to one arena, the premise
//! with its variables moved above those of the implication; the premise
//! and the antecedent are unified in place; the consequent is read
//! back.

use vstd::prelude::*;
use crate::formula::canon::{
    canon, lemma_canonical_bound, lemma_max_var, lemma_occurs_concat, max_var, occurs_in, shift,
};
use crate::formula::flat::{Flat, Sym};
use crate::formula::graph::{
    flat_at, flat_upto, forward_rank, lemma_flat_any_rank, lemma_flat_local, ranked,
    slot_ranked, Rank,
};
use crate::formula::langs::imp_neg::{imp, neg, ImpNeg, Variants};
use crate::formula::language::modus_ponens::{
    antecedent, consequent, is_implication, lemma_implication_operands,
};
use crate::formula::language::Bare;
use crate::formula::subst::{apply, compose, identity, is_mgu, single, unifiable, Subst};
use crate::formula::unify::{
    count_vars, has_var, lemma_count_fewer, lemma_load_operands, lemma_no_pair, lemma_one_pair,
    lemma_raised, lemma_replaced_ranked, lemma_replaced_vars, lemma_tracks_bind,
    lemma_tracks_clash, lemma_tracks_cycle, lemma_tracks_done, lemma_tracks_drop,
    lemma_tracks_split, lemma_tracks_start, lifted, load, most_general, operand_pairs,
    pairs_within, raised, replaced, tracks, unsolvable, Pairs,
};
use crate::formula::{
    lemma_forward, limit, slot_of, syms_of, Arena, Entry, Idx, Normal, NormalEntry,
};

verus! {

/// The pairs of positions that a worklist holds.
pub open spec fn pairs_of(eqs: Seq<(Idx, Idx)>) -> Pairs {
    eqs.map_values(|p: (Idx, Idx)| (p.0.0 as int, p.1.0 as int))
}

impl Arena {
    /// Puts a copy of the slot at `from` into every slot that holds the
    /// variable `var`. The variable must not stand below that slot, or a
    /// term would come to lie below itself.
    fn substitute(&mut self, var: usize, from: Idx, Ghost(rk): Ghost<Rank>)
        requires
            ranked::<ImpNeg>(old(self)@, rk),
            from.0 < old(self)@.len(),
            !occurs_in(flat_at(old(self)@, rk, from.0 as int), var as nat),
        ensures
            final(self)@ == replaced(old(self)@, var as nat, old(self)@[from.0 as int]),
            ranked::<ImpNeg>(
                final(self)@,
                lifted(old(self)@, rk, var as nat, rk(from.0 as int) + 1),
            ),
    {
        let ghost g = self@;
        let ghost before = self.entries@;
        let by = self.entries[from.0];
        let n = self.entries.len();
        let mut i: usize = 0;
        while i < n
            invariant
                n == self.entries@.len() == before.len(),
                i <= n,
                forall|t: int|
                    0 <= t < i ==> #[trigger] self.entries@[t] == (if before[t] == Entry::Var(var) {
                        by
                    } else {
                        before[t]
                    }),
                forall|t: int| i <= t < n ==> #[trigger] self.entries@[t] == before[t],
            decreases n - i,
        {
            match self.entries[i] {
                Entry::Var(v) => {
                    if v == var {
                        self.entries.set(i, by);
                    }
                },
                _ => {},
            }
            i += 1;
        }
        proof {
            let h = replaced(g, var as nat, g[from.0 as int]);
            assert forall|t: int| 0 <= t < n implies self@[t] == h[t] by {
                assert(g[t] == slot_of(before[t]));
                assert(g[from.0 as int] == slot_of(by));
                match before[t] {
                    Entry::Var(v) => {},
                    Entry::Implication(a, b) => {},
                    Entry::Not(a) => {},
                }
            }
            assert(self@ =~= h);
            lemma_replaced_ranked::<ImpNeg>(g, rk, var as nat, from.0 as int);
        }
    }
}

/// Whether the variable `var` stands in the term that the slot at `at`
/// stands for.
fn occurs(arena: &Arena, var: usize, at: Idx, Ghost(rk): Ghost<Rank>) -> (found: bool)
    requires
        ranked::<ImpNeg>(arena@, rk),
        at.0 < arena@.len(),
    ensures
        found == occurs_in(flat_at(arena@, rk, at.0 as int), var as nat),
    decreases rk(at.0 as int),
{
    let ghost g = arena@;
    let ghost f = flat_at(g, rk, at.0 as int);
    let ghost bound = rk(at.0 as int);
    proof {
        arena.lemma_view();
        assert(slot_ranked::<ImpNeg>(g, rk, at.0 as int));
        assert(g[at.0 as int] == slot_of(arena.slots()[at.0 as int]));
    }
    match *arena.index(at) {
        Entry::Var(x) => {
            proof {
                assert(f[0] == Sym::<Variants<Bare>>::Var(x as nat));
                if occurs_in(f, var as nat) {
                    let t = choose|t: int|
                        0 <= t < f.len() && f[t] == Sym::<Variants<Bare>>::Var(var as nat);
                    assert(x == var);
                }
            }
            x == var
        },
        Entry::Implication(a, b) => {
            let ghost ops = seq![a.0 as nat, b.0 as nat];
            proof {
                assert(0 <= ops[0] < g.len() && rk(ops[0] as int) < bound);
                assert(0 <= ops[1] < g.len() && rk(ops[1] as int) < bound);
            }
            let left = occurs(arena, var, a, Ghost(rk));
            let right = occurs(arena, var, b, Ghost(rk));
            proof {
                let fa = flat_at(g, rk, a.0 as int);
                let fb = flat_at(g, rk, b.0 as int);
                let head = seq![imp()];
                assert(flat_upto(g, rk, ops, 0, bound) =~= Seq::<Sym<Variants<Bare>>>::empty());
                assert(flat_upto(g, rk, ops, 1, bound) =~= fa);
                assert(flat_upto(g, rk, ops, 2, bound) =~= fa + fb);
                assert(f =~= head + (fa + fb));
                lemma_occurs_concat(head, fa + fb, var as nat);
                lemma_occurs_concat(fa, fb, var as nat);
                if occurs_in(head, var as nat) {
                    let t = choose|t: int|
                        0 <= t < head.len() && head[t] == Sym::<Variants<Bare>>::Var(var as nat);
                    assert(false);
                }
            }
            left || right
        },
        Entry::Not(a) => {
            let ghost ops = seq![a.0 as nat];
            proof {
                assert(0 <= ops[0] < g.len() && rk(ops[0] as int) < bound);
            }
            let inner = occurs(arena, var, a, Ghost(rk));
            proof {
                let fa = flat_at(g, rk, a.0 as int);
                let head = seq![neg()];
                assert(flat_upto(g, rk, ops, 0, bound) =~= Seq::<Sym<Variants<Bare>>>::empty());
                assert(flat_upto(g, rk, ops, 1, bound) =~= fa);
                assert(f =~= head + fa);
                lemma_occurs_concat(head, fa, var as nat);
                if occurs_in(head, var as nat) {
                    let t = choose|t: int|
                        0 <= t < head.len() && head[t] == Sym::<Variants<Bare>>::Var(var as nat);
                    assert(false);
                }
            }
            inner
        },
    }
}

/// Makes the two terms of every pair the same, by substitutions made in
/// place in the arena, and returns the bindings made, each a variable
/// with the slot that took its place; or finds that the terms cannot be
/// made the same.
///
/// One pair is taken at a time. Two equal variables are dropped. A
/// variable that meets another term gives way to it in every slot,
/// unless it stands in that term: then nothing can be done. Two
/// implications give way to the pairs of their operands, and so do two
/// negations; of an implication and a negation, nothing can be done.
fn unify_many(arena: &mut Arena, eqs: Vec<(Idx, Idx)>) -> (found: Option<Vec<(usize, Entry)>>)
    requires
        old(arena).wf(),
        pairs_within(old(arena)@, pairs_of(eqs@)),
    ensures
        final(arena).wf(),
        final(arena)@.len() == old(arena)@.len(),
        forall|i: int|
            0 <= i < old(arena)@.len() && old(arena)@[i] is Op ==> #[trigger] final(arena)@[i]
                == old(arena)@[i],
        found is Some ==> exists|s: Subst<Variants<Bare>>|
            #![trigger most_general::<ImpNeg>(s, old(arena)@, old(arena).rank(), pairs_of(eqs@))]
            most_general::<ImpNeg>(s, old(arena)@, old(arena).rank(), pairs_of(eqs@))
                && forall|i: int|
                0 <= i < old(arena)@.len() ==> #[trigger] final(arena).term_at(i) == apply(
                    s,
                    old(arena).term_at(i),
                ),
        found is None ==> unsolvable::<ImpNeg>(old(arena)@, old(arena).rank(), pairs_of(eqs@)),
        found matches Some(bindings) ==> forall|k: int|
            0 <= k < bindings@.len() ==> !has_var(final(arena)@, (#[trigger] bindings@[k]).0 as nat),
{
    let ghost g0 = arena@;
    let ghost rk0 = arena.rank();
    let ghost w0 = pairs_of(eqs@);
    let ghost mut s: Subst<Variants<Bare>> = identity();
    let ghost mut rk: Rank = rk0;
    let mut work = eqs;
    let mut solution: Vec<(usize, Entry)> = Vec::new();
    proof {
        lemma_tracks_start::<ImpNeg>(g0, rk0, w0);
    }
    loop
        invariant
            g0 == old(arena)@,
            rk0 == old(arena).rank(),
            w0 == pairs_of(eqs@),
            ranked::<ImpNeg>(arena@, rk),
            arena@.len() == g0.len(),
            forall|i: int| 0 <= i < g0.len() && g0[i] is Op ==> #[trigger] arena@[i] == g0[i],
            pairs_within(arena@, pairs_of(work@)),
            tracks::<ImpNeg>(g0, rk0, w0, arena@, rk, pairs_of(work@), s),
            forall|k: int|
                0 <= k < solution@.len() ==> !has_var(arena@, (#[trigger] solution@[k]).0 as nat),
        decreases count_vars(arena@, limit()), load(arena@, rk, pairs_of(work@)),
    {
        let ghost g = arena@;
        let ghost w = pairs_of(work@);
        if work.len() == 0 {
            proof {
                lemma_tracks_done::<ImpNeg>(g0, rk0, w0, g, rk, w, s);
                assert forall|i: int| 0 <= i < g0.len() implies #[trigger] arena.term_at(i)
                    == apply(s, flat_at(g0, rk0, i)) by {
                    lemma_flat_any_rank::<ImpNeg>(g, arena.rank(), rk, i);
                    assert(flat_at(g, rk, i) == apply(s, flat_at(g0, rk0, i)));
                }
            }
            return Some(solution);
        }
        let (a, b) = work.pop().unwrap();
        let ghost rest = pairs_of(work@);
        proof {
            arena.lemma_view();
            assert(w.last() == (a.0 as int, b.0 as int));
            assert(w[w.len() - 1] == w.last());
            assert(rest =~= w.drop_last());
            assert(g[a.0 as int] == slot_of(arena.slots()[a.0 as int]));
            assert(g[b.0 as int] == slot_of(arena.slots()[b.0 as int]));
            assert(slot_ranked::<ImpNeg>(g, rk, a.0 as int));
            assert(slot_ranked::<ImpNeg>(g, rk, b.0 as int));
        }
        let left = *arena.index(a);
        let right = *arena.index(b);
        match (left, right) {
            (Entry::Implication(_, _), Entry::Not(_)) => {
                proof {
                    lemma_tracks_clash::<ImpNeg>(g0, rk0, w0, g, rk, w, s);
                }
                return None;
            },
            (Entry::Not(_), Entry::Implication(_, _)) => {
                proof {
                    lemma_tracks_clash::<ImpNeg>(g0, rk0, w0, g, rk, w, s);
                }
                return None;
            },
            (Entry::Implication(a1, b1), Entry::Implication(a2, b2)) => {
                let ghost prev = work@;
                work.push((a1, a2));
                work.push((b1, b2));
                proof {
                    let lops = seq![a1.0 as nat, b1.0 as nat];
                    let rops = seq![a2.0 as nat, b2.0 as nat];
                    assert(pairs_of(work@) =~= rest + operand_pairs(lops, rops, 2));
                    lemma_tracks_split::<ImpNeg>(g0, rk0, w0, g, rk, w, s);
                    assert forall|c: int| 0 <= c < lops.len() implies rk(
                        #[trigger] lops[c] as int,
                    ) < rk(a.0 as int) by {}
                    lemma_load_operands(g, rk, rest, lops, rops, 2, rk(a.0 as int));
                }
            },
            (Entry::Not(a1), Entry::Not(a2)) => {
                work.push((a1, a2));
                proof {
                    let lops = seq![a1.0 as nat];
                    let rops = seq![a2.0 as nat];
                    assert(pairs_of(work@) =~= rest + operand_pairs(lops, rops, 1));
                    lemma_tracks_split::<ImpNeg>(g0, rk0, w0, g, rk, w, s);
                    assert forall|c: int| 0 <= c < lops.len() implies rk(
                        #[trigger] lops[c] as int,
                    ) < rk(a.0 as int) by {}
                    lemma_load_operands(g, rk, rest, lops, rops, 1, rk(a.0 as int));
                }
            },
            (t, Entry::Var(x)) => {
                let same = match t {
                    Entry::Var(y) => y == x,
                    _ => false,
                };
                if same {
                    proof {
                        lemma_tracks_drop::<ImpNeg>(g0, rk0, w0, g, rk, w, s);
                    }
                } else {
                    if occurs(arena, x, a, Ghost(rk)) {
                        proof {
                            let fa = flat_at(g, rk, a.0 as int);
                            if !(g[a.0 as int] is Op) {
                                let q = choose|q: int|
                                    0 <= q < fa.len() && fa[q] == Sym::<Variants<Bare>>::Var(
                                        x as nat,
                                    );
                                assert(false);
                            }
                            lemma_tracks_cycle::<ImpNeg>(
                                g0,
                                rk0,
                                w0,
                                g,
                                rk,
                                w,
                                s,
                                b.0 as int,
                                a.0 as int,
                                x as nat,
                            );
                        }
                        return None;
                    }
                    proof {
                        lemma_tracks_bind::<ImpNeg>(
                            g0,
                            rk0,
                            w0,
                            g,
                            rk,
                            w,
                            s,
                            b.0 as int,
                            a.0 as int,
                            x as nat,
                        );
                        lemma_replaced_vars(g, x as nat, a.0 as int);
                        assert(has_var(g, x as nat));
                        lemma_count_fewer(g, replaced(g, x as nat, g[a.0 as int]), limit(), x as nat);
                        s = compose(single(x as nat, flat_at(g, rk, a.0 as int)), s);
                    }
                    let ghost bound = solution@;
                    arena.substitute(x, a, Ghost(rk));
                    proof {
                        rk = lifted(g, rk, x as nat, rk(a.0 as int) + 1);
                    }
                    solution.push((x, t));
                    proof {
                        assert forall|k: int| 0 <= k < solution@.len() implies !has_var(
                            arena@,
                            (#[trigger] solution@[k]).0 as nat,
                        ) by {
                            if k < bound.len() {
                                assert(solution@[k] == bound[k]);
                                assert(!has_var(g, bound[k].0 as nat));
                            }
                        }
                    }
                }
            },
            (Entry::Var(x), t) => {
                if occurs(arena, x, b, Ghost(rk)) {
                    proof {
                        lemma_tracks_cycle::<ImpNeg>(
                            g0,
                            rk0,
                            w0,
                            g,
                            rk,
                            w,
                            s,
                            a.0 as int,
                            b.0 as int,
                            x as nat,
                        );
                    }
                    return None;
                }
                proof {
                    lemma_tracks_bind::<ImpNeg>(
                        g0,
                        rk0,
                        w0,
                        g,
                        rk,
                        w,
                        s,
                        a.0 as int,
                        b.0 as int,
                        x as nat,
                    );
                    lemma_replaced_vars(g, x as nat, b.0 as int);
                    assert(has_var(g, x as nat));
                    lemma_count_fewer(g, replaced(g, x as nat, g[b.0 as int]), limit(), x as nat);
                    s = compose(single(x as nat, flat_at(g, rk, b.0 as int)), s);
                }
                let ghost bound = solution@;
                arena.substitute(x, b, Ghost(rk));
                proof {
                    rk = lifted(g, rk, x as nat, rk(b.0 as int) + 1);
                }
                solution.push((x, t));
                proof {
                    assert forall|k: int| 0 <= k < solution@.len() implies !has_var(
                        arena@,
                        (#[trigger] solution@[k]).0 as nat,
                    ) by {
                        if k < bound.len() {
                            assert(solution@[k] == bound[k]);
                            assert(!has_var(g, bound[k].0 as nat));
                        }
                    }
                }
            },
        }
    }
}

/// Makes the terms at `a` and `b` the same, by substitutions made in
/// place in the arena, and returns the bindings made; or finds that
/// they cannot be made the same.
pub fn unify(arena: &mut Arena, a: Idx, b: Idx) -> (found: Option<Vec<(usize, Entry)>>)
    requires
        old(arena).wf(),
        a.0 < old(arena)@.len(),
        b.0 < old(arena)@.len(),
    ensures
        final(arena).wf(),
        final(arena)@.len() == old(arena)@.len(),
        forall|i: int|
            0 <= i < old(arena)@.len() && old(arena)@[i] is Op ==> #[trigger] final(arena)@[i]
                == old(arena)@[i],
        found is Some ==> exists|s: Subst<Variants<Bare>>|
            #![trigger is_mgu::<ImpNeg>(s, old(arena).term_at(a.0 as int), old(arena).term_at(b.0 as int))]
            is_mgu::<ImpNeg>(s, old(arena).term_at(a.0 as int), old(arena).term_at(b.0 as int))
                && forall|i: int|
                0 <= i < old(arena)@.len() ==> #[trigger] final(arena).term_at(i) == apply(
                    s,
                    old(arena).term_at(i),
                ),
        found is None ==> !unifiable::<ImpNeg>(
            old(arena).term_at(a.0 as int),
            old(arena).term_at(b.0 as int),
        ),
        found matches Some(bindings) ==> forall|k: int|
            0 <= k < bindings@.len() ==> !has_var(final(arena)@, (#[trigger] bindings@[k]).0 as nat),
{
    let ghost g0 = arena@;
    let ghost rk0 = arena.rank();
    let ghost w = seq![(a.0 as int, b.0 as int)];
    let eqs = vec![(a, b)];
    proof {
        assert(pairs_of(eqs@) =~= w);
    }
    let found = unify_many(arena, eqs);
    proof {
        if found is Some {
            let s = choose|s: Subst<Variants<Bare>>|
                #![trigger most_general::<ImpNeg>(s, g0, rk0, w)]
                most_general::<ImpNeg>(s, g0, rk0, w) && forall|i: int|
                    0 <= i < g0.len() ==> #[trigger] arena.term_at(i) == apply(
                        s,
                        flat_at(g0, rk0, i),
                    );
            lemma_one_pair::<ImpNeg>(s, g0, rk0, a.0 as int, b.0 as int);
            assert(g0 == old(arena)@ && rk0 == old(arena).rank());
            assert(is_mgu::<ImpNeg>(
                s,
                old(arena).term_at(a.0 as int),
                old(arena).term_at(b.0 as int),
            ));
            assert forall|i: int| 0 <= i < old(arena)@.len() implies #[trigger] arena.term_at(i)
                == apply(s, old(arena).term_at(i)) by {
                assert(arena.term_at(i) == apply(s, flat_at(g0, rk0, i)));
            }
        } else {
            lemma_no_pair::<ImpNeg>(g0, rk0, a.0 as int, b.0 as int);
        }
    }
    found
}


/// The largest variable of a formula, or 0 if it has none.
fn largest_var(f: &Normal) -> (top: usize)
    ensures
        top == max_var(f@),
{
    let ghost ff = f@;
    let mut top: usize = 0;
    let mut i: usize = 0;
    proof {
        assert(ff.subrange(0, 0) =~= Seq::<Sym<Variants<Bare>>>::empty());
    }
    while i < f.elems.len()
        invariant
            ff == syms_of(f.elems@),
            i <= f.elems@.len(),
            top == max_var(ff.subrange(0, i as int)),
        decreases f.elems@.len() - i,
    {
        proof {
            assert(ff.subrange(0, i as int + 1).drop_last() =~= ff.subrange(0, i as int));
        }
        match f.elems[i] {
            NormalEntry::Var(x) => {
                if x > top {
                    top = x;
                }
            },
            _ => {},
        }
        i += 1;
    }
    proof {
        assert(ff.subrange(0, ff.len() as int) =~= ff);
    }
    top
}

/// The slot with `by` added to its variable, if it holds one.
pub open spec fn lifted_entry(e: Entry, by: nat) -> Entry {
    match e {
        Entry::Var(x) => Entry::Var((x + by) as usize),
        _ => e,
    }
}

/// Whether every variable that the arena holds stays a machine number
/// when `by` is added to it.
pub open spec fn can_lift(es: Seq<Entry>, by: nat) -> bool {
    forall|i: int| 0 <= i < es.len() ==> (#[trigger] es[i] matches Entry::Var(x) ==> x + by <= usize::MAX)
}

/// Moves the variables of the arena above those of `f`: adds the
/// largest variable of `f` and one more to each.
pub fn make_disjoint(arena: &mut Arena, f: &Normal)
    requires
        can_lift(old(arena).slots(), max_var(f@) + 1),
    ensures
        final(arena).slots().len() == old(arena).slots().len(),
        forall|i: int|
            0 <= i < old(arena).slots().len() ==> #[trigger] final(arena).slots()[i]
                == lifted_entry(old(arena).slots()[i], max_var(f@) + 1),
{
    let top = largest_var(f);
    let ghost before = arena.entries@;
    let n = arena.entries.len();
    let mut i: usize = 0;
    while i < n
        invariant
            n == arena.entries@.len() == before.len(),
            i <= n,
            top == max_var(f@),
            can_lift(before, (top + 1) as nat),
            forall|t: int|
                0 <= t < i ==> #[trigger] arena.entries@[t] == lifted_entry(
                    before[t],
                    (top + 1) as nat,
                ),
            forall|t: int| i <= t < n ==> #[trigger] arena.entries@[t] == before[t],
        decreases n - i,
    {
        match arena.entries[i] {
            Entry::Var(x) => {
                proof {
                    assert(before[i as int] matches Entry::Var(y) ==> y + (top + 1) <= usize::MAX);
                }
                arena.entries.set(i, Entry::Var(x + (top + 1)));
            },
            _ => {},
        }
        i += 1;
    }
}

/// Whether `r` is what modus ponens gives of the premise `p` and the
/// formula `f`.
///
/// Where `f` is no implication, that is nothing. Else the variables of
/// `p` are renamed apart from those of `f`; if `p` and the antecedent
/// of `f` cannot be made the same, it is nothing again; and if they can,
/// it is the consequent under a most general unifier of the two, with
/// canonical variable names.
pub open spec fn mp_result(
    p: Flat<Variants<Bare>>,
    f: Flat<Variants<Bare>>,
    r: Option<Flat<Variants<Bare>>>,
) -> bool {
    if !is_implication::<ImpNeg>(f) {
        r is None
    } else {
        let moved = shift(p, max_var(f) + 1);
        let a = antecedent::<ImpNeg>(f);
        let c = consequent::<ImpNeg>(f);
        match r {
            None => !unifiable::<ImpNeg>(moved, a),
            Some(n) => exists|s: Subst<Variants<Bare>>| #[trigger]
                is_mgu::<ImpNeg>(s, moved, a) && n == canon(apply(s, c)),
        }
    }
}

/// The views of an optional formula.
pub open spec fn view_of(r: Option<Normal>) -> Option<Flat<Variants<Bare>>> {
    match r {
        Some(n) => Some(n@),
        None => None,
    }
}

/// Writes the premise, with its variables moved above those of the
/// implication, and the implication to a fresh arena, and returns the
/// arena with the positions of the antecedent and the consequent. The
/// premise stands at 0.
fn load_pair(p: &Normal, f: &Normal) -> (loaded: (Arena, Idx, Idx))
    requires
        p@.len() + f@.len() <= usize::MAX,
        is_implication::<ImpNeg>(f@),
    ensures
        loaded.0.wf(),
        0 < loaded.0@.len(),
        loaded.1.0 < loaded.0@.len(),
        loaded.2.0 < loaded.0@.len(),
        loaded.0.term_at(0) == shift(p@, max_var(f@) + 1),
        loaded.0.term_at(loaded.1.0 as int) == antecedent::<ImpNeg>(f@),
        loaded.0.term_at(loaded.2.0 as int) == consequent::<ImpNeg>(f@),
{
    let ghost pf = p@;
    let ghost ff = f@;
    let ghost by = max_var(ff) + 1;
    let ghost rk = forward_rank(limit());
    p.well_formed();
    f.well_formed();
    let mut arena = Arena { entries: Vec::with_capacity(p.len() + f.len()) };
    p.write_into(&mut arena);
    let ghost s1 = arena.slots();
    let ghost g1 = arena@;
    proof {
        arena.lemma_view();
        lemma_forward(s1);
        lemma_max_var(ff);
        if max_var(ff) != 0 {
            lemma_canonical_bound(ff, max_var(ff));
        }
        assert forall|i: int| 0 <= i < s1.len() implies (#[trigger] s1[i] matches Entry::Var(x)
            ==> x + by <= usize::MAX) by {
            if let Entry::Var(x) = s1[i] {
                assert(occurs_in(pf, x as nat));
                lemma_canonical_bound(pf, x as nat);
            }
        }
    }
    make_disjoint(&mut arena, f);
    let ghost s2 = arena.slots();
    let ghost g2 = arena@;
    proof {
        arena.lemma_view();
        assert forall|i: int| 0 <= i < g2.len() implies g2[i] == raised(g1, by)[i] by {
            assert(g1[i] == slot_of(s1[i]));
            assert(g2[i] == slot_of(s2[i]));
            assert(s2[i] == lifted_entry(s1[i], by));
        }
        assert(g2 =~= raised(g1, by));
        lemma_raised::<ImpNeg>(g1, rk, by, 0);
        assert forall|i: int| 0 <= i < s2.len() implies match #[trigger] s2[i] {
            Entry::Var(_) => true,
            Entry::Implication(a, b) => i < a.0 < s2.len() && i < b.0 < s2.len(),
            Entry::Not(a) => i < a.0 < s2.len(),
        } by {
            assert(s2[i] == lifted_entry(s1[i], by));
        }
        lemma_forward(s2);
    }
    let fidx = Idx(arena.len());
    f.write_into(&mut arena);
    let ghost s3 = arena.slots();
    let ghost g3 = arena@;
    proof {
        arena.lemma_view();
        lemma_forward(s3);
        assert forall|t: int| 0 <= t < g2.len() implies g3[t] == g2[t] by {
            assert(s3[t] == s2[t]);
        }
        lemma_flat_local::<ImpNeg>(g2, g3, limit(), 0, 0);
        lemma_implication_operands::<ImpNeg>(g3, rk, fidx.0 as int, ff);
        assert(g3[fidx.0 as int] == slot_of(s3[fidx.0 as int]));
        assert forall|i: int| 0 <= i < g3.len() implies #[trigger] arena.term_at(i) == flat_at(
            g3,
            rk,
            i,
        ) by {
            lemma_flat_any_rank::<ImpNeg>(g3, arena.rank(), rk, i);
        }
    }
    match *arena.index(fidx) {
        Entry::Implication(p2idx, qidx) => (arena, p2idx, qidx),
        _ => {
            proof {
                assert(false);
            }
            (arena, Idx(0), Idx(0))
        },
    }
}

/// Modus ponens: from the premise `p` and the implication `f`, the
/// consequent of `f` under a most general unifier of `p` and the
/// antecedent of `f`.
pub fn modus_ponens(p: &Normal, f: &Normal) -> (r: Option<Normal>)
    requires
        p@.len() + f@.len() <= usize::MAX,
    ensures
        mp_result(p@, f@, view_of(r)),
{
    f.well_formed();
    match f.elems[0] {
        NormalEntry::Implication => {},
        _ => {
            return None;
        },
    }
    let (mut arena, p2idx, qidx) = load_pair(p, f);
    let ghost before = arena;
    match unify(&mut arena, Idx(0), p2idx) {
        Some(_) => {
            let read = Normal::from_arena(&arena, qidx);
            proof {
                let s = choose|s: Subst<Variants<Bare>>|
                    #![trigger is_mgu::<ImpNeg>(s, before.term_at(0), before.term_at(p2idx.0 as int))]
                    is_mgu::<ImpNeg>(s, before.term_at(0), before.term_at(p2idx.0 as int))
                        && forall|i: int|
                        0 <= i < before@.len() ==> #[trigger] arena.term_at(i) == apply(
                            s,
                            before.term_at(i),
                        );
                assert(arena.term_at(qidx.0 as int) == apply(s, before.term_at(qidx.0 as int)));
            }
            Some(read)
        },
        None => None,
    }
}

} // verus!
