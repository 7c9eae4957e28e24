//! Unification in place in an arena.

use vstd::prelude::*;

use crate::formula::canon::{lemma_occurs_concat, occurs_in, variables};
use crate::formula::flat::Sym;
use crate::formula::graph::{flat_at, flat_upto, slot_ranked, Slot};
use crate::formula::subst::{apply, compose, identity, single, Subst};
use crate::formula::unify::{
    count_vars, has_var, lemma_count_fewer, lemma_load_operands, lemma_operand_occurs,
    lemma_replaced_vars, lemma_tracks_bind, lemma_tracks_clash, lemma_tracks_cycle,
    lemma_tracks_done, lemma_tracks_drop, lemma_tracks_split, lemma_tracks_start, load,
    most_general, operand_pairs, pairs_within, replaced, tracks, unsolvable, Pairs,
};
use crate::formula::language::{arena_limit, Language, Term};
use crate::formula::language::arena::Arena;

verus! {

/// The pairs of positions that a worklist holds.
pub open spec fn pairs_of(eqs: Seq<(u16, u16)>) -> Pairs {
    eqs.map_values(|p: (u16, u16)| (p.0 as int, p.1 as int))
}

/// Whether the variable `var` stands in the term that the slot at `at`
/// stands for.
pub fn occurs<L: Language>(arena: &Arena<L>, var: u16, at: usize) -> (found: bool)
    requires
        arena.wf(),
        at < arena@.len(),
    ensures
        found == occurs_in(arena.term_at(at as int), var as nat),
    decreases arena.rank()(at as int),
{
    let ghost g = arena@;
    let ghost rk = arena.rank();
    let ghost f = arena.term_at(at as int);
    proof {
        assert(slot_ranked::<L>(g, rk, at as int));
    }
    match arena.slot(at) {
        Term::Var(x) => {
            proof {
                assert(f[0] == Sym::<L::Shape>::Var(x as nat));
                if occurs_in(f, var as nat) {
                    let t = choose|t: int| 0 <= t < f.len() && f[t] == Sym::<L::Shape>::Var(
                        var as nat,
                    );
                    assert(x == var);
                }
            }
            x == var
        },
        Term::Term(node) => {
            let kids = L::children(&node);
            let ghost ops = L::operands(node).map_values(|c: u16| c as nat);
            let ghost head = seq![Sym::<L::Shape>::Op(L::shape_of(node))];
            let mut k: usize = 0;
            while k < kids.len()
                invariant
                    arena.wf(),
                    g == arena@,
                    rk == arena.rank(),
                    at < g.len(),
                    kids@ == L::operands(node),
                    ops == L::operands(node).map_values(|c: u16| c as nat),
                    g[at as int] == Slot::Op(L::shape_of(node), ops),
                    k <= kids@.len(),
                    !occurs_in(flat_upto(g, rk, ops, k as nat, rk(at as int)), var as nat),
                decreases kids@.len() - k,
            {
                proof {
                    assert(slot_ranked::<L>(g, rk, at as int));
                    assert(0 <= ops[k as int] < g.len() && rk(ops[k as int] as int) < rk(
                        at as int,
                    ));
                    assert(ops[k as int] == kids@[k as int]);
                }
                if occurs(arena, var, kids[k] as usize) {
                    proof {
                        lemma_operand_occurs::<L>(g, rk, at as int, k as int, var as nat);
                    }
                    return true;
                }
                proof {
                    lemma_occurs_concat(
                        flat_upto(g, rk, ops, k as nat, rk(at as int)),
                        flat_at(g, rk, ops[k as int] as int),
                        var as nat,
                    );
                }
                k += 1;
            }
            proof {
                lemma_occurs_concat(
                    head,
                    flat_upto(g, rk, ops, ops.len(), rk(at as int)),
                    var as nat,
                );
                if occurs_in(head, var as nat) {
                    let t = choose|t: int| 0 <= t < head.len() && head[t] == Sym::<L::Shape>::Var(
                        var as nat,
                    );
                    assert(false);
                }
            }
            false
        },
    }
}

/// Makes the two terms of every pair the same, by substitutions made in
/// place in the arena, or finds that they cannot be made the same.
///
/// One pair is taken at a time. Two equal variables are dropped. A
/// variable that meets another term gives way to it in every slot,
/// unless it stands in that term: then nothing can be done. Two nodes
/// of one constructor give way to the pairs of their operands; of two
/// constructors, nothing can be done.
pub fn unify_many<L: Language>(arena: &mut Arena<L>, eqs: Vec<(u16, u16)>) -> (unified: bool)
    requires
        old(arena).wf(),
        pairs_within(old(arena)@, pairs_of(eqs@)),
    ensures
        final(arena).wf(),
        final(arena)@.len() == old(arena)@.len(),
        forall|i: int|
            0 <= i < old(arena)@.len() && old(arena)@[i] is Op ==> #[trigger] final(arena)@[i]
                == old(arena)@[i],
        unified ==> exists|s: Subst<L::Shape>|
            #![trigger most_general::<L>(s, old(arena)@, old(arena).rank(), pairs_of(eqs@))]
            most_general::<L>(s, old(arena)@, old(arena).rank(), pairs_of(eqs@)) && forall|i: int|
                0 <= i < old(arena)@.len() ==> #[trigger] final(arena).term_at(i) == apply(
                    s,
                    old(arena).term_at(i),
                ),
        !unified ==> unsolvable::<L>(old(arena)@, old(arena).rank(), pairs_of(eqs@)),
{
    let ghost g0 = arena@;
    let ghost rk0 = arena.rank();
    let ghost w0 = pairs_of(eqs@);
    let ghost mut s: Subst<L::Shape> = identity();
    let mut work = eqs;
    proof {
        lemma_tracks_start::<L>(g0, rk0, w0);
    }
    loop
        invariant
            g0 == old(arena)@,
            rk0 == old(arena).rank(),
            w0 == pairs_of(eqs@),
            arena.wf(),
            arena@.len() == g0.len(),
            forall|i: int| 0 <= i < g0.len() && g0[i] is Op ==> #[trigger] arena@[i] == g0[i],
            pairs_within(arena@, pairs_of(work@)),
            tracks::<L>(g0, rk0, w0, arena@, arena.rank(), pairs_of(work@), s),
        decreases count_vars(arena@, arena_limit()), load(arena@, arena.rank(), pairs_of(work@)),
    {
        let ghost g = arena@;
        let ghost rk = arena.rank();
        let ghost w = pairs_of(work@);
        if work.len() == 0 {
            proof {
                lemma_tracks_done::<L>(g0, rk0, w0, g, rk, w, s);
                assert forall|i: int| 0 <= i < g0.len() implies #[trigger] arena.term_at(i)
                    == apply(s, flat_at(g0, rk0, i)) by {
                    assert(flat_at(g, rk, i) == apply(s, flat_at(g0, rk0, i)));
                }
            }
            return true;
        }
        let (a, b) = work.pop().unwrap();
        let ghost rest = pairs_of(work@);
        proof {
            assert(w.last() == (a as int, b as int));
            assert(w[w.len() - 1] == w.last());
            assert(rest =~= w.drop_last());
            assert(slot_ranked::<L>(g, rk, a as int));
            assert(slot_ranked::<L>(g, rk, b as int));
        }
        match (arena.slot(a as usize), arena.slot(b as usize)) {
            (Term::Var(x), Term::Var(y)) => {
                if x != y {
                    proof {
                        let fb = flat_at(g, rk, b as int);
                        if occurs_in(fb, x as nat) {
                            let t = choose|t: int|
                                0 <= t < fb.len() && fb[t] == Sym::<L::Shape>::Var(x as nat);
                            assert(false);
                        }
                        lemma_tracks_bind::<L>(
                            g0,
                            rk0,
                            w0,
                            g,
                            rk,
                            w,
                            s,
                            a as int,
                            b as int,
                            x as nat,
                        );
                        lemma_replaced_vars(g, x as nat, b as int);
                        assert(has_var(g, x as nat));
                        lemma_count_fewer(
                            g,
                            replaced(g, x as nat, g[b as int]),
                            arena_limit(),
                            x as nat,
                        );
                        s = compose(single(x as nat, flat_at(g, rk, b as int)), s);
                    }
                    arena.substitute(x, b as usize);
                } else {
                    proof {
                        lemma_tracks_drop::<L>(g0, rk0, w0, g, rk, w, s);
                    }
                }
            },
            (Term::Var(x), Term::Term(_)) => {
                if occurs(arena, x, b as usize) {
                    proof {
                        lemma_tracks_cycle::<L>(
                            g0,
                            rk0,
                            w0,
                            g,
                            rk,
                            w,
                            s,
                            a as int,
                            b as int,
                            x as nat,
                        );
                    }
                    return false;
                }
                proof {
                    lemma_tracks_bind::<L>(g0, rk0, w0, g, rk, w, s, a as int, b as int, x as nat);
                    lemma_replaced_vars(g, x as nat, b as int);
                    assert(has_var(g, x as nat));
                    lemma_count_fewer(
                        g,
                        replaced(g, x as nat, g[b as int]),
                        arena_limit(),
                        x as nat,
                    );
                    s = compose(single(x as nat, flat_at(g, rk, b as int)), s);
                }
                arena.substitute(x, b as usize);
            },
            (Term::Term(_), Term::Var(x)) => {
                if occurs(arena, x, a as usize) {
                    proof {
                        lemma_tracks_cycle::<L>(
                            g0,
                            rk0,
                            w0,
                            g,
                            rk,
                            w,
                            s,
                            b as int,
                            a as int,
                            x as nat,
                        );
                    }
                    return false;
                }
                proof {
                    lemma_tracks_bind::<L>(g0, rk0, w0, g, rk, w, s, b as int, a as int, x as nat);
                    lemma_replaced_vars(g, x as nat, a as int);
                    assert(has_var(g, x as nat));
                    lemma_count_fewer(
                        g,
                        replaced(g, x as nat, g[a as int]),
                        arena_limit(),
                        x as nat,
                    );
                    s = compose(single(x as nat, flat_at(g, rk, a as int)), s);
                }
                arena.substitute(x, a as usize);
            },
            (Term::Term(t1), Term::Term(t2)) => {
                if !L::matches(&t1, &t2) {
                    proof {
                        lemma_tracks_clash::<L>(g0, rk0, w0, g, rk, w, s);
                    }
                    return false;
                }
                let lkids = L::children(&t1);
                let rkids = L::children(&t2);
                let ghost lops = L::operands(t1).map_values(|c: u16| c as nat);
                let ghost rops = L::operands(t2).map_values(|c: u16| c as nat);
                proof {
                    L::laws();
                    assert(g[a as int] == Slot::Op(L::shape_of(t1), lops));
                    assert(g[b as int] == Slot::Op(L::shape_of(t2), rops));
                    assert(rest + operand_pairs(lops, rops, 0) =~= rest);
                }
                let mut c: usize = 0;
                while c < lkids.len()
                    invariant
                        lkids@ == L::operands(t1),
                        rkids@ == L::operands(t2),
                        lkids@.len() == rkids@.len(),
                        lops == L::operands(t1).map_values(|c: u16| c as nat),
                        rops == L::operands(t2).map_values(|c: u16| c as nat),
                        c <= lkids@.len(),
                        pairs_of(work@) == rest + operand_pairs(lops, rops, c as nat),
                    decreases lkids@.len() - c,
                {
                    let ghost prev = work@;
                    work.push((lkids[c], rkids[c]));
                    proof {
                        assert(lops[c as int] == lkids@[c as int]);
                        assert(rops[c as int] == rkids@[c as int]);
                        let now = pairs_of(work@);
                        let sofar = rest + operand_pairs(lops, rops, c as nat);
                        let want = rest + operand_pairs(lops, rops, (c + 1) as nat);
                        assert(pairs_of(prev) == sofar);
                        assert(operand_pairs(lops, rops, c as nat).len() == c);
                        assert(operand_pairs(lops, rops, (c + 1) as nat).len() == c + 1);
                        assert(pairs_of(prev).len() == prev.len());
                        assert(now.len() == prev.len() + 1);
                        assert(now.len() == want.len());
                        assert forall|q: int| 0 <= q < now.len() implies now[q] == want[q] by {
                            if q < prev.len() {
                                assert(now[q] == pairs_of(prev)[q]);
                                assert(sofar[q] == want[q]);
                            }
                        }
                        assert(now =~= want);
                    }
                    c += 1;
                }
                proof {
                    lemma_tracks_split::<L>(g0, rk0, w0, g, rk, w, s);
                    assert forall|c: int| 0 <= c < lops.len() implies rk(
                        #[trigger] lops[c] as int,
                    ) < rk(a as int) by {}
                    lemma_load_operands(g, rk, rest, lops, rops, lops.len(), rk(a as int));
                }
            },
        }
    }
}

} // verus!
