//! Arenas as graphs: each slot holds a variable, or a constructor with the
//! positions of its operands in the same arena.

use vstd::prelude::*;
use crate::formula::flat::{
    is_formula, lemma_skip_moved, lemma_skip_split, lemma_skip_tail, skip, Flat, Sym,
};
use crate::formula::language::Language;

verus! {

/// What a slot of an arena holds.
pub enum Slot<K> {
    /// A variable.
    Var(nat),
    /// A constructor and the positions of its operands, from left to
    /// right.
    Op(K, Seq<nat>),
}

/// The slots of an arena.
pub type Graph<K> = Seq<Slot<K>>;

/// A measure on the positions of an arena.
pub type Rank = spec_fn(int) -> nat;

/// Whether the slot at `i` is in order: a node has as many operands as
/// its constructor takes, and each of them lies in the arena and has a
/// lower rank than the node.
pub open spec fn slot_ranked<L: Language>(g: Graph<L::Shape>, rk: Rank, i: int) -> bool {
    match g[i] {
        Slot::Var(_) => true,
        Slot::Op(k, ops) => ops.len() == L::arity(k) && forall|c: int|
            0 <= c < ops.len() ==> 0 <= #[trigger] ops[c] < g.len() && rk(ops[c] as int) < rk(i),
    }
}

/// Whether every slot of the arena is in order under the rank `rk`: then
/// no slot lies below itself, and each stands for a term.
pub open spec fn ranked<L: Language>(g: Graph<L::Shape>, rk: Rank) -> bool {
    forall|i: int| 0 <= i < g.len() ==> #[trigger] slot_ranked::<L>(g, rk, i)
}

/// The terms below the slot at `i`, written out in prefix order.
pub open spec fn flat_at<K>(g: Graph<K>, rk: Rank, i: int) -> Flat<K>
    decreases rk(i) + 1, 0nat,
{
    if 0 <= i < g.len() {
        match g[i] {
            Slot::Var(v) => seq![Sym::Var(v)],
            Slot::Op(k, ops) => seq![Sym::Op(k)] + flat_upto(g, rk, ops, ops.len(), rk(i)),
        }
    } else {
        Seq::empty()
    }
}

/// The terms below the first `n` of the positions `ops`, one after the
/// other; positions whose rank is not below `bound` count for nothing.
pub open spec fn flat_upto<K>(g: Graph<K>, rk: Rank, ops: Seq<nat>, n: nat, bound: nat) -> Flat<
    K,
>
    decreases bound, n,
{
    if n == 0 || n > ops.len() {
        Seq::empty()
    } else {
        let c = ops[n - 1] as int;
        flat_upto(g, rk, ops, (n - 1) as nat, bound) + (if rk(c) < bound {
            flat_at(g, rk, c)
        } else {
            Seq::empty()
        })
    }
}

/// The rank under which a slot ranks lower the further on it stands,
/// among the first `limit` positions.
pub open spec fn forward_rank(limit: nat) -> Rank {
    |i: int|
        if 0 <= i < limit {
            (limit - i) as nat
        } else {
            0nat
        }
}

/// Whether every node has as many operands as its constructor takes,
/// all of them further on in the arena than the node itself.
pub open spec fn forward<L: Language>(g: Graph<L::Shape>) -> bool {
    forall|i: int|
        0 <= i < g.len() ==> match #[trigger] g[i] {
            Slot::Var(_) => true,
            Slot::Op(k, ops) => ops.len() == L::arity(k) && forall|c: int|
                0 <= c < ops.len() ==> i < #[trigger] ops[c] < g.len(),
        }
}

/// An arena whose operands all stand further on is in order under the
/// forward rank.
pub proof fn lemma_forward_ranked<L: Language>(g: Graph<L::Shape>, limit: nat)
    requires
        forward::<L>(g),
        g.len() <= limit,
    ensures
        ranked::<L>(g, forward_rank(limit)),
{
    let rk = forward_rank(limit);
    assert forall|i: int| 0 <= i < g.len() implies #[trigger] slot_ranked::<L>(g, rk, i) by {
        match g[i] {
            Slot::Var(_) => {},
            Slot::Op(k, ops) => {
                assert forall|c: int| 0 <= c < ops.len() implies 0 <= #[trigger] ops[c] < g.len()
                    && rk(ops[c] as int) < rk(i) by {
                    assert(i < ops[c] < g.len());
                }
            },
        }
    }
}

/// `n` formulas one after the other are passed as `n` subterms.
pub proof fn lemma_skip_upto<L: Language>(
    g: Graph<L::Shape>,
    rk: Rank,
    ops: Seq<nat>,
    n: nat,
    bound: nat,
)
    requires
        n <= ops.len(),
        forall|c: int|
            0 <= c < n ==> rk(#[trigger] ops[c] as int) < bound && is_formula::<L>(
                flat_at(g, rk, ops[c] as int),
            ),
    ensures
        skip::<L>(flat_upto(g, rk, ops, n, bound), 0, n) == flat_upto(g, rk, ops, n, bound).len(),
    decreases n,
{
    if n > 0 {
        let before = flat_upto(g, rk, ops, (n - 1) as nat, bound);
        let last = flat_at(g, rk, ops[n - 1] as int);
        let all = flat_upto(g, rk, ops, n, bound);
        assert(all == before + last);
        lemma_skip_upto::<L>(g, rk, ops, (n - 1) as nat, bound);
        assert forall|t: int| 0 <= t < before.len() implies all[t] == before[t] by {}
        lemma_skip_moved::<L>(before, all, 0, (n - 1) as nat, 0);
        lemma_skip_split::<L>(all, 0, (n - 1) as nat, 1);
        assert(last =~= all.subrange(before.len() as int, all.len() as int));
        lemma_skip_tail::<L>(all, last, before.len() as int, 1);
    }
}

/// In an arena that is in order, every slot stands for a formula.
pub proof fn lemma_flat_is_formula<L: Language>(g: Graph<L::Shape>, rk: Rank, i: int)
    requires
        ranked::<L>(g, rk),
        0 <= i < g.len(),
    ensures
        is_formula::<L>(flat_at(g, rk, i)),
    decreases rk(i),
{
    assert(slot_ranked::<L>(g, rk, i));
    match g[i] {
        Slot::Var(v) => {
            let f = flat_at(g, rk, i);
            assert(f.len() == 1);
            assert(skip::<L>(f, 1, 0) == 1);
        },
        Slot::Op(k, ops) => {
            assert forall|c: int| 0 <= c < ops.len() implies rk(#[trigger] ops[c] as int) < rk(i)
                && is_formula::<L>(flat_at(g, rk, ops[c] as int)) by {
                lemma_flat_is_formula::<L>(g, rk, ops[c] as int);
            }
            let rest = flat_upto(g, rk, ops, ops.len(), rk(i));
            lemma_skip_upto::<L>(g, rk, ops, ops.len(), rk(i));
            let f = flat_at(g, rk, i);
            assert(f == seq![Sym::Op(k)] + rest);
            assert(rest =~= f.subrange(1, f.len() as int));
            lemma_skip_tail::<L>(f, rest, 1, ops.len());
            assert(f[0] == Sym::<L::Shape>::Op(k));
        },
    }
}

/// What a slot stands for depends only on the slots from `a` on, in an
/// arena whose operands all stand further on: an arena that holds the
/// same there lets the slot stand for the same.
pub proof fn lemma_flat_local<L: Language>(
    g: Graph<L::Shape>,
    h: Graph<L::Shape>,
    limit: nat,
    a: int,
    i: int,
)
    requires
        forward::<L>(g),
        0 <= a <= i < g.len() <= h.len() <= limit,
        forall|t: int| a <= t < g.len() ==> h[t] == g[t],
    ensures
        flat_at(h, forward_rank(limit), i) == flat_at(g, forward_rank(limit), i),
    decreases g.len() - i,
{
    let rk = forward_rank(limit);
    match g[i] {
        Slot::Var(v) => {},
        Slot::Op(k, ops) => {
            lemma_flat_local_upto::<L>(g, h, limit, a, i, ops, ops.len());
        },
    }
}

proof fn lemma_flat_local_upto<L: Language>(
    g: Graph<L::Shape>,
    h: Graph<L::Shape>,
    limit: nat,
    a: int,
    i: int,
    ops: Seq<nat>,
    n: nat,
)
    requires
        forward::<L>(g),
        0 <= a <= i < g.len() <= h.len() <= limit,
        forall|t: int| a <= t < g.len() ==> h[t] == g[t],
        n <= ops.len(),
        forall|c: int| 0 <= c < ops.len() ==> i < #[trigger] ops[c] < g.len(),
    ensures
        flat_upto(h, forward_rank(limit), ops, n, forward_rank(limit)(i)) == flat_upto(
            g,
            forward_rank(limit),
            ops,
            n,
            forward_rank(limit)(i),
        ),
    decreases g.len() - i, n,
{
    if n > 0 {
        lemma_flat_local_upto::<L>(g, h, limit, a, i, ops, (n - 1) as nat);
        assert(i < ops[n - 1] < g.len());
        lemma_flat_local::<L>(g, h, limit, a, ops[n - 1] as int);
    }
}


/// What a slot stands for does not depend on the rank under which the
/// arena is in order.
pub proof fn lemma_flat_any_rank<L: Language>(g: Graph<L::Shape>, first: Rank, second: Rank, i: int)
    requires
        ranked::<L>(g, first),
        ranked::<L>(g, second),
        0 <= i < g.len(),
    ensures
        flat_at(g, first, i) == flat_at(g, second, i),
    decreases first(i) + 1, 0nat,
{
    assert(slot_ranked::<L>(g, first, i));
    assert(slot_ranked::<L>(g, second, i));
    match g[i] {
        Slot::Var(_) => {},
        Slot::Op(k, ops) => {
            lemma_flat_any_rank_upto::<L>(g, first, second, ops, ops.len(), first(i), second(i));
        },
    }
}

proof fn lemma_flat_any_rank_upto<L: Language>(
    g: Graph<L::Shape>,
    first: Rank,
    second: Rank,
    ops: Seq<nat>,
    n: nat,
    bound: nat,
    other: nat,
)
    requires
        ranked::<L>(g, first),
        ranked::<L>(g, second),
        n <= ops.len(),
        forall|c: int|
            0 <= c < ops.len() ==> 0 <= #[trigger] ops[c] < g.len() && first(ops[c] as int) < bound
                && second(ops[c] as int) < other,
    ensures
        flat_upto(g, first, ops, n, bound) == flat_upto(g, second, ops, n, other),
    decreases bound, n,
{
    if n > 0 {
        assert(0 <= ops[n - 1] < g.len());
        lemma_flat_any_rank_upto::<L>(g, first, second, ops, (n - 1) as nat, bound, other);
        lemma_flat_any_rank::<L>(g, first, second, ops[n - 1] as int);
    }
}

} // verus!
