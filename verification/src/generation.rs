//! A generation, exactly: which candidates the pairs of theorems offer,
//! in which order and with which indices, and what the theorems become
//! when the candidates are merged into them.

use vstd::prelude::*;
use crate::context::{fits, Entries, Source};
use crate::formula::flat::Flat;
use crate::formula::language::modus_ponens::{law_mp_unique, mp_result};
use crate::formula::language::{Language, Normal};

verus! {

/// What is recorded of a theorem: its formula, its index, and its
/// sources in the order in which they were found.
pub type Record<K> = (Flat<K>, usize, Seq<Source>);

/// A candidate: a formula, the pair that gave it, and the index drawn
/// for it.
pub type Offer<K> = (Flat<K>, Source, usize);

/// What the entries record.
pub open spec fn records<L: Language>(e: Entries<L>) -> Seq<Record<L::Shape>> {
    e.map_values(|x: (Normal<L>, crate::context::Meta)| (x.0@, x.1.index, x.1.sources@))
}

/// The candidates, as plain values.
pub open spec fn offers_of<L: Language>(cs: Seq<(Normal<L>, Source, usize)>) -> Seq<
    Offer<L::Shape>,
> {
    cs.map_values(|c: (Normal<L>, Source, usize)| (c.0@, c.1, c.2))
}

/// What modus ponens gives of the premise `p` and the formula `f`.
pub open spec fn mp_of<L: Language>(p: Flat<L::Shape>, f: Flat<L::Shape>) -> Option<
    Flat<L::Shape>,
> {
    choose|o: Option<Flat<L::Shape>>| mp_result::<L>(p, f, o)
}

/// Whether one of the records is of the formula `r`.
pub open spec fn known<K>(m: Seq<Record<K>>, r: Flat<K>) -> bool {
    exists|k: int| 0 <= k < m.len() && (#[trigger] m[k]).0 == r
}

/// The place of the record of the formula `r`.
pub open spec fn place_of<K>(m: Seq<Record<K>>, r: Flat<K>) -> int {
    choose|k: int| 0 <= k < m.len() && (#[trigger] m[k]).0 == r
}

/// The records of a context that was seeded with the first `n` of the
/// formulas: each gets the next index, from 0 on, and the one source
/// `Axiom`; a formula that was given before is passed over.
pub open spec fn seeded<L: Language>(fs: Seq<Normal<L>>, n: int) -> Seq<Record<L::Shape>>
    decreases n,
{
    if n <= 0 {
        Seq::empty()
    } else {
        let m = seeded(fs, n - 1);
        if known(m, fs[n - 1]@) {
            m
        } else {
            m.push((fs[n - 1]@, m.len() as usize, seq![Source::Axiom]))
        }
    }
}

/// What the pair of the theorems at `i` and `j` offers: what modus
/// ponens gives of them, if they fit into an arena and it gives
/// something that is no theorem yet, with the pair as its source.
pub open spec fn offer<L: Language>(m: Seq<Record<L::Shape>>, i: int, j: int) -> Option<
    (Flat<L::Shape>, Source),
> {
    if fits::<L>(m[i].0, m[j].0) {
        match mp_of::<L>(m[i].0, m[j].0) {
            Some(r) => if known(m, r) {
                None
            } else {
                Some((r, Source::MP(m[i].1, m[j].1)))
            },
            None => None,
        }
    } else {
        None
    }
}

/// The candidates after the theorem at `i` was paired with the first
/// `j` theorems, where `before` are the candidates that there were. Each
/// gets the next index from `floor` on.
pub open spec fn offers_in_row<L: Language>(
    m: Seq<Record<L::Shape>>,
    floor: usize,
    i: int,
    j: int,
    before: Seq<Offer<L::Shape>>,
) -> Seq<Offer<L::Shape>>
    decreases j,
{
    if j <= 0 {
        before
    } else {
        let sofar = offers_in_row::<L>(m, floor, i, j - 1, before);
        match offer::<L>(m, i, j - 1) {
            Some((r, s)) => sofar.push((r, s, (floor + sofar.len()) as usize)),
            None => sofar,
        }
    }
}

/// The candidates after each of the first `i` theorems was paired with
/// every theorem, in order.
pub open spec fn offers<L: Language>(m: Seq<Record<L::Shape>>, floor: usize, i: int) -> Seq<
    Offer<L::Shape>,
>
    decreases i,
{
    if i <= 0 {
        Seq::empty()
    } else {
        offers_in_row::<L>(m, floor, i - 1, m.len() as int, offers::<L>(m, floor, i - 1))
    }
}

/// The records with one candidate merged into them: a formula that is
/// recorded gets the candidate's source after those that it has, if it
/// does not have it; one that is not recorded is recorded at the end,
/// with the candidate's index and source.
pub open spec fn absorb<K>(m: Seq<Record<K>>, c: Offer<K>) -> Seq<Record<K>> {
    if known(m, c.0) {
        let k = place_of(m, c.0);
        if m[k].2.contains(c.1) {
            m
        } else {
            m.update(k, (m[k].0, m[k].1, m[k].2.push(c.1)))
        }
    } else {
        m.push((c.0, c.2, seq![c.1]))
    }
}

/// The records with the first `n` candidates merged into them, one
/// after the other.
pub open spec fn absorb_all<K>(m: Seq<Record<K>>, cs: Seq<Offer<K>>, n: int) -> Seq<Record<K>>
    decreases n,
{
    if n <= 0 {
        m
    } else {
        absorb(absorb_all(m, cs, n - 1), cs[n - 1])
    }
}

/// The records after one generation: the candidates that the pairs of
/// theorems offer, merged into them.
pub open spec fn next_generation<L: Language>(m: Seq<Record<L::Shape>>, floor: usize) -> Seq<
    Record<L::Shape>,
> {
    let cs = offers::<L>(m, floor, m.len() as int);
    absorb_all(m, cs, cs.len() as int)
}

/// The records and the next index after `k` generations, from the
/// records `m` with the next index `floor`: each generation draws one
/// index for each candidate.
pub open spec fn generations<L: Language>(m: Seq<Record<L::Shape>>, floor: usize, k: nat) -> (
    Seq<Record<L::Shape>>,
    usize,
)
    decreases k,
{
    if k == 0 {
        (m, floor)
    } else {
        let before = generations::<L>(m, floor, (k - 1) as nat);
        (
            next_generation::<L>(before.0, before.1),
            (before.1 + offers::<L>(before.0, before.1, before.0.len() as int).len()) as usize,
        )
    }
}

/// What modus ponens was found to give is what it gives.
pub proof fn lemma_mp_of<L: Language>(
    p: Flat<L::Shape>,
    f: Flat<L::Shape>,
    found: Option<Flat<L::Shape>>,
)
    requires
        mp_result::<L>(p, f, found),
    ensures
        mp_of::<L>(p, f) == found,
{
    law_mp_unique::<L>(p, f, mp_of::<L>(p, f), found);
}

/// Where no two records are of one formula, the record of a formula
/// stands at its place.
pub proof fn lemma_place_of<K>(m: Seq<Record<K>>, k: int)
    requires
        0 <= k < m.len(),
        forall|a: int, b: int| 0 <= a < b < m.len() ==> (#[trigger] m[a]).0 != (#[trigger] m[b]).0,
    ensures
        known(m, m[k].0),
        place_of(m, m[k].0) == k,
{
    let at = place_of(m, m[k].0);
    if at < k {
        assert(m[at].0 != m[k].0);
    } else if k < at {
        assert(m[k].0 != m[at].0);
    }
}

} // verus!
