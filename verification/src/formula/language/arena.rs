//! Arenas: the working space in which formulas are written with the
//! positions of their operands, and from which they are read back.

use vstd::prelude::*;

use crate::formula::canon::{
    canon, is_canonical, lemma_canon_is_canonical, lemma_rename_is_formula, occurs_in, shift,
    variables,
};
use crate::formula::flat::{
    end_of, lemma_skip_lower, lemma_skip_more, lemma_skip_split, skip, subterm, Flat, Sym,
};
use crate::formula::graph::{
    flat_at, flat_upto, forward, forward_rank, lemma_flat_any_rank, lemma_flat_is_formula,
    lemma_flat_local, lemma_forward_ranked, ranked, slot_ranked, Graph, Rank, Slot,
};
use crate::formula::subst::{apply, single};
use crate::formula::unify::{lemma_replaced_flat, lemma_replaced_ranked, lifted, replaced};
use crate::formula::language::{
    arena_limit, graph_of, slot_of, sym_of, syms_of, Language, Normal, Term,
};

verus! {

/// The operands' terms, one after the other, are what `f` holds between
/// the positions at which the first and the last of them begin and end,
/// shifted.
proof fn lemma_upto_pieces<L: Language>(
    h: Graph<L::Shape>,
    rk: Rank,
    ops: Seq<nat>,
    m: nat,
    bound: nat,
    f: Flat<L::Shape>,
    p: int,
    by: nat,
)
    requires
        m <= ops.len(),
        0 <= p <= f.len(),
        skip::<L>(f, p, m) <= f.len(),
        forall|t: int|
            0 <= t < m ==> rk(#[trigger] ops[t] as int) < bound && flat_at(h, rk, ops[t] as int)
                == shift(
                f.subrange(skip::<L>(f, p, t as nat), skip::<L>(f, p, (t + 1) as nat)),
                by,
            ),
    ensures
        flat_upto(h, rk, ops, m, bound) == shift(f.subrange(p, skip::<L>(f, p, m)), by),
    decreases m,
{
    if m == 0 {
        assert(flat_upto(h, rk, ops, m, bound) =~= shift(f.subrange(p, skip::<L>(f, p, m)), by));
    } else {
        let before = (m - 1) as nat;
        lemma_skip_more::<L>(f, p, before, 1);
        lemma_skip_lower::<L>(f, p, before);
        lemma_upto_pieces::<L>(h, rk, ops, before, bound, f, p, by);
        let a = skip::<L>(f, p, before);
        let b = skip::<L>(f, p, m);
        assert(rk(ops[m - 1] as int) < bound);
        assert(flat_at(h, rk, ops[m - 1] as int) == shift(f.subrange(a, b), by));
        assert(shift(f.subrange(p, a), by) + shift(f.subrange(a, b), by) =~= shift(
            f.subrange(p, b),
            by,
        ));
    }
}

/// The slot that stands for the symbol at `k` of `f`, where each symbol
/// of `f` is written `d` places after its own position and `by` is added
/// to each variable: a constructor's operands are the places at which
/// its operands begin.
pub open spec fn laid<L: Language>(f: Flat<L::Shape>, k: int, d: int, by: nat) -> Slot<L::Shape> {
    match f[k] {
        Sym::Var(v) => Slot::Var(v + by),
        Sym::Op(op) => Slot::Op(
            op,
            Seq::new(L::arity(op), |j: int| (d + skip::<L>(f, k + 1, j as nat)) as nat),
        ),
    }
}

impl<L: Language> Normal<L> {
    /// Appends the subterm of `val` that begins at `pos` to `arena`, with
    /// `var_increment` added to each variable, and returns the number of
    /// slots written. `offset` is the arena position of the first of
    /// them. A constructor's slot is reserved before its operands are
    /// written, and filled in once their positions are known.
    pub fn write_with_offset(
        val: &Vec<Term<L::Shape>>,
        pos: usize,
        arena: &mut Vec<Term<L::Node>>,
        offset: u16,
        var_increment: u16,
    ) -> (written: u16)
        requires
            pos < val@.len(),
            end_of::<L>(syms_of(val@), pos as int) <= val@.len(),
            old(arena)@.len() == offset,
            offset + (end_of::<L>(syms_of(val@), pos as int) - pos) <= u16::MAX,
            forward::<L>(graph_of::<L>(old(arena)@)),
            forall|t: int|
                pos <= t < end_of::<L>(syms_of(val@), pos as int) ==> (#[trigger] val@[t]
                    matches Term::Var(x) ==> x + var_increment <= u16::MAX),
        ensures
            written == end_of::<L>(syms_of(val@), pos as int) - pos,
            final(arena)@.len() == offset + written,
            forall|t: int| 0 <= t < offset ==> final(arena)@[t] == old(arena)@[t],
            forward::<L>(graph_of::<L>(final(arena)@)),
            flat_at(graph_of::<L>(final(arena)@), forward_rank(arena_limit()), offset as int)
                == shift(subterm::<L>(syms_of(val@), pos as int), var_increment as nat),
            forall|k: int|
                pos <= k < end_of::<L>(syms_of(val@), pos as int) ==> slot_of::<L>(
                    final(arena)@[offset - pos + k],
                ) == #[trigger] laid::<L>(syms_of(val@), k, offset - pos, var_increment as nat),
        decreases val@.len() - pos,
    {
        let ghost f = syms_of(val@);
        let ghost rk = forward_rank(arena_limit());
        let ghost before = arena@;
        proof {
            lemma_skip_lower::<L>(f, pos as int, 1);
            assert(f[pos as int] == sym_of(val@[pos as int]));
        }
        match val[pos] {
            Term::Var(x) => {
                arena.push(Term::Var(x + var_increment));
                proof {
                    let g = graph_of::<L>(arena@);
                    assert(f[pos as int] == Sym::<L::Shape>::Var(x as nat));
                    assert(skip::<L>(f, pos as int + 1, 0) == pos + 1);
                    assert(forall|t: int| 0 <= t < offset ==> g[t] == graph_of::<L>(before)[t]);
                    assert(flat_at(g, rk, offset as int) =~= shift(
                        subterm::<L>(f, pos as int),
                        var_increment as nat,
                    ));
                    assert(slot_of::<L>(arena@[offset as int]) == laid::<L>(
                        f,
                        pos as int,
                        offset - pos,
                        var_increment as nat,
                    ));
                }
                1
            },
            Term::Term(shape) => {
                let n = L::degree(&shape);
                let total = val.len();
                let ghost p = pos as int + 1;
                let ghost j = end_of::<L>(f, pos as int);
                arena.push(Term::Var(0));
                let mut kids: Vec<u16> = Vec::new();
                let mut index: u16 = 1;
                let mut k: usize = 0;
                proof {
                    assert(f[pos as int] == Sym::<L::Shape>::Op(shape));
                    assert(j == skip::<L>(f, p, n as nat));
                    lemma_skip_lower::<L>(f, p, n as nat);
                    let g = graph_of::<L>(arena@);
                    assert(forall|t: int| 0 <= t < offset ==> g[t] == graph_of::<L>(before)[t]);
                }
                while k < n
                    invariant
                        f == syms_of(val@),
                        rk == forward_rank(arena_limit()),
                        p == pos + 1,
                        pos < val@.len(),
                        total == val@.len(),
                        j == skip::<L>(f, p, n as nat),
                        j <= val@.len(),
                        offset + (j - pos) <= u16::MAX,
                        forall|t: int|
                            pos <= t < j ==> (#[trigger] val@[t] matches Term::Var(x) ==> x
                                + var_increment <= u16::MAX),
                        k <= n,
                        index == skip::<L>(f, p, k as nat) - pos,
                        skip::<L>(f, p, k as nat) <= j,
                        arena@.len() == offset + index,
                        kids@.len() == k,
                        forall|t: int|
                            0 <= t < k ==> #[trigger] kids@[t] == offset + (skip::<L>(
                                f,
                                p,
                                t as nat,
                            ) - pos),
                        forward::<L>(graph_of::<L>(arena@)),
                        forall|t: int| 0 <= t < offset ==> arena@[t] == before[t],
                        forall|t: int|
                            p <= t < pos + index ==> slot_of::<L>(arena@[offset - pos + t])
                                == #[trigger] laid::<L>(
                                f,
                                t,
                                offset - pos,
                                var_increment as nat,
                            ),
                        forall|t: int|
                            0 <= t < k ==> flat_at(
                                graph_of::<L>(arena@),
                                rk,
                                #[trigger] kids@[t] as int,
                            ) == shift(
                                f.subrange(
                                    skip::<L>(f, p, t as nat),
                                    skip::<L>(f, p, (t + 1) as nat),
                                ),
                                var_increment as nat,
                            ),
                    decreases n - k,
                {
                    let ghost here = skip::<L>(f, p, k as nat);
                    let ghost there = skip::<L>(f, p, (k + 1) as nat);
                    let ghost g = graph_of::<L>(arena@);
                    let ghost slots = arena@;
                    proof {
                        lemma_skip_lower::<L>(f, p, k as nat);
                        lemma_skip_split::<L>(f, p, k as nat, 1);
                        lemma_skip_more::<L>(f, p, (k + 1) as nat, (n - k - 1) as nat);
                        assert(there == end_of::<L>(f, here));
                        assert(there <= j);
                    }
                    let w = Self::write_with_offset(
                        val,
                        pos + index as usize,
                        arena,
                        offset + index,
                        var_increment,
                    );
                    kids.push(offset + index);
                    proof {
                        let h = graph_of::<L>(arena@);
                        assert forall|t: int| 0 <= t < g.len() implies h[t] == g[t] by {
                            assert(arena@[t] == slots[t]);
                        }
                        assert forall|t: int| p <= t < there implies slot_of::<L>(
                            arena@[offset - pos + t],
                        ) == #[trigger] laid::<L>(f, t, offset - pos, var_increment as nat) by {
                            if t < here {
                                assert(arena@[offset - pos + t] == slots[offset - pos + t]);
                            }
                        }
                        assert forall|t: int| 0 <= t < k + 1 implies flat_at(
                            h,
                            rk,
                            #[trigger] kids@[t] as int,
                        ) == shift(
                            f.subrange(skip::<L>(f, p, t as nat), skip::<L>(f, p, (t + 1) as nat)),
                            var_increment as nat,
                        ) by {
                            if t < k {
                                lemma_skip_lower::<L>(f, p, t as nat);
                                lemma_skip_more::<L>(f, p, t as nat, (k - t) as nat);
                                lemma_flat_local::<L>(g, h, arena_limit(), 0, kids@[t] as int);
                            }
                        }
                    }
                    index = index + w;
                    k = k + 1;
                }
                let node = L::place(&shape, kids.as_slice());
                let ghost g = graph_of::<L>(arena@);
                let ghost slots = arena@;
                arena.set(offset as usize, Term::Term(node));
                proof {
                    L::laws();
                    let h = graph_of::<L>(arena@);
                    let ops = L::operands(node).map_values(|c: u16| c as nat);
                    assert(h[offset as int] == Slot::Op(shape, ops));
                    assert forall|t: int| pos <= t < j implies slot_of::<L>(
                        arena@[offset - pos + t],
                    ) == #[trigger] laid::<L>(f, t, offset - pos, var_increment as nat) by {
                        if t == pos {
                            let places = Seq::new(
                                L::arity(shape),
                                |c: int| (offset - pos + skip::<L>(f, pos + 1, c as nat)) as nat,
                            );
                            assert forall|c: int| 0 <= c < n implies ops[c] == places[c] by {
                                assert(ops[c] == kids@[c]);
                                lemma_skip_lower::<L>(f, p, c as nat);
                            }
                            assert(ops =~= places);
                        } else {
                            assert(arena@[offset - pos + t] == slots[offset - pos + t]);
                        }
                    }
                    assert forall|t: int| 0 <= t < n implies offset < #[trigger] ops[t]
                        < h.len() by {
                        assert(ops[t] == kids@[t]);
                        lemma_skip_lower::<L>(f, p, t as nat);
                        lemma_skip_more::<L>(f, p, t as nat, (n - t) as nat);
                    }
                    assert forall|i: int| 0 <= i < h.len() implies match #[trigger] h[i] {
                        Slot::Var(_) => true,
                        Slot::Op(k, ops) => ops.len() == L::arity(k) && forall|c: int|
                            0 <= c < ops.len() ==> i < #[trigger] ops[c] < h.len(),
                    } by {
                        if i != offset {
                            assert(h[i] == g[i]);
                        }
                    }
                    assert forall|t: int| 0 <= t < n implies rk(#[trigger] ops[t] as int) < rk(
                        offset as int,
                    ) && flat_at(h, rk, ops[t] as int) == shift(
                        f.subrange(skip::<L>(f, p, t as nat), skip::<L>(f, p, (t + 1) as nat)),
                        var_increment as nat,
                    ) by {
                        assert(ops[t] == kids@[t]);
                        assert(offset < ops[t] < h.len());
                        lemma_flat_local::<L>(g, h, arena_limit(), offset as int + 1, ops[t] as int);
                    }
                    lemma_upto_pieces::<L>(
                        h,
                        rk,
                        ops,
                        n as nat,
                        rk(offset as int),
                        f,
                        p,
                        var_increment as nat,
                    );
                    assert(seq![Sym::<L::Shape>::Op(shape)] + shift(
                        f.subrange(p, j),
                        var_increment as nat,
                    ) =~= shift(subterm::<L>(f, pos as int), var_increment as nat));
                }
                index
            },
        }
    }
}

/// The number of positions that have no stamp yet: a stamp is a
/// positive number.
spec fn unstamped(stamp: Seq<usize>) -> nat
    decreases stamp.len(),
{
    if stamp.len() == 0 {
        0
    } else {
        unstamped(stamp.drop_last()) + if stamp.last() == 0 {
            1nat
        } else {
            0nat
        }
    }
}

/// A stamp given to a position that had none leaves one position less
/// without.
proof fn lemma_unstamped_less(stamp: Seq<usize>, i: int, v: usize)
    requires
        0 <= i < stamp.len(),
        stamp[i] == 0,
        v != 0,
    ensures
        unstamped(stamp.update(i, v)) + 1 == unstamped(stamp),
    decreases stamp.len(),
{
    if i == stamp.len() - 1 {
        assert(stamp.update(i, v).drop_last() =~= stamp.drop_last());
    } else {
        assert(stamp.update(i, v).drop_last() =~= stamp.drop_last().update(i, v));
        lemma_unstamped_less(stamp.drop_last(), i, v);
    }
}

/// The stamps as a rank.
spec fn stamps(stamp: Seq<usize>) -> Rank {
    |i: int|
        if 0 <= i < stamp.len() {
            stamp[i] as nat
        } else {
            0nat
        }
}

/// Whether the slot at `i` is in order under the stamps: its operands
/// lie in the arena and have stamps, lower than its own.
spec fn settled<L: Language>(g: Graph<L::Shape>, stamp: Seq<usize>, i: int) -> bool {
    match g[i] {
        Slot::Var(_) => true,
        Slot::Op(k, ops) => ops.len() == L::arity(k) && forall|c: int|
            0 <= c < ops.len() ==> #[trigger] ops[c] < g.len() && 0 < stamp[ops[c] as int]
                < stamp[i],
    }
}

/// Whether the slot at `i` has an operand outside the arena.
spec fn beyond<L: Language>(g: Graph<L::Shape>, i: int) -> bool {
    match g[i] {
        Slot::Var(_) => false,
        Slot::Op(_, ops) => exists|c: int| 0 <= c < ops.len() && #[trigger] ops[c] >= g.len(),
    }
}

/// Whether the slot at `i` has an operand in the arena without a stamp.
spec fn waits<L: Language>(g: Graph<L::Shape>, stamp: Seq<usize>, i: int) -> bool {
    match g[i] {
        Slot::Var(_) => false,
        Slot::Op(_, ops) => exists|c: int|
            0 <= c < ops.len() && #[trigger] ops[c] < g.len() && stamp[ops[c] as int] == 0,
    }
}

/// Where every slot without a stamp waits for another such slot, none of
/// them has a rank: the slot it waits for would rank lower, and so on
/// without end.
proof fn lemma_waits_for_ever<L: Language>(g: Graph<L::Shape>, rk: Rank, stamp: Seq<usize>, i: int)
    requires
        stamp.len() == g.len(),
        forall|t: int| 0 <= t < g.len() && stamp[t] == 0 ==> #[trigger] waits::<L>(g, stamp, t),
        0 <= i < g.len(),
        stamp[i] == 0,
    ensures
        !ranked::<L>(g, rk),
    decreases rk(i),
{
    if ranked::<L>(g, rk) {
        assert(waits::<L>(g, stamp, i));
        assert(slot_ranked::<L>(g, rk, i));
        if let Slot::Op(_, ops) = g[i] {
            let c = choose|c: int|
                0 <= c < ops.len() && #[trigger] ops[c] < g.len() && stamp[ops[c] as int] == 0;
            lemma_waits_for_ever::<L>(g, rk, stamp, ops[c] as int);
        }
    }
}

/// The working space of unification: terms whose operands are positions
/// in the same arena.
pub struct Arena<L: Language> {
    slots: Vec<Term<L::Node>>,
    rank: Ghost<Rank>,
}

impl<L: Language> View for Arena<L> {
    type V = Graph<L::Shape>;

    closed spec fn view(&self) -> Graph<L::Shape> {
        graph_of::<L>(self.slots@)
    }
}

impl<L: Language> Arena<L> {
    /// A rank under which the arena is in order.
    pub closed spec fn rank(&self) -> Rank {
        self.rank@
    }

    /// Whether the arena is in order: no slot lies below itself, every
    /// operand lies in the arena, and a 16-bit number names each slot.
    pub open spec fn wf(&self) -> bool {
        ranked::<L>(self@, self.rank()) && self@.len() <= arena_limit()
    }

    /// The term that the slot at `i` stands for, in prefix order.
    pub open spec fn term_at(&self, i: int) -> Flat<L::Shape> {
        flat_at(self@, self.rank(), i)
    }

    /// Whether the operands of the slot at `i` are all stamped: `None`
    /// where one of them lies outside the arena.
    fn ready(slots: &Vec<Term<L::Node>>, stamp: &Vec<usize>, i: usize) -> (found: Option<bool>)
        requires
            i < slots@.len(),
            stamp@.len() == slots@.len(),
        ensures
            found is None ==> beyond::<L>(graph_of::<L>(slots@), i as int),
            found == Some(false) ==> waits::<L>(graph_of::<L>(slots@), stamp@, i as int),
            found == Some(true) ==> match graph_of::<L>(slots@)[i as int] {
                Slot::Var(_) => true,
                Slot::Op(k, ops) => ops.len() == L::arity(k) && forall|c: int|
                    0 <= c < ops.len() ==> #[trigger] ops[c] < slots@.len()
                        && stamp@[ops[c] as int] != 0,
            },
    {
        let n = slots.len();
        match slots[i] {
            Term::Var(_) => Some(true),
            Term::Term(node) => {
                let kids = L::children(&node);
                let ghost g = graph_of::<L>(slots@);
                let ghost ops = L::operands(node).map_values(|c: u16| c as nat);
                proof {
                    L::laws();
                    assert(g[i as int] == Slot::Op(L::shape_of(node), ops));
                }
                let mut c: usize = 0;
                while c < kids.len()
                    invariant
                        n == slots@.len(),
                        stamp@.len() == n,
                        i < n,
                        c <= kids@.len(),
                        kids@ == L::operands(node),
                        ops == L::operands(node).map_values(|c: u16| c as nat),
                        g == graph_of::<L>(slots@),
                        g[i as int] == Slot::Op(L::shape_of(node), ops),
                        forall|d: int|
                            0 <= d < c ==> #[trigger] ops[d] < n && stamp@[ops[d] as int] != 0,
                    decreases kids@.len() - c,
                {
                    let at = kids[c] as usize;
                    proof {
                        assert(ops[c as int] == at);
                    }
                    if at >= n {
                        proof {
                            assert(g.len() == n);
                            assert(0 <= c < ops.len() && ops[c as int] >= g.len());
                            assert(g[i as int]->Op_1 == ops);
                        }
                        return None;
                    }
                    if stamp[at] == 0 {
                        proof {
                            assert(g.len() == n);
                            assert(0 <= c < ops.len() && ops[c as int] < g.len()
                                && stamp@[ops[c as int] as int] == 0);
                            assert(g[i as int]->Op_1 == ops);
                        }
                        return Some(false);
                    }
                    c += 1;
                }
                Some(true)
            },
        }
    }

    /// Makes an arena of slots none of which lies below itself and whose
    /// operands all lie among them, in whatever order they stand; of
    /// other slots, and of more than a 16-bit number can name, none.
    ///
    /// The slots are stamped in rounds: a slot gets the next stamp once
    /// all its operands have one. Where a round stamps nothing and a slot
    /// is left without, that slot lies below itself.
    pub fn new(slots: Vec<Term<L::Node>>) -> (made: Option<Self>)
        ensures
            made is Some <==> (exists|rk: Rank| ranked::<L>(graph_of::<L>(slots@), rk))
                && slots@.len() <= arena_limit(),
            made is Some ==> made.unwrap()@ == graph_of::<L>(slots@) && made.unwrap().wf(),
            made is Some && forward::<L>(graph_of::<L>(slots@)) ==> made.unwrap().rank()
                == forward_rank(arena_limit()),
    {
        let n = slots.len();
        if n > 0x10000 {
            return None;
        }
        let ghost g = graph_of::<L>(slots@);
        let mut stamp: Vec<usize> = Vec::new();
        let mut i: usize = 0;
        while i < n
            invariant
                i <= n,
                stamp@.len() == i,
                unstamped(stamp@) == i,
                forall|t: int| 0 <= t < i ==> stamp@[t] == 0,
            decreases n - i,
        {
            proof {
                assert(stamp@.push(0).drop_last() =~= stamp@);
            }
            stamp.push(0);
            i += 1;
        }
        let mut given: usize = 0;
        let mut changed = true;
        while changed
            invariant
                n == slots@.len(),
                n <= 0x10000,
                g == graph_of::<L>(slots@),
                stamp@.len() == n,
                given + unstamped(stamp@) == n,
                forall|t: int| 0 <= t < n ==> #[trigger] stamp@[t] <= given,
                forall|t: int| 0 <= t < n && stamp@[t] != 0 ==> #[trigger] settled::<L>(g, stamp@, t),
                !changed ==> forall|t: int|
                    0 <= t < n && stamp@[t] == 0 ==> #[trigger] waits::<L>(g, stamp@, t),
            decreases unstamped(stamp@), if changed { 1nat } else { 0nat },
        {
            changed = false;
            let ghost first = stamp@;
            let mut i: usize = 0;
            while i < n
                invariant
                    n == slots@.len(),
                    n <= 0x10000,
                    g == graph_of::<L>(slots@),
                    stamp@.len() == n,
                    i <= n,
                    given + unstamped(stamp@) == n,
                    forall|t: int| 0 <= t < n ==> #[trigger] stamp@[t] <= given,
                    forall|t: int|
                        0 <= t < n && stamp@[t] != 0 ==> #[trigger] settled::<L>(g, stamp@, t),
                    !changed ==> stamp@ == first,
                    changed ==> unstamped(stamp@) < unstamped(first),
                    !changed ==> forall|t: int|
                        0 <= t < i && stamp@[t] == 0 ==> #[trigger] waits::<L>(g, stamp@, t),
                decreases n - i,
            {
                if stamp[i] == 0 {
                    match Self::ready(&slots, &stamp, i) {
                        None => {
                            proof {
                                assert forall|rk: Rank| !ranked::<L>(g, rk) by {
                                    if ranked::<L>(g, rk) {
                                        assert(slot_ranked::<L>(g, rk, i as int));
                                    }
                                }
                            }
                            return None;
                        },
                        Some(false) => {},
                        Some(true) => {
                            let ghost earlier = stamp@;
                            proof {
                                lemma_unstamped_less(earlier, i as int, (given + 1) as usize);
                            }
                            given = given + 1;
                            stamp.set(i, given);
                            changed = true;
                            proof {
                                assert forall|t: int|
                                    0 <= t < n && stamp@[t] != 0 implies #[trigger] settled::<L>(
                                    g,
                                    stamp@,
                                    t,
                                ) by {
                                    if t != i {
                                        assert(settled::<L>(g, earlier, t));
                                    }
                                }
                            }
                        },
                    }
                }
                i += 1;
            }
        }
        let mut i: usize = 0;
        while i < n
            invariant
                n == slots@.len(),
                g == graph_of::<L>(slots@),
                stamp@.len() == n,
                i <= n,
                forall|t: int|
                    0 <= t < n && stamp@[t] == 0 ==> #[trigger] waits::<L>(g, stamp@, t),
                forall|t: int| 0 <= t < i ==> #[trigger] stamp@[t] != 0,
            decreases n - i,
        {
            if stamp[i] == 0 {
                proof {
                    assert forall|rk: Rank| !ranked::<L>(g, rk) by {
                        lemma_waits_for_ever::<L>(g, rk, stamp@, i as int);
                    }
                }
                return None;
            }
            i += 1;
        }
        let ghost rk = if forward::<L>(g) {
            forward_rank(arena_limit())
        } else {
            stamps(stamp@)
        };
        proof {
            if forward::<L>(g) {
                lemma_forward_ranked::<L>(g, arena_limit());
            } else {
                assert forall|t: int| 0 <= t < g.len() implies #[trigger] slot_ranked::<L>(
                    g,
                    rk,
                    t,
                ) by {
                    assert(settled::<L>(g, stamp@, t));
                }
            }
            assert(ranked::<L>(g, rk));
        }
        Some(Arena { slots, rank: Ghost(rk) })
    }

    /// The number of slots.
    pub fn len(&self) -> (n: usize)
        ensures
            n == self@.len(),
    {
        self.slots.len()
    }

    /// The slot at a position.
    pub fn slot(&self, at: usize) -> (term: Term<L::Node>)
        requires
            at < self@.len(),
        ensures
            slot_of::<L>(term) == self@[at as int],
    {
        self.slots[at]
    }

    /// An arena of slots to which formulas were written, and nothing
    /// else.
    pub(super) fn of_written(slots: Vec<Term<L::Node>>) -> (made: Self)
        requires
            forward::<L>(graph_of::<L>(slots@)),
            slots@.len() <= arena_limit(),
        ensures
            made@ == graph_of::<L>(slots@),
            made.rank() == forward_rank(arena_limit()),
            made.wf(),
    {
        proof {
            lemma_forward_ranked::<L>(graph_of::<L>(slots@), arena_limit());
        }
        Arena { slots, rank: Ghost(forward_rank(arena_limit())) }
    }
}

impl<L: Language> Normal<L> {
    /// Appends the formula to `arena`, with `var_increment` added to
    /// each variable, and returns the position of its root.
    pub fn write_into(&self, arena: &mut Vec<Term<L::Node>>, var_increment: u16) -> (start: u16)
        requires
            forward::<L>(graph_of::<L>(old(arena)@)),
            old(arena)@.len() + self@.len() <= u16::MAX,
            forall|v: nat| occurs_in(self@, v) ==> v + var_increment <= u16::MAX,
        ensures
            start == old(arena)@.len(),
            final(arena)@.len() == old(arena)@.len() + self@.len(),
            forall|t: int| 0 <= t < start ==> final(arena)@[t] == old(arena)@[t],
            forward::<L>(graph_of::<L>(final(arena)@)),
            flat_at(graph_of::<L>(final(arena)@), forward_rank(arena_limit()), start as int)
                == shift(self@, var_increment as nat),
            forall|k: int|
                0 <= k < self@.len() ==> slot_of::<L>(#[trigger] final(arena)@[start + k])
                    == match self@[k] {
                    Sym::Var(v) => Slot::Var((v + var_increment) as nat),
                    Sym::Op(op) => Slot::Op(
                        op,
                        Seq::new(
                            L::arity(op),
                            |j: int| (start + skip::<L>(self@, k + 1, j as nat)) as nat,
                        ),
                    ),
                },
    {
        proof {
            use_type_invariant(self);
            let f = self@;
            assert(subterm::<L>(f, 0) =~= f);
            assert forall|t: int| 0 <= t < f.len() implies (#[trigger] self.terms@[t]
                matches Term::Var(x) ==> x + var_increment <= u16::MAX) by {
                if let Term::Var(x) = self.terms@[t] {
                    assert(f[t] == Sym::<L::Shape>::Var(x as nat));
                    assert(occurs_in(f, x as nat));
                }
            }
        }
        let start = arena.len() as u16;
        Self::write_with_offset(&self.terms, 0, arena, start, var_increment);
        proof {
            let f = self@;
            assert forall|k: int| 0 <= k < f.len() implies slot_of::<L>(
                #[trigger] arena@[start + k],
            ) == match f[k] {
                Sym::Var(v) => Slot::<L::Shape>::Var((v + var_increment) as nat),
                Sym::Op(op) => Slot::Op(
                    op,
                    Seq::new(
                        L::arity(op),
                        |j: int| (start + skip::<L>(f, k + 1, j as nat)) as nat,
                    ),
                ),
            } by {
                let _ = laid::<L>(f, k, start as int, var_increment as nat);
                assert(slot_of::<L>(arena@[start - 0 + k]) == laid::<L>(
                    f,
                    k,
                    start - 0,
                    var_increment as nat,
                ));
            }
        }
        start
    }

    /// The formula that the slot at `idx` stands for, read from the
    /// arena depth first, with canonical variable names.
    pub fn from_arena(arena: &Arena<L>, idx: usize) -> (read: Self)
        requires
            arena.wf(),
            idx < arena@.len(),
        ensures
            read@ == canon(arena.term_at(idx as int)),
    {
        let mut v: Vec<Term<L::Shape>> = Vec::new();
        Self::read_term(&mut v, arena, idx);
        proof {
            assert(syms_of(v@) =~= arena.term_at(idx as int));
            lemma_flat_is_formula::<L>(arena@, arena.rank(), idx as int);
        }
        Self::normalize_vars(&mut v);
        proof {
            let f = arena.term_at(idx as int);
            lemma_rename_is_formula::<L>(f, |v: nat| crate::formula::canon::label(f, v));
            lemma_canon_is_canonical(f);
        }
        Normal { terms: v }
    }

    /// Appends the term that the slot at `idx` stands for to `v`.
    fn read_term(v: &mut Vec<Term<L::Shape>>, arena: &Arena<L>, idx: usize)
        requires
            arena.wf(),
            idx < arena@.len(),
        ensures
            syms_of(final(v)@) == syms_of(old(v)@) + arena.term_at(idx as int),
        decreases arena.rank()(idx as int),
    {
        let ghost g = arena@;
        let ghost rk = arena.rank();
        let ghost before = syms_of(v@);
        proof {
            assert(slot_ranked::<L>(g, rk, idx as int));
            assert(g[idx as int] == slot_of::<L>(arena.slots@[idx as int]));
        }
        match arena.slots[idx] {
            Term::Var(x) => {
                v.push(Term::Var(x));
                proof {
                    assert(syms_of(v@) =~= before + arena.term_at(idx as int));
                }
            },
            Term::Term(node) => {
                v.push(Term::Term(L::erase(&node)));
                let kids = L::children(&node);
                let ghost ops = L::operands(node).map_values(|c: u16| c as nat);
                let ghost head = seq![Sym::<L::Shape>::Op(L::shape_of(node))];
                let mut k: usize = 0;
                proof {
                    assert(syms_of(v@) =~= before + head + flat_upto(
                        g,
                        rk,
                        ops,
                        0,
                        rk(idx as int),
                    ));
                }
                while k < kids.len()
                    invariant
                        arena.wf(),
                        g == arena@,
                        rk == arena.rank(),
                        idx < g.len(),
                        kids@ == L::operands(node),
                        ops == L::operands(node).map_values(|c: u16| c as nat),
                        g[idx as int] == Slot::Op(L::shape_of(node), ops),
                        k <= kids@.len(),
                        syms_of(v@) == before + head + flat_upto(
                            g,
                            rk,
                            ops,
                            k as nat,
                            rk(idx as int),
                        ),
                    decreases kids@.len() - k,
                {
                    let ghost sofar = syms_of(v@);
                    proof {
                        assert(slot_ranked::<L>(g, rk, idx as int));
                        assert(0 <= ops[k as int] < g.len() && rk(ops[k as int] as int) < rk(
                            idx as int,
                        ));
                        assert(ops[k as int] == kids@[k as int]);
                    }
                    Self::read_term(v, arena, kids[k] as usize);
                    k += 1;
                }
                proof {
                    assert(syms_of(v@) =~= before + arena.term_at(idx as int));
                }
            },
        }
    }
}

impl<L: Language> Arena<L> {
    /// Puts a copy of the slot at `from` into every slot that holds the
    /// variable `var`. The variable must not stand below that slot, or a
    /// term would come to lie below itself.
    pub fn substitute(&mut self, var: u16, from: usize)
        requires
            old(self).wf(),
            from < old(self)@.len(),
            !occurs_in(old(self).term_at(from as int), var as nat),
        ensures
            final(self)@ == replaced(old(self)@, var as nat, old(self)@[from as int]),
            final(self).rank() == lifted(
                old(self)@,
                old(self).rank(),
                var as nat,
                old(self).rank()(from as int) + 1,
            ),
            final(self).wf(),
            forall|i: int|
                0 <= i < old(self)@.len() ==> #[trigger] final(self).term_at(i) == apply(
                    single(var as nat, old(self).term_at(from as int)),
                    old(self).term_at(i),
                ),
    {
        let ghost g = self@;
        let ghost rk = self.rank();
        let ghost before = self.slots@;
        let term = self.slots[from];
        let n = self.slots.len();
        let mut i: usize = 0;
        while i < n
            invariant
                n == self.slots@.len() == before.len(),
                i <= n,
                self.rank() == rk,
                forall|t: int|
                    0 <= t < i ==> #[trigger] self.slots@[t] == (if before[t] == Term::<
                        L::Node,
                    >::Var(var) {
                        term
                    } else {
                        before[t]
                    }),
                forall|t: int| i <= t < n ==> #[trigger] self.slots@[t] == before[t],
            decreases n - i,
        {
            match self.slots[i] {
                Term::Var(v) => {
                    if v == var {
                        self.slots.set(i, term);
                    }
                },
                Term::Term(_) => {},
            }
            i += 1;
        }
        proof {
            let h = replaced(g, var as nat, g[from as int]);
            assert forall|t: int| 0 <= t < n implies self@[t] == h[t] by {
                assert(g[t] == slot_of::<L>(before[t]));
                assert(g[from as int] == slot_of::<L>(term));
                match before[t] {
                    Term::Var(v) => {},
                    Term::Term(node) => {},
                }
            }
            assert(self@ =~= h);
            lemma_replaced_ranked::<L>(g, rk, var as nat, from as int);
        }
        self.rank = Ghost(lifted(g, rk, var as nat, rk(from as int) + 1));
        proof {
            assert forall|i: int| 0 <= i < g.len() implies #[trigger] self.term_at(i) == apply(
                single(var as nat, flat_at(g, rk, from as int)),
                flat_at(g, rk, i),
            ) by {
                lemma_replaced_flat::<L>(g, rk, var as nat, from as int, i);
            }
        }
    }
}

/// Writing and reading back. Let the formula `f`, which has canonical
/// variable names as every `Normal` has, be written to slots with
/// nothing added to its variables, so that the slot at `at` stands for
/// it; and let an arena be made of the slots, in order under whatever
/// rank `rk`. Then what is read from the arena at `at` is `f`.
pub proof fn law_write_read<L: Language>(f: Flat<L::Shape>, g: Graph<L::Shape>, rk: Rank, at: int)
    requires
        is_canonical(f),
        forward::<L>(g),
        g.len() <= arena_limit(),
        0 <= at < g.len(),
        flat_at(g, forward_rank(arena_limit()), at) == shift(f, 0),
        ranked::<L>(g, rk),
    ensures
        canon(flat_at(g, rk, at)) == f,
{
    lemma_forward_ranked::<L>(g, arena_limit());
    lemma_flat_any_rank::<L>(g, forward_rank(arena_limit()), rk, at);
    assert(shift(f, 0) =~= f);
    crate::formula::canon::lemma_canonical_fixed(f);
}

} // verus!
