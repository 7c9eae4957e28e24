//! Formulas and the operations on them.
//!
//! A formula comes in three forms. A tree ([`tree`]) is what the infix
//! notation is read into. An arena formula ([`Formula`]) holds a tree in
//! a run of slots whose operands are positions in the run; unification
//! works on arenas, by substitution in place. A flat formula
//! ([`Normal`], and [`language::Normal`] over any alphabet) is the prefix
//! form with canonical variable names, which is what is compared and
//! stored.
//!
//! What these mean is said over sequences of symbols ([`flat`]), their
//! canonical naming ([`canon`]), substitutions ([`subst`]), and arenas as
//! graphs ([`graph`], [`unify`], [`solve`]).

pub mod canon;
pub mod digits;
pub mod flat;
pub mod graph;
pub mod langs;
pub mod language;
pub mod mp;
pub mod parse;
pub mod polish;
pub mod solve;
pub mod subst;
pub mod tree;
pub mod unify;

pub use mp::modus_ponens;

use vstd::prelude::*;
use vstd::std_specs::cmp::PartialEqSpecImpl;
use crate::formula::canon::{
    canon, is_canonical, lemma_canon_is_canonical, lemma_rename_is_formula, lemma_seen,
    occurs_in, rename, seen, variables,
};
use crate::formula::flat::{
    end_of, is_formula, lemma_skip_lower, lemma_skip_more, lemma_skip_split, skip, subterm, Flat,
    Sym,
};
use crate::formula::graph::{
    flat_at, flat_upto, forward_rank, lemma_flat_is_formula, lemma_flat_local,
    lemma_forward_ranked, ranked, slot_ranked, Graph, Rank, Slot,
};
use crate::formula::langs::imp_neg::{imp, neg, ImpNeg, Variants};
use crate::formula::language::{swapped, Bare, Language};
use crate::formula::tree::mp::flatten;

verus! {

/// What a slot of an arena holds: a variable, or a constructor with the
/// positions of its operands.
#[derive(Debug, Clone, Copy, PartialEq, Eq)]
pub enum Entry {
    Var(usize),
    Implication(Idx, Idx),
    Not(Idx),
}

/// A position in an arena.
#[derive(Debug, Clone, Copy, PartialEq, Eq)]
pub struct Idx(pub usize);

/// A growable run of slots, whose operands are positions in the same
/// run.
#[derive(Debug)]
pub struct Arena {
    entries: Vec<Entry>,
}

/// The bound above every position and every variable.
pub open spec fn limit() -> nat {
    (usize::MAX + 1) as nat
}

/// What a slot holds, as a slot of a graph.
pub open spec fn slot_of(e: Entry) -> Slot<Variants<Bare>> {
    match e {
        Entry::Var(x) => Slot::Var(x as nat),
        Entry::Implication(a, b) => Slot::Op(
            Variants::Implication([Bare, Bare]),
            seq![a.0 as nat, b.0 as nat],
        ),
        Entry::Not(a) => Slot::Op(Variants::Negation([Bare]), seq![a.0 as nat]),
    }
}

/// The graph that a run of slots holds.
pub open spec fn graph_of(es: Seq<Entry>) -> Graph<Variants<Bare>> {
    es.map_values(|e: Entry| slot_of(e))
}

/// Whether the operands of every slot stand further on than the slot.
pub open spec fn forward(es: Seq<Entry>) -> bool {
    forall|i: int|
        0 <= i < es.len() ==> match #[trigger] es[i] {
            Entry::Var(_) => true,
            Entry::Implication(a, b) => i < a.0 < es.len() && i < b.0 < es.len(),
            Entry::Not(a) => i < a.0 < es.len(),
        }
}

/// The slot with `by` added to the positions of its operands.
pub open spec fn moved(e: Entry, by: nat) -> Entry {
    match e {
        Entry::Var(x) => e,
        Entry::Implication(a, b) => Entry::Implication(
            Idx((a.0 + by) as usize),
            Idx((b.0 + by) as usize),
        ),
        Entry::Not(a) => Entry::Not(Idx((a.0 + by) as usize)),
    }
}

/// The tree that the slot at `i` stands for, in a run whose operands
/// stand further on than their slots.
pub open spec fn grow(es: Seq<Entry>, i: int) -> tree::Formula
    decreases es.len() - i,
{
    if 0 <= i < es.len() {
        match es[i] {
            Entry::Var(x) => tree::Formula::Var(x),
            Entry::Implication(a, b) => if i < a.0 < es.len() && i < b.0 < es.len() {
                tree::Formula::Implication(
                    Box::new(grow(es, a.0 as int)),
                    Box::new(grow(es, b.0 as int)),
                )
            } else {
                tree::Formula::Var(0)
            },
            Entry::Not(a) => if i < a.0 < es.len() {
                tree::Formula::Not(Box::new(grow(es, a.0 as int)))
            } else {
                tree::Formula::Var(0)
            },
        }
    } else {
        tree::Formula::Var(0)
    }
}

/// A run that holds the slots of another, moved `d` places on, lets
/// them stand for the same trees.
pub proof fn lemma_grow_moved(es: Seq<Entry>, hs: Seq<Entry>, d: nat, i: int)
    requires
        forward(es),
        0 <= i < es.len(),
        es.len() + d <= hs.len() <= usize::MAX,
        forall|t: int| 0 <= t < es.len() ==> hs[t + d] == moved(#[trigger] es[t], d),
    ensures
        grow(hs, i + d) == grow(es, i),
    decreases es.len() - i,
{
    assert(hs[i + d] == moved(es[i], d));
    match es[i] {
        Entry::Var(x) => {},
        Entry::Implication(a, b) => {
            lemma_grow_moved(es, hs, d, a.0 as int);
            lemma_grow_moved(es, hs, d, b.0 as int);
        },
        Entry::Not(a) => {
            lemma_grow_moved(es, hs, d, a.0 as int);
        },
    }
}

impl View for Arena {
    type V = Graph<Variants<Bare>>;

    closed spec fn view(&self) -> Graph<Variants<Bare>> {
        graph_of(self.entries@)
    }
}

impl Arena {
    /// The slots of the arena.
    pub closed spec fn slots(&self) -> Seq<Entry> {
        self.entries@
    }

    /// A rank under which the arena is in order, if there is one.
    pub open spec fn rank(&self) -> Rank {
        choose|rk: Rank| ranked::<ImpNeg>(self@, rk)
    }

    /// Whether the arena is in order: no slot lies below itself, and
    /// every operand lies in the arena.
    pub open spec fn wf(&self) -> bool {
        exists|rk: Rank| ranked::<ImpNeg>(self@, rk)
    }

    /// The term that the slot at `i` stands for, in prefix order.
    pub open spec fn term_at(&self, i: int) -> crate::formula::flat::Flat<Variants<Bare>> {
        crate::formula::graph::flat_at(self@, self.rank(), i)
    }

    /// The view of an arena is the graph of its slots.
    pub proof fn lemma_view(&self)
        ensures
            self@ == graph_of(self.slots()),
    {
    }

    /// An arena without slots.
    pub fn new() -> (made: Arena)
        ensures
            made.slots().len() == 0,
    {
        Arena { entries: Vec::new() }
    }

    /// The number of slots.
    pub fn len(&self) -> (n: usize)
        ensures
            n == self.slots().len(),
    {
        self.entries.len()
    }

    /// The slot at a position.
    pub fn index(&self, index: Idx) -> (entry: &Entry)
        requires
            index.0 < self.slots().len(),
        ensures
            *entry == self.slots()[index.0 as int],
    {
        &self.entries[index.0]
    }
}

/// A formula of implication and negation in an arena of its own, with
/// its root at the first position.
#[derive(Debug)]
pub struct Formula {
    arena: Arena,
}

impl Formula {
    /// Every formula has its root at the first position of its arena,
    /// and the operands of every slot stand further on than the slot.
    #[verifier::type_invariant]
    closed spec fn inv(&self) -> bool {
        self.arena.entries@.len() > 0 && forward(self.arena.entries@)
    }

    /// The slots of the formula.
    pub closed spec fn slots(&self) -> Seq<Entry> {
        self.arena.entries@
    }

    /// The formula as a tree.
    pub closed spec fn tree(&self) -> tree::Formula {
        grow(self.arena.entries@, 0)
    }

    /// The position of the root.
    pub fn toplevel_idx(&self) -> (root: Idx)
        ensures
            root.0 == 0,
    {
        Idx(0)
    }

    /// Adds `by` to the position of every operand.
    fn each_index(entries: &mut Vec<Entry>, by: usize)
        requires
            forward(old(entries)@),
            old(entries)@.len() + by <= usize::MAX,
        ensures
            final(entries)@.len() == old(entries)@.len(),
            forall|t: int|
                0 <= t < old(entries)@.len() ==> #[trigger] final(entries)@[t] == moved(
                    old(entries)@[t],
                    by as nat,
                ),
    {
        let ghost before = entries@;
        let n = entries.len();
        let mut i: usize = 0;
        while i < n
            invariant
                n == entries@.len() == before.len(),
                forward(before),
                n + by <= usize::MAX,
                i <= n,
                forall|t: int| 0 <= t < i ==> #[trigger] entries@[t] == moved(before[t], by as nat),
                forall|t: int| i <= t < n ==> #[trigger] entries@[t] == before[t],
            decreases n - i,
        {
            let moved = match entries[i] {
                Entry::Var(x) => Entry::Var(x),
                Entry::Implication(a, b) => Entry::Implication(Idx(a.0 + by), Idx(b.0 + by)),
                Entry::Not(a) => Entry::Not(Idx(a.0 + by)),
            };
            entries.set(i, moved);
            i += 1;
        }
    }

    /// The formula that is the variable `x`.
    pub fn var(x: usize) -> (made: Self)
        ensures
            made.tree() == tree::Formula::Var(x),
            made.slots() == seq![Entry::Var(x)],
    {
        let mut entries = Vec::new();
        entries.push(Entry::Var(x));
        Formula { arena: Arena { entries } }
    }

    /// The implication of `a` and `b`.
    pub fn implication(a: Self, b: Self) -> (made: Self)
        requires
            a.slots().len() + b.slots().len() < usize::MAX,
        ensures
            made.tree() == tree::Formula::Implication(Box::new(a.tree()), Box::new(b.tree())),
            made.slots().len() == a.slots().len() + b.slots().len() + 1,
            made.slots()[0] == Entry::Implication(Idx(1), Idx((a.slots().len() + 1) as usize)),
            forall|t: int|
                0 <= t < a.slots().len() ==> made.slots()[t + 1] == moved(
                    #[trigger] a.slots()[t],
                    1,
                ),
            forall|t: int|
                0 <= t < b.slots().len() ==> made.slots()[t + a.slots().len() + 1] == moved(
                    #[trigger] b.slots()[t],
                    a.slots().len() + 1,
                ),
    {
        proof {
            use_type_invariant(&a);
            use_type_invariant(&b);
        }
        let ghost ea = a.arena.entries@;
        let ghost eb = b.arena.entries@;
        let mut first = a.arena.entries;
        let mut second = b.arena.entries;
        let na = first.len();
        let mut elems: Vec<Entry> = Vec::with_capacity(1 + na + second.len());
        elems.push(Entry::Implication(Idx(1), Idx(na + 1)));
        Self::each_index(&mut first, 1);
        Self::each_index(&mut second, na + 1);
        elems.append(&mut first);
        elems.append(&mut second);
        proof {
            let hs = elems@;
            assert forall|t: int| 0 <= t < ea.len() implies hs[t + 1] == moved(
                #[trigger] ea[t],
                1,
            ) by {}
            assert forall|t: int| 0 <= t < eb.len() implies hs[t + (na + 1)] == moved(
                #[trigger] eb[t],
                (na + 1) as nat,
            ) by {}
            lemma_grow_moved(ea, hs, 1, 0);
            lemma_grow_moved(eb, hs, (na + 1) as nat, 0);
            assert forall|i: int| 0 <= i < hs.len() implies match #[trigger] hs[i] {
                Entry::Var(_) => true,
                Entry::Implication(x, y) => i < x.0 < hs.len() && i < y.0 < hs.len(),
                Entry::Not(x) => i < x.0 < hs.len(),
            } by {
                if i == 0 {
                } else if i < na + 1 {
                    assert(hs[(i - 1) + 1] == moved(ea[i - 1], 1));
                } else {
                    assert(hs[(i - na - 1) + (na + 1)] == moved(eb[i - na - 1], (na + 1) as nat));
                }
            }
        }
        Formula { arena: Arena { entries: elems } }
    }

    /// The negation of `a`.
    pub fn not(a: Self) -> (made: Self)
        requires
            a.slots().len() < usize::MAX,
        ensures
            made.tree() == tree::Formula::Not(Box::new(a.tree())),
            made.slots().len() == a.slots().len() + 1,
            made.slots()[0] == Entry::Not(Idx(1)),
            forall|t: int|
                0 <= t < a.slots().len() ==> made.slots()[t + 1] == moved(
                    #[trigger] a.slots()[t],
                    1,
                ),
    {
        proof {
            use_type_invariant(&a);
        }
        let ghost ea = a.arena.entries@;
        let mut first = a.arena.entries;
        let mut elems: Vec<Entry> = Vec::with_capacity(1 + first.len());
        Self::each_index(&mut first, 1);
        elems.push(Entry::Not(Idx(1)));
        elems.append(&mut first);
        proof {
            let hs = elems@;
            assert forall|t: int| 0 <= t < ea.len() implies hs[t + 1] == moved(
                #[trigger] ea[t],
                1,
            ) by {}
            lemma_grow_moved(ea, hs, 1, 0);
            assert forall|i: int| 0 <= i < hs.len() implies match #[trigger] hs[i] {
                Entry::Var(_) => true,
                Entry::Implication(x, y) => i < x.0 < hs.len() && i < y.0 < hs.len(),
                Entry::Not(x) => i < x.0 < hs.len(),
            } by {
                if i > 0 {
                    assert(hs[(i - 1) + 1] == moved(ea[i - 1], 1));
                }
            }
        }
        Formula { arena: Arena { entries: elems } }
    }

    /// The formula of a tree.
    pub fn from_tree(t: &tree::Formula) -> (made: Self)
        requires
            t.size() <= usize::MAX,
        ensures
            made.tree() == *t,
            made.slots().len() == t.size(),
        decreases t,
    {
        match t {
            tree::Formula::Var(x) => Self::var(*x),
            tree::Formula::Implication(a, b) => Self::implication(
                Self::from_tree(a),
                Self::from_tree(b),
            ),
            tree::Formula::Not(a) => Self::not(Self::from_tree(a)),
        }
    }

    /// Whether the slots at `i1` and `i2` of two arenas stand for the
    /// same tree.
    fn eq_at(arena1: &Arena, i1: Idx, arena2: &Arena, i2: Idx) -> (same: bool)
        requires
            forward(arena1.slots()),
            forward(arena2.slots()),
            i1.0 < arena1.slots().len(),
            i2.0 < arena2.slots().len(),
        ensures
            same == (grow(arena1.slots(), i1.0 as int) == grow(arena2.slots(), i2.0 as int)),
        decreases arena1.slots().len() - i1.0,
    {
        match (arena1.index(i1), arena2.index(i2)) {
            (Entry::Var(v1), Entry::Var(v2)) => *v1 == *v2,
            (Entry::Implication(a1, b1), Entry::Implication(a2, b2)) => {
                Self::eq_at(arena1, *a1, arena2, *a2) && Self::eq_at(arena1, *b1, arena2, *b2)
            },
            (Entry::Not(a1), Entry::Not(a2)) => Self::eq_at(arena1, *a1, arena2, *a2),
            _ => false,
        }
    }

    /// Appends the tree that the slot at `i` stands for, in infix
    /// notation.
    fn format_at(arena: &Arena, i: Idx, out: &mut String)
        requires
            forward(arena.slots()),
            i.0 < arena.slots().len(),
        ensures
            final(out)@ == old(out)@ + grow(arena.slots(), i.0 as int).written(),
        decreases arena.slots().len() - i.0,
    {
        proof {
            reveal_strlit("(");
            reveal_strlit(") -> ");
            reveal_strlit(" -> ");
            reveal_strlit("-");
            reveal_strlit(")");
        }
        let ghost whole = grow(arena.slots(), i.0 as int).written();
        match *arena.index(i) {
            Entry::Var(v) => {
                crate::formula::digits::push_decimal(out, v);
            },
            Entry::Implication(a, b) => {
                let bracket = match arena.index(a) {
                    Entry::Implication(_, _) => true,
                    _ => false,
                };
                if bracket {
                    out.append("(");
                    Self::format_at(arena, a, out);
                    out.append(") -> ");
                    Self::format_at(arena, b, out);
                } else {
                    Self::format_at(arena, a, out);
                    out.append(" -> ");
                    Self::format_at(arena, b, out);
                }
                proof {
                    assert(final(out)@ =~= old(out)@ + whole);
                }
            },
            Entry::Not(a) => {
                out.append("-");
                let bracket = match arena.index(a) {
                    Entry::Implication(_, _) => true,
                    _ => false,
                };
                if bracket {
                    out.append("(");
                    Self::format_at(arena, a, out);
                    out.append(")");
                } else {
                    Self::format_at(arena, a, out);
                }
                proof {
                    assert(final(out)@ =~= old(out)@ + whole);
                }
            },
        }
    }

    /// The formula in infix notation.
    pub fn to_string(&self) -> (text: String)
        ensures
            text@ == self.tree().written(),
    {
        proof {
            use_type_invariant(self);
        }
        let mut out = String::new();
        Self::format_at(&self.arena, self.toplevel_idx(), &mut out);
        out
    }
}

impl std::str::FromStr for Formula {
    type Err = parse::FormulaParseError;
    /// Reads a formula in infix notation, as `parse::parse` does.
    fn from_str(s: &str) -> (read: Result<Self, Self::Err>)
        ensures
            match read {
                Ok(f) => tree::parse::parsed(s@) == Ok::<
                    tree::Formula,
                    tree::parse::FormulaParseError,
                >(f.tree()),
                Err(e) => tree::parse::parsed(s@) matches Err(t) && parse::of_tree(t) == e,
            },
    {
        parse::parse(s)
    }
}

impl PartialEq for Formula {
    fn eq(&self, other: &Self) -> (same: bool) {
        proof {
            use_type_invariant(self);
            use_type_invariant(other);
        }
        Self::eq_at(&self.arena, self.toplevel_idx(), &other.arena, other.toplevel_idx())
    }
}

impl PartialEqSpecImpl for Formula {
    open spec fn obeys_eq_spec() -> bool {
        true
    }

    open spec fn eq_spec(&self, other: &Self) -> bool {
        self.tree() == other.tree()
    }
}


/// One symbol of a flat formula of implication and negation.
#[derive(Debug, Clone, Copy, PartialEq, Eq, Hash)]
pub enum NormalEntry {
    Implication,
    Not,
    Var(usize),
}

/// A formula of implication and negation in flat prefix form, with
/// canonical variable names.
#[derive(Debug, PartialEq, Eq, Hash)]
pub struct Normal {
    elems: Vec<NormalEntry>,
}

/// The symbol that a slot of a flat formula holds.
pub open spec fn sym_of(e: NormalEntry) -> Sym<Variants<Bare>> {
    match e {
        NormalEntry::Implication => imp(),
        NormalEntry::Not => neg(),
        NormalEntry::Var(x) => Sym::Var(x as nat),
    }
}

/// The symbols that a run of slots holds.
pub open spec fn syms_of(es: Seq<NormalEntry>) -> Flat<Variants<Bare>> {
    es.map_values(|e: NormalEntry| sym_of(e))
}

/// The slot that stands for the symbol at `k` of `f`, where each symbol
/// of `f` is written `d` places after its own position: the operands of
/// a constructor are the places at which its operands begin, the first
/// right after the constructor and the second where the first ends.
pub open spec fn placed(f: Flat<Variants<Bare>>, k: int, d: int) -> Entry {
    match f[k] {
        Sym::Var(v) => Entry::Var(v as usize),
        Sym::Op(Variants::Implication(_)) => Entry::Implication(
            Idx((d + k + 1) as usize),
            Idx((d + end_of::<ImpNeg>(f, k + 1)) as usize),
        ),
        Sym::Op(Variants::Negation(_)) => Entry::Not(Idx((d + k + 1) as usize)),
    }
}

/// An arena whose operands stand further on than their slots is in
/// order under the forward rank.
pub proof fn lemma_forward(es: Seq<Entry>)
    requires
        forward(es),
        es.len() <= usize::MAX,
    ensures
        crate::formula::graph::forward::<ImpNeg>(graph_of(es)),
        ranked::<ImpNeg>(graph_of(es), forward_rank(limit())),
{
    let g = graph_of(es);
    assert forall|i: int| 0 <= i < g.len() implies match #[trigger] g[i] {
        Slot::Var(_) => true,
        Slot::Op(k, ops) => ops.len() == ImpNeg::arity(k) && forall|c: int|
            0 <= c < ops.len() ==> i < #[trigger] ops[c] < g.len(),
    } by {
        assert(g[i] == slot_of(es[i]));
    }
    lemma_forward_ranked::<ImpNeg>(g, limit());
}

impl View for Normal {
    type V = Flat<Variants<Bare>>;

    closed spec fn view(&self) -> Flat<Variants<Bare>> {
        syms_of(self.elems@)
    }
}

impl Normal {
    /// Every value of the type is one complete term with canonical
    /// variable names.
    #[verifier::type_invariant]
    closed spec fn inv(&self) -> bool {
        is_formula::<ImpNeg>(self@) && is_canonical(self@)
    }

    /// Every formula is one complete term with canonical variable names.
    pub fn well_formed(&self)
        ensures
            is_formula::<ImpNeg>(self@),
            is_canonical(self@),
    {
        proof {
            use_type_invariant(self);
        }
    }

    /// The number of symbols of the formula.
    pub fn len(&self) -> (n: usize)
        ensures
            n == self@.len(),
    {
        self.elems.len()
    }

    /// Renames the variables of `elems` to their canonical names: a pass
    /// from left to right that, where it meets a variable above the next
    /// name to give, lets the two change places from there on.
    pub fn normalize(elems: &mut Vec<NormalEntry>)
        ensures
            syms_of(final(elems)@) == canon(syms_of(old(elems)@)),
    {
        let ghost orig = syms_of(elems@);
        let ghost mut pi: spec_fn(nat) -> nat = |v: nat| v;
        let n = elems.len();
        let mut current_var: usize = 0;
        let mut i: usize = 0;
        proof {
            assert(syms_of(elems@) =~= rename(orig, pi));
        }
        while i < n
            invariant
                n == elems@.len() == orig.len(),
                i <= n,
                current_var == seen(orig, i as int).len(),
                forall|v: nat, w: nat| #[trigger] pi(v) == #[trigger] pi(w) ==> v == w,
                forall|j: int|
                    0 <= j < seen(orig, i as int).len() ==> pi(
                        #[trigger] seen(orig, i as int)[j],
                    ) == j,
                syms_of(elems@) == rename(orig, pi),
            decreases n - i,
        {
            let ghost before = seen(orig, i as int);
            proof {
                lemma_seen(orig, i as int);
                lemma_seen(orig, i as int + 1);
                assert(syms_of(elems@)[i as int] == rename(orig, pi)[i as int]);
            }
            match elems[i] {
                NormalEntry::Var(new_var) => {
                    let ghost v = orig[i as int]->Var_0;
                    assert(orig[i as int] == Sym::<Variants<Bare>>::Var(v) && pi(v) == new_var);
                    if current_var < new_var {
                        let cur = current_var;
                        let ghost old_pi = pi;
                        proof {
                            pi = |x: nat| swapped(cur as nat, new_var as nat, old_pi(x));
                        }
                        let mut j: usize = i;
                        while j < n
                            invariant
                                n == elems@.len() == orig.len(),
                                i <= j <= n,
                                cur < new_var,
                                pi == (|x: nat| swapped(cur as nat, new_var as nat, old_pi(x))),
                                forall|t: int|
                                    0 <= t < i || j <= t < n ==> syms_of(elems@)[t] == rename(
                                        orig,
                                        old_pi,
                                    )[t],
                                forall|t: int|
                                    i <= t < j ==> syms_of(elems@)[t] == rename(orig, pi)[t],
                            decreases n - j,
                        {
                            let ghost prev = elems@;
                            proof {
                                assert(syms_of(prev)[j as int] == rename(orig, old_pi)[j as int]);
                            }
                            match elems[j] {
                                NormalEntry::Var(x) => {
                                    if x == cur {
                                        elems.set(j, NormalEntry::Var(new_var));
                                    } else if x == new_var {
                                        elems.set(j, NormalEntry::Var(cur));
                                    }
                                },
                                _ => {},
                            }
                            proof {
                                assert forall|t: int| 0 <= t < i || j + 1 <= t < n implies syms_of(
                                    elems@,
                                )[t] == rename(orig, old_pi)[t] by {
                                    assert(syms_of(prev)[t] == rename(orig, old_pi)[t]);
                                }
                                assert forall|t: int| i <= t < j + 1 implies syms_of(elems@)[t]
                                    == rename(orig, pi)[t] by {
                                    if t < j {
                                        assert(syms_of(prev)[t] == rename(orig, pi)[t]);
                                    }
                                }
                            }
                            j += 1;
                        }
                        proof {
                            if before.contains(v) {
                                let at = choose|at: int| 0 <= at < before.len() && before[at] == v;
                                assert(pi(before[at]) == at);
                            }
                            assert(!before.contains(v));
                            assert forall|t: int| 0 <= t < n implies syms_of(elems@)[t] == rename(
                                orig,
                                pi,
                            )[t] by {
                                if t < i {
                                    assert(syms_of(elems@)[t] == rename(orig, old_pi)[t]);
                                    match orig[t] {
                                        Sym::Var(w) => {
                                            assert(0 <= t < i && orig[t] == Sym::<
                                                Variants<Bare>,
                                            >::Var(w));
                                            assert(before.contains(w));
                                            let at = choose|at: int|
                                                0 <= at < before.len() && before[at] == w;
                                            assert(old_pi(before[at]) == at);
                                            assert(pi(w) == old_pi(w));
                                        },
                                        Sym::Op(_) => {},
                                    }
                                }
                            }
                            assert(syms_of(elems@) =~= rename(orig, pi));
                            assert forall|a: nat, b: nat| #[trigger] pi(a) == #[trigger] pi(
                                b,
                            ) implies a == b by {
                                assert(old_pi(a) == old_pi(b));
                            }
                            assert forall|k: int|
                                0 <= k < seen(orig, i as int + 1).len() implies pi(
                                #[trigger] seen(orig, i as int + 1)[k],
                            ) == k by {
                                if k < before.len() {
                                    assert(old_pi(before[k]) == k);
                                }
                            }
                        }
                        current_var += 1;
                    } else if current_var == new_var {
                        proof {
                            if before.contains(v) {
                                let at = choose|at: int| 0 <= at < before.len() && before[at] == v;
                                assert(pi(before[at]) == at);
                            }
                            assert(!before.contains(v));
                        }
                        current_var += 1;
                    } else {
                        proof {
                            let at = new_var as int;
                            assert(pi(before[at]) == at);
                            assert(before[at] == v);
                            assert(before.contains(v));
                        }
                    }
                },
                _ => {},
            }
            i += 1;
        }
        proof {
            let vars = variables(orig);
            lemma_seen(orig, n as int);
            assert forall|t: int| 0 <= t < n implies rename(orig, pi)[t] == canon(orig)[t] by {
                match orig[t] {
                    Sym::Var(w) => {
                        assert(vars.contains(w));
                        let at = vars.index_of(w);
                        assert(0 <= at < vars.len() && vars[at] == w);
                        assert(pi(vars[at]) == at);
                    },
                    Sym::Op(_) => {},
                }
            }
            assert(rename(orig, pi) =~= canon(orig));
        }
    }

    /// Appends the term that the slot at `i` stands for to `elems`.
    fn read_term(elems: &mut Vec<NormalEntry>, arena: &Arena, i: Idx)
        requires
            arena.wf(),
            i.0 < arena@.len(),
        ensures
            syms_of(final(elems)@) == syms_of(old(elems)@) + arena.term_at(i.0 as int),
        decreases arena.rank()(i.0 as int),
    {
        let ghost g = arena@;
        let ghost rk = arena.rank();
        let ghost before = syms_of(elems@);
        proof {
            arena.lemma_view();
            assert(slot_ranked::<ImpNeg>(g, rk, i.0 as int));
            assert(g[i.0 as int] == slot_of(arena.slots()[i.0 as int]));
        }
        match *arena.index(i) {
            Entry::Var(x) => {
                elems.push(NormalEntry::Var(x));
                proof {
                    assert(syms_of(elems@) =~= before + arena.term_at(i.0 as int));
                }
            },
            Entry::Implication(a, b) => {
                elems.push(NormalEntry::Implication);
                let ghost ops = seq![a.0 as nat, b.0 as nat];
                proof {
                    assert(0 <= ops[0] < g.len() && rk(ops[0] as int) < rk(i.0 as int));
                    assert(0 <= ops[1] < g.len() && rk(ops[1] as int) < rk(i.0 as int));
                }
                Self::read_term(elems, arena, a);
                Self::read_term(elems, arena, b);
                proof {
                    let bound = rk(i.0 as int);
                    assert(flat_upto(g, rk, ops, 0, bound) =~= Seq::<Sym<Variants<Bare>>>::empty());
                    assert(flat_upto(g, rk, ops, 1, bound) =~= flat_at(g, rk, a.0 as int));
                    assert(flat_upto(g, rk, ops, 2, bound) =~= flat_at(g, rk, a.0 as int) + flat_at(
                        g,
                        rk,
                        b.0 as int,
                    ));
                    assert(syms_of(elems@) =~= before + arena.term_at(i.0 as int));
                }
            },
            Entry::Not(a) => {
                elems.push(NormalEntry::Not);
                let ghost ops = seq![a.0 as nat];
                proof {
                    assert(0 <= ops[0] < g.len() && rk(ops[0] as int) < rk(i.0 as int));
                }
                Self::read_term(elems, arena, a);
                proof {
                    let bound = rk(i.0 as int);
                    assert(flat_upto(g, rk, ops, 0, bound) =~= Seq::<Sym<Variants<Bare>>>::empty());
                    assert(flat_upto(g, rk, ops, 1, bound) =~= flat_at(g, rk, a.0 as int));
                    assert(syms_of(elems@) =~= before + arena.term_at(i.0 as int));
                }
            },
        }
    }

    /// The formula that the slot at `i` stands for, read from the arena
    /// depth first, with canonical variable names.
    pub fn from_arena(arena: &Arena, i: Idx) -> (read: Self)
        requires
            arena.wf(),
            i.0 < arena@.len(),
        ensures
            read@ == canon(arena.term_at(i.0 as int)),
    {
        let mut elems: Vec<NormalEntry> = Vec::with_capacity(arena.len());
        Self::read_term(&mut elems, arena, i);
        proof {
            assert(syms_of(elems@) =~= arena.term_at(i.0 as int));
            lemma_flat_is_formula::<ImpNeg>(arena@, arena.rank(), i.0 as int);
        }
        Self::normalize(&mut elems);
        proof {
            let f = arena.term_at(i.0 as int);
            lemma_rename_is_formula::<ImpNeg>(f, |v: nat| crate::formula::canon::label(f, v));
            lemma_canon_is_canonical(f);
        }
        Normal { elems }
    }
}


/// The tree that begins at `i` in a flat formula, and the position at
/// which it ends.
pub open spec fn tree_at(f: Flat<Variants<Bare>>, i: int) -> (tree::Formula, int)
    decreases f.len() - i,
{
    if 0 <= i < f.len() {
        match f[i] {
            Sym::Var(v) => (tree::Formula::Var(v as usize), i + 1),
            Sym::Op(Variants::Negation(_)) => {
                let (a, j) = tree_at(f, i + 1);
                (tree::Formula::Not(Box::new(a)), j)
            },
            Sym::Op(Variants::Implication(_)) => {
                let (a, j) = tree_at(f, i + 1);
                if i < j <= f.len() {
                    let (b, k) = tree_at(f, j);
                    (tree::Formula::Implication(Box::new(a), Box::new(b)), k)
                } else {
                    (tree::Formula::Var(0), i + 1)
                }
            },
        }
    } else {
        (tree::Formula::Var(0), i + 1)
    }
}

/// The tree of a flat formula.
pub open spec fn tree_of(f: Flat<Variants<Bare>>) -> tree::Formula {
    tree_at(f, 0).0
}

/// Where a flat formula holds the flat form of a tree from `i` on, the
/// tree that begins at `i` is that tree, and it ends where the flat
/// form ends.
pub proof fn lemma_tree_at(f: Flat<Variants<Bare>>, i: int, t: tree::Formula)
    requires
        0 <= i,
        i + flatten(t).len() <= f.len(),
        f.subrange(i, i + flatten(t).len())
            == flatten(t),
    ensures
        tree_at(f, i) == (t, i + flatten(t).len()),
    decreases t,
{
    let whole = flatten(t);
    let n = whole.len() as int;
    assert(f[i] == f.subrange(i, i + n)[0]);
    match t {
        tree::Formula::Var(x) => {},
        tree::Formula::Implication(a, b) => {
            let fa = flatten(*a);
            let fb = flatten(*b);
            assert(whole =~= seq![imp()] + fa + fb);
            assert(f.subrange(i + 1, i + 1 + fa.len()) =~= fa) by {
                assert forall|k: int| 0 <= k < fa.len() implies f[i + 1 + k] == fa[k] by {
                    assert(f.subrange(i, i + n)[1 + k] == whole[1 + k]);
                }
            }
            lemma_tree_at(f, i + 1, *a);
            let j = i + 1 + fa.len();
            assert(f.subrange(j, j + fb.len()) =~= fb) by {
                assert forall|k: int| 0 <= k < fb.len() implies f[j + k] == fb[k] by {
                    assert(f.subrange(i, i + n)[1 + fa.len() + k] == whole[1 + fa.len() + k]);
                }
            }
            lemma_tree_at(f, j, *b);
        },
        tree::Formula::Not(a) => {
            let fa = flatten(*a);
            assert(whole =~= seq![neg()] + fa);
            assert(f.subrange(i + 1, i + 1 + fa.len()) =~= fa) by {
                assert forall|k: int| 0 <= k < fa.len() implies f[i + 1 + k] == fa[k] by {
                    assert(f.subrange(i, i + n)[1 + k] == whole[1 + k]);
                }
            }
            lemma_tree_at(f, i + 1, *a);
        },
    }
}

/// The tree of the flat form of a tree is that tree.
pub proof fn law_tree_of_flatten(t: tree::Formula)
    ensures
        tree_of(flatten(t)) == t,
{
    let f = flatten(t);
    assert(f.subrange(0, f.len() as int) =~= f);
    lemma_tree_at(f, 0, t);
}

/// In an arena whose operands stand further on than their slots, a slot
/// stands for the flat form of its tree.
pub proof fn lemma_grow_flat(es: Seq<Entry>, rk: Rank, i: int)
    requires
        forward(es),
        ranked::<ImpNeg>(graph_of(es), rk),
        0 <= i < es.len(),
    ensures
        flat_at(graph_of(es), rk, i) == flatten(grow(es, i)),
    decreases es.len() - i,
{
    let g = graph_of(es);
    assert(g[i] == slot_of(es[i]));
    assert(slot_ranked::<ImpNeg>(g, rk, i));
    let bound = rk(i);
    match es[i] {
        Entry::Var(x) => {},
        Entry::Implication(a, b) => {
            let ops = seq![a.0 as nat, b.0 as nat];
            assert(0 <= ops[0] < g.len() && rk(ops[0] as int) < bound);
            assert(0 <= ops[1] < g.len() && rk(ops[1] as int) < bound);
            lemma_grow_flat(es, rk, a.0 as int);
            lemma_grow_flat(es, rk, b.0 as int);
            assert(flat_upto(g, rk, ops, 0, bound) =~= Seq::<Sym<Variants<Bare>>>::empty());
            assert(flat_upto(g, rk, ops, 1, bound) =~= flat_at(g, rk, a.0 as int));
            assert(flat_upto(g, rk, ops, 2, bound) =~= flat_at(g, rk, a.0 as int) + flat_at(
                g,
                rk,
                b.0 as int,
            ));
            assert(flat_at(g, rk, i) =~= flatten(grow(es, i)));
        },
        Entry::Not(a) => {
            let ops = seq![a.0 as nat];
            assert(0 <= ops[0] < g.len() && rk(ops[0] as int) < bound);
            lemma_grow_flat(es, rk, a.0 as int);
            assert(flat_upto(g, rk, ops, 0, bound) =~= Seq::<Sym<Variants<Bare>>>::empty());
            assert(flat_upto(g, rk, ops, 1, bound) =~= flat_at(g, rk, a.0 as int));
            assert(flat_at(g, rk, i) =~= flatten(grow(es, i)));
        },
    }
}

impl Normal {
    /// The formula of an arena formula, with canonical variable names.
    pub fn from_formula(val: &Formula) -> (made: Self)
        ensures
            made@ == canon(flatten(val.tree())),
    {
        let n = val.arena.len();
        proof {
            use_type_invariant(val);
            let es = val.arena.slots();
            val.arena.lemma_view();
            lemma_forward(es);
            lemma_grow_flat(es, val.arena.rank(), 0);
        }
        Self::from_arena(&val.arena, val.toplevel_idx())
    }

    /// The formula of an arena formula, with canonical variable names.
    pub fn from(value: Formula) -> (made: Self)
        ensures
            made@ == canon(flatten(value.tree())),
    {
        Self::from_formula(&value)
    }

    /// Appends the subterm of `val` that begins at `pos` to the arena,
    /// and returns the number of symbols that it takes. The slot of an
    /// implication is reserved before its operands are written, and
    /// filled in once their positions are known.
    #[verifier::rlimit(40)]
    fn write_into_inner(val: &Vec<NormalEntry>, pos: usize, arena: &mut Arena) -> (taken: usize)
        requires
            pos < val@.len(),
            end_of::<ImpNeg>(syms_of(val@), pos as int) <= val@.len(),
            forward(old(arena).slots()),
            old(arena).slots().len() + (end_of::<ImpNeg>(syms_of(val@), pos as int) - pos)
                <= usize::MAX,
        ensures
            taken == end_of::<ImpNeg>(syms_of(val@), pos as int) - pos,
            final(arena).slots().len() == old(arena).slots().len() + taken,
            forall|t: int|
                0 <= t < old(arena).slots().len() ==> final(arena).slots()[t] == old(
                    arena,
                ).slots()[t],
            forward(final(arena).slots()),
            flat_at(final(arena)@, forward_rank(limit()), old(arena).slots().len() as int)
                == subterm::<ImpNeg>(syms_of(val@), pos as int),
            forall|t: int|
                old(arena).slots().len() <= t < final(arena).slots().len() ==> (
                #[trigger] final(arena).slots()[t] matches Entry::Var(x) ==> occurs_in(
                    subterm::<ImpNeg>(syms_of(val@), pos as int),
                    x as nat,
                )),
            forall|k: int|
                pos <= k < end_of::<ImpNeg>(syms_of(val@), pos as int) ==> final(arena).slots()[old(
                    arena,
                ).slots().len() - pos + k] == #[trigger] placed(
                    syms_of(val@),
                    k,
                    old(arena).slots().len() - pos,
                ),
        decreases val@.len() - pos,
    {
        let ghost f = syms_of(val@);
        let ghost rk = forward_rank(limit());
        let ghost before = arena.slots();
        let ghost j = end_of::<ImpNeg>(f, pos as int);
        let start = arena.entries.len();
        let total = val.len();
        let ghost d = start - pos;
        proof {
            lemma_skip_lower::<ImpNeg>(f, pos as int, 1);
            assert(f[pos as int] == sym_of(val@[pos as int]));
        }
        match val[pos] {
            NormalEntry::Var(x) => {
                arena.entries.push(Entry::Var(x));
                proof {
                    assert(skip::<ImpNeg>(f, pos as int + 1, 0) == pos + 1);
                    assert(flat_at(arena@, rk, start as int) =~= subterm::<ImpNeg>(f, pos as int));
                    assert(subterm::<ImpNeg>(f, pos as int)[0] == Sym::<Variants<Bare>>::Var(
                        x as nat,
                    ));
                    assert(arena.slots()[start as int] == placed(f, pos as int, d));
                }
                1
            },
            NormalEntry::Implication => {
                let ghost p = pos as int + 1;
                proof {
                    assert(j == skip::<ImpNeg>(f, p, 2));
                    lemma_skip_lower::<ImpNeg>(f, p, 2);
                    lemma_skip_lower::<ImpNeg>(f, p, 1);
                    lemma_skip_more::<ImpNeg>(f, p, 1, 1);
                    lemma_skip_split::<ImpNeg>(f, p, 1, 1);
                }
                let ghost e1 = end_of::<ImpNeg>(f, p);
                arena.entries.push(Entry::Var(0));
                let a_index = Idx(arena.entries.len());
                let rest1 = Self::write_into_inner(val, pos + 1, arena);
                let ghost s1 = arena.slots();
                let b_index = Idx(arena.entries.len());
                let rest2 = Self::write_into_inner(val, pos + rest1 + 1, arena);
                let ghost s2 = arena.slots();
                arena.entries.set(start, Entry::Implication(a_index, b_index));
                proof {
                    let s3 = arena.slots();
                    let g1 = graph_of(s1);
                    let g2 = graph_of(s2);
                    let g3 = graph_of(s3);
                    lemma_forward(s1);
                    lemma_forward(s2);
                    assert forall|t: int| 0 <= t < g1.len() implies g2[t] == g1[t] by {
                        assert(s2[t] == s1[t]);
                    }
                    lemma_flat_local::<ImpNeg>(g1, g2, limit(), 0, a_index.0 as int);
                    assert forall|t: int| start + 1 <= t < g2.len() implies g3[t] == g2[t] by {
                        assert(s3[t] == s2[t]);
                    }
                    lemma_flat_local::<ImpNeg>(g2, g3, limit(), start as int + 1, a_index.0 as int);
                    lemma_flat_local::<ImpNeg>(g2, g3, limit(), start as int + 1, b_index.0 as int);
                    assert forall|i: int| 0 <= i < s3.len() implies match #[trigger] s3[i] {
                        Entry::Var(_) => true,
                        Entry::Implication(x, y) => i < x.0 < s3.len() && i < y.0 < s3.len(),
                        Entry::Not(x) => i < x.0 < s3.len(),
                    } by {
                        if i != start {
                            assert(s3[i] == s2[i]);
                        }
                    }
                    let ops = seq![a_index.0 as nat, b_index.0 as nat];
                    let bound = rk(start as int);
                    assert(g3[start as int] == slot_of(s3[start as int]));
                    assert(flat_upto(g3, rk, ops, 0, bound) =~= Seq::<Sym<Variants<Bare>>>::empty());
                    assert(flat_upto(g3, rk, ops, 1, bound) =~= flat_at(g3, rk, a_index.0 as int));
                    assert(flat_upto(g3, rk, ops, 2, bound) =~= flat_at(g3, rk, a_index.0 as int)
                        + flat_at(g3, rk, b_index.0 as int));
                    assert(flat_at(g3, rk, start as int) =~= subterm::<ImpNeg>(f, pos as int));
                    assert forall|t: int| 0 <= t < before.len() implies s3[t] == before[t] by {
                        assert(s2[t] == s1[t]);
                    }
                    let whole = subterm::<ImpNeg>(f, pos as int);
                    let first = subterm::<ImpNeg>(f, p);
                    let second = subterm::<ImpNeg>(f, e1);
                    assert(whole =~= seq![f[pos as int]] + first + second);
                    assert forall|t: int| before.len() <= t < s3.len() implies (#[trigger] s3[t]
                        matches Entry::Var(x) ==> occurs_in(whole, x as nat)) by {
                        if let Entry::Var(x) = s3[t] {
                            crate::formula::canon::lemma_occurs_concat(
                                seq![f[pos as int]] + first,
                                second,
                                x as nat,
                            );
                            crate::formula::canon::lemma_occurs_concat(
                                seq![f[pos as int]],
                                first,
                                x as nat,
                            );
                            if t < s1.len() {
                                assert(s3[t] == s2[t] && s2[t] == s1[t]);
                            } else {
                                assert(s3[t] == s2[t]);
                            }
                        }
                    }
                    assert forall|k: int| pos <= k < j implies s3[d + k] == #[trigger] placed(
                        f,
                        k,
                        d,
                    ) by {
                        if k == pos {
                            assert(e1 == skip::<ImpNeg>(f, p, 1));
                        } else if k < e1 {
                            assert(s3[d + k] == s2[d + k] && s2[d + k] == s1[d + k]);
                        } else {
                            assert(s3[d + k] == s2[d + k]);
                        }
                    }
                }
                rest1 + rest2 + 1
            },
            NormalEntry::Not => {
                let ghost p = pos as int + 1;
                proof {
                    assert(j == skip::<ImpNeg>(f, p, 1));
                    lemma_skip_lower::<ImpNeg>(f, p, 1);
                }
                arena.entries.push(Entry::Var(0));
                let ghost s1 = arena.slots();
                let rest = Self::write_into_inner(val, pos + 1, arena);
                let ghost s2 = arena.slots();
                arena.entries.set(start, Entry::Not(Idx(start + 1)));
                proof {
                    let s3 = arena.slots();
                    let g2 = graph_of(s2);
                    let g3 = graph_of(s3);
                    lemma_forward(s2);
                    assert forall|t: int| start + 1 <= t < g2.len() implies g3[t] == g2[t] by {
                        assert(s3[t] == s2[t]);
                    }
                    lemma_flat_local::<ImpNeg>(g2, g3, limit(), start as int + 1, start as int + 1);
                    assert forall|i: int| 0 <= i < s3.len() implies match #[trigger] s3[i] {
                        Entry::Var(_) => true,
                        Entry::Implication(x, y) => i < x.0 < s3.len() && i < y.0 < s3.len(),
                        Entry::Not(x) => i < x.0 < s3.len(),
                    } by {
                        if i != start {
                            assert(s3[i] == s2[i]);
                        }
                    }
                    let ops = seq![(start + 1) as nat];
                    let bound = rk(start as int);
                    assert(g3[start as int] == slot_of(s3[start as int]));
                    assert(flat_upto(g3, rk, ops, 0, bound) =~= Seq::<Sym<Variants<Bare>>>::empty());
                    assert(flat_upto(g3, rk, ops, 1, bound) =~= flat_at(g3, rk, start as int + 1));
                    assert(flat_at(g3, rk, start as int) =~= subterm::<ImpNeg>(f, pos as int));
                    assert forall|t: int| 0 <= t < before.len() implies s3[t] == before[t] by {
                        assert(s2[t] == s1[t]);
                    }
                    let whole = subterm::<ImpNeg>(f, pos as int);
                    let inner = subterm::<ImpNeg>(f, p);
                    assert(whole =~= seq![f[pos as int]] + inner);
                    assert forall|t: int| before.len() <= t < s3.len() implies (#[trigger] s3[t]
                        matches Entry::Var(x) ==> occurs_in(whole, x as nat)) by {
                        if let Entry::Var(x) = s3[t] {
                            crate::formula::canon::lemma_occurs_concat(
                                seq![f[pos as int]],
                                inner,
                                x as nat,
                            );
                            assert(s3[t] == s2[t]);
                        }
                    }
                    assert forall|k: int| pos <= k < j implies s3[d + k] == #[trigger] placed(
                        f,
                        k,
                        d,
                    ) by {
                        if k != pos {
                            assert(s3[d + k] == s2[d + k]);
                        }
                    }
                }
                rest + 1
            },
        }
    }

    /// Appends the formula to the arena. Its root comes to stand at the
    /// position that was the end of the arena.
    pub fn write_into(&self, arena: &mut Arena)
        requires
            forward(old(arena).slots()),
            old(arena).slots().len() + self@.len() <= usize::MAX,
        ensures
            final(arena).slots().len() == old(arena).slots().len() + self@.len(),
            forall|t: int|
                0 <= t < old(arena).slots().len() ==> final(arena).slots()[t] == old(
                    arena,
                ).slots()[t],
            forward(final(arena).slots()),
            flat_at(final(arena)@, forward_rank(limit()), old(arena).slots().len() as int) == self@,
            forall|t: int|
                old(arena).slots().len() <= t < final(arena).slots().len() ==> (
                #[trigger] final(arena).slots()[t] matches Entry::Var(x) ==> occurs_in(
                    self@,
                    x as nat,
                )),
            forall|k: int|
                0 <= k < self@.len() ==> final(arena).slots()[old(arena).slots().len() + k]
                    == #[trigger] placed(self@, k, old(arena).slots().len() as int),
    {
        proof {
            use_type_invariant(self);
            assert(subterm::<ImpNeg>(self@, 0) =~= self@);
        }
        let ghost start = arena.slots().len();
        let rest = Self::write_into_inner(&self.elems, 0, arena);
        proof {
            assert forall|k: int| 0 <= k < self@.len() implies arena.slots()[start + k]
                == #[trigger] placed(self@, k, start as int) by {
                assert(arena.slots()[start - 0 + k] == placed(self@, k, start - 0));
            }
        }
    }

    /// Appends the subterm of `val` that begins at `pos` in infix
    /// notation, and returns the number of symbols that it takes.
    fn format_inner(val: &Vec<NormalEntry>, pos: usize, out: &mut String) -> (taken: usize)
        requires
            pos < val@.len(),
            end_of::<ImpNeg>(syms_of(val@), pos as int) <= val@.len(),
        ensures
            taken == end_of::<ImpNeg>(syms_of(val@), pos as int) - pos,
            tree_at(syms_of(val@), pos as int).1 == pos + taken,
            tree_at(syms_of(val@), pos as int).0 is Implication <==> val@[pos as int]
                is Implication,
            final(out)@ == old(out)@ + tree_at(syms_of(val@), pos as int).0.written(),
        decreases val@.len() - pos,
    {
        let ghost f = syms_of(val@);
        let ghost j = end_of::<ImpNeg>(f, pos as int);
        let ghost whole = tree_at(f, pos as int).0.written();
        let total = val.len();
        proof {
            reveal_strlit("(");
            reveal_strlit(") -> ");
            reveal_strlit(" -> ");
            reveal_strlit("-");
            reveal_strlit(")");
            lemma_skip_lower::<ImpNeg>(f, pos as int, 1);
            assert(f[pos as int] == sym_of(val@[pos as int]));
        }
        match val[pos] {
            NormalEntry::Implication => {
                let ghost p = pos as int + 1;
                proof {
                    assert(j == skip::<ImpNeg>(f, p, 2));
                    lemma_skip_lower::<ImpNeg>(f, p, 2);
                    lemma_skip_lower::<ImpNeg>(f, p, 1);
                    lemma_skip_more::<ImpNeg>(f, p, 1, 1);
                    lemma_skip_split::<ImpNeg>(f, p, 1, 1);
                    assert(f[p] == sym_of(val@[p]));
                }
                let bracket = match val[pos + 1] {
                    NormalEntry::Implication => true,
                    _ => false,
                };
                if bracket {
                    out.append("(");
                    let i = Self::format_inner(val, pos + 1, out);
                    out.append(") -> ");
                    let k = Self::format_inner(val, pos + i + 1, out);
                    proof {
                        assert(final(out)@ =~= old(out)@ + whole);
                    }
                    k + i + 1
                } else {
                    let i = Self::format_inner(val, pos + 1, out);
                    out.append(" -> ");
                    let k = Self::format_inner(val, pos + i + 1, out);
                    proof {
                        assert(final(out)@ =~= old(out)@ + whole);
                    }
                    k + i + 1
                }
            },
            NormalEntry::Not => {
                let ghost p = pos as int + 1;
                proof {
                    assert(j == skip::<ImpNeg>(f, p, 1));
                    lemma_skip_lower::<ImpNeg>(f, p, 1);
                    assert(f[p] == sym_of(val@[p]));
                }
                out.append("-");
                let bracket = match val[pos + 1] {
                    NormalEntry::Implication => true,
                    _ => false,
                };
                if bracket {
                    out.append("(");
                    let i = Self::format_inner(val, pos + 1, out);
                    out.append(")");
                    proof {
                        assert(final(out)@ =~= old(out)@ + whole);
                    }
                    i + 1
                } else {
                    let i = Self::format_inner(val, pos + 1, out);
                    proof {
                        assert(final(out)@ =~= old(out)@ + whole);
                    }
                    i + 1
                }
            },
            NormalEntry::Var(x) => {
                proof {
                    assert(skip::<ImpNeg>(f, pos as int + 1, 0) == pos + 1);
                }
                crate::formula::digits::push_decimal(out, x);
                1
            },
        }
    }

    /// The formula in infix notation.
    pub fn to_string(&self) -> (text: String)
        ensures
            text@ == tree_of(self@).written(),
    {
        proof {
            use_type_invariant(self);
        }
        let mut out = String::new();
        Self::format_inner(&self.elems, 0, &mut out);
        out
    }
}

impl Clone for Normal {
    fn clone(&self) -> (copy: Self)
        ensures
            copy@ == self@,
    {
        proof {
            use_type_invariant(self);
        }
        let mut elems: Vec<NormalEntry> = Vec::with_capacity(self.elems.len());
        let mut i: usize = 0;
        while i < self.elems.len()
            invariant
                i <= self.elems@.len(),
                elems@ == self.elems@.subrange(0, i as int),
            decreases self.elems@.len() - i,
        {
            elems.push(self.elems[i]);
            proof {
                assert(elems@ =~= self.elems@.subrange(0, i as int + 1));
            }
            i += 1;
        }
        proof {
            assert(elems@ =~= self.elems@);
        }
        Normal { elems }
    }
}

} // verus!
