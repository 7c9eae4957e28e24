//! The saturation of a theorem set under modus ponens.
//!
//! A context holds the theorems found so far, each with a stable index
//! and the ways in which it was derived. A step pairs every theorem with
//! every theorem, applies modus ponens, and adds what is new.

use vstd::prelude::*;
use crate::formula::digits::{decimal, push_decimal};
use crate::formula::flat::{Flat, Sym};
use crate::formula::language::modus_ponens::{law_mp_unique, modus_ponens, mp_result};
use crate::generation::{
    absorb, absorb_all, generations, known, lemma_mp_of, lemma_place_of, next_generation, offer,
    offers, offers_in_row, offers_of, records, seeded,
};
use crate::formula::language::{sym_of, syms_of, Language, Normal, Term};

verus! {

/// How a theorem was derived.
#[derive(PartialEq, Eq, Structural, Hash, Debug, Clone, Copy)]
pub enum Source {
    /// It is an axiom.
    Axiom,
    /// It is what modus ponens gives of the theorem with the first index
    /// as premise and the theorem with the second index as implication.
    MP(usize, usize),
}

/// What a context records of a theorem.
#[derive(PartialEq, Eq, Hash, Debug, Clone)]
pub struct Meta {
    /// The index of the theorem, which it keeps.
    pub index: usize,
    /// The ways in which the theorem was derived, each once.
    pub sources: Vec<Source>,
}

impl Source {
    /// The written form of a source: `AXIOM`, or `MP` and the two
    /// indices.
    pub open spec fn written(self) -> Seq<char> {
        match self {
            Source::Axiom => seq!['A', 'X', 'I', 'O', 'M'],
            Source::MP(a, b) => seq!['M', 'P', ' '] + decimal(a as nat) + seq![',', ' '] + decimal(
                b as nat,
            ),
        }
    }

    /// Appends the written form of the source to a text.
    pub fn write_to(&self, out: &mut String)
        ensures
            final(out)@ == old(out)@ + self.written(),
    {
        proof {
            reveal_strlit("AXIOM");
            reveal_strlit("MP ");
            reveal_strlit(", ");
        }
        match self {
            Source::Axiom => {
                out.append("AXIOM");
                proof {
                    assert(final(out)@ =~= old(out)@ + self.written());
                }
            },
            Source::MP(a, b) => {
                out.append("MP ");
                push_decimal(out, *a);
                out.append(", ");
                push_decimal(out, *b);
                proof {
                    assert(final(out)@ =~= old(out)@ + self.written());
                }
            },
        }
    }

    /// The written form of the source.
    pub fn to_string(&self) -> (text: String)
        ensures
            text@ == self.written(),
    {
        let mut out = String::new();
        self.write_to(&mut out);
        out
    }
}

/// The hasher of the index of formulas.
#[verifier::external_type_specification]
#[verifier::external_body]
pub struct ExRandomState(ahash::RandomState);

/// The index of formulas: a hash map from the key of a formula to its
/// place in the context.
#[verifier::external_type_specification]
#[verifier::external_body]
#[verifier::reject_recursive_types(K)]
#[verifier::reject_recursive_types(V)]
#[verifier::reject_recursive_types(S)]
pub struct ExAHashMap<K, V, S>(ahash::AHashMap<K, V, S>);

/// What an index holds: the place that it gives to each key.
pub uninterp spec fn places(index: ahash::AHashMap<Vec<u32>, usize>) -> Map<Seq<u32>, usize>;

/// An index that holds nothing: `AHashMap::new`.
#[verifier::external_body]
fn index_new() -> (made: ahash::AHashMap<Vec<u32>, usize>)
    ensures
        forall|key: Seq<u32>| !places(made).contains_key(key),
{
    ahash::AHashMap::new()
}

/// The place that the index gives to a key, if it holds the key:
/// `AHashMap::get`, which finds the entry whose key equals the given
/// one.
#[verifier::external_body]
fn index_get(index: &ahash::AHashMap<Vec<u32>, usize>, key: &Vec<u32>) -> (place: Option<usize>)
    ensures
        place == if places(*index).contains_key(key@) {
            Some(places(*index)[key@])
        } else {
            None::<usize>
        },
{
    index.get(key).copied()
}

/// Gives a key its place in the index: `AHashMap::insert`, which adds
/// the entry or, where the index holds the key, puts the new value in
/// the place of the old one and returns the old one.
#[verifier::external_body]
fn index_insert(index: &mut ahash::AHashMap<Vec<u32>, usize>, key: Vec<u32>, place: usize) -> (was: Option<usize>)
    ensures
        places(*final(index)) == places(*old(index)).insert(key@, place),
        was == if places(*old(index)).contains_key(key@) {
            Some(places(*old(index))[key@])
        } else {
            None::<usize>
        },
{
    index.insert(key, place)
}

/// The number that stands for a symbol in a key: a variable stands for
/// itself, a constructor for its tag above all variables.
pub open spec fn code_of<L: Language>(x: Sym<L::Shape>) -> u32 {
    match x {
        Sym::Var(v) => v as u32,
        Sym::Op(k) => (0x10000 + L::tag(k)) as u32,
    }
}

/// The key of a formula: the numbers of its symbols.
pub open spec fn key_of<L: Language>(f: Flat<L::Shape>) -> Seq<u32> {
    f.map_values(|x: Sym<L::Shape>| code_of::<L>(x))
}

/// Whether every variable of `f` is a 16-bit number.
pub open spec fn small<K>(f: Flat<K>) -> bool {
    forall|i: int| 0 <= i < f.len() ==> (#[trigger] f[i] matches Sym::Var(v) ==> v <= u16::MAX)
}

/// Formulas with the same key are the same.
pub proof fn lemma_key_injective<L: Language>(f: Flat<L::Shape>, g: Flat<L::Shape>)
    requires
        small(f),
        small(g),
        key_of::<L>(f) == key_of::<L>(g),
    ensures
        f == g,
{
    L::laws();
    assert(f.len() == key_of::<L>(f).len());
    assert(g.len() == key_of::<L>(g).len());
    assert forall|i: int| 0 <= i < f.len() implies f[i] == g[i] by {
        assert(key_of::<L>(f)[i] == code_of::<L>(f[i]));
        assert(key_of::<L>(g)[i] == code_of::<L>(g[i]));
    }
    assert(f =~= g);
}

/// The key of a formula.
fn key<L: Language>(f: &Normal<L>) -> (made: Vec<u32>)
    ensures
        made@ == key_of::<L>(f@),
        small(f@),
{
    let terms = f.terms();
    let mut made: Vec<u32> = Vec::with_capacity(terms.len());
    let mut i: usize = 0;
    while i < terms.len()
        invariant
            syms_of(terms@) == f@,
            i <= terms@.len(),
            made@ == key_of::<L>(f@.subrange(0, i as int)),
        decreases terms@.len() - i,
    {
        proof {
            assert(f@[i as int] == sym_of(terms@[i as int]));
        }
        let code = match &terms[i] {
            Term::Var(v) => *v as u32,
            Term::Term(shape) => 0x10000u32 + L::code(shape) as u32,
        };
        made.push(code);
        proof {
            assert(made@ =~= key_of::<L>(f@.subrange(0, i as int + 1)));
        }
        i += 1;
    }
    proof {
        assert(f@.subrange(0, f@.len() as int) =~= f@);
        assert forall|i: int| 0 <= i < f@.len() implies (#[trigger] f@[i] matches Sym::Var(v) ==> v
            <= u16::MAX) by {
            assert(f@[i] == sym_of(terms@[i]));
        }
    }
    made
}


/// The theorems of a context, in the order in which they were added,
/// each with what the context records of it.
pub type Entries<L> = Seq<(Normal<L>, Meta)>;

/// Whether the entries hold the formula `f`.
pub open spec fn holds<L: Language>(e: Entries<L>, f: Flat<L::Shape>) -> bool {
    exists|k: int| 0 <= k < e.len() && (#[trigger] e[k]).0@ == f
}

/// Whether the two formulas are short enough to be written to one
/// arena.
pub open spec fn fits<L: Language>(p: Flat<L::Shape>, f: Flat<L::Shape>) -> bool {
    p.len() + f.len() <= u16::MAX
}

/// Whether `r` is what modus ponens gives of the entries at `i` and `j`,
/// which fit into an arena and have the indices `a` and `b`.
pub open spec fn yields<L: Language>(
    e: Entries<L>,
    i: int,
    j: int,
    a: usize,
    b: usize,
    r: Flat<L::Shape>,
) -> bool {
    &&& 0 <= i < e.len()
    &&& 0 <= j < e.len()
    &&& e[i].1.index == a
    &&& e[j].1.index == b
    &&& fits::<L>(e[i].0@, e[j].0@)
    &&& mp_result::<L>(e[i].0@, e[j].0@, Some(r))
}

/// Whether the entry at `k` is what modus ponens gives of the entries
/// with the indices `a` and `b`, which are below its own.
pub open spec fn derived<L: Language>(e: Entries<L>, k: int, a: usize, b: usize) -> bool {
    a < e[k].1.index && b < e[k].1.index && exists|i: int, j: int| #[trigger]
        yields(e, i, j, a, b, e[k].0@)
}

/// Whether a source of the entry at `k` is true of the entries.
pub open spec fn justified<L: Language>(e: Entries<L>, k: int, s: Source) -> bool {
    match s {
        Source::Axiom => true,
        Source::MP(a, b) => derived(e, k, a, b),
    }
}

/// Whether the entries are in order: no formula and no index occurs
/// twice, every index is below `next`, every entry has a source, none
/// twice, and every source is true.
pub open spec fn regular<L: Language>(e: Entries<L>, next: usize) -> bool {
    &&& forall|i: int, j: int|
        0 <= i < j < e.len() ==> (#[trigger] e[i]).0@ != (#[trigger] e[j]).0@ && e[i].1.index
            != e[j].1.index
    &&& forall|k: int|
        0 <= k < e.len() ==> (#[trigger] e[k]).1.index < next && e[k].1.sources@.len() > 0
            && e[k].1.sources@.no_duplicates()
    &&& forall|k: int, s: int|
        0 <= k < e.len() && 0 <= s < e[k].1.sources@.len() ==> justified(
            e,
            k,
            #[trigger] e[k].1.sources@[s],
        )
}

/// Whether the index gives each formula of the entries its place, and
/// holds nothing else.
pub open spec fn indexed<L: Language>(e: Entries<L>, at: Map<Seq<u32>, usize>) -> bool {
    &&& forall|k: int|
        0 <= k < e.len() ==> at.contains_key(key_of::<L>((#[trigger] e[k]).0@)) && at[key_of::<L>(
            e[k].0@,
        )] == k
    &&& forall|key: Seq<u32>|
        at.contains_key(key) ==> 0 <= #[trigger] at[key] < e.len() && key_of::<L>(
            e[at[key] as int].0@,
        ) == key
}

/// Whether `now` keeps what `was` held: every entry stays at its place
/// with its formula and its index, and keeps its sources.
pub open spec fn grows<L: Language>(was: Entries<L>, now: Entries<L>) -> bool {
    &&& was.len() <= now.len()
    &&& forall|k: int|
        0 <= k < was.len() ==> (#[trigger] now[k]).0@ == was[k].0@ && now[k].1.index
            == was[k].1.index && forall|s: Source|
            was[k].1.sources@.contains(s) ==> now[k].1.sources@.contains(s)
}

/// The saturation state: the theorems found so far, and the index to
/// give next.
pub struct Context<L: Language> {
    entries: Vec<(Normal<L>, Meta)>,
    index: ahash::AHashMap<Vec<u32>, usize>,
    next_idx: usize,
}

impl<L: Language> View for Context<L> {
    type V = Entries<L>;

    closed spec fn view(&self) -> Entries<L> {
        self.entries@
    }
}

impl<L: Language> Context<L> {
    /// The index that the next new theorem gets.
    pub closed spec fn next_index(&self) -> usize {
        self.next_idx
    }

    /// Whether the context is what `k` generations make of the axioms:
    /// it records, and gives as the next index, what they determine.
    pub open spec fn after(&self, axioms: Seq<Normal<L>>, k: nat) -> bool {
        let start = seeded(axioms, axioms.len() as int);
        let reached = generations::<L>(start, start.len() as usize, k);
        records(self@) == reached.0 && self.next_index() == reached.1
    }

    /// Whether the context is in order: its entries are, and its index
    /// of formulas agrees with them.
    pub closed spec fn wf(&self) -> bool {
        regular::<L>(self@, self.next_idx) && indexed::<L>(self@, places(self.index))
    }

    /// The entries of a context that is in order are in order.
    pub proof fn lemma_regular(&self)
        requires
            self.wf(),
        ensures
            regular::<L>(self@, self.next_index()),
    {
    }

    /// The theorems, in the order in which they were added, each with
    /// its index and its sources.
    pub fn entries(&self) -> (entries: &Vec<(Normal<L>, Meta)>)
        ensures
            entries@ == self@,
    {
        &self.entries
    }

    /// The number of theorems.
    pub fn len(&self) -> (n: usize)
        ensures
            n == self@.len(),
    {
        self.entries.len()
    }

    /// The index that the next new theorem gets.
    pub fn upcoming(&self) -> (next: usize)
        ensures
            next == self.next_index(),
    {
        self.next_idx
    }

    /// Sets `count` indices aside, for candidates that are found
    /// elsewhere, and returns the first of them.
    pub fn reserve(&mut self, count: usize) -> (first: usize)
        requires
            old(self).wf(),
            old(self).next_index() + count <= usize::MAX,
        ensures
            final(self).wf(),
            final(self)@ == old(self)@,
            first == old(self).next_index(),
            final(self).next_index() == first + count,
    {
        let first = self.next_idx;
        self.next_idx = first + count;
        first
    }

    /// The place of a formula among the theorems, if it is one.
    pub fn find(&self, f: &Normal<L>) -> (place: Option<usize>)
        requires
            self.wf(),
        ensures
            match place {
                Some(k) => k < self@.len() && self@[k as int].0@ == f@,
                None => !holds(self@, f@),
            },
    {
        let made = key::<L>(f);
        let place = index_get(&self.index, &made);
        proof {
            match place {
                Some(k) => {
                    let g = &self.entries[k as int].0;
                    g.well_small();
                    lemma_key_injective::<L>(g@, f@);
                },
                None => {
                    if holds(self@, f@) {
                        let k = choose|k: int| 0 <= k < self@.len() && (#[trigger] self@[k]).0@ == f@;
                        assert(places(self.index).contains_key(key_of::<L>(self@[k].0@)));
                    }
                },
            }
        }
        place
    }

    /// What the context records of a formula, if it is a theorem.
    pub fn get(&self, f: &Normal<L>) -> (meta: Option<&Meta>)
        requires
            self.wf(),
        ensures
            match meta {
                Some(m) => exists|k: int|
                    0 <= k < self@.len() && (#[trigger] self@[k]).0@ == f@ && self@[k].1 == *m,
                None => !holds(self@, f@),
            },
    {
        match self.find(f) {
            Some(k) => Some(&self.entries[k].1),
            None => None,
        }
    }
}


/// Whether one of the first `n` of the formulas is `f`.
pub open spec fn listed<L: Language>(fs: Seq<Normal<L>>, n: int, f: Flat<L::Shape>) -> bool {
    exists|a: int| 0 <= a < n && 0 <= a < fs.len() && (#[trigger] fs[a])@ == f
}

/// Whether a candidate can be merged into the entries: its formula is
/// what modus ponens gives of the two entries that its source names,
/// whose indices are below `floor`, and the index proposed for it is at
/// or above `floor` and below `next`.
pub open spec fn admitted<L: Language>(
    e: Entries<L>,
    floor: usize,
    next: usize,
    c: (Normal<L>, Source, usize),
) -> bool {
    &&& floor <= c.2 < next
    &&& c.1 matches Source::MP(a, b) && a < floor && b < floor && exists|i: int, j: int| #[trigger]
        yields(e, i, j, a, b, c.0@)
}

/// Whether candidates can be merged into the entries, one after the
/// other: each is admitted, no index is proposed twice, none is taken,
/// and every entry whose formula a candidate holds has an index at or
/// above `floor`.
pub open spec fn admissible<L: Language>(
    e: Entries<L>,
    floor: usize,
    next: usize,
    cs: Seq<(Normal<L>, Source, usize)>,
) -> bool {
    &&& forall|c: int| 0 <= c < cs.len() ==> admitted(e, floor, next, #[trigger] cs[c])
    &&& forall|c: int, d: int| 0 <= c < d < cs.len() ==> (#[trigger] cs[c]).2 != (#[trigger] cs[d]).2
    &&& forall|c: int, k: int|
        0 <= c < cs.len() && 0 <= k < e.len() ==> (#[trigger] cs[c]).2 != (#[trigger] e[k]).1.index
    &&& forall|c: int, k: int|
        0 <= c < cs.len() && 0 <= k < e.len() && (#[trigger] cs[c]).0@ == (#[trigger] e[k]).0@
            ==> floor <= e[k].1.index
}

/// The records after a source was added to the entry of a formula that
/// they know are the records with the candidate merged into them.
proof fn lemma_absorb_known<L: Language>(
    mid: Entries<L>,
    now: Entries<L>,
    place: int,
    c: crate::generation::Offer<L::Shape>,
    next: usize,
)
    requires
        regular::<L>(mid, next),
        0 <= place < mid.len() == now.len(),
        mid[place].0@ == c.0,
        forall|k: int| 0 <= k < mid.len() && k != place ==> now[k] == mid[k],
        now[place].0@ == mid[place].0@,
        now[place].1.index == mid[place].1.index,
        now[place].1.sources@ == (if mid[place].1.sources@.contains(c.1) {
            mid[place].1.sources@
        } else {
            mid[place].1.sources@.push(c.1)
        }),
    ensures
        records(now) == absorb(records(mid), c),
{
    let m = records(mid);
    assert forall|a: int, b: int| 0 <= a < b < m.len() implies (#[trigger] m[a]).0 != (
    #[trigger] m[b]).0 by {
        assert(mid[a].0@ != mid[b].0@);
    }
    lemma_place_of(m, place);
    assert(records(now) =~= absorb(m, c));
}

/// An entry keeps being what modus ponens gives of two others when
/// entries are added and sources are added.
proof fn lemma_derived_kept<L: Language>(was: Entries<L>, now: Entries<L>, k: int, a: usize, b: usize)
    requires
        grows(was, now),
        0 <= k < was.len(),
        derived(was, k, a, b),
    ensures
        derived(now, k, a, b),
{
    let (i, j) = choose|i: int, j: int| #[trigger] yields(was, i, j, a, b, was[k].0@);
    assert(now[i].1.index == a && now[j].1.index == b);
    assert(yields(now, i, j, a, b, now[k].0@));
}

impl<L: Language> Context<L> {
    /// Adds a formula that the context does not hold, with the given
    /// index and its one source.
    fn add(&mut self, f: Normal<L>, source: Source, index: usize)
        requires
            old(self).wf(),
            !holds(old(self)@, f@),
            index < old(self).next_index(),
            forall|k: int| 0 <= k < old(self)@.len() ==> (#[trigger] old(self)@[k]).1.index != index,
            source matches Source::MP(a, b) ==> a < index && b < index && exists|i: int, j: int| #[trigger]
                yields(old(self)@, i, j, a, b, f@),
        ensures
            final(self).wf(),
            final(self).next_index() == old(self).next_index(),
            final(self)@.len() == old(self)@.len() + 1,
            grows(old(self)@, final(self)@),
            forall|k: int| 0 <= k < old(self)@.len() ==> final(self)@[k] == old(self)@[k],
            final(self)@[old(self)@.len() as int].0@ == f@,
            final(self)@[old(self)@.len() as int].1.index == index,
            final(self)@[old(self)@.len() as int].1.sources@ == seq![source],
    {
        let ghost was = self@;
        let ghost fv = f@;
        let made = key::<L>(&f);
        let at = self.entries.len();
        proof {
            if places(self.index).contains_key(made@) {
                let k = places(self.index)[made@] as int;
                self.entries[k].0.well_small();
                lemma_key_injective::<L>(self@[k].0@, f@);
            }
        }
        let mut sources = Vec::new();
        sources.push(source);
        self.entries.push((f, Meta { index, sources }));
        index_insert(&mut self.index, made, at);
        proof {
            let now = self@;
            assert forall|k: int| 0 <= k < was.len() implies now[k] == was[k] by {}
            assert(grows(was, now));
            assert forall|k: int, s: int|
                0 <= k < now.len() && 0 <= s < now[k].1.sources@.len() implies justified(
                now,
                k,
                #[trigger] now[k].1.sources@[s],
            ) by {
                let src = now[k].1.sources@[s];
                if k < was.len() {
                    assert(justified(was, k, was[k].1.sources@[s]));
                    match src {
                        Source::Axiom => {},
                        Source::MP(a, b) => {
                            lemma_derived_kept(was, now, k, a, b);
                        },
                    }
                } else {
                    match src {
                        Source::Axiom => {},
                        Source::MP(a, b) => {
                            let (i, j) = choose|i: int, j: int| #[trigger]
                                yields(was, i, j, a, b, fv);
                            assert(now[i].1.index == a && now[j].1.index == b);
                            assert(yields(now, i, j, a, b, now[k].0@));
                        },
                    }
                }
            }
            assert forall|k: int| 0 <= k < now.len() implies places(self.index).contains_key(
                key_of::<L>((#[trigger] now[k]).0@),
            ) && places(self.index)[key_of::<L>(now[k].0@)] == k by {
                if k < was.len() {
                    assert(now[k] == was[k]);
                    if key_of::<L>(was[k].0@) == made@ {
                        self.entries[k].0.well_small();
                        was[k].0.well_small();
                        lemma_key_injective::<L>(was[k].0@, fv);
                    }
                }
            }
            assert forall|key: Seq<u32>| places(self.index).contains_key(key) implies 0
                <= #[trigger] places(self.index)[key] < now.len() && key_of::<L>(
                now[places(self.index)[key] as int].0@,
            ) == key by {
                if key != made@ {
                    assert(now[places(self.index)[key] as int] == was[places(self.index)[key] as int]);
                }
            }
        }
    }

    /// Adds a source to the entry at `place`, unless the entry has it.
    fn add_source(&mut self, place: usize, source: Source)
        requires
            old(self).wf(),
            place < old(self)@.len(),
            justified(old(self)@, place as int, source),
        ensures
            final(self).wf(),
            final(self).next_index() == old(self).next_index(),
            final(self)@.len() == old(self)@.len(),
            grows(old(self)@, final(self)@),
            forall|k: int|
                0 <= k < old(self)@.len() && k != place ==> final(self)@[k] == old(self)@[k],
            final(self)@[place as int].0 == old(self)@[place as int].0,
            final(self)@[place as int].1.index == old(self)@[place as int].1.index,
            final(self)@[place as int].1.sources@ == (if old(
                self,
            )@[place as int].1.sources@.contains(source) {
                old(self)@[place as int].1.sources@
            } else {
                old(self)@[place as int].1.sources@.push(source)
            }),
            final(self)@[place as int].1.sources@.contains(source),
            forall|s: Source|
                final(self)@[place as int].1.sources@.contains(s) ==> s == source || old(
                    self,
                )@[place as int].1.sources@.contains(s),
    {
        let ghost was = self@;
        let ghost before = self@[place as int].1.sources@;
        let n = self.entries[place].1.sources.len();
        let mut seen = false;
        let mut i: usize = 0;
        while i < n
            invariant
                self@ == was,
                place < was.len(),
                n == before.len(),
                before == was[place as int].1.sources@,
                i <= n,
                seen == exists|t: int| 0 <= t < i && before[t] == source,
            decreases n - i,
        {
            if self.entries[place].1.sources[i] == source {
                seen = true;
            }
            i += 1;
        }
        if !seen {
            self.entries[place].1.sources.push(source);
            proof {
                let now = self@;
                let after = now[place as int].1.sources@;
                assert(after == before.push(source));
                assert(after[n as int] == source);
                assert forall|s: Source| before.contains(s) implies after.contains(s) by {
                    let t = choose|t: int| 0 <= t < before.len() && before[t] == s;
                    assert(after[t] == s);
                }
                assert(grows(was, now));
                assert(after.no_duplicates());
                assert forall|k: int, s: int|
                    0 <= k < now.len() && 0 <= s < now[k].1.sources@.len() implies justified(
                    now,
                    k,
                    #[trigger] now[k].1.sources@[s],
                ) by {
                    let src = now[k].1.sources@[s];
                    if k == place && s == n {
                        match src {
                            Source::Axiom => {},
                            Source::MP(a, b) => {
                                lemma_derived_kept(was, now, k, a, b);
                            },
                        }
                    } else {
                        assert(src == was[k].1.sources@[s]);
                        assert(justified(was, k, was[k].1.sources@[s]));
                        match src {
                            Source::Axiom => {},
                            Source::MP(a, b) => {
                                lemma_derived_kept(was, now, k, a, b);
                            },
                        }
                    }
                }
                assert forall|k: int| 0 <= k < now.len() implies (#[trigger] now[k]).0@
                    == was[k].0@ by {}
            }
        } else {
            proof {
                let t = choose|t: int| 0 <= t < n && before[t] == source;
                assert(before.contains(source));
            }
        }
    }

    /// A context of the given axioms: each gets the next index, from 0
    /// on, and the one source `Axiom`; an axiom that was given before is
    /// passed over.
    pub fn new(axioms: &[Normal<L>]) -> (made: Self)
        ensures
            made.wf(),
            made.next_index() == made@.len(),
            records(made@) == seeded(axioms@, axioms@.len() as int),
            made.after(axioms@, 0),
            made@.len() <= axioms@.len(),
            forall|k: int|
                0 <= k < made@.len() ==> (#[trigger] made@[k]).1.index == k && made@[k].1.sources@
                    == seq![Source::Axiom],
            forall|a: int| 0 <= a < axioms@.len() ==> holds(made@, (#[trigger] axioms@[a])@),
            forall|k: int|
                0 <= k < made@.len() ==> listed(
                    axioms@,
                    axioms@.len() as int,
                    (#[trigger] made@[k]).0@,
                ),
    {
        let mut made = Context { entries: Vec::new(), index: index_new(), next_idx: 0 };
        let mut a: usize = 0;
        while a < axioms.len()
            invariant
                a <= axioms@.len(),
                made.wf(),
                made.next_index() == made@.len(),
                records(made@) == seeded(axioms@, a as int),
                made@.len() <= a,
                forall|k: int|
                    0 <= k < made@.len() ==> (#[trigger] made@[k]).1.index == k
                        && made@[k].1.sources@ == seq![Source::Axiom],
                forall|b: int| 0 <= b < a ==> holds(made@, (#[trigger] axioms@[b])@),
                forall|k: int|
                    0 <= k < made@.len() ==> listed(axioms@, a as int, (#[trigger] made@[k]).0@),
            decreases axioms@.len() - a,
        {
            let ghost was = made@;
            proof {
                lemma_known(was, axioms@[a as int]@);
            }
            match made.find(&axioms[a]) {
                Some(_) => {},
                None => {
                    let index = made.entries.len();
                    made.next_idx = index + 1;
                    made.add(axioms[a].clone(), Source::Axiom, index);
                    proof {
                        assert(records(made@) =~= records(was).push(
                            (axioms@[a as int]@, index, seq![Source::Axiom]),
                        ));
                    }
                },
            }
            proof {
                let now = made@;
                assert forall|b: int| 0 <= b < a + 1 implies holds(now, (#[trigger] axioms@[b])@) by {
                    if b < a {
                        let k = choose|k: int| 0 <= k < was.len() && (#[trigger] was[k]).0@
                            == axioms@[b]@;
                        assert(now[k].0@ == axioms@[b]@);
                    } else {
                        if was.len() == now.len() {
                        } else {
                            assert(now[was.len() as int].0@ == axioms@[a as int]@);
                        }
                    }
                }
                assert forall|k: int| 0 <= k < now.len() implies listed(
                    axioms@,
                    a as int + 1,
                    (#[trigger] now[k]).0@,
                ) by {
                    if k < was.len() {
                        assert(listed(axioms@, a as int, was[k].0@));
                        let b = choose|b: int|
                            0 <= b < a && 0 <= b < axioms@.len() && (#[trigger] axioms@[b])@
                                == was[k].0@;
                        assert(axioms@[b]@ == now[k].0@);
                    } else {
                        assert(axioms@[a as int]@ == now[k].0@);
                    }
                }
            }
            a += 1;
        }
        made
    }
}


/// Whether one of the candidates holds the formula `r` with the source
/// `s`.
pub open spec fn offered<L: Language>(
    cs: Seq<(Normal<L>, Source, usize)>,
    r: Flat<L::Shape>,
    s: Source,
) -> bool {
    exists|c: int| 0 <= c < cs.len() && (#[trigger] cs[c]).0@ == r && cs[c].1 == s
}

/// Whether the entries hold the formula `r` with the source `s`.
pub open spec fn recorded<L: Language>(e: Entries<L>, r: Flat<L::Shape>, s: Source) -> bool {
    exists|k: int| 0 <= k < e.len() && (#[trigger] e[k]).0@ == r && e[k].1.sources@.contains(s)
}

/// Whether the pair of the entries at `i` and `j` has been seen to: if
/// the two fit into an arena, modus ponens was applied to them, and what
/// it gave, if anything, is held by the entries or offered by a
/// candidate, with the pair as its source.
pub open spec fn seen_to<L: Language>(
    e: Entries<L>,
    cs: Seq<(Normal<L>, Source, usize)>,
    i: int,
    j: int,
) -> bool {
    fits::<L>(e[i].0@, e[j].0@) ==> exists|o: Option<Flat<L::Shape>>| #[trigger]
        mp_result::<L>(e[i].0@, e[j].0@, o) && match o {
            Some(r) => holds(e, r) || offered(cs, r, Source::MP(e[i].1.index, e[j].1.index)),
            None => true,
        }
}

/// Whether the pair of the entries of `was` at `i` and `j` is closed in
/// `now`: if the two fit into an arena, what modus ponens gives of
/// them, if anything, is held by `now`, and with the pair as a source if
/// `was` did not hold it.
pub open spec fn closed_in<L: Language>(was: Entries<L>, now: Entries<L>, i: int, j: int) -> bool {
    fits::<L>(was[i].0@, was[j].0@) ==> exists|o: Option<Flat<L::Shape>>| #[trigger]
        mp_result::<L>(was[i].0@, was[j].0@, o) && match o {
            Some(r) => holds(now, r) && (!holds(was, r) ==> recorded(
                now,
                r,
                Source::MP(was[i].1.index, was[j].1.index),
            )),
            None => true,
        }
}

/// Whether the records know a formula is whether the entries hold it.
pub proof fn lemma_known<L: Language>(e: Entries<L>, r: Flat<L::Shape>)
    ensures
        known(records(e), r) == holds(e, r),
{
    let m = records(e);
    if known(m, r) {
        let k = choose|k: int| 0 <= k < m.len() && (#[trigger] m[k]).0 == r;
        assert(e[k].0@ == r);
    }
    if holds(e, r) {
        let k = choose|k: int| 0 <= k < e.len() && (#[trigger] e[k]).0@ == r;
        assert(m[k].0 == r);
    }
}

/// The candidates after one more pair: if the pair fits into an arena
/// and modus ponens gives of it what is no theorem yet, that was added
/// with the next index; else nothing was.
proof fn lemma_offer<L: Language>(
    e: Entries<L>,
    floor: usize,
    i: int,
    j: int,
    base: Seq<crate::generation::Offer<L::Shape>>,
    before: Seq<(Normal<L>, Source, usize)>,
    now: Seq<(Normal<L>, Source, usize)>,
    outcome: Option<Flat<L::Shape>>,
)
    requires
        0 <= i < e.len(),
        0 <= j < e.len(),
        offers_of(before) == offers_in_row::<L>(records(e), floor, i, j, base),
        fits::<L>(e[i].0@, e[j].0@) ==> mp_result::<L>(e[i].0@, e[j].0@, outcome),
        floor + before.len() <= usize::MAX,
        if fits::<L>(e[i].0@, e[j].0@) && outcome is Some && !holds(e, outcome->0) {
            now.len() == before.len() + 1 && now.last().0@ == outcome->0 && now.last().1
                == Source::MP(e[i].1.index, e[j].1.index) && now.last().2 == floor + before.len()
                && forall|c: int| 0 <= c < before.len() ==> now[c] == before[c]
        } else {
            now == before
        },
    ensures
        offers_of(now) == offers_in_row::<L>(records(e), floor, i, j + 1, base),
{
    let m = records(e);
    assert(m[i].0 == e[i].0@ && m[j].0 == e[j].0@);
    assert(m[i].1 == e[i].1.index && m[j].1 == e[j].1.index);
    if fits::<L>(e[i].0@, e[j].0@) {
        lemma_mp_of::<L>(e[i].0@, e[j].0@, outcome);
        if outcome is Some {
            lemma_known(e, outcome->0);
        }
    }
    if fits::<L>(e[i].0@, e[j].0@) && outcome is Some && !holds(e, outcome->0) {
        assert(offer::<L>(m, i, j) == Some((outcome->0, Source::MP(e[i].1.index, e[j].1.index))));
        assert(offers_of(now) =~= offers_of(before).push(
            (outcome->0, Source::MP(e[i].1.index, e[j].1.index), (floor + before.len()) as usize),
        ));
    } else {
        assert(offer::<L>(m, i, j) is None);
    }
}

/// Whether `c` is new of `a` and `b`: the entries hold both, the two
/// fit into an arena, modus ponens gives `c` of the premise `a` and the
/// implication `b`, and the entries do not hold `c`.
pub open spec fn novel<L: Language>(
    e: Entries<L>,
    a: Flat<L::Shape>,
    b: Flat<L::Shape>,
    c: Flat<L::Shape>,
) -> bool {
    holds(e, a) && holds(e, b) && fits::<L>(a, b) && mp_result::<L>(a, b, Some(c)) && !holds(e, c)
}

/// Whether the pair of the entries at `i` and `j` gives nothing new: if
/// the two fit into an arena, what modus ponens gives of them, if
/// anything, is held.
pub open spec fn barren<L: Language>(e: Entries<L>, i: int, j: int) -> bool {
    fits::<L>(e[i].0@, e[j].0@) ==> exists|o: Option<Flat<L::Shape>>| #[trigger]
        mp_result::<L>(e[i].0@, e[j].0@, o) && match o {
            Some(r) => holds(e, r),
            None => true,
        }
}

impl<L: Language> Context<L> {
    /// What the pair of the theorems at `i` and `j` offers: what modus
    /// ponens gives of the first as premise and the second as
    /// implication, with the pair as its source, if the two fit into an
    /// arena and it gives something that is no theorem yet.
    pub fn candidate(&self, i: usize, j: usize) -> (found: Option<(Normal<L>, Source)>)
        requires
            self.wf(),
            i < self@.len(),
            j < self@.len(),
        ensures
            match found {
                Some((r, s)) => offer::<L>(records(self@), i as int, j as int) == Some((r@, s)),
                None => offer::<L>(records(self@), i as int, j as int) is None,
            },
            match found {
                Some((r, s)) => novel(self@, self@[i as int].0@, self@[j as int].0@, r@) && s
                    == Source::MP(self@[i as int].1.index, self@[j as int].1.index),
                None => barren(self@, i as int, j as int),
            },
    {
        let ghost e = self@;
        let ghost m = records(e);
        proof {
            assert(m[i as int].0 == e[i as int].0@ && m[j as int].0 == e[j as int].0@);
            assert(m[i as int].1 == e[i as int].1.index && m[j as int].1 == e[j as int].1.index);
        }
        let lp = self.entries[i].0.len();
        let lf = self.entries[j].0.len();
        if lp > 0xFFFF || lf > 0xFFFF - lp {
            return None;
        }
        let made = modus_ponens(&self.entries[i].0, &self.entries[j].0);
        proof {
            lemma_mp_of::<L>(
                e[i as int].0@,
                e[j as int].0@,
                crate::formula::language::modus_ponens::view_of(made),
            );
        }
        match made {
            Some(r) => {
                proof {
                    lemma_known(e, r@);
                }
                match self.find(&r) {
                    Some(_) => None,
                    None => Some(
                        (r, Source::MP(self.entries[i].1.index, self.entries[j].1.index)),
                    ),
                }
            },
            None => None,
        }
    }

    /// Whether the index has room for a step: for every pair of
    /// theorems an index can be drawn.
    pub open spec fn room(&self) -> bool {
        self.next_index() + self@.len() * self@.len() <= usize::MAX
    }

    /// The candidates of a generation: for every ordered pair of
    /// theorems that fit into an arena, what modus ponens gives of them,
    /// if it gives something that is no theorem yet, with the pair as
    /// its source and the next index drawn for it. `for_each_new` is
    /// called with the premise, the implication and the result of each.
    ///
    /// A formula that several pairs give is offered once for each, with
    /// an index of its own each time.
    pub fn new_entries_iter<F: Fn(&Normal<L>, &Normal<L>, &Normal<L>)>(
        &mut self,
        for_each_new: &F,
    ) -> (candidates: Vec<(Normal<L>, Source, usize)>)
        requires
            old(self).wf(),
            old(self).room(),
            forall|a: &Normal<L>, b: &Normal<L>, c: &Normal<L>|
                novel(old(self)@, a@, b@, c@) ==> call_requires(for_each_new, (a, b, c)),
        ensures
            final(self).wf(),
            final(self)@ == old(self)@,
            final(self).next_index() == old(self).next_index() + candidates@.len(),
            offers_of(candidates@) == offers::<L>(
                records(old(self)@),
                old(self).next_index(),
                old(self)@.len() as int,
            ),
            forall|c: int|
                0 <= c < candidates@.len() ==> (#[trigger] candidates@[c]).2 == old(
                    self,
                ).next_index() + c,
            admissible(old(self)@, old(self).next_index(), final(self).next_index(), candidates@),
            forall|c: int|
                0 <= c < candidates@.len() ==> !holds(old(self)@, (#[trigger] candidates@[c]).0@),
            forall|i: int, j: int|
                0 <= i < old(self)@.len() && 0 <= j < old(self)@.len() ==> #[trigger] seen_to(
                    old(self)@,
                    candidates@,
                    i,
                    j,
                ),
    {
        let ghost e = self@;
        let ghost floor = self.next_idx;
        let n = self.entries.len();
        let mut candidates: Vec<(Normal<L>, Source, usize)> = Vec::new();
        let mut i: usize = 0;
        while i < n
            invariant
                self@ == e,
                n == e.len(),
                self.wf(),
                regular::<L>(e, floor),
                floor + n * n <= usize::MAX,
                forall|a: &Normal<L>, b: &Normal<L>, c: &Normal<L>|
                    novel(e, a@, b@, c@) ==> call_requires(for_each_new, (a, b, c)),
                i <= n,
                candidates@.len() <= i * n,
                self.next_idx == floor + candidates@.len(),
                offers_of(candidates@) == offers::<L>(records(e), floor, i as int),
                forall|c: int| 0 <= c < candidates@.len() ==> (#[trigger] candidates@[c]).2 == floor + c,
                admissible(e, floor, self.next_idx, candidates@),
                forall|c: int| 0 <= c < candidates@.len() ==> !holds(e, (#[trigger] candidates@[c]).0@),
                forall|a: int, b: int|
                    0 <= a < i && 0 <= b < n ==> #[trigger] seen_to(e, candidates@, a, b),
            decreases n - i,
        {
            let mut j: usize = 0;
            while j < n
                invariant
                    self@ == e,
                    n == e.len(),
                    self.wf(),
                    regular::<L>(e, floor),
                    floor + n * n <= usize::MAX,
                    forall|a: &Normal<L>, b: &Normal<L>, c: &Normal<L>|
                        novel(e, a@, b@, c@) ==> call_requires(for_each_new, (a, b, c)),
                    i < n,
                    j <= n,
                    candidates@.len() <= i * n + j,
                    self.next_idx == floor + candidates@.len(),
                    offers_of(candidates@) == offers_in_row::<L>(
                        records(e),
                        floor,
                        i as int,
                        j as int,
                        offers::<L>(records(e), floor, i as int),
                    ),
                    forall|c: int|
                        0 <= c < candidates@.len() ==> (#[trigger] candidates@[c]).2 == floor + c,
                    admissible(e, floor, self.next_idx, candidates@),
                    forall|c: int|
                        0 <= c < candidates@.len() ==> !holds(e, (#[trigger] candidates@[c]).0@),
                    forall|a: int, b: int|
                        0 <= a < i && 0 <= b < n ==> #[trigger] seen_to(e, candidates@, a, b),
                    forall|b: int| 0 <= b < j ==> #[trigger] seen_to(e, candidates@, i as int, b),
                decreases n - j,
            {
                let ghost before = candidates@;
                let ghost next = self.next_idx;
                proof {
                    assert(i * n + j + 1 <= n * n) by (nonlinear_arith)
                        requires
                            i < n,
                            j < n,
                    ;
                    self.lemma_regular();
                }
                let ghost mut outcome: Option<Flat<L::Shape>> = None;
                match self.candidate(i, j) {
                    Some((r, source)) => {
                        proof {
                            outcome = Some(r@);
                        }
                        for_each_new(&self.entries[i].0, &self.entries[j].0, &r);
                        let drawn = self.next_idx;
                        self.next_idx = self.next_idx + 1;
                        candidates.push((r, source, drawn));
                        proof {
                            let c = before.len() as int;
                            assert(candidates@[c].0@ == r@);
                            assert(e[i as int].1.index < floor);
                            assert(e[j as int].1.index < floor);
                            assert(yields(
                                e,
                                i as int,
                                j as int,
                                e[i as int].1.index,
                                e[j as int].1.index,
                                candidates@[c].0@,
                            ));
                            let cand = candidates@[c];
                            assert(cand.1 == source && cand.2 == drawn);
                            assert(floor <= cand.2 < self.next_idx);
                            assert(exists|x: int, y: int| #[trigger]
                                yields(
                                    e,
                                    x,
                                    y,
                                    e[i as int].1.index,
                                    e[j as int].1.index,
                                    cand.0@,
                                ));
                            assert(admitted(e, floor, self.next_idx, cand));
                            assert(mp_result::<L>(e[i as int].0@, e[j as int].0@, Some(r@)));
                            assert(offered(
                                candidates@,
                                r@,
                                Source::MP(e[i as int].1.index, e[j as int].1.index),
                            ));
                        }
                    },
                    None => {
                        proof {
                            if fits::<L>(e[i as int].0@, e[j as int].0@) {
                                outcome = choose|o: Option<Flat<L::Shape>>| #[trigger]
                                    mp_result::<L>(e[i as int].0@, e[j as int].0@, o) && match o {
                                        Some(r) => holds(e, r),
                                        None => true,
                                    };
                            }
                        }
                    },
                }
                proof {
                    let now = candidates@;
                    assert forall|c: int| 0 <= c < before.len() implies now[c] == before[c] by {}
                    assert forall|c: int| 0 <= c < now.len() implies admitted(
                        e,
                        floor,
                        self.next_idx,
                        #[trigger] now[c],
                    ) by {
                        if c < before.len() {
                            assert(admitted(e, floor, next, before[c]));
                        }
                    }
                    assert forall|c: int, d: int| 0 <= c < d < now.len() implies (
                    #[trigger] now[c]).2 != (#[trigger] now[d]).2 by {
                        if d < before.len() {
                            assert(before[c].2 != before[d].2);
                        } else {
                            assert(admitted(e, floor, next, before[c]));
                        }
                    }
                    assert forall|a: int, b: int|
                        0 <= a < n && 0 <= b < n && seen_to(
                            e,
                            before,
                            a,
                            b,
                        ) implies #[trigger] seen_to(e, now, a, b) by {
                        if fits::<L>(e[a].0@, e[b].0@) {
                            let o = choose|o: Option<Flat<L::Shape>>| #[trigger]
                                mp_result::<L>(e[a].0@, e[b].0@, o) && match o {
                                    Some(r) => holds(e, r) || offered(
                                        before,
                                        r,
                                        Source::MP(e[a].1.index, e[b].1.index),
                                    ),
                                    None => true,
                                };
                            match o {
                                Some(r) => {
                                    if !holds(e, r) {
                                        let c = choose|c: int|
                                            0 <= c < before.len() && (#[trigger] before[c]).0@ == r
                                                && before[c].1 == Source::MP(
                                                e[a].1.index,
                                                e[b].1.index,
                                            );
                                        assert(now[c] == before[c]);
                                    }
                                },
                                None => {},
                            }
                        }
                    }
                    assert(seen_to(e, now, i as int, j as int));
                    lemma_offer(
                        e,
                        floor,
                        i as int,
                        j as int,
                        offers::<L>(records(e), floor, i as int),
                        before,
                        now,
                        outcome,
                    );
                }
                j += 1;
            }
            proof {
                assert((i + 1) * n == i * n + n) by (nonlinear_arith);
                assert(records(e).len() == n);
            }
            i += 1;
        }
        candidates
    }
}


/// Whether one of the first `n` candidates holds the formula `r` with
/// the index `index`.
pub open spec fn proposed<L: Language>(
    cs: Seq<(Normal<L>, Source, usize)>,
    n: int,
    r: Flat<L::Shape>,
    index: usize,
) -> bool {
    exists|c: int| 0 <= c < n && 0 <= c < cs.len() && (#[trigger] cs[c]).0@ == r && cs[c].2 == index
}

/// Whether `now` is what `was` becomes when the first `n` of the
/// candidates are merged into it: what `was` held is kept; each of the
/// candidates is held with its source; each new entry is a candidate
/// with the index proposed for it; and each source is one that `was`
/// had, or that of a candidate.
pub open spec fn merged<L: Language>(
    was: Entries<L>,
    cs: Seq<(Normal<L>, Source, usize)>,
    n: int,
    now: Entries<L>,
) -> bool {
    &&& grows(was, now)
    &&& forall|c: int| 0 <= c < n ==> recorded(now, (#[trigger] cs[c]).0@, cs[c].1)
    &&& forall|k: int|
        was.len() <= k < now.len() ==> proposed(cs, n, (#[trigger] now[k]).0@, now[k].1.index)
    &&& forall|k: int, s: int|
        0 <= k < now.len() && 0 <= s < now[k].1.sources@.len() ==> (k < was.len()
            && was[k].1.sources@.contains(#[trigger] now[k].1.sources@[s])) || offered(
            cs.take(n),
            now[k].0@,
            now[k].1.sources@[s],
        )
}

/// Whether `now` is what `mid` becomes when it takes the candidate `c`:
/// if `mid` holds its formula, the entry of the formula has got the
/// candidate's source after those that it had, unless it had it, and
/// nothing else has changed; if not, an entry of the formula with the
/// candidate's index and source was added at the end.
pub open spec fn took<L: Language>(
    mid: Entries<L>,
    now: Entries<L>,
    c: crate::generation::Offer<L::Shape>,
) -> bool {
    if holds(mid, c.0) {
        now.len() == mid.len() && exists|place: int|
            0 <= place < mid.len() && (#[trigger] mid[place]).0@ == c.0 && now[place].0@ == c.0
                && now[place].1.index == mid[place].1.index && now[place].1.sources@ == (
            if mid[place].1.sources@.contains(c.1) {
                mid[place].1.sources@
            } else {
                mid[place].1.sources@.push(c.1)
            }) && forall|k: int| 0 <= k < mid.len() && k != place ==> now[k] == mid[k]
    } else {
        now.len() == mid.len() + 1 && now[mid.len() as int].0@ == c.0 && now[mid.len() as int].1.index
            == c.2 && now[mid.len() as int].1.sources@ == seq![c.1] && forall|k: int|
            0 <= k < mid.len() ==> now[k] == mid[k]
    }
}

/// The records of entries that took a candidate are the records with
/// the candidate merged into them.
proof fn lemma_took_records<L: Language>(
    mid: Entries<L>,
    now: Entries<L>,
    c: crate::generation::Offer<L::Shape>,
    next: usize,
)
    requires
        regular::<L>(mid, next),
        took(mid, now, c),
    ensures
        records(now) == absorb(records(mid), c),
{
    lemma_known(mid, c.0);
    if holds(mid, c.0) {
        let place = choose|place: int|
            0 <= place < mid.len() && (#[trigger] mid[place]).0@ == c.0 && now[place].0@ == c.0
                && now[place].1.index == mid[place].1.index && now[place].1.sources@ == (
            if mid[place].1.sources@.contains(c.1) {
                mid[place].1.sources@
            } else {
                mid[place].1.sources@.push(c.1)
            }) && forall|k: int| 0 <= k < mid.len() && k != place ==> now[k] == mid[k];
        lemma_absorb_known(mid, now, place, c, next);
    } else {
        assert(records(now) =~= records(mid).push((c.0, c.2, seq![c.1])));
    }
}

/// Entries into which the first `t` candidates were merged, and which
/// then took the next, are entries into which the first `t + 1` were
/// merged.
proof fn lemma_took_merged<L: Language>(
    was: Entries<L>,
    cs: Seq<(Normal<L>, Source, usize)>,
    t: int,
    mid: Entries<L>,
    now: Entries<L>,
)
    requires
        0 <= t < cs.len(),
        merged(was, cs, t, mid),
        took(mid, now, offers_of(cs)[t]),
    ensures
        merged(was, cs, t + 1, now),
{
    let c = offers_of(cs)[t];
    let n = t + 1;
    assert(c.0 == cs[t].0@ && c.1 == cs[t].1 && c.2 == cs[t].2);
    assert(cs.take(n).len() == n);
    assert(cs.take(n)[t] == cs[t]);
    let place = if holds(mid, c.0) {
        choose|place: int|
            0 <= place < mid.len() && (#[trigger] mid[place]).0@ == c.0 && now[place].0@ == c.0
                && now[place].1.index == mid[place].1.index && now[place].1.sources@ == (
            if mid[place].1.sources@.contains(c.1) {
                mid[place].1.sources@
            } else {
                mid[place].1.sources@.push(c.1)
            }) && forall|k: int| 0 <= k < mid.len() && k != place ==> now[k] == mid[k]
    } else {
        mid.len() as int
    };
    // every entry of `mid` is kept, with its formula, its index and its sources
    assert forall|k: int| 0 <= k < mid.len() implies (#[trigger] now[k]).0@ == mid[k].0@
        && now[k].1.index == mid[k].1.index && forall|s: Source|
        mid[k].1.sources@.contains(s) ==> now[k].1.sources@.contains(s) by {
        if k == place {
            assert forall|s: Source| mid[k].1.sources@.contains(s) implies now[k].1.sources@.contains(
                s,
            ) by {
                let at = choose|at: int| 0 <= at < mid[k].1.sources@.len() && mid[k].1.sources@[at]
                    == s;
                assert(now[k].1.sources@[at] == s);
            }
        }
    }
    // the candidate is recorded
    assert(now[place].0@ == c.0);
    assert(now[place].1.sources@.contains(c.1)) by {
        if holds(mid, c.0) {
            if mid[place].1.sources@.contains(c.1) {
            } else {
                assert(now[place].1.sources@[mid[place].1.sources@.len() as int] == c.1);
            }
        } else {
            assert(now[place].1.sources@[0] == c.1);
        }
    }
    assert forall|k: int| 0 <= k < was.len() implies (#[trigger] now[k]).0@ == was[k].0@
        && now[k].1.index == was[k].1.index && forall|s: Source|
        was[k].1.sources@.contains(s) ==> now[k].1.sources@.contains(s) by {
        assert(mid[k].0@ == was[k].0@);
    }
    assert forall|d: int| 0 <= d < n implies recorded(now, (#[trigger] cs[d]).0@, cs[d].1) by {
        if d < t {
            let k = choose|k: int|
                0 <= k < mid.len() && (#[trigger] mid[k]).0@ == cs[d].0@
                    && mid[k].1.sources@.contains(cs[d].1);
            assert(now[k].0@ == cs[d].0@);
            assert(now[k].1.sources@.contains(cs[d].1));
        }
    }
    assert forall|k: int| was.len() <= k < now.len() implies proposed(
        cs,
        n,
        (#[trigger] now[k]).0@,
        now[k].1.index,
    ) by {
        if k < mid.len() {
            assert(proposed(cs, t, mid[k].0@, mid[k].1.index));
            let d = choose|d: int|
                0 <= d < t && 0 <= d < cs.len() && (#[trigger] cs[d]).0@ == mid[k].0@ && cs[d].2
                    == mid[k].1.index;
            assert(cs[d].0@ == now[k].0@);
        } else {
            assert(cs[t].0@ == now[k].0@);
        }
    }
    assert forall|k: int, s: int|
        0 <= k < now.len() && 0 <= s < now[k].1.sources@.len() implies (k < was.len()
        && was[k].1.sources@.contains(#[trigger] now[k].1.sources@[s])) || offered(
        cs.take(n),
        now[k].0@,
        now[k].1.sources@[s],
    ) by {
        let src = now[k].1.sources@[s];
        if k < mid.len() && s < mid[k].1.sources@.len() {
            assert(mid[k].1.sources@[s] == src);
            if !(k < was.len() && was[k].1.sources@.contains(src)) {
                assert(offered(cs.take(t), mid[k].0@, mid[k].1.sources@[s]));
                let d = choose|d: int|
                    0 <= d < cs.take(t).len() && (#[trigger] cs.take(t)[d]).0@ == mid[k].0@
                        && cs.take(t)[d].1 == src;
                assert(cs.take(n)[d] == cs[d]);
                assert(cs.take(n)[d].0@ == now[k].0@);
            }
        } else {
            assert(k == place);
            assert(src == c.1);
            assert(cs.take(n)[t].0@ == now[k].0@);
        }
    }
}

impl<L: Language> Context<L> {
    /// Takes one candidate: a formula that the context holds gets the
    /// candidate's source, if it does not have it; one that it does not
    /// hold is added with the index proposed and the candidate's source.
    fn take(
        &mut self,
        f: Normal<L>,
        source: Source,
        index: usize,
        Ghost(was): Ghost<Entries<L>>,
        Ghost(cs): Ghost<Seq<(Normal<L>, Source, usize)>>,
        Ghost(t): Ghost<int>,
        Ghost(floor): Ghost<usize>,
    )
        requires
            old(self).wf(),
            admissible(was, floor, old(self).next_index(), cs),
            merged(was, cs, t, old(self)@),
            0 <= t < cs.len(),
            f@ == cs[t].0@,
            source == cs[t].1,
            index == cs[t].2,
        ensures
            final(self).wf(),
            final(self).next_index() == old(self).next_index(),
            took(old(self)@, final(self)@, offers_of(cs)[t]),
    {
        let ghost mid = self@;
        let ghost next = self.next_idx;
        proof {
            self.lemma_regular();
            assert(admitted(was, floor, next, cs[t]));
        }
        let ghost (a, b) = match source {
            Source::MP(a, b) => (a, b),
            Source::Axiom => (0usize, 0usize),
        };
        let ghost (i, j) = choose|i: int, j: int| #[trigger] yields(was, i, j, a, b, f@);
        proof {
            assert(yields(mid, i, j, a, b, f@));
        }
        match self.find(&f) {
            Some(place) => {
                proof {
                    if place < was.len() {
                        assert(cs[t].0@ == was[place as int].0@);
                    } else {
                        assert(proposed(cs, t, mid[place as int].0@, mid[place as int].1.index));
                        let c = choose|c: int|
                            0 <= c < t && 0 <= c < cs.len() && (#[trigger] cs[c]).0@
                                == mid[place as int].0@ && cs[c].2 == mid[place as int].1.index;
                        assert(admitted(was, floor, next, cs[c]));
                    }
                    assert(yields(mid, i, j, a, b, mid[place as int].0@));
                }
                self.add_source(place, source);
                proof {
                    assert(mid[place as int].0@ == f@);
                    assert(holds(mid, f@));
                }
            },
            None => {
                proof {
                    assert forall|k: int| 0 <= k < mid.len() implies (#[trigger] mid[k]).1.index
                        != index by {
                        if k < was.len() {
                            assert(cs[t].2 != was[k].1.index);
                        } else {
                            assert(proposed(cs, t, mid[k].0@, mid[k].1.index));
                            let c = choose|c: int|
                                0 <= c < t && 0 <= c < cs.len() && (#[trigger] cs[c]).0@
                                    == mid[k].0@ && cs[c].2 == mid[k].1.index;
                            assert(cs[c].2 != cs[t].2);
                        }
                    }
                }
                self.add(f, source, index);
            },
        }
    }

    /// Merges candidates into the context, one after the other: a
    /// formula that the context holds gets the candidate's source, if it
    /// does not have it; one that it does not hold is added with the
    /// index proposed and the candidate's source.
    pub fn merge(&mut self, candidates: Vec<(Normal<L>, Source, usize)>, floor: usize)
        requires
            old(self).wf(),
            admissible(old(self)@, floor, old(self).next_index(), candidates@),
        ensures
            final(self).wf(),
            final(self).next_index() == old(self).next_index(),
            merged(old(self)@, candidates@, candidates@.len() as int, final(self)@),
            records(final(self)@) == absorb_all(
                records(old(self)@),
                offers_of(candidates@),
                candidates@.len() as int,
            ),
    {
        let ghost was = self@;
        let ghost cs = candidates@;
        let ghost next = self.next_idx;
        let mut t: usize = 0;
        proof {
            assert(cs.take(0) =~= Seq::<(Normal<L>, Source, usize)>::empty());
            assert forall|k: int, s: int|
                0 <= k < was.len() && 0 <= s < was[k].1.sources@.len() implies was[k].1.sources@.contains(
                #[trigger] was[k].1.sources@[s],
            ) by {}
        }
        while t < candidates.len()
            invariant
                cs == candidates@,
                t <= cs.len(),
                self.wf(),
                self.next_idx == next,
                admissible(was, floor, next, cs),
                merged(was, cs, t as int, self@),
                records(self@) == absorb_all(records(was), offers_of(cs), t as int),
            decreases cs.len() - t,
        {
            let ghost mid = self@;
            let f = candidates[t].0.clone();
            let source = candidates[t].1;
            let index = candidates[t].2;
            proof {
                self.lemma_regular();
            }
            self.take(f, source, index, Ghost(was), Ghost(cs), Ghost(t as int), Ghost(floor));
            proof {
                lemma_took_records(mid, self@, offers_of(cs)[t as int], next);
                lemma_took_merged(was, cs, t as int, mid, self@);
            }
            t += 1;
        }
        proof {
            assert(cs.take(cs.len() as int) =~= cs);
        }
    }
}

/// Whether `now` is the generation after `was`, whose next index was
/// `floor`: what `was` held is kept, with the same sources; every pair
/// of entries of `was` is closed in `now`; and each new entry has an
/// index from `floor` on, and has sources, each of which is a pair of
/// entries of `was` of which modus ponens gives it.
pub open spec fn generation<L: Language>(was: Entries<L>, floor: usize, now: Entries<L>) -> bool {
    &&& grows(was, now)
    &&& forall|k: int, s: Source|
        0 <= k < was.len() && (#[trigger] now[k]).1.sources@.contains(s)
            ==> #[trigger] was[k].1.sources@.contains(s)
    &&& forall|i: int, j: int|
        0 <= i < was.len() && 0 <= j < was.len() ==> #[trigger] closed_in(was, now, i, j)
    &&& forall|k: int|
        was.len() <= k < now.len() ==> floor <= (#[trigger] now[k]).1.index
            && now[k].1.sources@.len() > 0 && !holds(was, now[k].0@)
    &&& forall|k: int, s: int|
        was.len() <= k < now.len() && 0 <= s < now[k].1.sources@.len() ==> born(
            was,
            now[k].0@,
            #[trigger] now[k].1.sources@[s],
        )
}

/// Whether the source `s` is a pair of entries of which modus ponens
/// gives `r`.
pub open spec fn born<L: Language>(was: Entries<L>, r: Flat<L::Shape>, s: Source) -> bool {
    s matches Source::MP(a, b) && exists|i: int, j: int| #[trigger] yields(was, i, j, a, b, r)
}

impl<L: Language> Context<L> {
    /// One generation of saturation: modus ponens is applied to every
    /// ordered pair of theorems that fit into an arena, and what it
    /// gives is added, if it is new, with the pair as its source. A
    /// formula that several pairs give is added once, with the index
    /// drawn for the first of them, and gets each of them as a source.
    /// `for_each_new` is called with the premise, the implication and
    /// the result of each pair that gives something new.
    pub fn step<F: Fn(&Normal<L>, &Normal<L>, &Normal<L>)>(&mut self, for_each_new: &F)
        requires
            old(self).wf(),
            old(self).room(),
            forall|a: &Normal<L>, b: &Normal<L>, c: &Normal<L>|
                novel(old(self)@, a@, b@, c@) ==> call_requires(for_each_new, (a, b, c)),
        ensures
            final(self).wf(),
            old(self).next_index() <= final(self).next_index(),
            generation(old(self)@, old(self).next_index(), final(self)@),
            records(final(self)@) == next_generation::<L>(
                records(old(self)@),
                old(self).next_index(),
            ),
            final(self).next_index() == old(self).next_index() + offers::<L>(
                records(old(self)@),
                old(self).next_index(),
                old(self)@.len() as int,
            ).len(),
            forall|axioms: Seq<Normal<L>>, k: nat| #[trigger]
                old(self).after(axioms, k) ==> final(self).after(axioms, k + 1),
    {
        let ghost was = self@;
        let floor = self.next_idx;
        let new_entries = self.new_entries_iter(for_each_new);
        let ghost cs = new_entries@;
        let ghost n = cs.len() as int;
        self.merge(new_entries, floor);
        proof {
            let now = self@;
            self.lemma_regular();
            assert(cs.take(n) =~= cs);
            assert(offers_of(cs).len() == cs.len());
            assert(records(was).len() == was.len());
            assert forall|axioms: Seq<Normal<L>>, k: nat| #[trigger]
                old(self).after(axioms, k) implies self.after(axioms, k + 1) by {
                let start = seeded(axioms, axioms.len() as int);
                let before = generations::<L>(start, start.len() as usize, k);
                assert(before == generations::<L>(start, start.len() as usize, (k + 1 - 1) as nat));
            }
            assert forall|k: int, s: Source|
                0 <= k < was.len() && (#[trigger] now[k]).1.sources@.contains(
                    s,
                ) implies #[trigger] was[k].1.sources@.contains(s) by {
                let at = choose|at: int|
                    0 <= at < now[k].1.sources@.len() && now[k].1.sources@[at] == s;
                if offered(cs, now[k].0@, now[k].1.sources@[at]) {
                    let c = choose|c: int|
                        0 <= c < cs.len() && (#[trigger] cs[c]).0@ == now[k].0@ && cs[c].1 == s;
                    assert(was[k].0@ == cs[c].0@);
                    assert(holds(was, cs[c].0@));
                }
            }
            assert forall|k: int| was.len() <= k < now.len() implies floor <= (
            #[trigger] now[k]).1.index && now[k].1.sources@.len() > 0 && !holds(
                was,
                now[k].0@,
            ) by {
                assert(proposed(cs, n, now[k].0@, now[k].1.index));
                let c = choose|c: int|
                    0 <= c < n && 0 <= c < cs.len() && (#[trigger] cs[c]).0@ == now[k].0@
                        && cs[c].2 == now[k].1.index;
                assert(admitted(was, floor, self.next_idx, cs[c]));
            }
            assert forall|k: int, s: int|
                was.len() <= k < now.len() && 0 <= s < now[k].1.sources@.len() implies born(
                was,
                now[k].0@,
                #[trigger] now[k].1.sources@[s],
            ) by {
                assert(offered(cs, now[k].0@, now[k].1.sources@[s]));
                let c = choose|c: int|
                    0 <= c < cs.len() && (#[trigger] cs[c]).0@ == now[k].0@ && cs[c].1
                        == now[k].1.sources@[s];
                assert(admitted(was, floor, self.next_idx, cs[c]));
            }
            assert forall|i: int, j: int|
                0 <= i < was.len() && 0 <= j < was.len() implies #[trigger] closed_in(
                was,
                now,
                i,
                j,
            ) by {
                assert(seen_to(was, cs, i, j));
                if fits::<L>(was[i].0@, was[j].0@) {
                    let o = choose|o: Option<Flat<L::Shape>>| #[trigger]
                        mp_result::<L>(was[i].0@, was[j].0@, o) && match o {
                            Some(r) => holds(was, r) || offered(
                                cs,
                                r,
                                Source::MP(was[i].1.index, was[j].1.index),
                            ),
                            None => true,
                        };
                    match o {
                        Some(r) => {
                            if holds(was, r) {
                                let k = choose|k: int| 0 <= k < was.len() && (#[trigger] was[k]).0@
                                    == r;
                                assert(now[k].0@ == r);
                            } else {
                                let c = choose|c: int|
                                    0 <= c < cs.len() && (#[trigger] cs[c]).0@ == r && cs[c].1
                                        == Source::MP(was[i].1.index, was[j].1.index);
                                assert(recorded(now, cs[c].0@, cs[c].1));
                                let k = choose|k: int|
                                    0 <= k < now.len() && (#[trigger] now[k]).0@ == r
                                        && now[k].1.sources@.contains(cs[c].1);
                                assert(holds(now, r));
                            }
                        },
                        None => {},
                    }
                }
            }
        }
    }
}

/// Determinism of a generation: two generations after the same entries
/// hold the same formulas, with the same sources.
pub proof fn law_generation_unique<L: Language>(
    was: Entries<L>,
    floor: usize,
    first: Entries<L>,
    second: Entries<L>,
)
    requires
        generation(was, floor, first),
        generation(was, floor, second),
    ensures
        forall|f: Flat<L::Shape>| holds(first, f) ==> holds(second, f),
        forall|f: Flat<L::Shape>, s: Source| recorded(first, f, s) ==> recorded(second, f, s),
{
    assert forall|f: Flat<L::Shape>| holds(first, f) implies holds(second, f) by {
        let k = choose|k: int| 0 <= k < first.len() && (#[trigger] first[k]).0@ == f;
        if k < was.len() {
            assert(second[k].0@ == f);
        } else {
            let s = first[k].1.sources@[0];
            assert(born(was, f, s));
            lemma_born_held(was, floor, second, f, s);
        }
    }
    assert forall|f: Flat<L::Shape>, s: Source| recorded(first, f, s) implies recorded(
        second,
        f,
        s,
    ) by {
        let k = choose|k: int|
            0 <= k < first.len() && (#[trigger] first[k]).0@ == f && first[k].1.sources@.contains(s);
        if k < was.len() {
            assert(was[k].1.sources@.contains(s));
            assert(second[k].0@ == f);
            assert(second[k].1.sources@.contains(s));
        } else {
            let at = choose|at: int|
                0 <= at < first[k].1.sources@.len() && first[k].1.sources@[at] == s;
            assert(born(was, f, first[k].1.sources@[at]));
            lemma_born_held(was, floor, second, f, s);
        }
    }
}

/// What modus ponens gives of a pair of entries is held by the
/// generation after them, and with the pair as a source if the entries
/// did not hold it.
proof fn lemma_born_held<L: Language>(
    was: Entries<L>,
    floor: usize,
    now: Entries<L>,
    f: Flat<L::Shape>,
    s: Source,
)
    requires
        generation(was, floor, now),
        born(was, f, s),
    ensures
        holds(now, f),
        !holds(was, f) ==> recorded(now, f, s),
{
    let (a, b) = match s {
        Source::MP(a, b) => (a, b),
        Source::Axiom => (0usize, 0usize),
    };
    let (i, j) = choose|i: int, j: int| #[trigger] yields(was, i, j, a, b, f);
    assert(closed_in(was, now, i, j));
    let o = choose|o: Option<Flat<L::Shape>>| #[trigger]
        mp_result::<L>(was[i].0@, was[j].0@, o) && match o {
            Some(r) => holds(now, r) && (!holds(was, r) ==> recorded(
                now,
                r,
                Source::MP(was[i].1.index, was[j].1.index),
            )),
            None => true,
        };
    law_mp_unique::<L>(was[i].0@, was[j].0@, o, Some(f));
}

/// Determinism of a run: two contexts that the same number of
/// generations made of the same axioms record the same, formula by
/// formula with the same index and the same sources in the same order,
/// and give the same index next.
pub proof fn law_runs_agree<L: Language>(
    first: Context<L>,
    second: Context<L>,
    axioms: Seq<Normal<L>>,
    k: nat,
)
    requires
        first.after(axioms, k),
        second.after(axioms, k),
    ensures
        records(first@) == records(second@),
        first.next_index() == second.next_index(),
{
}

/// Monotonicity over generations: where `middle` keeps what `was` held
/// and `now` keeps what `middle` held, `now` keeps what `was` held.
pub proof fn law_grows_on<L: Language>(was: Entries<L>, middle: Entries<L>, now: Entries<L>)
    requires
        grows(was, middle),
        grows(middle, now),
    ensures
        grows(was, now),
{
    assert forall|k: int| 0 <= k < was.len() implies (#[trigger] now[k]).0@ == was[k].0@
        && now[k].1.index == was[k].1.index && forall|s: Source|
        was[k].1.sources@.contains(s) ==> now[k].1.sources@.contains(s) by {
        assert(middle[k].0@ == was[k].0@);
        assert(now[k].0@ == middle[k].0@);
    }
}

/// What is new of a pair is held after the generation: where modus
/// ponens gives `c` of the entries at `i` and `j`, which fit into an
/// arena, and `c` was not held, the generation after holds `c` in a new
/// entry, with an index above those of both and with the pair as a
/// source.
pub proof fn law_new_is_held<L: Language>(
    was: Entries<L>,
    floor: usize,
    now: Entries<L>,
    i: int,
    j: int,
    c: Flat<L::Shape>,
)
    requires
        regular(was, floor),
        generation(was, floor, now),
        0 <= i < was.len(),
        0 <= j < was.len(),
        novel(was, was[i].0@, was[j].0@, c),
    ensures
        exists|k: int|
            was.len() <= k < now.len() && (#[trigger] now[k]).0@ == c && was[i].1.index
                < now[k].1.index && was[j].1.index < now[k].1.index
                && now[k].1.sources@.contains(Source::MP(was[i].1.index, was[j].1.index)),
{
    let s = Source::MP(was[i].1.index, was[j].1.index);
    let (a, b) = (was[i].1.index, was[j].1.index);
    assert(yields(was, i, j, a, b, c));
    assert(exists|x: int, y: int| #[trigger] yields(was, x, y, a, b, c));
    assert(s matches Source::MP(p, q) && p == a && q == b);
    assert(born(was, c, s));
    lemma_born_held(was, floor, now, c, s);
    let k = choose|k: int|
        0 <= k < now.len() && (#[trigger] now[k]).0@ == c && now[k].1.sources@.contains(s);
    if k < was.len() {
        assert(was[k].0@ == c);
    }
    assert(was[i].1.index < floor && was[j].1.index < floor);
}

} // verus!
