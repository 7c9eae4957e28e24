//! The symbol alphabet of a calculus, and formulas over it in flat prefix
//! form.

pub mod arena;
pub mod modus_ponens;
pub mod unification;

pub use arena::Arena;
pub use modus_ponens::modus_ponens;
pub use unification::{occurs, unify_many};

use vstd::prelude::*;
use vstd::std_specs::cmp::PartialEqSpecImpl;
use crate::formula::canon::{
    canon, is_canonical, lemma_canon_is_canonical, lemma_rename_is_formula, lemma_seen, rename,
    seen, variables,
};
use crate::formula::flat::{is_formula, Flat, Sym};
use crate::formula::graph::{Graph, Slot};
use crate::formula::polish::{
    chars_of, parse_polish, read_terms, render, settle, spelled, write_terms, Letters, Notation,
    ParseError,
};

verus! {

/// Plain data that can stand at a child position of a constructor.
pub trait Simple: Copy {}

impl<T: Copy> Simple for T {}

/// The payload of a constructor that stands alone: nothing.
#[derive(Clone, Copy, PartialEq, Eq, Hash, Debug)]
pub struct Bare;

/// The symbol alphabet of a calculus.
///
/// A constructor comes in two forms that share their shape: bare
/// (`Shape`), as it stands in a flat formula, and with the arena
/// positions of its operands (`Node`), as it stands in an arena.
pub trait Language: Sized {
    /// A constructor without operands.
    type Shape: Simple;

    /// A constructor with the arena positions of its operands.
    type Node: Simple;

    /// The number of operands that a constructor takes.
    spec fn arity(shape: Self::Shape) -> nat;

    /// Whether a constructor is the implication.
    spec fn implication(shape: Self::Shape) -> bool;

    /// The constructor of a node.
    spec fn shape_of(node: Self::Node) -> Self::Shape;

    /// The arena positions of a node's operands, from left to right.
    spec fn operands(node: Self::Node) -> Seq<u16>;

    /// A number that tells the constructors apart.
    spec fn tag(shape: Self::Shape) -> u16;

    /// A node has as many operands as its constructor takes, and no
    /// constructor takes more than 255; the implication takes two; a
    /// node is determined by its constructor and operands, and a
    /// constructor by its tag.
    proof fn laws()
        ensures
            forall|node: Self::Node| #[trigger]
                Self::operands(node).len() == Self::arity(Self::shape_of(node)),
            forall|shape: Self::Shape| #[trigger] Self::arity(shape) <= u8::MAX,
            forall|shape: Self::Shape| #[trigger]
                Self::implication(shape) ==> Self::arity(shape) == 2,
            forall|a: Self::Node, b: Self::Node|
                Self::shape_of(a) == Self::shape_of(b) && #[trigger] Self::operands(a)
                    == #[trigger] Self::operands(b) ==> a == b,
            forall|a: Self::Shape, b: Self::Shape| #[trigger]
                Self::tag(a) == #[trigger] Self::tag(b) ==> a == b,
    ;

    /// Whether two nodes have the same constructor.
    fn matches(this: &Self::Node, other: &Self::Node) -> (same: bool)
        ensures
            same == (Self::shape_of(*this) == Self::shape_of(*other)),
    ;

    /// The arena positions of a node's operands.
    fn children(this: &Self::Node) -> (found: &[u16])
        ensures
            found@ == Self::operands(*this),
    ;

    /// The two operands of an implication node.
    fn match_implication(this: &Self::Node) -> (found: Option<&[u16; 2]>)
        ensures
            found is Some <==> Self::implication(Self::shape_of(*this)),
            found is Some ==> found.unwrap()@ == Self::operands(*this),
    ;

    /// The constructor of a node, without its operands.
    fn erase(this: &Self::Node) -> (shape: Self::Shape)
        ensures
            shape == Self::shape_of(*this),
    ;

    /// The node of a constructor whose operands stand at the given
    /// positions.
    fn place(shape: &Self::Shape, at: &[u16]) -> (node: Self::Node)
        requires
            at@.len() == Self::arity(*shape),
        ensures
            Self::shape_of(node) == *shape,
            Self::operands(node) == at@,
    ;

    /// The number of operands that a constructor takes.
    fn degree(shape: &Self::Shape) -> (n: usize)
        ensures
            n == Self::arity(*shape),
    ;

    /// Whether a constructor is the implication.
    fn is_implication(shape: &Self::Shape) -> (yes: bool)
        ensures
            yes == Self::implication(*shape),
    ;

    /// The tag of a constructor.
    fn code(shape: &Self::Shape) -> (n: u16)
        ensures
            n == Self::tag(*shape),
    ;
}

/// One slot of a formula: a constructor, or a variable.
#[derive(Clone, Copy, PartialEq, Eq, Hash, Debug)]
pub enum Term<V> {
    Term(V),
    Var(u16),
}

/// The symbol that a slot of a flat formula holds.
pub open spec fn sym_of<V>(t: Term<V>) -> Sym<V> {
    match t {
        Term::Term(k) => Sym::Op(k),
        Term::Var(v) => Sym::Var(v as nat),
    }
}

/// The symbols that a run of slots holds.
pub open spec fn syms_of<V>(ts: Seq<Term<V>>) -> Flat<V> {
    ts.map_values(|t: Term<V>| sym_of(t))
}

/// What a slot of an arena holds.
pub open spec fn slot_of<L: Language>(t: Term<L::Node>) -> Slot<L::Shape> {
    match t {
        Term::Term(node) => Slot::Op(
            L::shape_of(node),
            L::operands(node).map_values(|c: u16| c as nat),
        ),
        Term::Var(v) => Slot::Var(v as nat),
    }
}

/// The graph that a run of arena slots holds.
pub open spec fn graph_of<L: Language>(ts: Seq<Term<L::Node>>) -> Graph<L::Shape> {
    ts.map_values(|t: Term<L::Node>| slot_of::<L>(t))
}

/// The number of positions that an arena can have: its positions are
/// 16-bit numbers.
pub open spec fn arena_limit() -> nat {
    0x10000
}

/// `x` where `a` and `b` have changed places.
pub open spec fn swapped(a: nat, b: nat, x: nat) -> nat {
    if x == a {
        b
    } else if x == b {
        a
    } else {
        x
    }
}

/// A formula in flat prefix form with canonical variable names.
#[derive(Debug, Hash)]
pub struct Normal<L: Language> {
    terms: Vec<Term<L::Shape>>,
}

impl<L: Language> View for Normal<L> {
    type V = Flat<L::Shape>;

    closed spec fn view(&self) -> Flat<L::Shape> {
        syms_of(self.terms@)
    }
}

impl<L: Language> Normal<L> {
    /// Every value of the type is one complete term with canonical
    /// variable names.
    #[verifier::type_invariant]
    closed spec fn inv(&self) -> bool {
        is_formula::<L>(self@) && is_canonical(self@)
    }

    /// Renames the variables of `terms` to their canonical names: a pass
    /// from left to right that, where it meets a variable above the next
    /// name to give, lets the two change places from there on.
    pub fn normalize_vars(terms: &mut Vec<Term<L::Shape>>)
        ensures
            syms_of(final(terms)@) == canon(syms_of(old(terms)@)),
    {
        let ghost orig = syms_of(terms@);
        let ghost mut pi: spec_fn(nat) -> nat = |v: nat| v;
        let n = terms.len();
        let mut current: usize = 0;
        let mut i: usize = 0;
        proof {
            assert(syms_of(terms@) =~= rename(orig, pi));
        }
        while i < n
            invariant
                n == terms.len() == orig.len(),
                i <= n,
                current == seen(orig, i as int).len(),
                forall|v: nat, w: nat| #[trigger] pi(v) == #[trigger] pi(w) ==> v == w,
                forall|j: int|
                    0 <= j < seen(orig, i as int).len() ==> pi(
                        #[trigger] seen(orig, i as int)[j],
                    ) == j,
                syms_of(terms@) == rename(orig, pi),
            decreases n - i,
        {
            let ghost before = seen(orig, i as int);
            proof {
                lemma_seen(orig, i as int);
                lemma_seen(orig, i as int + 1);
                assert(syms_of(terms@)[i as int] == rename(orig, pi)[i as int]);
            }
            match terms[i] {
                Term::Var(new_var) => {
                    let ghost v = orig[i as int]->Var_0;
                    assert(orig[i as int] == Sym::<L::Shape>::Var(v) && pi(v) == new_var);
                    if current < new_var as usize {
                        let cur = current as u16;
                        let ghost old_pi = pi;
                        proof {
                            pi = |x: nat| swapped(cur as nat, new_var as nat, old_pi(x));
                        }
                        let mut j: usize = i;
                        while j < n
                            invariant
                                n == terms.len() == orig.len(),
                                i <= j <= n,
                                cur < new_var,
                                pi == (|x: nat| swapped(cur as nat, new_var as nat, old_pi(x))),
                                forall|t: int|
                                    0 <= t < i || j <= t < n ==> syms_of(terms@)[t] == rename(
                                        orig,
                                        old_pi,
                                    )[t],
                                forall|t: int|
                                    i <= t < j ==> syms_of(terms@)[t] == rename(orig, pi)[t],
                            decreases n - j,
                        {
                            let ghost prev = terms@;
                            proof {
                                assert(syms_of(prev)[j as int] == rename(orig, old_pi)[j as int]);
                            }
                            match terms[j] {
                                Term::Var(x) => {
                                    if x == cur {
                                        terms.set(j, Term::Var(new_var));
                                    } else if x == new_var {
                                        terms.set(j, Term::Var(cur));
                                    }
                                },
                                Term::Term(_) => {},
                            }
                            proof {
                                assert forall|t: int| 0 <= t < i || j + 1 <= t < n implies syms_of(
                                    terms@,
                                )[t] == rename(orig, old_pi)[t] by {
                                    assert(syms_of(prev)[t] == rename(orig, old_pi)[t]);
                                }
                                assert forall|t: int| i <= t < j + 1 implies syms_of(terms@)[t]
                                    == rename(orig, pi)[t] by {
                                    if t < j {
                                        assert(syms_of(prev)[t] == rename(orig, pi)[t]);
                                    }
                                }
                            }
                            j += 1;
                        }
                        proof {
                            if before.contains(v) {
                                let at = choose|at: int| 0 <= at < before.len() && before[at] == v;
                                assert(pi(before[at]) == at);
                            }
                            assert(!before.contains(v));
                            assert forall|t: int| 0 <= t < n implies syms_of(terms@)[t] == rename(
                                orig,
                                pi,
                            )[t] by {
                                if t < i {
                                    assert(syms_of(terms@)[t] == rename(orig, old_pi)[t]);
                                    match orig[t] {
                                        Sym::Var(w) => {
                                            assert(0 <= t < i && orig[t] == Sym::<L::Shape>::Var(
                                                w,
                                            ));
                                            assert(before.contains(w));
                                            let at = choose|at: int|
                                                0 <= at < before.len() && before[at] == w;
                                            assert(old_pi(before[at]) == at);
                                            assert(pi(w) == old_pi(w));
                                        },
                                        Sym::Op(_) => {},
                                    }
                                }
                            }
                            assert(syms_of(terms@) =~= rename(orig, pi));
                            assert forall|a: nat, b: nat| #[trigger] pi(a) == #[trigger] pi(
                                b,
                            ) implies a == b by {
                                assert(old_pi(a) == old_pi(b));
                            }
                            assert forall|k: int|
                                0 <= k < seen(orig, i as int + 1).len() implies pi(
                                #[trigger] seen(orig, i as int + 1)[k],
                            ) == k by {
                                if k < before.len() {
                                    assert(old_pi(before[k]) == k);
                                }
                            }
                        }
                        current += 1;
                    } else if current == new_var as usize {
                        proof {
                            if before.contains(v) {
                                let at = choose|at: int| 0 <= at < before.len() && before[at] == v;
                                assert(pi(before[at]) == at);
                            }
                            assert(!before.contains(v));
                        }
                        current += 1;
                    } else {
                        proof {
                            let at = new_var as int;
                            assert(pi(before[at]) == at);
                            assert(before[at] == v);
                            assert(before.contains(v));
                        }
                    }
                },
                Term::Term(_) => {},
            }
            i += 1;
        }
        proof {
            let vars = variables(orig);
            lemma_seen(orig, n as int);
            assert forall|t: int| 0 <= t < n implies rename(orig, pi)[t] == canon(orig)[t] by {
                match orig[t] {
                    Sym::Var(w) => {
                        assert(vars.contains(w));
                        let at = vars.index_of(w);
                        assert(0 <= at < vars.len() && vars[at] == w);
                        assert(pi(vars[at]) == at);
                    },
                    Sym::Op(_) => {},
                }
            }
            assert(rename(orig, pi) =~= canon(orig));
        }
    }

    /// The number of symbols of the formula.
    pub fn len(&self) -> (n: usize)
        ensures
            n == self@.len(),
    {
        self.terms.len()
    }
}

/// Whether two slots of a flat formula hold the same.
pub fn same_term<L: Language>(a: &Term<L::Shape>, b: &Term<L::Shape>) -> (same: bool)
    ensures
        same == (*a == *b),
        same == (sym_of(*a) == sym_of(*b)),
{
    proof {
        L::laws();
    }
    match (a, b) {
        (Term::Var(x), Term::Var(y)) => *x == *y,
        (Term::Term(x), Term::Term(y)) => L::code(x) == L::code(y),
        _ => false,
    }
}

impl<L: Language> Normal<L> {
    /// A formula of the given terms, with its variables renamed to their
    /// canonical names; none where the terms are no single complete
    /// term.
    pub fn new(terms: Vec<Term<L::Shape>>) -> (made: Option<Self>)
        ensures
            made is Some <==> is_formula::<L>(syms_of(terms@)),
            made is Some ==> made.unwrap()@ == canon(syms_of(terms@)),
    {
        let (left, open) = settle::<L>(&terms);
        if left != 0 || !open {
            return None;
        }
        let ghost f = syms_of(terms@);
        let mut terms = terms;
        Self::normalize_vars(&mut terms);
        proof {
            lemma_rename_is_formula::<L>(f, |v: nat| crate::formula::canon::label(f, v));
            lemma_canon_is_canonical(f);
        }
        Some(Normal { terms })
    }

    /// Reads a formula in Polish notation: each constructor is one
    /// letter and is followed by its operands, and every other character
    /// is a variable. The variables get their canonical names. A text
    /// that is no single complete term is refused, with the number of
    /// operands that are owed at its end.
    ///
    /// A variable's name is a 16-bit number, so the text holds at most
    /// 65536 different variables; and what is owed is a machine word, so
    /// the text is short enough for its symbols to owe no more.
    pub fn from_str(s: &str) -> (read: Result<Self, ParseError>) where L: Letters
        requires
            variables(spelled::<L>(s@)).len() <= 0x10000,
            254 * s@.len() < isize::MAX,
        ensures
            match read {
                Ok(n) => parse_polish::<L>(s@) == Ok::<Flat<L::Shape>, int>(n@),
                Err(ParseError::WrongArguments(d)) => parse_polish::<L>(s@) == Err::<
                    Flat<L::Shape>,
                    int,
                >(d as int),
            },
    {
        let chars = chars_of(s);
        let terms = read_terms::<L>(&chars);
        let (left, open) = settle::<L>(&terms);
        let ghost raw = spelled::<L>(s@);
        proof {
            let f = syms_of(terms@);
            assert(f == canon(raw));
            let r = |v: nat| crate::formula::canon::label(raw, v);
            crate::formula::polish::lemma_pending_rename::<L>(raw, r, raw.len() as int);
            if is_formula::<L>(raw) {
                lemma_rename_is_formula::<L>(raw, r);
            }
            if is_formula::<L>(f) {
                crate::formula::flat::lemma_skip_by_weight::<L>(f, raw, 0, 1);
            }
            lemma_canon_is_canonical(raw);
            crate::formula::polish::lemma_pending_bounds::<L>(raw, raw.len() as int);
        }
        if left == 0 && open {
            Ok(Normal { terms })
        } else {
            Err(ParseError::WrongArguments(left as isize))
        }
    }

    /// The formula in Polish notation: each constructor in its written
    /// form, each variable as its number.
    pub fn to_string(&self) -> (text: String) where L: Notation
        ensures
            text@ == render::<L>(self@),
    {
        write_terms::<L>(&self.terms)
    }

    /// The terms of the formula, in prefix order.
    pub fn terms(&self) -> (terms: &Vec<Term<L::Shape>>)
        ensures
            syms_of(terms@) == self@,
    {
        &self.terms
    }

    /// The variables of a formula are 16-bit numbers.
    pub proof fn well_small(&self)
        ensures
            forall|i: int|
                0 <= i < self@.len() ==> (#[trigger] self@[i] matches Sym::Var(v) ==> v
                    <= u16::MAX),
    {
        assert forall|i: int| 0 <= i < self@.len() implies (#[trigger] self@[i] matches Sym::Var(
            v,
        ) ==> v <= u16::MAX) by {
            assert(self@[i] == sym_of(self.terms@[i]));
        }
    }

    /// Every formula is one complete term with canonical variable names.
    pub fn well_formed(&self)
        ensures
            is_formula::<L>(self@),
            is_canonical(self@),
    {
        proof {
            use_type_invariant(self);
        }
    }
}

impl<L: Language> Clone for Normal<L> {
    fn clone(&self) -> (copy: Self)
        ensures
            copy@ == self@,
    {
        proof {
            use_type_invariant(self);
        }
        let mut terms: Vec<Term<L::Shape>> = Vec::with_capacity(self.terms.len());
        let mut i: usize = 0;
        while i < self.terms.len()
            invariant
                i <= self.terms@.len(),
                terms@ == self.terms@.subrange(0, i as int),
            decreases self.terms@.len() - i,
        {
            terms.push(self.terms[i]);
            proof {
                assert(terms@ =~= self.terms@.subrange(0, i as int + 1));
            }
            i += 1;
        }
        proof {
            assert(terms@ =~= self.terms@);
        }
        Normal { terms }
    }
}

impl<L: Language> PartialEq for Normal<L> {
    fn eq(&self, other: &Self) -> (same: bool) {
        let n = self.terms.len();
        if n != other.terms.len() {
            proof {
                assert(self@.len() != other@.len());
            }
            return false;
        }
        let mut i: usize = 0;
        while i < n
            invariant
                n == self.terms@.len() == other.terms@.len(),
                i <= n,
                forall|t: int| 0 <= t < i ==> self@[t] == other@[t],
            decreases n - i,
        {
            if !same_term::<L>(&self.terms[i], &other.terms[i]) {
                proof {
                    assert(self@[i as int] != other@[i as int]);
                }
                return false;
            }
            i += 1;
        }
        proof {
            assert(self@ =~= other@);
        }
        true
    }
}

impl<L: Language> Eq for Normal<L> {

}

impl<L: Language> PartialEqSpecImpl for Normal<L> {
    open spec fn obeys_eq_spec() -> bool {
        true
    }

    open spec fn eq_spec(&self, other: &Self) -> bool {
        self@ == other@
    }
}

} // verus!
