//! The calculi that come with the library.

use vstd::prelude::*;
use crate::formula::canon::canon;
use crate::formula::flat::{skip, Flat, Sym};
use crate::formula::language::{syms_of, Bare, Language, Normal, Term};
use crate::formula::polish::Notation;

pub mod imp_false;
pub mod imp_neg;

verus! {

/// The constructors of the calculus of implication and negation, with a
/// payload at each operand.
#[derive(PartialEq, Eq, Clone, Copy, Hash, Debug)]
pub enum ImpNegEnum<S> {
    Implication([S; 2]),
    Negation([S; 1]),
}

/// The calculus of implication and negation, written with `->` and `~`.
#[derive(PartialEq, Eq, Clone, Copy, Hash, Debug)]
pub struct ImpNeg;

impl Language for ImpNeg {
    type Shape = ImpNegEnum<Bare>;

    type Node = ImpNegEnum<u16>;

    open spec fn arity(shape: ImpNegEnum<Bare>) -> nat {
        match shape {
            ImpNegEnum::Implication(_) => 2,
            ImpNegEnum::Negation(_) => 1,
        }
    }

    open spec fn implication(shape: ImpNegEnum<Bare>) -> bool {
        shape is Implication
    }

    open spec fn shape_of(node: ImpNegEnum<u16>) -> ImpNegEnum<Bare> {
        match node {
            ImpNegEnum::Implication(_) => ImpNegEnum::Implication([Bare, Bare]),
            ImpNegEnum::Negation(_) => ImpNegEnum::Negation([Bare]),
        }
    }

    open spec fn operands(node: ImpNegEnum<u16>) -> Seq<u16> {
        match node {
            ImpNegEnum::Implication(x) => x@,
            ImpNegEnum::Negation(x) => x@,
        }
    }

    open spec fn tag(shape: ImpNegEnum<Bare>) -> u16 {
        match shape {
            ImpNegEnum::Implication(_) => 0,
            ImpNegEnum::Negation(_) => 1,
        }
    }

    proof fn laws() {
        assert forall|a: ImpNegEnum<u16>, b: ImpNegEnum<u16>|
            Self::shape_of(a) == Self::shape_of(b) && #[trigger] Self::operands(a)
                == #[trigger] Self::operands(b) implies a == b by {
            match (a, b) {
                (ImpNegEnum::Implication(x), ImpNegEnum::Implication(y)) => {
                    assert(x@ == y@);
                    assert(x =~= y);
                },
                (ImpNegEnum::Negation(x), ImpNegEnum::Negation(y)) => {
                    assert(x@ == y@);
                    assert(x =~= y);
                },
                _ => {},
            }
        }
        assert forall|a: ImpNegEnum<Bare>, b: ImpNegEnum<Bare>| #[trigger]
            Self::tag(a) == #[trigger] Self::tag(b) implies a == b by {
            match (a, b) {
                (ImpNegEnum::Implication(x), ImpNegEnum::Implication(y)) => {
                    assert(x =~= y);
                },
                (ImpNegEnum::Negation(x), ImpNegEnum::Negation(y)) => {
                    assert(x =~= y);
                },
                _ => {},
            }
        }
    }

    fn matches(this: &ImpNegEnum<u16>, other: &ImpNegEnum<u16>) -> (same: bool) {
        match (this, other) {
            (ImpNegEnum::Implication(_), ImpNegEnum::Implication(_)) => true,
            (ImpNegEnum::Negation(_), ImpNegEnum::Negation(_)) => true,
            _ => false,
        }
    }

    fn children(this: &ImpNegEnum<u16>) -> (found: &[u16]) {
        match this {
            ImpNegEnum::Implication(x) => x,
            ImpNegEnum::Negation(x) => x,
        }
    }

    fn match_implication(this: &ImpNegEnum<u16>) -> (found: Option<&[u16; 2]>) {
        match this {
            ImpNegEnum::Implication(x) => Some(x),
            ImpNegEnum::Negation(_) => None,
        }
    }

    fn erase(this: &ImpNegEnum<u16>) -> (shape: ImpNegEnum<Bare>) {
        match this {
            ImpNegEnum::Implication(_) => ImpNegEnum::Implication([Bare, Bare]),
            ImpNegEnum::Negation(_) => ImpNegEnum::Negation([Bare]),
        }
    }

    fn place(shape: &ImpNegEnum<Bare>, at: &[u16]) -> (node: ImpNegEnum<u16>) {
        match shape {
            ImpNegEnum::Implication(x) => {
                let node = ImpNegEnum::Implication([at[0], at[1]]);
                proof {
                    assert(*x =~= [Bare, Bare]);
                    assert(Self::operands(node) =~= at@);
                }
                node
            },
            ImpNegEnum::Negation(x) => {
                let node = ImpNegEnum::Negation([at[0]]);
                proof {
                    assert(*x =~= [Bare]);
                    assert(Self::operands(node) =~= at@);
                }
                node
            },
        }
    }

    fn degree(shape: &ImpNegEnum<Bare>) -> (n: usize) {
        match shape {
            ImpNegEnum::Implication(_) => 2,
            ImpNegEnum::Negation(_) => 1,
        }
    }

    fn is_implication(shape: &ImpNegEnum<Bare>) -> (yes: bool) {
        match shape {
            ImpNegEnum::Implication(_) => true,
            ImpNegEnum::Negation(_) => false,
        }
    }

    fn code(shape: &ImpNegEnum<Bare>) -> (n: u16) {
        match shape {
            ImpNegEnum::Implication(_) => 0,
            ImpNegEnum::Negation(_) => 1,
        }
    }
}

impl Notation for ImpNeg {
    open spec fn text(shape: ImpNegEnum<Bare>) -> Seq<char> {
        match shape {
            ImpNegEnum::Implication(_) => seq!['-', '>'],
            ImpNegEnum::Negation(_) => seq!['~'],
        }
    }

    fn symbol(shape: &ImpNegEnum<Bare>) -> (s: &'static str) {
        proof {
            reveal_strlit("->");
            reveal_strlit("~");
        }
        match shape {
            ImpNegEnum::Implication(_) => {
                assert("->"@ =~= seq!['-', '>']);
                "->"
            },
            ImpNegEnum::Negation(_) => {
                assert("~"@ =~= seq!['~']);
                "~"
            },
        }
    }
}

/// The implication, as a symbol.
pub open spec fn imp() -> Sym<ImpNegEnum<Bare>> {
    Sym::Op(ImpNegEnum::Implication([Bare, Bare]))
}

/// The negation, as a symbol.
pub open spec fn neg() -> Sym<ImpNegEnum<Bare>> {
    Sym::Op(ImpNegEnum::Negation([Bare]))
}

/// A variable, as a symbol.
pub open spec fn var(v: nat) -> Sym<ImpNegEnum<Bare>> {
    Sym::Var(v)
}

/// The axioms of Frege's calculus, in prefix order:
/// `0 -> (1 -> 0)`,
/// `(0 -> (1 -> 2)) -> ((0 -> 1) -> (0 -> 2))`,
/// `(0 -> (1 -> 2)) -> (1 -> (0 -> 2))`,
/// `(0 -> 1) -> (~1 -> ~0)`, `~~0 -> 0` and `0 -> ~~0`.
pub open spec fn frege_schemas() -> Seq<Flat<ImpNegEnum<Bare>>> {
    seq![
        seq![imp(), var(0), imp(), var(1), var(0)],
        seq![
            imp(),
            imp(),
            var(0),
            imp(),
            var(1),
            var(2),
            imp(),
            imp(),
            var(0),
            var(1),
            imp(),
            var(0),
            var(2),
        ],
        seq![imp(), imp(), var(0), imp(), var(1), var(2), imp(), var(1), imp(), var(0), var(2)],
        seq![imp(), imp(), var(0), var(1), imp(), neg(), var(1), neg(), var(0)],
        seq![imp(), neg(), neg(), var(0), var(0)],
        seq![imp(), var(0), neg(), neg(), var(0)],
    ]
}

/// The single axiom of Łukasiewicz and Tarski, in prefix order:
/// `((0 -> (1 -> 0)) -> (((~2 -> (3 -> ~4)) -> ((2 -> (3 -> 5)) ->
/// ((4 -> 3) -> (4 -> 5)))) -> 6)) -> (7 -> 6)`.
pub open spec fn lukasiewicz_tarski_schema() -> Flat<ImpNegEnum<Bare>> {
    seq![
        imp(),
        imp(),
        imp(),
        var(0),
        imp(),
        var(1),
        var(0),
        imp(),
        imp(),
        imp(),
        neg(),
        var(2),
        imp(),
        var(3),
        neg(),
        var(4),
        imp(),
        imp(),
        var(2),
        imp(),
        var(3),
        var(5),
        imp(),
        imp(),
        var(4),
        var(3),
        imp(),
        var(4),
        var(5),
        var(6),
        imp(),
        var(7),
        var(6),
    ]
}

/// The single axiom of Meredith, in prefix order:
/// `((((0 -> 1) -> (~2 -> ~3)) -> 2) -> 4) -> ((4 -> 0) -> (3 -> 0))`.
pub open spec fn meredith_schema() -> Flat<ImpNegEnum<Bare>> {
    seq![
        imp(),
        imp(),
        imp(),
        imp(),
        imp(),
        var(0),
        var(1),
        imp(),
        neg(),
        var(2),
        neg(),
        var(3),
        var(2),
        var(4),
        imp(),
        imp(),
        var(4),
        var(0),
        imp(),
        var(3),
        var(0),
    ]
}

/// The implication, as a term.
fn i() -> (t: Term<ImpNegEnum<Bare>>)
    ensures
        t == Term::Term(ImpNegEnum::Implication([Bare, Bare])),
{
    Term::Term(ImpNegEnum::Implication([Bare, Bare]))
}

/// The negation, as a term.
fn n() -> (t: Term<ImpNegEnum<Bare>>)
    ensures
        t == Term::Term(ImpNegEnum::Negation([Bare])),
{
    Term::Term(ImpNegEnum::Negation([Bare]))
}

/// A variable, as a term.
fn v(x: u16) -> (t: Term<ImpNegEnum<Bare>>)
    ensures
        t == Term::<ImpNegEnum<Bare>>::Var(x),
{
    Term::Var(x)
}

/// The formula of the given terms.
fn formula(terms: Vec<Term<ImpNegEnum<Bare>>>) -> (made: Normal<ImpNeg>)
    requires
        skip::<ImpNeg>(syms_of(terms@), 0, 1) == terms@.len(),
    ensures
        made@ == canon(syms_of(terms@)),
{
    Normal::<ImpNeg>::new(terms).unwrap()
}

impl ImpNeg {
    /// The six axioms of Frege's calculus.
    pub fn frege_axioms() -> (axioms: Vec<Normal<ImpNeg>>)
        ensures
            axioms@.len() == 6,
            forall|k: int| 0 <= k < 6 ==> (#[trigger] axioms@[k])@ == canon(frege_schemas()[k]),
    {
        proof {
            reveal_with_fuel(skip, 16);
        }
        let a0 = vec![i(), v(0), i(), v(1), v(0)];
        let a1 = vec![i(), i(), v(0), i(), v(1), v(2), i(), i(), v(0), v(1), i(), v(0), v(2)];
        let a2 = vec![i(), i(), v(0), i(), v(1), v(2), i(), v(1), i(), v(0), v(2)];
        let a3 = vec![i(), i(), v(0), v(1), i(), n(), v(1), n(), v(0)];
        let a4 = vec![i(), n(), n(), v(0), v(0)];
        let a5 = vec![i(), v(0), n(), n(), v(0)];
        proof {
            assert(syms_of(a0@) =~= frege_schemas()[0]);
            assert(syms_of(a1@) =~= frege_schemas()[1]);
            assert(syms_of(a2@) =~= frege_schemas()[2]);
            assert(syms_of(a3@) =~= frege_schemas()[3]);
            assert(syms_of(a4@) =~= frege_schemas()[4]);
            assert(syms_of(a5@) =~= frege_schemas()[5]);
        }
        vec![formula(a0), formula(a1), formula(a2), formula(a3), formula(a4), formula(a5)]
    }

    /// The single axiom of Łukasiewicz and Tarski.
    pub fn lukasiewicz_tarski() -> (axioms: Vec<Normal<ImpNeg>>)
        ensures
            axioms@.len() == 1,
            axioms@[0]@ == canon(lukasiewicz_tarski_schema()),
    {
        proof {
            reveal_with_fuel(skip, 36);
        }
        let a0 = vec![
            i(),
            i(),
            i(),
            v(0),
            i(),
            v(1),
            v(0),
            i(),
            i(),
            i(),
            n(),
            v(2),
            i(),
            v(3),
            n(),
            v(4),
            i(),
            i(),
            v(2),
            i(),
            v(3),
            v(5),
            i(),
            i(),
            v(4),
            v(3),
            i(),
            v(4),
            v(5),
            v(6),
            i(),
            v(7),
            v(6),
        ];
        proof {
            assert(syms_of(a0@) =~= lukasiewicz_tarski_schema());
        }
        vec![formula(a0)]
    }

    /// The single axiom of Meredith.
    pub fn meredith() -> (axioms: Vec<Normal<ImpNeg>>)
        ensures
            axioms@.len() == 1,
            axioms@[0]@ == canon(meredith_schema()),
    {
        proof {
            reveal_with_fuel(skip, 24);
        }
        let a0 = vec![
            i(),
            i(),
            i(),
            i(),
            i(),
            v(0),
            v(1),
            i(),
            n(),
            v(2),
            n(),
            v(3),
            v(2),
            v(4),
            i(),
            i(),
            v(4),
            v(0),
            i(),
            v(3),
            v(0),
        ];
        proof {
            assert(syms_of(a0@) =~= meredith_schema());
        }
        vec![formula(a0)]
    }
}

} // verus!
