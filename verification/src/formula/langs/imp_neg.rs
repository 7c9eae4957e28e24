//! The calculus of implication and negation.

use vstd::prelude::*;
use crate::formula::canon::lemma_variables;
use crate::formula::flat::{is_formula, skip, Flat, Sym};
use crate::formula::language::{Bare, Language, Normal};
use crate::formula::polish::{parse_polish, spelled, Letters, Notation};

verus! {

/// The constructors of the calculus, with a payload at each operand.
#[derive(PartialEq, Eq, Clone, Copy, Hash, Debug)]
pub enum Variants<S> {
    Implication([S; 2]),
    Negation([S; 1]),
}

/// The calculus of implication and negation.
#[derive(PartialEq, Eq, Clone, Copy, Hash, Debug)]
pub struct ImpNeg;

/// The implication, as a symbol.
pub open spec fn imp() -> Sym<Variants<Bare>> {
    Sym::Op(Variants::Implication([Bare, Bare]))
}

/// The negation, as a symbol.
pub open spec fn neg() -> Sym<Variants<Bare>> {
    Sym::Op(Variants::Negation([Bare]))
}

impl Language for ImpNeg {
    type Shape = Variants<Bare>;

    type Node = Variants<u16>;

    open spec fn arity(shape: Variants<Bare>) -> nat {
        match shape {
            Variants::Implication(_) => 2,
            Variants::Negation(_) => 1,
        }
    }

    open spec fn implication(shape: Variants<Bare>) -> bool {
        shape is Implication
    }

    open spec fn shape_of(node: Variants<u16>) -> Variants<Bare> {
        match node {
            Variants::Implication(_) => Variants::Implication([Bare, Bare]),
            Variants::Negation(_) => Variants::Negation([Bare]),
        }
    }

    open spec fn operands(node: Variants<u16>) -> Seq<u16> {
        match node {
            Variants::Implication(x) => x@,
            Variants::Negation(x) => x@,
        }
    }

    open spec fn tag(shape: Variants<Bare>) -> u16 {
        match shape {
            Variants::Implication(_) => 0,
            Variants::Negation(_) => 1,
        }
    }

    proof fn laws() {
        assert forall|a: Variants<u16>, b: Variants<u16>|
            Self::shape_of(a) == Self::shape_of(b) && #[trigger] Self::operands(a)
                == #[trigger] Self::operands(b) implies a == b by {
            match (a, b) {
                (Variants::Implication(x), Variants::Implication(y)) => {
                    assert(x@ == y@);
                    assert(x =~= y);
                },
                (Variants::Negation(x), Variants::Negation(y)) => {
                    assert(x@ == y@);
                    assert(x =~= y);
                },
                _ => {},
            }
        }
        assert forall|a: Variants<Bare>, b: Variants<Bare>| #[trigger]
            Self::tag(a) == #[trigger] Self::tag(b) implies a == b by {
            match (a, b) {
                (Variants::Implication(x), Variants::Implication(y)) => {
                    assert(x =~= y);
                },
                (Variants::Negation(x), Variants::Negation(y)) => {
                    assert(x =~= y);
                },
                _ => {},
            }
        }
    }

    fn matches(this: &Variants<u16>, other: &Variants<u16>) -> (same: bool) {
        match (this, other) {
            (Variants::Implication(_), Variants::Implication(_)) => true,
            (Variants::Negation(_), Variants::Negation(_)) => true,
            _ => false,
        }
    }

    fn children(this: &Variants<u16>) -> (found: &[u16]) {
        match this {
            Variants::Implication(x) => x,
            Variants::Negation(x) => x,
        }
    }

    fn match_implication(this: &Variants<u16>) -> (found: Option<&[u16; 2]>) {
        match this {
            Variants::Implication(x) => Some(x),
            Variants::Negation(_) => None,
        }
    }

    fn erase(this: &Variants<u16>) -> (shape: Variants<Bare>) {
        match this {
            Variants::Implication(_) => Variants::Implication([Bare, Bare]),
            Variants::Negation(_) => Variants::Negation([Bare]),
        }
    }

    fn place(shape: &Variants<Bare>, at: &[u16]) -> (node: Variants<u16>) {
        match shape {
            Variants::Implication(x) => {
                let node = Variants::Implication([at[0], at[1]]);
                proof {
                    assert(*x =~= [Bare, Bare]);
                    assert(Self::operands(node) =~= at@);
                }
                node
            },
            Variants::Negation(x) => {
                let node = Variants::Negation([at[0]]);
                proof {
                    assert(*x =~= [Bare]);
                    assert(Self::operands(node) =~= at@);
                }
                node
            },
        }
    }

    fn degree(shape: &Variants<Bare>) -> (n: usize) {
        match shape {
            Variants::Implication(_) => 2,
            Variants::Negation(_) => 1,
        }
    }

    fn is_implication(shape: &Variants<Bare>) -> (yes: bool) {
        match shape {
            Variants::Implication(_) => true,
            Variants::Negation(_) => false,
        }
    }

    fn code(shape: &Variants<Bare>) -> (n: u16) {
        match shape {
            Variants::Implication(_) => 0,
            Variants::Negation(_) => 1,
        }
    }
}


impl Notation for ImpNeg {
    open spec fn text(shape: Variants<Bare>) -> Seq<char> {
        match shape {
            Variants::Implication(_) => seq!['C'],
            Variants::Negation(_) => seq!['N'],
        }
    }

    fn symbol(shape: &Variants<Bare>) -> (s: &'static str) {
        proof {
            reveal_strlit("C");
            reveal_strlit("N");
        }
        match shape {
            Variants::Implication(_) => {
                assert("C"@ =~= seq!['C']);
                "C"
            },
            Variants::Negation(_) => {
                assert("N"@ =~= seq!['N']);
                "N"
            },
        }
    }
}

impl Letters for ImpNeg {
    open spec fn of_char(c: char) -> Option<Variants<Bare>> {
        if c == 'C' {
            Some(Variants::Implication([Bare, Bare]))
        } else if c == 'N' {
            Some(Variants::Negation([Bare]))
        } else {
            None
        }
    }

    fn from_char(c: char) -> (shape: Option<Variants<Bare>>) {
        if c == 'C' {
            Some(Variants::Implication([Bare, Bare]))
        } else if c == 'N' {
            Some(Variants::Negation([Bare]))
        } else {
            None
        }
    }
}

/// The formula that a text in Polish notation spells.
fn schema(text: &str) -> (formula: Normal<ImpNeg>)
    requires
        text@.len() <= u16::MAX,
        is_formula::<ImpNeg>(spelled::<ImpNeg>(text@)),
    ensures
        parse_polish::<ImpNeg>(text@) == Ok::<Flat<Variants<Bare>>, int>(formula@),
{
    proof {
        lemma_variables(spelled::<ImpNeg>(text@));
    }
    Normal::<ImpNeg>::from_str(text).unwrap()
}

/// The axioms of Frege's calculus, in Polish notation: `a -> (b -> a)`,
/// `(a -> (b -> c)) -> ((a -> b) -> (a -> c))`,
/// `(a -> (b -> c)) -> (b -> (a -> c))`, `(a -> b) -> (-b -> -a)`,
/// `--a -> a` and `a -> --a`.
pub open spec fn frege_texts() -> Seq<Seq<char>> {
    seq!["CaCba"@, "CCaCbcCCabCac"@, "CCaCbcCbCac"@, "CCabCNbNa"@, "CNNaa"@, "CaNNa"@]
}

/// The first axiom system of Łukasiewicz, in Polish notation:
/// `(p -> q) -> ((q -> r) -> (p -> r))`, `(-p -> p) -> p` and
/// `p -> (-p -> q)`.
pub open spec fn lukasiewicz1_texts() -> Seq<Seq<char>> {
    seq!["CCpqCCqrCpr"@, "CCNppp"@, "CpCNpq"@]
}

/// The second axiom system of Łukasiewicz, in Polish notation.
pub open spec fn lukasiewicz2_texts() -> Seq<Seq<char>> {
    seq!["CCCpqrCNpr"@, "CCCpqrCqr"@, "CCNprCCqrCCpqr"@]
}

/// The third axiom system of Łukasiewicz, in Polish notation.
pub open spec fn lukasiewicz3_texts() -> Seq<Seq<char>> {
    seq!["CpCqp"@, "CCpCqrCCpqCpr"@, "CCNpNqCqp"@]
}

/// The axioms of Hilbert's calculus, in Polish notation.
pub open spec fn hilbert_texts() -> Seq<Seq<char>> {
    seq!["CpCqp"@, "CCpCqrCqCpr"@, "CCqrCCpqCpr"@, "CpCNpq"@, "CCpqCCNpqq"@]
}

/// The axioms of Russell's calculus, in Polish notation.
pub open spec fn russell_texts() -> Seq<Seq<char>> {
    seq!["CpCqp"@, "CCpqCCqrCpr"@, "CCpCqrCqCpr"@, "CNNpp"@, "CCpNpNp"@, "CCpNqCqNp"@]
}

/// The single axiom of Łukasiewicz and Tarski, in Polish notation.
pub open spec fn lukasiewicz_tarski_text() -> Seq<char> {
    "CCCaCbaCCCNcCdNeCCcCdfCCedCefgChg"@
}

/// The single axiom of Meredith, in Polish notation.
pub open spec fn meredith_text() -> Seq<char> {
    "CCCCCabCNcNdceCCeaCda"@
}

/// Whether `axioms` holds the formulas that `texts` spell, in order.
pub open spec fn spelled_by(axioms: Seq<Normal<ImpNeg>>, texts: Seq<Seq<char>>) -> bool {
    &&& axioms.len() == texts.len()
    &&& forall|k: int|
        0 <= k < texts.len() ==> parse_polish::<ImpNeg>(texts[k]) == Ok::<
            Flat<Variants<Bare>>,
            int,
        >((#[trigger] axioms[k])@)
}

impl ImpNeg {
    /// The six axioms of Frege's calculus.
    pub fn frege() -> (axioms: Vec<Normal<ImpNeg>>)
        ensures
            spelled_by(axioms@, frege_texts()),
    {
        proof {
            reveal_strlit("CaCba");
            reveal_strlit("CCaCbcCCabCac");
            reveal_strlit("CCaCbcCbCac");
            reveal_strlit("CCabCNbNa");
            reveal_strlit("CNNaa");
            reveal_strlit("CaNNa");
            reveal_with_fuel(skip, 16);
        }
        vec![
            schema("CaCba"),
            schema("CCaCbcCCabCac"),
            schema("CCaCbcCbCac"),
            schema("CCabCNbNa"),
            schema("CNNaa"),
            schema("CaNNa"),
        ]
    }

    /// The three axioms of the first system of Łukasiewicz.
    pub fn lukasiewicz1() -> (axioms: Vec<Normal<ImpNeg>>)
        ensures
            spelled_by(axioms@, lukasiewicz1_texts()),
    {
        proof {
            reveal_strlit("CCpqCCqrCpr");
            reveal_strlit("CCNppp");
            reveal_strlit("CpCNpq");
            reveal_with_fuel(skip, 16);
        }
        vec![schema("CCpqCCqrCpr"), schema("CCNppp"), schema("CpCNpq")]
    }

    /// The three axioms of the second system of Łukasiewicz.
    pub fn lukasiewicz2() -> (axioms: Vec<Normal<ImpNeg>>)
        ensures
            spelled_by(axioms@, lukasiewicz2_texts()),
    {
        proof {
            reveal_strlit("CCCpqrCNpr");
            reveal_strlit("CCCpqrCqr");
            reveal_strlit("CCNprCCqrCCpqr");
            reveal_with_fuel(skip, 16);
        }
        vec![schema("CCCpqrCNpr"), schema("CCCpqrCqr"), schema("CCNprCCqrCCpqr")]
    }

    /// The three axioms of the third system of Łukasiewicz.
    pub fn lukasiewicz3() -> (axioms: Vec<Normal<ImpNeg>>)
        ensures
            spelled_by(axioms@, lukasiewicz3_texts()),
    {
        proof {
            reveal_strlit("CpCqp");
            reveal_strlit("CCpCqrCCpqCpr");
            reveal_strlit("CCNpNqCqp");
            reveal_with_fuel(skip, 16);
        }
        vec![schema("CpCqp"), schema("CCpCqrCCpqCpr"), schema("CCNpNqCqp")]
    }

    /// The five axioms of Hilbert's calculus.
    pub fn hilbert() -> (axioms: Vec<Normal<ImpNeg>>)
        ensures
            spelled_by(axioms@, hilbert_texts()),
    {
        proof {
            reveal_strlit("CpCqp");
            reveal_strlit("CCpCqrCqCpr");
            reveal_strlit("CCqrCCpqCpr");
            reveal_strlit("CpCNpq");
            reveal_strlit("CCpqCCNpqq");
            reveal_with_fuel(skip, 16);
        }
        vec![
            schema("CpCqp"),
            schema("CCpCqrCqCpr"),
            schema("CCqrCCpqCpr"),
            schema("CpCNpq"),
            schema("CCpqCCNpqq"),
        ]
    }

    /// The six axioms of Russell's calculus.
    pub fn russell() -> (axioms: Vec<Normal<ImpNeg>>)
        ensures
            spelled_by(axioms@, russell_texts()),
    {
        proof {
            reveal_strlit("CpCqp");
            reveal_strlit("CCpqCCqrCpr");
            reveal_strlit("CCpCqrCqCpr");
            reveal_strlit("CNNpp");
            reveal_strlit("CCpNpNp");
            reveal_strlit("CCpNqCqNp");
            reveal_with_fuel(skip, 16);
        }
        vec![
            schema("CpCqp"),
            schema("CCpqCCqrCpr"),
            schema("CCpCqrCqCpr"),
            schema("CNNpp"),
            schema("CCpNpNp"),
            schema("CCpNqCqNp"),
        ]
    }

    /// The single axiom of Łukasiewicz and Tarski.
    pub fn lukasiewicz_tarski() -> (axioms: Vec<Normal<ImpNeg>>)
        ensures
            spelled_by(axioms@, seq![lukasiewicz_tarski_text()]),
    {
        proof {
            reveal_strlit("CCCaCbaCCCNcCdNeCCcCdfCCedCefgChg");
            reveal_with_fuel(skip, 36);
        }
        vec![schema("CCCaCbaCCCNcCdNeCCcCdfCCedCefgChg")]
    }

    /// The single axiom of Meredith.
    pub fn meredith() -> (axioms: Vec<Normal<ImpNeg>>)
        ensures
            spelled_by(axioms@, seq![meredith_text()]),
    {
        proof {
            reveal_strlit("CCCCCabCNcNdceCCeaCda");
            reveal_with_fuel(skip, 24);
        }
        vec![schema("CCCCCabCNcNdceCCeaCda")]
    }
}

} // verus!
