//! The calculus of implication and falsum.

use vstd::prelude::*;
use crate::formula::canon::lemma_variables;
use crate::formula::flat::{is_formula, skip, Flat};
use crate::formula::language::{Bare, Language, Normal};
use crate::formula::polish::{parse_polish, spelled, Letters, Notation};

verus! {

/// The constructors of the calculus, with a payload at each operand.
#[derive(Clone, Copy, PartialEq, Eq, Hash, Debug)]
pub enum Variants<S> {
    Implication([S; 2]),
    False,
}

/// The calculus of implication and falsum.
#[derive(PartialEq, Eq, Clone, Copy, Hash, Debug)]
pub struct ImpFalse;

impl Language for ImpFalse {
    type Shape = Variants<Bare>;

    type Node = Variants<u16>;

    open spec fn arity(shape: Variants<Bare>) -> nat {
        match shape {
            Variants::Implication(_) => 2,
            Variants::False => 0,
        }
    }

    open spec fn implication(shape: Variants<Bare>) -> bool {
        shape is Implication
    }

    open spec fn shape_of(node: Variants<u16>) -> Variants<Bare> {
        match node {
            Variants::Implication(_) => Variants::Implication([Bare, Bare]),
            Variants::False => Variants::False,
        }
    }

    open spec fn operands(node: Variants<u16>) -> Seq<u16> {
        match node {
            Variants::Implication(x) => x@,
            Variants::False => Seq::empty(),
        }
    }

    open spec fn tag(shape: Variants<Bare>) -> u16 {
        match shape {
            Variants::Implication(_) => 0,
            Variants::False => 1,
        }
    }

    proof fn laws() {
        assert forall|a: Variants<u16>, b: Variants<u16>|
            Self::shape_of(a) == Self::shape_of(b) && #[trigger] Self::operands(a)
                == #[trigger] Self::operands(b) implies a == b by {
            match (a, b) {
                (Variants::Implication(x), Variants::Implication(y)) => {
                    assert(x@ == y@);
                    assert(x =~= y);
                },
                _ => {},
            }
        }
        assert forall|a: Variants<Bare>, b: Variants<Bare>| #[trigger]
            Self::tag(a) == #[trigger] Self::tag(b) implies a == b by {
            match (a, b) {
                (Variants::Implication(x), Variants::Implication(y)) => {
                    assert(x =~= y);
                },
                _ => {},
            }
        }
    }

    fn matches(this: &Variants<u16>, other: &Variants<u16>) -> (same: bool) {
        match (this, other) {
            (Variants::Implication(_), Variants::Implication(_)) => true,
            (Variants::False, Variants::False) => true,
            _ => false,
        }
    }

    fn children(this: &Variants<u16>) -> (found: &[u16]) {
        match this {
            Variants::Implication(x) => x,
            Variants::False => {
                let none: &[u16; 0] = &[];
                none
            },
        }
    }

    fn match_implication(this: &Variants<u16>) -> (found: Option<&[u16; 2]>) {
        match this {
            Variants::Implication(x) => Some(x),
            Variants::False => None,
        }
    }

    fn erase(this: &Variants<u16>) -> (shape: Variants<Bare>) {
        match this {
            Variants::Implication(_) => Variants::Implication([Bare, Bare]),
            Variants::False => Variants::False,
        }
    }

    fn place(shape: &Variants<Bare>, at: &[u16]) -> (node: Variants<u16>) {
        match shape {
            Variants::Implication(x) => {
                let node = Variants::Implication([at[0], at[1]]);
                proof {
                    assert(*x =~= [Bare, Bare]);
                    assert(Self::operands(node) =~= at@);
                }
                node
            },
            Variants::False => {
                proof {
                    assert(Self::operands(Variants::<u16>::False) =~= at@);
                }
                Variants::False
            },
        }
    }

    fn degree(shape: &Variants<Bare>) -> (n: usize) {
        match shape {
            Variants::Implication(_) => 2,
            Variants::False => 0,
        }
    }

    fn is_implication(shape: &Variants<Bare>) -> (yes: bool) {
        match shape {
            Variants::Implication(_) => true,
            Variants::False => false,
        }
    }

    fn code(shape: &Variants<Bare>) -> (n: u16) {
        match shape {
            Variants::Implication(_) => 0,
            Variants::False => 1,
        }
    }
}

impl Notation for ImpFalse {
    open spec fn text(shape: Variants<Bare>) -> Seq<char> {
        match shape {
            Variants::Implication(_) => seq!['C'],
            Variants::False => seq!['F'],
        }
    }

    fn symbol(shape: &Variants<Bare>) -> (s: &'static str) {
        proof {
            reveal_strlit("C");
            reveal_strlit("F");
        }
        match shape {
            Variants::Implication(_) => {
                assert("C"@ =~= seq!['C']);
                "C"
            },
            Variants::False => {
                assert("F"@ =~= seq!['F']);
                "F"
            },
        }
    }
}

impl Letters for ImpFalse {
    open spec fn of_char(c: char) -> Option<Variants<Bare>> {
        if c == 'C' {
            Some(Variants::Implication([Bare, Bare]))
        } else if c == 'F' {
            Some(Variants::False)
        } else {
            None
        }
    }

    fn from_char(c: char) -> (shape: Option<Variants<Bare>>) {
        if c == 'C' {
            Some(Variants::Implication([Bare, Bare]))
        } else if c == 'F' {
            Some(Variants::False)
        } else {
            None
        }
    }
}

/// The formula that a text in Polish notation spells.
fn schema(text: &str) -> (formula: Normal<ImpFalse>)
    requires
        text@.len() <= u16::MAX,
        is_formula::<ImpFalse>(spelled::<ImpFalse>(text@)),
    ensures
        parse_polish::<ImpFalse>(text@) == Ok::<Flat<Variants<Bare>>, int>(formula@),
{
    proof {
        lemma_variables(spelled::<ImpFalse>(text@));
    }
    Normal::<ImpFalse>::from_str(text).unwrap()
}

/// The axioms of Church's calculus, in Polish notation: `a -> (b -> a)`,
/// `(a -> (b -> c)) -> ((a -> b) -> (a -> c))` and `((a -> F) -> F) -> a`.
pub open spec fn church_texts() -> Seq<Seq<char>> {
    seq!["CaCba"@, "CCaCbcCCabCac"@, "CCCaFFa"@]
}

/// The single axiom of Meredith for implication and falsum, in Polish
/// notation.
pub open spec fn meredith1_text() -> Seq<char> {
    "CCCCCabCcFdeCCeaCca"@
}

impl ImpFalse {
    /// The three axioms of Church's calculus.
    pub fn church() -> (axioms: Vec<Normal<ImpFalse>>)
        ensures
            axioms@.len() == 3,
            forall|k: int|
                0 <= k < 3 ==> parse_polish::<ImpFalse>(church_texts()[k]) == Ok::<
                    Flat<Variants<Bare>>,
                    int,
                >((#[trigger] axioms@[k])@),
    {
        proof {
            reveal_strlit("CaCba");
            reveal_strlit("CCaCbcCCabCac");
            reveal_strlit("CCCaFFa");
            reveal_with_fuel(skip, 16);
        }
        vec![schema("CaCba"), schema("CCaCbcCCabCac"), schema("CCCaFFa")]
    }

    /// The single axiom of Meredith for implication and falsum.
    pub fn meredith1() -> (axioms: Vec<Normal<ImpFalse>>)
        ensures
            axioms@.len() == 1,
            parse_polish::<ImpFalse>(meredith1_text()) == Ok::<Flat<Variants<Bare>>, int>(
                axioms@[0]@,
            ),
    {
        proof {
            reveal_strlit("CCCCCabCcFdeCCeaCca");
            reveal_with_fuel(skip, 24);
        }
        vec![schema("CCCCCabCcFdeCCeaCca")]
    }
}

} // verus!
