//! Formulas of implication and negation as trees.

use vstd::prelude::*;
use crate::formula::digits::{decimal, push_decimal};

pub mod mp;
pub mod parse;

verus! {

/// A formula of implication and negation over numbered variables.
#[derive(Debug, PartialEq, Eq)]
pub enum Formula {
    Var(usize),
    Implication(Box<Formula>, Box<Formula>),
    Not(Box<Formula>),
}

/// The implication of `a` and `b`.
pub fn implication(a: Formula, b: Formula) -> (made: Formula)
    ensures
        made == Formula::Implication(Box::new(a), Box::new(b)),
{
    Formula::Implication(Box::new(a), Box::new(b))
}

/// The negation of `a`.
pub fn not(a: Formula) -> (made: Formula)
    ensures
        made == Formula::Not(Box::new(a)),
{
    Formula::Not(Box::new(a))
}

impl Clone for Formula {
    fn clone(&self) -> (copy: Self)
        ensures
            copy == *self,
        decreases self,
    {
        match self {
            Formula::Var(x) => Formula::Var(*x),
            Formula::Implication(a, b) => Formula::Implication(
                Box::new((**a).clone()),
                Box::new((**b).clone()),
            ),
            Formula::Not(a) => Formula::Not(Box::new((**a).clone())),
        }
    }
}

impl Formula {
    /// The number of constructors and variables of the formula.
    pub open spec fn size(self) -> nat
        decreases self,
    {
        match self {
            Formula::Var(_) => 1,
            Formula::Implication(a, b) => 1 + a.size() + b.size(),
            Formula::Not(a) => 1 + a.size(),
        }
    }

    /// Whether the variable `x` stands in the formula.
    pub open spec fn mentions(self, x: usize) -> bool
        decreases self,
    {
        match self {
            Formula::Var(y) => x == y,
            Formula::Implication(a, b) => a.mentions(x) || b.mentions(x),
            Formula::Not(a) => a.mentions(x),
        }
    }

    /// The formula with `t` in the place of the variable `x`.
    pub open spec fn replaced(self, x: usize, t: Formula) -> Formula
        decreases self,
    {
        match self {
            Formula::Var(y) => if x == y {
                t
            } else {
                self
            },
            Formula::Implication(a, b) => Formula::Implication(
                Box::new(a.replaced(x, t)),
                Box::new(b.replaced(x, t)),
            ),
            Formula::Not(a) => Formula::Not(Box::new(a.replaced(x, t))),
        }
    }

    /// The formula with each variable replaced by what the first binding
    /// for it in `s` gives, all at once.
    pub open spec fn replaced_all(self, s: Seq<(usize, Formula)>) -> Formula
        decreases self,
    {
        match self {
            Formula::Var(y) => match bound(s, y) {
                Some(t) => t,
                None => self,
            },
            Formula::Implication(a, b) => Formula::Implication(
                Box::new(a.replaced_all(s)),
                Box::new(b.replaced_all(s)),
            ),
            Formula::Not(a) => Formula::Not(Box::new(a.replaced_all(s))),
        }
    }

    /// The formula with `n` added to each variable.
    pub open spec fn raised(self, n: nat) -> Formula
        decreases self,
    {
        match self {
            Formula::Var(y) => Formula::Var((y + n) as usize),
            Formula::Implication(a, b) => Formula::Implication(
                Box::new(a.raised(n)),
                Box::new(b.raised(n)),
            ),
            Formula::Not(a) => Formula::Not(Box::new(a.raised(n))),
        }
    }

    /// The largest variable of the formula.
    pub open spec fn top(self) -> usize
        decreases self,
    {
        match self {
            Formula::Var(y) => y,
            Formula::Implication(a, b) => if a.top() >= b.top() {
                a.top()
            } else {
                b.top()
            },
            Formula::Not(a) => a.top(),
        }
    }

    /// The formula in infix notation: variables as numbers, `->` for
    /// the implication, which groups to the right, `-` for the negation,
    /// and brackets round an implication that is the left operand of an
    /// implication or the operand of a negation.
    pub open spec fn written(self) -> Seq<char>
        decreases self,
    {
        match self {
            Formula::Var(x) => decimal(x as nat),
            Formula::Implication(a, b) => if *a is Implication {
                seq!['('] + a.written() + seq![')', ' ', '-', '>', ' '] + b.written()
            } else {
                a.written() + seq![' ', '-', '>', ' '] + b.written()
            },
            Formula::Not(a) => if *a is Implication {
                seq!['-', '('] + a.written() + seq![')']
            } else {
                seq!['-'] + a.written()
            },
        }
    }

    /// Whether the formula is an implication.
    pub fn is_implication(&self) -> (yes: bool)
        ensures
            yes == (*self is Implication),
    {
        match self {
            Formula::Implication(_, _) => true,
            _ => false,
        }
    }

    /// Puts `s.1` in the place of the variable `s.0`.
    pub fn subst(&mut self, s: &(usize, Formula))
        ensures
            *final(self) == old(self).replaced(s.0, s.1),
        decreases *old(self),
    {
        match self {
            Formula::Var(v) => {
                if *v == s.0 {
                    *self = s.1.clone();
                }
            },
            Formula::Implication(a, b) => {
                a.subst(s);
                b.subst(s);
            },
            Formula::Not(a) => {
                a.subst(s);
            },
        }
    }

    /// Puts in the place of each variable what the first binding for it
    /// in `s` gives, all at once.
    pub fn subst_many(&mut self, s: &Vec<(usize, Formula)>)
        ensures
            *final(self) == old(self).replaced_all(s@),
        decreases *old(self),
    {
        match self {
            Formula::Var(v) => {
                let x = *v;
                match lookup(s, x) {
                    Some(at) => {
                        *self = s[at].1.clone();
                    },
                    None => {},
                }
            },
            Formula::Implication(a, b) => {
                a.subst_many(s);
                b.subst_many(s);
            },
            Formula::Not(a) => {
                a.subst_many(s);
            },
        }
    }

    /// Appends the formula in infix notation to a text.
    pub fn write_to(&self, out: &mut String)
        ensures
            final(out)@ == old(out)@ + self.written(),
        decreases self,
    {
        proof {
            reveal_strlit("(");
            reveal_strlit(") -> ");
            reveal_strlit(" -> ");
            reveal_strlit("-");
            reveal_strlit(")");
        }
        match self {
            Formula::Var(x) => {
                push_decimal(out, *x);
            },
            Formula::Implication(a, b) => {
                if a.is_implication() {
                    out.append("(");
                    a.write_to(out);
                    out.append(") -> ");
                    b.write_to(out);
                    proof {
                        assert(final(out)@ =~= old(out)@ + self.written());
                    }
                } else {
                    a.write_to(out);
                    out.append(" -> ");
                    b.write_to(out);
                    proof {
                        assert(final(out)@ =~= old(out)@ + self.written());
                    }
                }
            },
            Formula::Not(a) => {
                out.append("-");
                if a.is_implication() {
                    out.append("(");
                    a.write_to(out);
                    out.append(")");
                    proof {
                        assert(final(out)@ =~= old(out)@ + self.written());
                    }
                } else {
                    a.write_to(out);
                    proof {
                        assert(final(out)@ =~= old(out)@ + self.written());
                    }
                }
            },
        }
    }

    /// The formula in infix notation.
    pub fn to_string(&self) -> (text: String)
        ensures
            text@ == self.written(),
    {
        let mut out = String::new();
        self.write_to(&mut out);
        out
    }
}

impl std::str::FromStr for Formula {
    type Err = parse::FormulaParseError;
    /// Reads a formula in infix notation, as `parse::parse` does.
    fn from_str(s: &str) -> (read: Result<Self, Self::Err>)
        ensures
            read == parse::parsed(s@),
            read matches Ok(f) ==> f.size() <= s@.len() <= usize::MAX,
    {
        parse::parse(s)
    }
}

/// What the first binding for the variable `x` in `s` gives.
pub open spec fn bound(s: Seq<(usize, Formula)>, x: usize) -> Option<Formula>
    decreases s.len(),
{
    if s.len() == 0 {
        None
    } else if s[0].0 == x {
        Some(s[0].1)
    } else {
        bound(s.drop_first(), x)
    }
}

/// The place of the first binding for the variable `x` in `s`.
fn lookup(s: &Vec<(usize, Formula)>, x: usize) -> (found: Option<usize>)
    ensures
        match found {
            Some(at) => at < s@.len() && bound(s@, x) == Some(s@[at as int].1),
            None => bound(s@, x) is None,
        },
{
    let mut i: usize = 0;
    proof {
        assert(s@.subrange(0, s@.len() as int) =~= s@);
    }
    while i < s.len()
        invariant
            i <= s@.len(),
            bound(s@, x) == bound(s@.subrange(i as int, s@.len() as int), x),
        decreases s@.len() - i,
    {
        proof {
            let rest = s@.subrange(i as int, s@.len() as int);
            assert(rest[0] == s@[i as int]);
            assert(rest.drop_first() =~= s@.subrange(i as int + 1, s@.len() as int));
        }
        if s[i].0 == x {
            return Some(i);
        }
        i += 1;
    }
    proof {
        assert(s@.subrange(s@.len() as int, s@.len() as int).len() == 0);
    }
    None
}

} // verus!
