//! Formulas as text in Polish notation: each constructor is one letter
//! and is followed by its operands; every other character is a variable.

use vstd::prelude::*;
use std::collections::HashMap;
use crate::formula::canon::{
    canon, is_canonical, lemma_canon_rename, lemma_canonical_fixed, lemma_rename_is_formula,
    lemma_seen, lemma_seen_grows, occurs_in, rename, seen, variables,
};
use crate::formula::digits::{decimal, digit, lemma_digit, push_decimal};
use crate::formula::flat::{is_formula, lemma_formula_by_pending, pending, Flat, Sym};
use crate::formula::language::{sym_of, syms_of, Language, Term};

verus! {

/// A calculus whose constructors have a written form.
pub trait Notation: Language {
    /// The written form of a constructor.
    spec fn text(shape: Self::Shape) -> Seq<char>;

    /// The written form of a constructor.
    fn symbol(shape: &Self::Shape) -> (s: &'static str)
        ensures
            s@ == Self::text(*shape),
    ;
}

/// A calculus whose constructors can be read from single letters.
pub trait Letters: Language {
    /// The constructor that a character stands for, if it stands for
    /// one.
    spec fn of_char(c: char) -> Option<Self::Shape>;

    /// The constructor that a character stands for, if it stands for
    /// one.
    fn from_char(c: char) -> (shape: Option<Self::Shape>)
        ensures
            shape == Self::of_char(c),
    ;
}

/// Why a text in Polish notation is not a formula.
#[derive(Debug, Clone, Copy, PartialEq, Eq)]
pub enum ParseError {
    /// The text is no single complete term: so many operands are still
    /// owed at its end, or, if the number is negative, so many are too
    /// many; 0 where a complete term is followed by more that makes up
    /// for itself.
    WrongArguments(isize),
}

/// The symbol that a character stands for: a constructor, or the
/// variable named by the character.
pub open spec fn read_char<L: Letters>(c: char) -> Sym<L::Shape> {
    match L::of_char(c) {
        Some(k) => Sym::Op(k),
        None => Sym::Var(c as u32 as nat),
    }
}

/// The symbols that a text stands for, character by character.
pub open spec fn spelled<L: Letters>(s: Seq<char>) -> Flat<L::Shape> {
    s.map_values(|c: char| read_char::<L>(c))
}

/// What a text in Polish notation stands for: the formula that it
/// spells, with canonical variable names, or the number of operands
/// owed at its end.
pub open spec fn parse_polish<L: Letters>(s: Seq<char>) -> Result<Flat<L::Shape>, int> {
    let raw = spelled::<L>(s);
    if is_formula::<L>(raw) {
        Ok(canon(raw))
    } else {
        Err(pending::<L>(raw, raw.len() as int))
    }
}

/// The written form of one symbol: that of a constructor, or the number
/// of a variable.
pub open spec fn spell<L: Notation>(x: Sym<L::Shape>) -> Seq<char> {
    match x {
        Sym::Op(k) => L::text(k),
        Sym::Var(v) => decimal(v),
    }
}

/// The written form of a flat formula: that of its symbols, one after
/// the other.
pub open spec fn render<L: Notation>(f: Flat<L::Shape>) -> Seq<char>
    decreases f.len(),
{
    if f.len() == 0 {
        Seq::empty()
    } else {
        render::<L>(f.drop_last()) + spell::<L>(f.last())
    }
}

/// What is owed lies between one less for every symbol read and 254
/// more for each.
pub proof fn lemma_pending_bounds<L: Language>(f: Flat<L::Shape>, n: int)
    requires
        0 <= n <= f.len(),
    ensures
        1 - n <= pending::<L>(f, n) <= 1 + 254 * n,
    decreases n,
{
    if n > 0 {
        L::laws();
        lemma_pending_bounds::<L>(f, n - 1);
        match f[n - 1] {
            Sym::Op(k) => {
                assert(L::arity(k) <= u8::MAX);
            },
            Sym::Var(_) => {},
        }
    }
}

/// What is owed at the end of a run of terms, and whether something is
/// owed at every place before the end.
pub fn settle<L: Language>(terms: &Vec<Term<L::Shape>>) -> (owed: (i128, bool))
    ensures
        owed.0 == pending::<L>(syms_of(terms@), terms@.len() as int),
        owed.1 == (forall|m: int| 0 <= m < terms@.len() ==> pending::<L>(syms_of(terms@), m) > 0),
        (owed.0 == 0 && owed.1) == is_formula::<L>(syms_of(terms@)),
{
    let ghost f = syms_of(terms@);
    let mut left: i128 = 1;
    let mut open = true;
    let mut i: usize = 0;
    while i < terms.len()
        invariant
            f == syms_of(terms@),
            i <= terms@.len(),
            left == pending::<L>(f, i as int),
            open == (forall|m: int| 0 <= m < i ==> pending::<L>(f, m) > 0),
        decreases terms@.len() - i,
    {
        proof {
            lemma_pending_bounds::<L>(f, i as int);
            lemma_pending_bounds::<L>(f, i as int + 1);
            assert(f[i as int] == sym_of(terms@[i as int]));
        }
        if left <= 0 {
            open = false;
        }
        left = left - 1;
        match terms[i] {
            Term::Term(shape) => {
                left = left + L::degree(&shape) as i128;
            },
            Term::Var(_) => {},
        }
        i += 1;
    }
    proof {
        lemma_formula_by_pending::<L>(f);
    }
    (left, open)
}

/// The place of a variable among those seen does not change when more
/// are seen.
pub proof fn lemma_index_stable<K>(f: Flat<K>, n: int, m: int, v: nat)
    requires
        0 <= n <= m <= f.len(),
        seen(f, n).contains(v),
    ensures
        seen(f, m).contains(v),
        seen(f, m).index_of(v) == seen(f, n).index_of(v),
{
    lemma_seen(f, n);
    lemma_seen(f, m);
    lemma_seen_grows(f, n, m);
    let at = seen(f, n).index_of(v);
    assert(seen(f, m)[at] == v);
    let there = seen(f, m).index_of(v);
    assert(seen(f, m)[there] == v);
}

/// Reads the terms that a text in Polish notation spells, with canonical
/// variable names: each variable is named by the number of variables
/// that were met before it was first met.
pub fn read_terms<L: Letters>(chars: &Vec<char>) -> (terms: Vec<Term<L::Shape>>)
    requires
        variables(spelled::<L>(chars@)).len() <= 0x10000,
    ensures
        syms_of(terms@) == canon(spelled::<L>(chars@)),
{
    let ghost raw = spelled::<L>(chars@);
    let mut terms: Vec<Term<L::Shape>> = Vec::new();
    let mut names: HashMap<u32, u16> = HashMap::new();
    let mut next: usize = 0;
    let mut i: usize = 0;
    proof {
        assert(syms_of(terms@) =~= rename(
            raw.subrange(0, 0),
            |v: nat| seen(raw, 0).index_of(v) as nat,
        ));
    }
    while i < chars.len()
        invariant
            raw == spelled::<L>(chars@),
            variables(raw).len() <= 0x10000,
            i <= chars@.len(),
            next == seen(raw, i as int).len(),
            forall|j: int|
                0 <= j < seen(raw, i as int).len() ==> names@.contains_key(
                    #[trigger] seen(raw, i as int)[j] as u32,
                ) && names@[seen(raw, i as int)[j] as u32] == j,
            forall|k: u32| names@.contains_key(k) ==> seen(raw, i as int).contains(k as nat),
            terms@.len() == i,
            syms_of(terms@) == rename(
                raw.subrange(0, i as int),
                |v: nat| seen(raw, i as int).index_of(v) as nat,
            ),
        decreases chars@.len() - i,
    {
        let c = chars[i];
        let ghost before = seen(raw, i as int);
        let ghost now = seen(raw, i as int + 1);
        let ghost old_terms = syms_of(terms@);
        proof {
            lemma_seen(raw, i as int);
            lemma_seen(raw, i as int + 1);
            assert(raw[i as int] == read_char::<L>(c));
        }
        match L::from_char(c) {
            Some(shape) => {
                terms.push(Term::Term(shape));
            },
            None => {
                let key = c as u32;
                proof {
                    assert(raw[i as int] == Sym::<L::Shape>::Var(key as nat));
                }
                let found = names.get(&key);
                let name = match found {
                    Some(n) => {
                        proof {
                            assert(before.contains(key as nat));
                            let at = before.index_of(key as nat);
                            assert(before[at] == key as nat);
                            assert(names@[before[at] as u32] == at);
                        }
                        *n
                    },
                    None => {
                        proof {
                            if before.contains(key as nat) {
                                let at = before.index_of(key as nat);
                                assert(before[at] == key as nat);
                                assert(names@.contains_key(before[at] as u32));
                            }
                        }
                        proof {
                            assert(now == before.push(key as nat));
                            lemma_seen_grows(raw, i as int + 1, raw.len() as int);
                        }
                        let n = next as u16;
                        names.insert(key, n);
                        next = next + 1;
                        proof {
                            assert(now[n as int] == key as nat);
                            assert(now.contains(key as nat));
                            let at = now.index_of(key as nat);
                            assert(now[at] == key as nat);
                        }
                        n
                    },
                };
                terms.push(Term::Var(name));
                proof {
                    assert(now.contains(key as nat));
                    assert(name == now.index_of(key as nat));
                }
            },
        }
        proof {
            let label_before = |v: nat| before.index_of(v) as nat;
            let label_now = |v: nat| now.index_of(v) as nat;
            let want = rename(raw.subrange(0, i as int + 1), label_now);
            assert forall|j: int| 0 <= j < now.len() implies names@.contains_key(
                #[trigger] now[j] as u32,
            ) && names@[now[j] as u32] == j by {
                if j < before.len() {
                    lemma_seen_grows(raw, i as int, i as int + 1);
                    assert(now[j] == before[j]);
                }
            }
            assert forall|k: u32| names@.contains_key(k) implies now.contains(k as nat) by {
                if before.contains(k as nat) {
                    lemma_index_stable(raw, i as int, i as int + 1, k as nat);
                }
            }
            assert forall|t: int| 0 <= t < i + 1 implies syms_of(terms@)[t] == want[t] by {
                if t < i {
                    assert(syms_of(terms@)[t] == old_terms[t]);
                    assert(old_terms[t] == rename(raw.subrange(0, i as int), label_before)[t]);
                    match raw[t] {
                        Sym::Var(v) => {
                            assert(before.contains(v));
                            lemma_index_stable(raw, i as int, i as int + 1, v);
                        },
                        Sym::Op(_) => {},
                    }
                }
            }
            assert(syms_of(terms@) =~= want);
        }
        i += 1;
    }
    proof {
        assert(raw.subrange(0, raw.len() as int) =~= raw);
        assert(rename(raw, |v: nat| seen(raw, raw.len() as int).index_of(v) as nat) =~= canon(raw));
    }
    terms
}

/// The characters of a text.
pub fn chars_of(s: &str) -> (chars: Vec<char>)
    ensures
        chars@ == s@,
{
    let mut chars: Vec<char> = Vec::new();
    for c in it: s.chars()
        invariant
            it.seq() == s@,
            chars@ =~= it.seq().subrange(0, it.index() as int),
    {
        chars.push(c);
    }
    proof {
        assert(chars@ =~= s@);
    }
    chars
}

/// Writes a run of terms in Polish notation.
pub fn write_terms<L: Notation>(terms: &Vec<Term<L::Shape>>) -> (out: String)
    ensures
        out@ == render::<L>(syms_of(terms@)),
{
    let ghost f = syms_of(terms@);
    let mut out = String::new();
    let mut i: usize = 0;
    proof {
        assert(f.subrange(0, 0) =~= Seq::<Sym<L::Shape>>::empty());
    }
    while i < terms.len()
        invariant
            f == syms_of(terms@),
            i <= terms@.len(),
            out@ == render::<L>(f.subrange(0, i as int)),
        decreases terms@.len() - i,
    {
        proof {
            assert(f.subrange(0, i as int + 1).drop_last() =~= f.subrange(0, i as int));
            assert(f.subrange(0, i as int + 1).last() == sym_of(terms@[i as int]));
        }
        match terms[i] {
            Term::Term(shape) => {
                out.append(L::symbol(&shape));
            },
            Term::Var(x) => {
                push_decimal(&mut out, x as usize);
            },
        }
        i += 1;
    }
    proof {
        assert(f.subrange(0, f.len() as int) =~= f);
    }
    out
}

/// Whether the written forms of the constructors are single letters
/// that are read back as the constructors, and no digit is read as a
/// constructor.
pub open spec fn polish<L: Notation + Letters>() -> bool {
    &&& forall|k: L::Shape|
        (#[trigger] L::text(k)).len() == 1 && L::of_char(L::text(k)[0]) == Some(k)
    &&& forall|d: nat| d < 10 ==> L::of_char(#[trigger] digit(d)) is None
}

/// Where every symbol is written as one character, the written form has
/// one character for each symbol.
proof fn lemma_render_single<L: Notation + Letters>(f: Flat<L::Shape>)
    requires
        polish::<L>(),
        forall|v: nat| occurs_in(f, v) ==> v < 10,
    ensures
        render::<L>(f).len() == f.len(),
        forall|i: int| 0 <= i < f.len() ==> #[trigger] render::<L>(f)[i] == spell::<L>(f[i])[0],
    decreases f.len(),
{
    if f.len() > 0 {
        let g = f.drop_last();
        assert forall|v: nat| occurs_in(g, v) implies v < 10 by {
            let t = choose|t: int| 0 <= t < g.len() && g[t] == Sym::<L::Shape>::Var(v);
            assert(f[t] == Sym::<L::Shape>::Var(v));
            assert(occurs_in(f, v));
        }
        lemma_render_single::<L>(g);
        match f.last() {
            Sym::Var(v) => {
                assert(f[f.len() - 1] == Sym::<L::Shape>::Var(v));
                assert(occurs_in(f, v));
            },
            Sym::Op(k) => {
                assert(L::text(k).len() == 1);
            },
        }
        assert forall|i: int| 0 <= i < f.len() implies #[trigger] render::<L>(f)[i] == spell::<L>(
            f[i],
        )[0] by {
            if i < g.len() {
                assert(render::<L>(g)[i] == spell::<L>(g[i])[0]);
            }
        }
    }
}

/// Parsing what was rendered gives the formula back: to read the written
/// form of a formula that has canonical variable names, all of them
/// below 10, in a calculus written in Polish notation, gives the
/// formula.
pub proof fn law_polish_round_trip<L: Notation + Letters>(f: Flat<L::Shape>)
    requires
        polish::<L>(),
        is_formula::<L>(f),
        is_canonical(f),
        forall|v: nat| occurs_in(f, v) ==> v < 10,
    ensures
        parse_polish::<L>(render::<L>(f)) == Ok::<Flat<L::Shape>, int>(f),
{
    let text = render::<L>(f);
    let raw = spelled::<L>(text);
    let r = |v: nat| digit(v) as u32 as nat;
    lemma_render_single::<L>(f);
    assert forall|i: int| 0 <= i < f.len() implies raw[i] == rename(f, r)[i] by {
        assert(text[i] == spell::<L>(f[i])[0]);
        match f[i] {
            Sym::Var(v) => {
                assert(occurs_in(f, v));
                assert(L::of_char(digit(v)) is None);
            },
            Sym::Op(k) => {
                assert(L::of_char(L::text(k)[0]) == Some(k));
            },
        }
    }
    assert(raw =~= rename(f, r));
    assert forall|v: nat, w: nat| occurs_in(f, v) && occurs_in(f, w) && r(v) == r(w) implies v
        == w by {
        lemma_digit(v);
        lemma_digit(w);
    }
    lemma_canon_rename(f, r);
    lemma_canonical_fixed(f);
    lemma_rename_is_formula::<L>(f, r);
}


/// Renaming does not change what is owed.
pub proof fn lemma_pending_rename<L: Language>(f: Flat<L::Shape>, r: spec_fn(nat) -> nat, n: int)
    requires
        0 <= n <= f.len(),
    ensures
        pending::<L>(rename(f, r), n) == pending::<L>(f, n),
    decreases n,
{
    if n > 0 {
        lemma_pending_rename::<L>(f, r, n - 1);
    }
}

} // verus!
