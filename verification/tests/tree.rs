use theorem_explorer::formula::tree::mp::{make_disjoint, try_apply_mp, try_unify};
use theorem_explorer::formula::tree::parse::{parse, FormulaParseError};
use theorem_explorer::formula::tree::{implication, not, Formula};
use theorem_explorer::formula::tree::Formula::Var;

const AXIOMS: [&str; 6] = [
    "1 -> 2 -> 1",
    "(1 -> 2 -> 3) -> (1 -> 2) -> 1 -> 3",
    "(1 -> 2 -> 3) -> 2 -> 1 -> 3",
    "(1 -> 2) -> -2 -> -1",
    "--1 -> 1",
    "1 -> --1",
];

#[test]
fn parse_basic() {
    assert_eq!(parse("12 -> 13").unwrap(), implication(Var(12), Var(13)));
    assert_eq!(
        parse("12 -> 13 -> 14").unwrap(),
        implication(Var(12), implication(Var(13), Var(14)))
    );
    assert_eq!(
        parse("-12 -> 13 -> -14").unwrap(),
        implication(not(Var(12)), implication(Var(13), not(Var(14))))
    );
    assert_eq!(
        theorem_explorer::parse::parse("12 -> 13").unwrap(),
        implication(Var(12), Var(13))
    );
    assert_eq!(
        theorem_explorer::parse::parse("12 -> 13 -> 14").unwrap(),
        implication(Var(12), implication(Var(13), Var(14)))
    );
    assert_eq!(
        theorem_explorer::parse::parse("-12 -> 13 -> -14").unwrap(),
        implication(not(Var(12)), implication(Var(13), not(Var(14))))
    );
}

#[test]
fn parse_brackets() {
    assert_eq!(
        parse("(1 -> 2) -> 3").unwrap(),
        implication(implication(Var(1), Var(2)), Var(3))
    );
    assert_eq!(
        parse("-(1 -> 2) -> 3").unwrap(),
        implication(not(implication(Var(1), Var(2))), Var(3))
    );
    assert_eq!(
        theorem_explorer::parse::parse("(1 -> 2) -> 3").unwrap(),
        implication(implication(Var(1), Var(2)), Var(3))
    );
}

#[test]
fn parse_axioms() {
    assert_eq!(
        AXIOMS.iter().map(|s| parse(s).unwrap()).collect::<Vec<_>>(),
        vec![
            implication(Var(1), implication(Var(2), Var(1))),
            implication(
                implication(Var(1), implication(Var(2), Var(3))),
                implication(implication(Var(1), Var(2)), implication(Var(1), Var(3)))
            ),
            implication(
                implication(Var(1), implication(Var(2), Var(3))),
                implication(Var(2), implication(Var(1), Var(3)))
            ),
            implication(implication(Var(1), Var(2)), implication(not(Var(2)), not(Var(1)))),
            implication(not(not(Var(1))), Var(1)),
            implication(Var(1), not(not(Var(1)))),
        ]
    )
}

#[test]
fn parse_errors() {
    assert_eq!(parse(""), Err(FormulaParseError::UnexpectedEOF));
    assert_eq!(parse("1 ->"), Err(FormulaParseError::UnexpectedEOF));
    assert_eq!(parse("(1 -> 2"), Err(FormulaParseError::UnexpectedEOF));
    assert_eq!(parse("1 2"), Err(FormulaParseError::UnexpectedChar('2')));
    assert_eq!(parse("1 -> a"), Err(FormulaParseError::UnexpectedChar('a')));
    assert_eq!(parse("1)"), Err(FormulaParseError::UnexpectedChar(')')));
    assert_eq!(
        parse("99999999999999999999999999"),
        Err(FormulaParseError::UnexpectedChar('9'))
    );
    assert_eq!(parse(" \t1\u{2003}->\n2 ").unwrap(), implication(Var(1), Var(2)));
}

#[test]
fn written_round_trip() {
    for text in AXIOMS {
        let f = parse(text).unwrap();
        assert_eq!(f.to_string(), text);
        assert_eq!(parse(&f.to_string()).unwrap(), f);
    }
    let f = parse("-(1 -> 2) -> 30").unwrap();
    assert_eq!(f.to_string(), "-(1 -> 2) -> 30");
}

#[test]
fn disjoint() {
    let mut premise = "1 -> --1".parse().unwrap();
    let antecedent = "1".parse().unwrap();
    let q = "2 -> 1".parse().unwrap();
    make_disjoint(&mut premise, &antecedent, &q);
    assert_eq!(premise, "3 -> --3".parse().unwrap());
}

fn test_unify(premise: Formula, antecedent: Formula, s: Vec<(usize, Formula)>) {
    assert_eq!(try_unify(premise, antecedent), Some(s))
}

#[test]
fn unify() {
    let test_cases = [("3 -> --3", "1", &[(1, "3 -> --3")])];
    for (premise, antecedent, s) in test_cases {
        test_unify(
            premise.parse().unwrap(),
            antecedent.parse().unwrap(),
            s.iter().map(|(x, t)| (*x, t.parse().unwrap())).collect(),
        );
    }
}

#[test]
fn unify_fails() {
    assert_eq!(try_unify(parse("1").unwrap(), parse("-1").unwrap()), None);
    assert_eq!(try_unify(parse("1 -> 2").unwrap(), parse("-1").unwrap()), None);
    assert_eq!(try_unify(parse("1").unwrap(), parse("1").unwrap()), Some(vec![]));
}

#[test]
fn substitute() {
    let mut p: Formula = "2 -> 1".parse().unwrap();
    let a: Formula = "3 -> --3".parse().unwrap();
    let b: Formula = "2 -> 3 -> --3".parse().unwrap();
    p.subst(&(1, a));
    assert_eq!(p, b);
}

#[test]
fn substitute_many_takes_the_first_binding() {
    let mut p: Formula = "1 -> 2 -> 3".parse().unwrap();
    p.subst_many(&vec![
        (1, parse("-4").unwrap()),
        (2, parse("1").unwrap()),
        (1, parse("5").unwrap()),
    ]);
    assert_eq!(p, parse("-4 -> 1 -> 3").unwrap());
}

#[test]
fn mp_mp() {
    let premise = "1 -> --1".parse().unwrap();
    let antecedent = "1".parse().unwrap();
    let q = "2 -> 1".parse().unwrap();
    assert_eq!(
        try_apply_mp(&premise, &antecedent, &q),
        Some("2 -> 3 -> --3".parse().unwrap())
    )
}
