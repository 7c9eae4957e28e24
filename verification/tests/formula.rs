use theorem_explorer::formula::mp::{make_disjoint, unify};
use theorem_explorer::formula::parse::{parse, FormulaParseError};
use theorem_explorer::formula::{modus_ponens, Arena, Entry, Formula, Idx, Normal};

const AXIOMS: [&str; 6] = [
    "1 -> 2 -> 1",
    "(1 -> 2 -> 3) -> (1 -> 2) -> 1 -> 3",
    "(1 -> 2 -> 3) -> 2 -> 1 -> 3",
    "(1 -> 2) -> -2 -> -1",
    "--1 -> 1",
    "1 -> --1",
];

#[test]
fn basic() {
    assert_eq!(
        parse("12 -> 13").unwrap(),
        Formula::implication(Formula::var(12), Formula::var(13))
    );
    assert_eq!(
        parse("12 -> 13 -> 14").unwrap(),
        Formula::implication(
            Formula::var(12),
            Formula::implication(Formula::var(13), Formula::var(14))
        )
    );
    assert_eq!(
        parse("-12 -> 13 -> -14").unwrap(),
        Formula::implication(
            Formula::not(Formula::var(12)),
            Formula::implication(Formula::var(13), Formula::not(Formula::var(14)))
        )
    );
}

#[test]
fn brackets() {
    assert_eq!(
        parse("(1 -> 2) -> 3").unwrap(),
        Formula::implication(
            Formula::implication(Formula::var(1), Formula::var(2)),
            Formula::var(3)
        )
    );
    assert_eq!(
        parse("-(1 -> 2) -> 3").unwrap(),
        Formula::implication(
            Formula::not(Formula::implication(Formula::var(1), Formula::var(2))),
            Formula::var(3)
        )
    );
}

#[test]
fn axioms() {
    assert_eq!(
        AXIOMS.iter().map(|s| parse(s).unwrap()).collect::<Vec<_>>(),
        vec![
            Formula::implication(
                Formula::var(1),
                Formula::implication(Formula::var(2), Formula::var(1))
            ),
            Formula::implication(
                Formula::implication(
                    Formula::var(1),
                    Formula::implication(Formula::var(2), Formula::var(3))
                ),
                Formula::implication(
                    Formula::implication(Formula::var(1), Formula::var(2)),
                    Formula::implication(Formula::var(1), Formula::var(3))
                )
            ),
            Formula::implication(
                Formula::implication(
                    Formula::var(1),
                    Formula::implication(Formula::var(2), Formula::var(3))
                ),
                Formula::implication(
                    Formula::var(2),
                    Formula::implication(Formula::var(1), Formula::var(3))
                )
            ),
            Formula::implication(
                Formula::implication(Formula::var(1), Formula::var(2)),
                Formula::implication(
                    Formula::not(Formula::var(2)),
                    Formula::not(Formula::var(1))
                )
            ),
            Formula::implication(Formula::not(Formula::not(Formula::var(1))), Formula::var(1)),
            Formula::implication(Formula::var(1), Formula::not(Formula::not(Formula::var(1)))),
        ]
    )
}

#[test]
fn arena_parse_errors() {
    assert_eq!(parse("").unwrap_err(), FormulaParseError::UnexpectedEOF);
    assert_eq!(parse("(1").unwrap_err(), FormulaParseError::UnexpectedEOF);
    assert_eq!(parse("1 x").unwrap_err(), FormulaParseError::UnexpectedChar('x'));
}

#[test]
fn arena_formulas_are_written_in_infix() {
    for text in AXIOMS {
        assert_eq!(parse(text).unwrap().to_string(), text);
    }
    assert_ne!(parse("1 -> 2").unwrap(), parse("2 -> 1").unwrap());
}

#[test]
fn normalize() {
    let test_cases = [
        "3 -> 4 -> -3 -> 5 -> --4",
        "1 -> 2 -> -1 -> 3 -> --2",
        "5 -> 1 -> -5 -> 3 -> --1",
    ]
    .map(|x| Normal::from(parse(x).unwrap()));
    let expected = Normal::from(parse("1 -> 2 -> -1 -> 3 -> --2").unwrap());
    for case in test_cases.iter() {
        assert_eq!(*case, expected);
    }
    // the first and the third variable of this one differ: no renaming
    // makes it the formula above
    let other = Normal::from(parse("2 -> 1 -> -3 -> 5 -> --1").unwrap());
    assert_ne!(other, expected);
    assert_eq!(other, Normal::from(parse("1 -> 2 -> -3 -> 4 -> --2").unwrap()));
}

#[test]
fn normal_names_start_at_zero() {
    let n = Normal::from(parse("7 -> -(3 -> 7)").unwrap());
    assert_eq!(n.to_string(), "0 -> -(1 -> 0)");
    assert_eq!(n.len(), 6);
}

#[test]
fn mp() {
    let p = Normal::from_formula(&"1 -> --1".parse().unwrap());
    let q = Normal::from_formula(&"1 -> 2 -> 1".parse().unwrap());
    let f = modus_ponens(&p, &q).unwrap();
    assert_eq!(f, Normal::from_formula(&"2 -> 4 -> --4".parse().unwrap()));
}

#[test]
fn eq() {
    let p = Normal::from_formula(&"1 -> 2 -> 1".parse().unwrap());
    let q = Normal::from_formula(&"1 -> 2 -> 3 -> 2".parse().unwrap());
    assert_eq!(
        modus_ponens(&p, &q).unwrap(),
        Normal::from_formula(&"1 -> 2 -> 1".parse().unwrap())
    )
}

#[test]
fn mp_of_no_implication_is_nothing() {
    let p = Normal::from_formula(&"1".parse().unwrap());
    let q = Normal::from_formula(&"-1".parse().unwrap());
    assert_eq!(modus_ponens(&p, &q), None);
}

#[test]
fn mp_fails_where_the_variable_stands_in_the_term() {
    // the premise 1 -> 2 against the antecedent -(..): constructors differ
    let p = Normal::from_formula(&"1 -> 2".parse().unwrap());
    let q = Normal::from_formula(&"-1 -> 2".parse().unwrap());
    assert_eq!(modus_ponens(&p, &q), None);
}

#[test]
fn a_tree_becomes_an_arena_formula() {
    let tree = theorem_explorer::parse::parse("-(1 -> 2) -> 1").unwrap();
    let formula = Formula::from_tree(&tree);
    assert_eq!(formula, parse("-(1 -> 2) -> 1").unwrap());
    assert_eq!(formula.to_string(), tree.to_string());
    assert_eq!(formula.toplevel_idx(), Idx(0));
}

#[test]
fn writing_and_reading_an_arena() {
    let first = Normal::from(parse("4 -> -4").unwrap());
    let second = Normal::from(parse("-9").unwrap());
    let mut arena = Arena::new();
    first.write_into(&mut arena);
    second.write_into(&mut arena);
    assert_eq!(arena.len(), 6);
    assert_eq!(*arena.index(Idx(0)), Entry::Implication(Idx(1), Idx(2)));
    assert_eq!(*arena.index(Idx(1)), Entry::Var(0));
    assert_eq!(*arena.index(Idx(2)), Entry::Not(Idx(3)));
    assert_eq!(*arena.index(Idx(3)), Entry::Var(0));
    assert_eq!(*arena.index(Idx(4)), Entry::Not(Idx(5)));
    assert_eq!(*arena.index(Idx(5)), Entry::Var(0));
    assert_eq!(Normal::from_arena(&arena, Idx(0)), first);
    assert_eq!(Normal::from_arena(&arena, Idx(2)), second);

    // the variables move above those of the formula given
    make_disjoint(&mut arena, &Normal::from(parse("1 -> 2 -> 3").unwrap()));
    assert_eq!(*arena.index(Idx(1)), Entry::Var(3));
    assert_eq!(*arena.index(Idx(5)), Entry::Var(3));
    assert_eq!(*arena.index(Idx(0)), Entry::Implication(Idx(1), Idx(2)));
}

#[test]
fn unifying_in_an_arena() {
    // 0 -> -1 at 0, with variables 2 and 3 after the move; -0 -> 1 at 4
    let mut arena = Arena::new();
    Normal::from(parse("1 -> -2").unwrap()).write_into(&mut arena);
    make_disjoint(&mut arena, &Normal::from(parse("-1 -> 2").unwrap()));
    Normal::from(parse("-1 -> 2").unwrap()).write_into(&mut arena);
    let bindings = unify(&mut arena, Idx(0), Idx(4)).unwrap();
    let bound: Vec<usize> = bindings.iter().map(|b| b.0).collect();
    assert_eq!(bound.len(), 2);
    assert_eq!(Normal::from_arena(&arena, Idx(0)), Normal::from_arena(&arena, Idx(4)));
    assert_eq!(
        Normal::from_arena(&arena, Idx(0)),
        Normal::from(parse("-1 -> -2").unwrap())
    );
    for k in 0..arena.len() {
        if let Entry::Var(x) = arena.index(Idx(k)) {
            assert!(!bound.contains(x));
        }
    }

    // 0 -> 0 against 1 -> -1
    let mut arena = Arena::new();
    Normal::from(parse("1 -> 1").unwrap()).write_into(&mut arena);
    make_disjoint(&mut arena, &Normal::from(parse("1 -> -1").unwrap()));
    Normal::from(parse("1 -> -1").unwrap()).write_into(&mut arena);
    assert!(unify(&mut arena, Idx(0), Idx(3)).is_none());
}

#[test]
fn the_slots_of_a_written_formula() {
    // (0 -> -1) -> 2 after one slot that is there already
    let mut arena = Arena::new();
    Normal::from(parse("7").unwrap()).write_into(&mut arena);
    Normal::from(parse("(1 -> -2) -> 3").unwrap()).write_into(&mut arena);
    let slots: Vec<Entry> = (0..arena.len()).map(|k| *arena.index(Idx(k))).collect();
    assert_eq!(
        slots,
        vec![
            Entry::Var(0),
            Entry::Implication(Idx(2), Idx(6)),
            Entry::Implication(Idx(3), Idx(4)),
            Entry::Var(0),
            Entry::Not(Idx(5)),
            Entry::Var(1),
            Entry::Var(2),
        ]
    );
}
