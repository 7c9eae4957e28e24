use theorem_explorer::formula::langs::imp_false::ImpFalse;
use theorem_explorer::formula::langs::imp_neg::{ImpNeg, Variants};
use theorem_explorer::formula::langs::ImpNeg as Arrows;
use theorem_explorer::formula::language::{
    modus_ponens, occurs, unify_many, Arena, Bare, Normal, Term,
};
use theorem_explorer::formula::polish::ParseError;

fn parse(text: &str) -> Normal<ImpNeg> {
    Normal::<ImpNeg>::from_str(text).unwrap()
}

fn test_conversion(f: &Normal<ImpNeg>) {
    let mut slots = Vec::new();
    let idx = f.write_into(&mut slots, 0);
    let arena = Arena::<ImpNeg>::new(slots).unwrap();
    let res = Normal::from_arena(&arena, idx as usize);
    assert_eq!(f, &res);
}

#[test]
fn test1() {
    for f in ImpNeg::frege() {
        test_conversion(&f);
    }
}

#[test]
fn test2() {
    test_conversion(&ImpNeg::lukasiewicz_tarski()[0]);
}

#[test]
fn mp_simple() {
    let p = parse("CaCba");
    let f = parse("CCaCbaCcCaCba");
    let r = modus_ponens(&p, &f).unwrap();
    assert_eq!(r, parse("CcCaCba"));
    assert_eq!(r.to_string(), "C0C1C21");
}

#[test]
fn mp_with_rename() {
    let p = parse("CNNaa");
    let f = parse("CaCba");
    let r = modus_ponens(&p, &f).unwrap();
    assert_eq!(r, parse("CbCNNaa"));
    assert_eq!(r, parse("CaCNNbb"));
    assert_eq!(r.to_string(), "C0CNN11");
}

#[test]
fn polish_names_are_canonical() {
    let expected = parse("CaCbCNaCcNNb");
    for case in ["CcCdCNcCeNNd", "CaCbCNaCcNNb", "CeCaCNeCcNNa"] {
        assert_eq!(parse(case), expected);
    }
}

#[test]
fn mp_of_no_implication_is_absent() {
    let p = parse("CaCba");
    assert!(modus_ponens(&p, &parse("a")).is_none());
    assert!(modus_ponens(&p, &parse("Na")).is_none());
    assert!(modus_ponens(&p, &parse("NCab")).is_none());
}

#[test]
fn mp_fails_on_the_occurs_check() {
    // a -> a against the antecedent b -> (b -> c): b would have to be b -> c
    let p = parse("Caa");
    let f = parse("CCbCbcd");
    assert!(modus_ponens(&p, &f).is_none());
    // and on constructors that differ
    assert!(modus_ponens(&parse("Na"), &parse("CCabc")).is_none());
}

#[test]
fn mp_takes_the_consequent_under_the_unifier() {
    // the antecedent is a variable: it gives way to the premise
    let r = modus_ponens(&parse("CaCba"), &parse("CaNa")).unwrap();
    assert_eq!(r, parse("NCaCba"));
    // the premise is a variable: the consequent is unchanged
    let r = modus_ponens(&parse("a"), &parse("CNNaa")).unwrap();
    assert_eq!(r, parse("a"));
    // a variable that occurs twice is replaced in both places
    let r = modus_ponens(&parse("NNa"), &parse("CaCaa")).unwrap();
    assert_eq!(r.to_string(), "CNN0NN0");
}

#[test]
fn mp_does_not_confuse_the_variables_of_the_two() {
    // both use the names a and b, for different things
    let p = parse("CaNb");
    let f = parse("CCbaCab");
    let r = modus_ponens(&p, &f).unwrap();
    // b := a', a := Nb' in (a -> b): Nb' -> a'
    assert_eq!(r, parse("CNba"));
}

#[test]
fn polish_errors_give_what_is_owed() {
    let err = |text: &str| Normal::<ImpNeg>::from_str(text).unwrap_err();
    assert_eq!(err(""), ParseError::WrongArguments(1));
    assert_eq!(err("C"), ParseError::WrongArguments(2));
    assert_eq!(err("Ca"), ParseError::WrongArguments(1));
    assert_eq!(err("CCab"), ParseError::WrongArguments(1));
    assert_eq!(err("ab"), ParseError::WrongArguments(-1));
    assert_eq!(err("Nabc"), ParseError::WrongArguments(-2));
    // a complete formula followed by more that makes up for itself
    assert_eq!(err("aCb"), ParseError::WrongArguments(0));
}

#[test]
fn every_other_character_is_a_variable() {
    assert_eq!(parse("C(C)("), parse("CaCba"));
    assert_eq!(parse("Cλ1"), parse("Cab"));
    assert_eq!(parse("CxCyx").to_string(), "C0C10");
}

#[test]
fn rendering_is_read_back() {
    for f in ImpNeg::frege()
        .into_iter()
        .chain(ImpNeg::lukasiewicz1())
        .chain(ImpNeg::lukasiewicz2())
        .chain(ImpNeg::lukasiewicz3())
        .chain(ImpNeg::hilbert())
        .chain(ImpNeg::russell())
        .chain(ImpNeg::lukasiewicz_tarski())
        .chain(ImpNeg::meredith())
    {
        assert_eq!(parse(&f.to_string()), f);
    }
    assert_eq!(ImpNeg::lukasiewicz_tarski()[0].to_string(), "CCC0C10CCCN2C3N4CC2C35CC43C456C76");
}

#[test]
fn canonical_is_canonical() {
    for f in ImpNeg::frege() {
        let again = Normal::<ImpNeg>::new(f.terms().clone()).unwrap();
        assert_eq!(again, f);
    }
}

#[test]
fn new_renames_and_refuses() {
    let c = || Term::Term(Variants::Implication([Bare, Bare]));
    let n = || Term::Term(Variants::Negation([Bare]));
    let v = |x: u16| Term::Var(x);
    let made = Normal::<ImpNeg>::new(vec![c(), v(7), c(), n(), v(3), v(7)]).unwrap();
    assert_eq!(made, parse("CaCNba"));
    assert_eq!(made.terms(), &vec![c(), v(0), c(), n(), v(1), v(0)]);
    assert_eq!(made.len(), 6);
    // the swap of two names from the place of the first on
    let made = Normal::<ImpNeg>::new(vec![c(), v(1), c(), v(0), v(1)]).unwrap();
    assert_eq!(made.terms(), &vec![c(), v(0), c(), v(1), v(0)]);
    assert!(Normal::<ImpNeg>::new(vec![]).is_none());
    assert!(Normal::<ImpNeg>::new(vec![c(), v(0)]).is_none());
    assert!(Normal::<ImpNeg>::new(vec![v(0), v(1)]).is_none());
    assert!(Normal::<ImpNeg>::new(vec![v(0), c(), v(1)]).is_none());
}

#[test]
fn writing_moves_variables_and_positions() {
    let mut slots = Vec::new();
    let first = parse("CaNb").write_into(&mut slots, 0);
    let second = parse("Na").write_into(&mut slots, 5);
    assert_eq!((first, second), (0, 4));
    assert_eq!(
        slots,
        vec![
            Term::Term(Variants::Implication([1, 2])),
            Term::Var(0),
            Term::Term(Variants::Negation([3])),
            Term::Var(1),
            Term::Term(Variants::Negation([5])),
            Term::Var(5),
        ]
    );
    let arena = Arena::<ImpNeg>::new(slots).unwrap();
    assert_eq!(arena.len(), 6);
    assert_eq!(Normal::from_arena(&arena, 2), parse("Na"));
    assert_eq!(Normal::from_arena(&arena, 4), parse("Na"));
}

#[test]
fn an_arena_has_no_cycle() {
    // a node below itself
    assert!(Arena::<ImpNeg>::new(vec![Term::Term(Variants::Negation([0]))]).is_none());
    assert!(Arena::<ImpNeg>::new(vec![
        Term::Term(Variants::Negation([1])),
        Term::Term(Variants::Negation([0])),
    ])
    .is_none());
    assert!(Arena::<ImpNeg>::new(vec![
        Term::Var(0),
        Term::Term(Variants::Implication([0, 2])),
        Term::Term(Variants::Negation([3])),
        Term::Term(Variants::Negation([1])),
    ])
    .is_none());
    // an operand outside the arena
    assert!(Arena::<ImpNeg>::new(vec![Term::Term(Variants::Negation([1]))]).is_none());
    // operands before and after the node
    assert!(Arena::<ImpNeg>::new(vec![Term::Term(Variants::Negation([1])), Term::Var(0)]).is_some());
    let arena =
        Arena::<ImpNeg>::new(vec![Term::Var(5), Term::Term(Variants::Negation([0]))]).unwrap();
    assert_eq!(Normal::from_arena(&arena, 1), parse("Na"));
    let arena = Arena::<ImpNeg>::new(vec![
        Term::Term(Variants::Negation([2])),
        Term::Var(4),
        Term::Term(Variants::Implication([1, 3])),
        Term::Var(9),
    ])
    .unwrap();
    assert_eq!(Normal::from_arena(&arena, 0), parse("NCab"));
    assert!(Arena::<ImpNeg>::new(Vec::new()).is_some());
}

#[test]
fn a_variable_is_not_unified_with_a_term_that_holds_it() {
    let slots = vec![Term::Var(0), Term::Term(Variants::Implication([0, 2])), Term::Var(1)];
    let mut arena = Arena::<ImpNeg>::new(slots.clone()).unwrap();
    assert!(!unify_many(&mut arena, vec![(0, 1)]));
    let mut arena = Arena::<ImpNeg>::new(slots.clone()).unwrap();
    assert!(!unify_many(&mut arena, vec![(1, 0)]));
    // the other variable can take the term
    let mut arena = Arena::<ImpNeg>::new(slots).unwrap();
    assert!(unify_many(&mut arena, vec![(2, 0)]));
    assert_eq!(Normal::from_arena(&arena, 1), parse("Caa"));
}

#[test]
fn unification_keeps_the_nodes() {
    let mut slots = Vec::new();
    parse("CaNb").write_into(&mut slots, 0);
    parse("CNab").write_into(&mut slots, 2);
    let mut arena = Arena::<ImpNeg>::new(slots.clone()).unwrap();
    assert!(unify_many(&mut arena, vec![(0, 4)]));
    assert_eq!(arena.len(), slots.len());
    for (at, slot) in slots.iter().enumerate() {
        if let Term::Term(_) = slot {
            assert_eq!(&arena.slot(at), slot);
        }
    }
}

#[test]
fn a_formula_is_written_after_what_the_arena_holds() {
    let mut slots = vec![Term::Var(7)];
    let start = parse("CNab").write_into(&mut slots, 3);
    assert_eq!(start, 1);
    assert_eq!(
        slots,
        vec![
            Term::Var(7),
            Term::Term(Variants::Implication([2, 4])),
            Term::Term(Variants::Negation([3])),
            Term::Var(3),
            Term::Var(4),
        ]
    );
    let mut slots = vec![Term::Var(7)];
    let written =
        Normal::<ImpNeg>::write_with_offset(parse("CCabNCba").terms(), 1, &mut slots, 1, 10);
    assert_eq!(written, 3);
    assert_eq!(
        slots,
        vec![
            Term::Var(7),
            Term::Term(Variants::Implication([2, 3])),
            Term::Var(10),
            Term::Var(11),
        ]
    );
}

#[test]
fn a_long_text_with_few_variables_is_read() {
    let mut text = "N".repeat(70_000);
    text.push('x');
    let f = Normal::<ImpNeg>::from_str(&text).unwrap();
    assert_eq!(f.len(), 70_001);
    assert_eq!(f.terms()[70_000], Term::Var(0));
    let text = "C".repeat(70_000);
    assert_eq!(Normal::<ImpNeg>::from_str(&text), Err(ParseError::WrongArguments(70_001)));
}

#[test]
fn as_many_variables_as_have_names() {
    let mut text = "C".repeat(0xFFFF);
    let mut drawn: u32 = 0x10000;
    for _ in 0..0x10000 {
        text.push(char::from_u32(drawn).unwrap());
        drawn += 1;
    }
    let f = Normal::<ImpNeg>::from_str(&text).unwrap();
    assert_eq!(f.len(), 0x1FFFF);
    assert_eq!(f.terms()[0xFFFF], Term::Var(0));
    assert_eq!(f.terms()[0x1FFFE], Term::Var(0xFFFF));
}

#[test]
fn unification_in_place() {
    // a -> Nb at 0, Nc -> d at 4, with variables 2 and 3
    let mut slots = Vec::new();
    parse("CaNb").write_into(&mut slots, 0);
    parse("CNab").write_into(&mut slots, 2);
    let mut arena = Arena::<ImpNeg>::new(slots).unwrap();
    assert!(occurs(&arena, 1, 0));
    assert!(!occurs(&arena, 2, 0));
    assert!(occurs(&arena, 2, 4));
    assert!(unify_many(&mut arena, vec![(0, 4)]));
    // both now stand for the same term
    assert_eq!(Normal::from_arena(&arena, 0), Normal::from_arena(&arena, 4));
    assert_eq!(Normal::from_arena(&arena, 0), parse("CNaNb"));

    let mut slots = Vec::new();
    parse("Caa").write_into(&mut slots, 0);
    parse("CbNb").write_into(&mut slots, 1);
    let mut arena = Arena::<ImpNeg>::new(slots).unwrap();
    assert!(!unify_many(&mut arena, vec![(0, 3)]));

    let mut slots = Vec::new();
    parse("a").write_into(&mut slots, 0);
    let mut arena = Arena::<ImpNeg>::new(slots).unwrap();
    assert!(unify_many(&mut arena, vec![(0, 0)]));
    arena.substitute(9, 0);
    assert_eq!(Normal::from_arena(&arena, 0), parse("a"));
}

#[test]
fn the_calculus_written_with_arrows() {
    let frege = Arrows::frege_axioms();
    let texts: Vec<String> = frege.iter().map(|f| f.to_string()).collect();
    assert_eq!(
        texts,
        vec![
            "->0->10",
            "->->0->12->->01->02",
            "->->0->12->1->02",
            "->->01->~1~0",
            "->~~00",
            "->0~~0",
        ]
    );
    let plain: Vec<String> = ImpNeg::frege().iter().map(|f| f.to_string()).collect();
    for (arrows, letters) in texts.iter().zip(&plain) {
        assert_eq!(&arrows.replace("->", "C").replace('~', "N"), letters);
    }
    let tarski = Arrows::lukasiewicz_tarski();
    assert_eq!(tarski.len(), 1);
    assert_eq!(
        tarski[0].to_string().replace("->", "C").replace('~', "N"),
        ImpNeg::lukasiewicz_tarski()[0].to_string()
    );
    let meredith = Arrows::meredith();
    assert_eq!(
        meredith[0].to_string().replace("->", "C").replace('~', "N"),
        ImpNeg::meredith()[0].to_string()
    );
    let r = modus_ponens(&frege[4], &frege[0]).unwrap();
    assert_eq!(r.to_string(), "->0->~~11");
}

#[test]
fn implication_and_falsum() {
    let church = ImpFalse::church();
    let texts: Vec<String> = church.iter().map(|f| f.to_string()).collect();
    assert_eq!(texts, vec!["C0C10", "CC0C12CC01C02", "CCC0FF0"]);
    assert_eq!(ImpFalse::meredith1()[0].to_string(), "CCCCC01C2F34CC40C20");
    let read = |text: &str| Normal::<ImpFalse>::from_str(text).unwrap();
    assert_eq!(read("F").len(), 1);
    assert_eq!(
        Normal::<ImpFalse>::from_str("FF").unwrap_err(),
        ParseError::WrongArguments(-1)
    );
    // falsum is a formula without variables; it unifies with a variable
    let r = modus_ponens(&read("F"), &read("CaCba")).unwrap();
    assert_eq!(r, read("CaF"));
    // and with itself, but not with an implication
    assert_eq!(modus_ponens(&read("F"), &read("CFa")).unwrap(), read("a"));
    assert!(modus_ponens(&read("Cab"), &read("CFa")).is_none());
    // N is a variable here
    assert_eq!(read("CNN"), read("Caa"));
}

#[test]
fn what_is_no_implication_gives_nothing_at_any_length() {
    let mut text = "N".repeat(40_000);
    text.push('a');
    let long = Normal::<ImpNeg>::from_str(&text).unwrap();
    assert_eq!(modus_ponens(&long, &long), None);
    assert_eq!(modus_ponens(&parse("CaCba"), &long), None);
    assert_eq!(modus_ponens(&long, &parse("a")), None);
    assert_eq!(modus_ponens(&parse("CaCba"), &parse("Na")), None);
    assert_eq!(modus_ponens(&parse("CaCba"), &parse("a")), None);
    let falsum = Normal::<ImpFalse>::from_str("F").unwrap();
    assert_eq!(modus_ponens(&falsum, &falsum), None);
}

#[test]
fn the_result_is_the_most_general_conclusion() {
    // the premise a -> (b -> a) and the implication (a -> b) -> (-b -> -a)
    let p = parse("CaCba");
    let f = parse("CCabCNbNa");
    let r = modus_ponens(&p, &f).unwrap();
    // the antecedent a -> b meets the premise where b is c -> a: the
    // consequent then is -(c -> a) -> -a
    assert_eq!(r, parse("CNCabNb"));
    // an instance of the premise that is an instance of the antecedent
    // gives an instance of the result: with a = Nx, c = x above
    let narrowed = modus_ponens(&parse("CNaCaNa"), &f).unwrap();
    assert_eq!(narrowed, parse("CNCaNaNNa"));
}
