use std::cell::RefCell;

use theorem_explorer::context::{Context, Meta, Source};
use theorem_explorer::formula::langs::imp_neg::ImpNeg;
use theorem_explorer::formula::language::{modus_ponens, Normal};

fn parse(text: &str) -> Normal<ImpNeg> {
    Normal::<ImpNeg>::from_str(text).unwrap()
}

#[test]
fn axioms_get_the_first_indices() {
    let context = Context::new(&ImpNeg::frege());
    assert_eq!(context.len(), 6);
    for (k, (f, meta)) in context.entries().iter().enumerate() {
        assert_eq!(meta, &Meta { index: k, sources: vec![Source::Axiom] });
        assert_eq!(f, &ImpNeg::frege()[k]);
    }
    assert_eq!(context.find(&parse("CaCba")), Some(0));
    assert_eq!(context.get(&parse("CxCyx")).unwrap().index, 0);
    assert_eq!(context.find(&parse("CaCbb")), None);
}

#[test]
fn an_axiom_given_twice_is_held_once() {
    let twice = vec![parse("CaCba"), parse("CNNaa"), parse("CpCqp")];
    let context = Context::new(&twice);
    assert_eq!(context.len(), 2);
    assert_eq!(context.entries()[1].1.index, 1);
}

#[test]
fn frege_one_step() {
    let mut context = Context::new(&ImpNeg::frege());
    context.step(&|_, _, _| ());
    let entries = context.entries();
    assert_eq!(entries.len(), 34);
    // what was held is kept, with its index and its sources
    for k in 0..6 {
        assert_eq!(entries[k].1, Meta { index: k, sources: vec![Source::Axiom] });
    }
    // every new entry is what modus ponens gives of the pairs that its sources name
    for (f, meta) in &entries[6..] {
        assert!(meta.index >= 6);
        assert!(!meta.sources.is_empty());
        for source in &meta.sources {
            match source {
                Source::MP(a, b) => {
                    assert!(*a < 6 && *b < 6);
                    let r = modus_ponens(&entries[*a].0, &entries[*b].0).unwrap();
                    assert_eq!(&r, f);
                }
                Source::Axiom => panic!("a derived entry has no axiom source"),
            }
        }
    }
    // every pair is closed
    for (p, _) in &entries[..6] {
        for (f, _) in &entries[..6] {
            if let Some(r) = modus_ponens(p, f) {
                assert!(context.find(&r).is_some());
            }
        }
    }
}

#[test]
fn two_runs_hold_the_same() {
    let mut first = Context::new(&ImpNeg::lukasiewicz1());
    let mut second = Context::new(&ImpNeg::lukasiewicz1());
    for _ in 0..2 {
        first.step(&|_, _, _| ());
        second.step(&|_, _, _| ());
    }
    assert_eq!(first.len(), second.len());
    for (f, meta) in first.entries() {
        assert_eq!(second.get(f), Some(meta));
    }
}

#[test]
fn a_step_keeps_what_was_held() {
    let mut context = Context::new(&ImpNeg::lukasiewicz1());
    context.step(&|_, _, _| ());
    let before: Vec<(Normal<ImpNeg>, Meta)> = context.entries().clone();
    context.step(&|_, _, _| ());
    assert!(context.len() > before.len());
    for (k, (f, meta)) in before.iter().enumerate() {
        assert_eq!(&context.entries()[k].0, f);
        assert_eq!(context.entries()[k].1.index, meta.index);
        for source in &meta.sources {
            assert!(context.entries()[k].1.sources.contains(source));
        }
    }
}

#[test]
fn search_finds_a_target_and_its_parents() {
    // the target is the first axiom: it is found before any step
    let target = parse("CCpqCCqrCpr");
    let context = Context::new(&ImpNeg::lukasiewicz1());
    assert_eq!(context.find(&target), Some(0));

    // a derived target: p -> p, which the three axioms give in two steps
    let target = parse("Cpp");
    let seen: RefCell<Vec<(Normal<ImpNeg>, Normal<ImpNeg>)>> = RefCell::new(Vec::new());
    let mut context = Context::new(&ImpNeg::lukasiewicz1());
    let mut steps = 0;
    while context.find(&target).is_none() && steps < 3 {
        context.step(&|p: &Normal<ImpNeg>, f: &Normal<ImpNeg>, r: &Normal<ImpNeg>| {
            if *r == target {
                seen.borrow_mut().push((p.clone(), f.clone()));
            }
        });
        steps += 1;
    }
    let place = context.find(&target).expect("the target is derived");
    assert!(!seen.borrow().is_empty());
    let index = context.entries()[place].1.index;
    for (p, f) in seen.borrow().iter() {
        let pi = context.get(p).unwrap().index;
        let fi = context.get(f).unwrap().index;
        assert!(pi < index && fi < index);
        assert!(context.entries()[place].1.sources.contains(&Source::MP(pi, fi)));
    }
}

#[test]
fn derivation_lists_the_ancestors_by_index() {
    let target = parse("Cpp");
    let mut context = Context::new(&ImpNeg::lukasiewicz1());
    while context.find(&target).is_none() {
        context.step(&|_, _, _| ());
    }
    let place = context.find(&target).unwrap();
    let found = context.derivation(place);
    assert!(found.contains(&place));
    let indices: Vec<usize> = found.iter().map(|k| context.entries()[*k].1.index).collect();
    let mut sorted = indices.clone();
    sorted.sort();
    sorted.dedup();
    assert_eq!(indices, sorted);
    for k in &found {
        for source in &context.entries()[*k].1.sources {
            if let Source::MP(a, b) = source {
                assert!(indices.contains(a) && indices.contains(b));
            }
        }
    }
    // an axiom has itself for its derivation
    assert_eq!(context.derivation(0), vec![0]);
}

#[test]
fn lines_and_sources_are_written() {
    assert_eq!(Source::Axiom.to_string(), "AXIOM");
    assert_eq!(Source::MP(3, 12).to_string(), "MP 3, 12");
    let mut context = Context::new(&ImpNeg::frege());
    assert_eq!(context.describe(4), "4: CNN00 (AXIOM)");
    context.step(&|_, _, _| ());
    assert_eq!(context.describe(6), format!("6: {} (MP 0, 0)", context.entries()[6].0.to_string()));
    context.step(&|_, _, _| ());
    let k = (6..context.len())
        .find(|k| context.entries()[*k].1.sources.len() > 1)
        .expect("some formula is derived twice");
    let meta = &context.entries()[k].1;
    let sources: Vec<String> = meta.sources.iter().map(|s| s.to_string()).collect();
    assert_eq!(
        context.describe(k),
        format!("{}: {} ({})", meta.index, context.entries()[k].0.to_string(), sources.join("; "))
    );
}

#[test]
fn histogram_counts_the_lengths() {
    let context = Context::new(&ImpNeg::frege());
    // lengths 5, 13, 11, 9, 5, 5
    assert_eq!(context.histogram(), vec![(5, 3), (9, 1), (11, 1), (13, 1)]);
}

#[test]
fn merge_takes_the_first_index_and_every_source() {
    let mut context = Context::new(&ImpNeg::lukasiewicz1());
    let floor = context.len();
    let candidates = context.new_entries_iter(&|_, _, _| ());
    let count = candidates.len();
    assert!(count > 0);
    for (k, (_, source, index)) in candidates.iter().enumerate() {
        assert_eq!(*index, floor + k);
        assert!(matches!(source, Source::MP(a, b) if *a < floor && *b < floor));
    }
    let offered = candidates.clone();
    context.merge(candidates, floor);
    for (f, source, index) in &offered {
        let meta = context.get(f).unwrap();
        assert!(meta.sources.contains(source));
        assert!(meta.index <= *index);
    }
}

#[test]
fn indices_can_be_set_aside() {
    let mut context = Context::new(&ImpNeg::lukasiewicz1());
    assert_eq!(context.upcoming(), 3);
    assert_eq!(context.reserve(4), 3);
    assert_eq!(context.upcoming(), 7);
    assert_eq!(context.len(), 3);
    // the next generation draws its indices after those
    context.step(&|_, _, _| ());
    assert!(context.entries()[3..].iter().all(|(_, meta)| meta.index >= 7));
    assert_eq!(context.entries()[3].1.index, 7);
}

#[test]
fn an_entry_keeps_the_index_of_the_first_pair() {
    let mut context = Context::new(&ImpNeg::frege());
    context.step(&|_, _, _| ());
    context.step(&|_, _, _| ());
    let entries = context.entries();
    let mut last = None;
    for (_, meta) in entries {
        // entries stand in the order in which their indices were drawn
        assert!(last < Some(meta.index));
        last = Some(meta.index);
        let mut sources = meta.sources.clone();
        sources.dedup();
        sources.sort_by_key(|s| match s {
            Source::Axiom => (0, 0),
            Source::MP(a, b) => (*a, *b),
        });
        sources.dedup();
        assert_eq!(sources.len(), meta.sources.len());
    }
}

#[test]
fn a_pair_offers_what_is_new() {
    let mut context = Context::new(&ImpNeg::frege());
    // the first axiom as premise of itself
    let (r, source) = context.candidate(0, 0).unwrap();
    assert_eq!(r, parse("CaCbCcb"));
    assert_eq!(source, Source::MP(0, 0));
    assert_eq!(Some(r), modus_ponens(&ImpNeg::frege()[0], &ImpNeg::frege()[0]));
    // an implication is no double negation
    assert_eq!(context.candidate(0, 4), None);
    assert_eq!(modus_ponens(&ImpNeg::frege()[0], &ImpNeg::frege()[4]), None);
    // every pair offers what modus ponens gives, unless it is held
    for i in 0..context.len() {
        for j in 0..context.len() {
            let entries = context.entries();
            let made = modus_ponens(&entries[i].0, &entries[j].0);
            let wanted = match made {
                Some(r) if context.find(&r).is_none() => {
                    Some((r, Source::MP(entries[i].1.index, entries[j].1.index)))
                },
                _ => None,
            };
            assert_eq!(context.candidate(i, j), wanted);
        }
    }
    // what was offered is held after a step
    context.step(&|_, _, _| {});
    assert_eq!(context.candidate(0, 0), None);
}

#[test]
fn the_callback_gets_premise_implication_and_result() {
    let mut context = Context::new(&ImpNeg::frege());
    let before: Vec<Normal<ImpNeg>> = context.entries().iter().map(|e| e.0.clone()).collect();
    let calls: RefCell<Vec<(Normal<ImpNeg>, Normal<ImpNeg>, Normal<ImpNeg>)>> =
        RefCell::new(Vec::new());
    context.step(&|p, f, r| calls.borrow_mut().push((p.clone(), f.clone(), r.clone())));
    let calls = calls.into_inner();
    assert!(!calls.is_empty());
    for (p, f, r) in &calls {
        assert!(before.contains(p));
        assert!(before.contains(f));
        assert!(!before.contains(r));
        assert_eq!(modus_ponens(p, f).as_ref(), Some(r));
        assert!(context.find(r).is_some());
    }
    assert_eq!(calls[0].0, before[0]);
    assert_eq!(calls[0].1, before[0]);
    assert_eq!(calls[0].2, parse("CaCbCcb"));
}
