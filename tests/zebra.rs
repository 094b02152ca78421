use rust8queens::backtracking::find_first;
use rust8queens::zebra::{BuildError, Zebra, ZebraBuilder};

fn make_zebra() -> Zebra<impl Fn(&str, &str) -> bool> {
    ZebraBuilder::new()
        .set_object_count(3)
        .fact("p1", "p1a", "p2", "p2a")
        .fact("p1", "p1b", "p2", "p2b")
        .choice("p1", vec!["p1c"])
        .choice("p2", vec!["p2c"])
        .choice("p3", vec!["p3a", "p3b", "p3c"])
        .choice("p4", vec!["p4a", "p4b", "p4c"])
        .predicate(
            "p1",
            "p1a",
            "p2",
            "p2c",
            "p4",
            "p4",
            |ch1: &str, ch2: &str| ch1 == "p4a" && ch2 == "p4c",
        )
        .build()
        .unwrap()
}

#[test]
fn test_zebra_builder() {
    let zebra = make_zebra();

    assert_eq!(4, zebra.props.get_property_count());

    assert_eq!(3, zebra.props.get_object_count());

    assert_eq!("p1", zebra.props.get_property_name(0));

    assert_eq!(Some(0), zebra.props.get_property("p1"));

    assert_eq!("p1a", zebra.props.get_property_choice_name("p1", 0));

    assert_eq!(Some(0), zebra.props.get_property_choice("p1", "p1a"));
}

#[test]
fn test_state_is_determined() {
    let zebra = make_zebra();

    assert_eq!(true, zebra.is_determined(0, 0));
    assert_eq!(true, zebra.is_determined(0, 1));
    assert_eq!(true, zebra.is_determined(0, 2));
    assert_eq!(false, zebra.is_determined(1, 0));
}

#[test]
fn test_state_is_solution() {
    let mut zebra = make_zebra();
    assert_eq!(false, zebra.is_solution());

    for prop in 1..4 {
        for ch in 0..3 {
            zebra.determine_choice(prop, ch, ch);
        }
    }

    assert_eq!(true, zebra.is_solution());
}

#[test]
fn zebra_test_split() {
    let zebra = make_zebra();
    let zz = zebra.split();

    assert_eq!(3, zz.len());
    assert_eq!(true, zz[0].is_determined(1, 0));
    assert_eq!(true, zz[0].is_choice_enabled(1, 0, 0));

    assert_eq!(true, zz[1].is_determined(1, 0));
    assert_eq!(true, zz[1].is_choice_enabled(1, 1, 1));

    assert_eq!(true, zz[2].is_determined(1, 0));
    assert_eq!(true, zz[2].is_choice_enabled(1, 2, 2));
}

#[test]
fn test_apply_facts() {
    let mut zebra = make_zebra();
    let mut change_counter = 0;
    assert_eq!(true, zebra.apply_facts(&mut change_counter));
    assert_eq!(true, zebra.is_determined(1, 0));
    assert_eq!(true, zebra.is_choice_enabled(1, 0, 0));
    assert_eq!(true, zebra.is_determined(1, 0));
    assert_eq!(true, zebra.is_choice_enabled(1, 1, 1));
    assert_eq!(2, change_counter);
}

#[test]
fn test_apply_permutations() {
    let mut zebra = make_zebra();
    zebra.set_choice_enabled(1, 0, 1, false);

    zebra.set_choice_enabled(1, 0, 2, false);
    let mut change_counter = 0;
    assert_eq!(true, zebra.apply_permutations(&mut change_counter));
    assert_eq!(2, change_counter);
}

#[test]
fn test_apply_predicates() {
    let mut zebra = make_zebra();
    zebra.set_choice_enabled(1, 1, 0, false);

    zebra.set_choice_enabled(1, 1, 1, false);
    zebra.set_choice_enabled(3, 0, 1, false);

    zebra.set_choice_enabled(3, 0, 2, false);
    zebra.set_choice_enabled(3, 1, 0, false);

    zebra.set_choice_enabled(3, 1, 1, false);

    assert_eq!(true, zebra.apply_predicates());
}

#[test]
fn predicate_vetoes_conflicting_names() {
    let mut zebra = make_zebra();
    zebra.determine_choice(1, 2, 2);
    zebra.determine_choice(3, 0, 1);
    zebra.determine_choice(3, 2, 2);
    assert_eq!(false, zebra.apply_predicates());

    let mut accepted = make_zebra();
    accepted.determine_choice(1, 2, 2);
    accepted.determine_choice(3, 0, 0);
    accepted.determine_choice(3, 2, 2);
    assert_eq!(true, accepted.apply_predicates());
}

#[test]
fn fact_contradiction_fails() {
    let mut zebra = make_zebra();
    zebra.set_choice_enabled(1, 0, 0, false);
    let mut change_counter = 0;
    assert_eq!(false, zebra.apply_facts(&mut change_counter));
}

#[test]
fn fact_works_from_either_side() {
    let mut zebra = make_zebra();
    zebra.set_choice_enabled(0, 1, 2, true);
    assert_eq!(false, zebra.is_determined(0, 1));
    zebra.determine_choice(1, 1, 1);
    let mut change_counter = 0;
    assert_eq!(true, zebra.apply_facts(&mut change_counter));
    assert_eq!(true, zebra.is_determined(0, 1));
    assert_eq!(true, zebra.is_choice_enabled(0, 1, 1));
    assert_eq!(false, zebra.is_choice_enabled(0, 1, 2));
}

#[test]
fn set_choice_enabled_round_trip() {
    let mut zebra = make_zebra();
    assert_eq!(true, zebra.is_choice_enabled(2, 1, 2));
    zebra.set_choice_enabled(2, 1, 2, false);
    assert_eq!(false, zebra.is_choice_enabled(2, 1, 2));
    assert_eq!(true, zebra.is_choice_enabled(2, 1, 1));
    assert_eq!(false, zebra.is_choice_enabled(0, 1, 2));
}

#[test]
fn stable_round_changes_nothing() {
    let mut zebra = make_zebra();
    loop {
        let mut change_counter = 0;
        assert!(zebra.apply_facts(&mut change_counter));
        assert!(zebra.apply_predicates());
        assert!(zebra.apply_permutations(&mut change_counter));
        if change_counter == 0 {
            break;
        }
    }
    let mut change_counter = 0;
    assert!(zebra.apply_facts(&mut change_counter));
    assert!(zebra.apply_predicates());
    assert!(zebra.apply_permutations(&mut change_counter));
    assert_eq!(0, change_counter);
}

#[test]
fn build_rejects_short_property() {
    let r = ZebraBuilder::new()
        .set_object_count(3)
        .fact("p1", "p1a", "p2", "p2a")
        .choice("p1", vec!["p1b", "p1c"])
        .choice("p2", vec!["p2b"])
        .predicate("p1", "p1a", "p2", "p2a", "p1", "p2", |_: &str, _: &str| true)
        .build();
    assert_eq!(
        Some(BuildError::ChoiceCount { property: 1, count: 2, expected: 3 }),
        r.err()
    );
}

#[test]
fn interning_is_idempotent() {
    let zebra = ZebraBuilder::new()
        .set_object_count(2)
        .fact("a", "a1", "b", "b1")
        .fact("a", "a1", "b", "b2")
        .choice("a", vec!["a2", "a1"])
        .predicate("b", "b1", "a", "a2", "a", "b", |_: &str, _: &str| true)
        .build()
        .unwrap();
    assert_eq!(2, zebra.props.get_property_count());
    assert_eq!(Some(1), zebra.props.get_property("b"));
    assert_eq!(None, zebra.props.get_property("c"));
    assert_eq!(Some(1), zebra.props.get_property_choice("a", "a2"));
    assert_eq!(Some(1), zebra.props.get_property_choice("b", "b2"));
    assert_eq!(None, zebra.props.get_property_choice("c", "b2"));
    assert_eq!("b2", zebra.props.get_property_choice_name_by_nr(1, 1));
}

fn assignment(z: &Zebra<impl Fn(&str, &str) -> bool>) -> Vec<bool> {
    let mut v = vec![];
    for p in 0..4 {
        for o in 0..3 {
            for c in 0..3 {
                v.push(z.is_choice_enabled(p, o, c));
            }
        }
    }
    v
}

#[test]
fn search_finds_same_solution_each_time() {
    let first = find_first(make_zebra()).unwrap();
    let second = find_first(make_zebra()).unwrap();
    assert!(first.is_solution());
    assert_eq!(assignment(&first), assignment(&second));
    assert!(first.is_choice_enabled(1, 0, 0));
    assert!(first.is_choice_enabled(1, 1, 1));
    assert!(first.is_choice_enabled(1, 2, 2));
    assert!(first.is_choice_enabled(3, 0, 0));
    assert!(first.is_choice_enabled(3, 2, 2));
}

#[test]
fn search_reports_no_solution() {
    let zebra = ZebraBuilder::new()
        .set_object_count(2)
        .fact("p", "x", "q", "u")
        .fact("p", "y", "q", "u")
        .choice("q", vec!["v"])
        .predicate("p", "x", "p", "y", "p", "p", |_: &str, _: &str| true)
        .build()
        .unwrap();
    assert!(find_first(zebra).is_none());
}

#[test]
fn permutations_leave_each_choice_to_one_object() {
    let mut zebra = make_zebra();
    zebra.determine_choice(2, 0, 1);
    zebra.set_choice_enabled(2, 1, 0, false);
    loop {
        let mut change_counter = 0;
        assert!(zebra.apply_permutations(&mut change_counter));
        if change_counter == 0 {
            break;
        }
    }
    for p in 0..4 {
        for c in 0..3 {
            let mut holders = 0;
            for o in 0..3 {
                if zebra.is_determined(p, o) && zebra.is_choice_enabled(p, o, c) {
                    holders += 1;
                }
            }
            assert!(holders <= 1);
        }
    }
    assert!(zebra.is_determined(2, 1));
    assert!(zebra.is_choice_enabled(2, 1, 2));
    assert!(zebra.is_choice_enabled(2, 2, 0));
    assert!(!zebra.is_choice_enabled(2, 2, 1));
}

#[test]
fn children_do_not_share_bits() {
    let zebra = make_zebra();
    let mut copy = zebra.clone();
    copy.set_choice_enabled(3, 2, 1, false);
    assert_eq!(false, copy.is_choice_enabled(3, 2, 1));
    assert_eq!(true, zebra.is_choice_enabled(3, 2, 1));
    let zz = zebra.split();
    assert_eq!(false, zz[0].is_choice_enabled(1, 0, 1));
    assert_eq!(true, zebra.is_choice_enabled(1, 0, 1));
}

#[test]
fn empty_catalog_is_already_solved() {
    let zebra = ZebraBuilder::<fn(&str, &str) -> bool>::new()
        .set_object_count(4)
        .build()
        .unwrap();
    assert!(zebra.is_solution());
    assert!(zebra.split().is_empty());
}
