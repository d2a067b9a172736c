use charbuild::creation::{select_option, Character, Creation, EvalError};
use charbuild::feature_db::MemDB;
use charbuild::material::{Feature, Library, Meta, Query, Trait, Value};
use charbuild::roll::{DiceSource, RollExpr};

fn s(x: &str) -> String {
    x.to_string()
}

fn feature(id: &str, tags: &[&str], traits: Vec<Trait>) -> Feature {
    Feature { id: s(id), tags: tags.iter().map(|t| s(t)).collect(), traits }
}

fn data(name: &str, v: i64) -> Trait {
    Trait::Data { name: s(name), value: Value::Int(v) }
}

fn add(name: &str, v: i64) -> Trait {
    Trait::Add { name: s(name), value: Value::Int(v) }
}

fn choice(id: &str, tag: &str, default: Option<&str>) -> Trait {
    Trait::Choice { id: s(id), query: Query::Meta(Meta { tag: s(tag) }), default: default.map(s) }
}

fn reference(id: &str) -> Trait {
    Trait::Ref { id: s(id) }
}

fn roll(name: &str, expr: &str) -> Trait {
    Trait::Roll { name: s(name), expr: RollExpr::parse(expr).unwrap() }
}

fn int_of(c: &Character, name: &str) -> i64 {
    match c.values.get(&s(name)) {
        Some(Value::Int(n)) => *n,
        other => panic!("{} holds {:?}", name, other),
    }
}

fn fixture() -> MemDB {
    MemDB::from(Library {
        features: vec![
            feature(
                "pathfinder",
                &["system"],
                vec![reference("attrs.default"), choice("ancestry", "ancestry", None)],
            ),
            feature(
                "attrs.default",
                &[],
                vec![
                    data("attr.str", 10),
                    data("attr.dex", 10),
                    data("attr.con", 10),
                    data("attr.int", 10),
                    data("attr.wis", 10),
                    data("attr.cha", 10),
                ],
            ),
            feature(
                "ancestry.dwarf",
                &["ancestry"],
                vec![add("attr.con", 2), add("attr.wis", 2), add("attr.cha", -2), choice("free-attr", "boost", None)],
            ),
            feature(
                "ancestry.elf",
                &["ancestry"],
                vec![add("attr.dex", 2), add("attr.int", 2), add("attr.con", -2), choice("free-attr", "boost", None)],
            ),
            feature("boost.str", &["boost"], vec![add("attr.str", 2)]),
            feature("boost.dex", &["boost"], vec![add("attr.dex", 2)]),
        ],
    })
}

#[test]
fn parse() {
    let db = fixture();
    let mut creation = Creation::new(&db);
    creation.adopt_feature("pathfinder");
    creation.make_choice("ancestry", "ancestry.dwarf");
    creation.make_choice("free-attr", "boost.str");
    creation.make_choice("free-attr", "boost.str");

    let character = creation.eval(&mut DiceSource::random()).unwrap();
    assert!(character.features.contains_key(&s("attrs.default")));
    assert_eq!(int_of(&character, "attr.con"), 12);
    assert_eq!(int_of(&character, "attr.str"), 12);
    assert_eq!(int_of(&character, "attr.cha"), 8);
}

#[test]
fn choices_record_offered_options() {
    let db = fixture();
    let mut creation = Creation::new(&db);
    creation.adopt_feature("pathfinder");
    creation.make_choice("ancestry", "ancestry.elf");
    let c = creation.eval(&mut DiceSource::random()).unwrap();
    assert_eq!(c.choices.get(&s("ancestry")).unwrap(), &vec![s("ancestry.dwarf"), s("ancestry.elf")]);
    assert_eq!(c.choices.get(&s("free-attr")).unwrap(), &vec![s("boost.str"), s("boost.dex")]);
    assert_eq!(int_of(&c, "attr.con"), 8);
    assert!(!c.features.contains_key(&s("boost.str")));
}

#[test]
fn last_write_wins() {
    let db = MemDB::from(Library { features: vec![feature("f", &[], vec![data("x", 1), data("x", 2)])] });
    let mut creation = Creation::new(&db);
    creation.adopt_feature("f");
    let c = creation.eval(&mut DiceSource::random()).unwrap();
    assert_eq!(int_of(&c, "x"), 2);
}

#[test]
fn add_requires_base_value() {
    let db = MemDB::from(Library { features: vec![feature("f", &[], vec![add("x", 1), data("x", 5)])] });
    let mut creation = Creation::new(&db);
    creation.adopt_feature("f");
    match creation.eval(&mut DiceSource::random()) {
        Err(EvalError::MissingBaseValue(n)) => assert_eq!(n, "x"),
        other => panic!("unexpected {:?}", other.err()),
    }
}

#[test]
fn add_refuses_text_and_overflow() {
    let mut c = Character::new();
    c.set_value(&s("t"), &Value::Text(s("ten")));
    assert!(matches!(c.add_value(&s("t"), &Value::Int(1)), Err(EvalError::TypeMismatch(_))));
    c.set_value(&s("n"), &Value::Int(i64::MAX));
    assert!(matches!(c.add_value(&s("n"), &Value::Int(1)), Err(EvalError::Overflow(_))));
    assert!(matches!(c.add_value(&s("n"), &Value::Bool(true)), Err(EvalError::TypeMismatch(_))));
    assert!(c.add_value(&s("n"), &Value::Int(-7)).is_ok());
    assert!(matches!(c.values.get(&s("n")), Some(Value::Int(v)) if *v == i64::MAX - 7));
}

#[test]
fn default_choice_and_override() {
    let db = MemDB::from(Library {
        features: vec![
            feature("root", &[], vec![choice("pick", "opt", Some("o1"))]),
            feature("o1", &["opt"], vec![data("v", 1)]),
            feature("o2", &["opt"], vec![data("v", 2)]),
        ],
    });
    let mut plain = Creation::new(&db);
    plain.adopt_feature("root");
    assert_eq!(int_of(&plain.eval(&mut DiceSource::random()).unwrap(), "v"), 1);

    let mut decided = Creation::new(&db);
    decided.adopt_feature("root");
    decided.make_choice("pick", "o2");
    assert_eq!(int_of(&decided.eval(&mut DiceSource::random()).unwrap(), "v"), 2);

    let mut stray = Creation::new(&db);
    stray.adopt_feature("root");
    stray.make_choice("pick", "nothing");
    assert_eq!(int_of(&stray.eval(&mut DiceSource::random()).unwrap(), "v"), 1);
}

#[test]
fn select_option_precedence() {
    let a = feature("a", &[], vec![]);
    let b = feature("b", &[], vec![]);
    let opts = vec![&a, &b];
    assert_eq!(select_option(&opts, Some(&s("b")), Some(&s("a"))).unwrap().id, "b");
    assert_eq!(select_option(&opts, None, Some(&s("a"))).unwrap().id, "a");
    assert_eq!(select_option(&opts, Some(&s("z")), Some(&s("a"))).unwrap().id, "a");
    assert!(select_option(&opts, Some(&s("z")), None).is_none());
    assert!(select_option(&opts, None, Some(&s("z"))).is_none());
}

#[test]
fn rolls_are_memoized() {
    let db = MemDB::from(Library {
        features: vec![
            feature("root", &[], vec![roll("hp", "3d6"), data("hp", 0), reference("again")]),
            feature("again", &[], vec![roll("hp", "3d6")]),
        ],
    });
    let mut creation = Creation::new(&db);
    creation.adopt_feature("root");
    let c = creation.eval(&mut DiceSource::fixed(vec![1, 2, 3, 6, 6, 6])).unwrap();
    assert_eq!(int_of(&c, "hp"), 6);
    assert_eq!(c.rolls.get(&s("hp")).unwrap().dice(), &vec![1, 2, 3]);
}

#[test]
fn fixed_dice_reproduce_evaluation() {
    let db = MemDB::from(Library { features: vec![feature("root", &[], vec![roll("str", "4d6kh3")])] });
    let mut creation = Creation::new(&db);
    creation.adopt_feature("root");
    let a = creation.eval(&mut DiceSource::fixed(vec![5, 1, 4, 2])).unwrap();
    let b = creation.eval(&mut DiceSource::fixed(vec![5, 1, 4, 2])).unwrap();
    assert_eq!(int_of(&a, "str"), 7);
    assert_eq!(int_of(&a, "str"), int_of(&b, "str"));
}

#[test]
fn reference_cycle_is_detected() {
    let db = MemDB::from(Library {
        features: vec![
            feature("A", &[], vec![reference("B")]),
            feature("B", &[], vec![reference("A")]),
        ],
    });
    let mut creation = Creation::new(&db);
    creation.adopt_feature("A");
    match creation.eval(&mut DiceSource::random()) {
        Err(EvalError::CycleDetected(path)) => assert_eq!(path, vec![s("A"), s("B"), s("A")]),
        other => panic!("unexpected {:?}", other.err()),
    }
}

#[test]
fn shared_reference_is_no_cycle() {
    let db = MemDB::from(Library {
        features: vec![
            feature("root", &[], vec![reference("leaf"), reference("leaf")]),
            feature("leaf", &[], vec![data("n", 1)]),
        ],
    });
    let mut creation = Creation::new(&db);
    creation.adopt_feature("root");
    assert!(creation.eval(&mut DiceSource::random()).is_ok());
}

#[test]
fn unknown_features_fail() {
    let db = MemDB::from(Library { features: vec![feature("r", &[], vec![reference("gone")])] });
    let mut missing_root = Creation::new(&db);
    missing_root.adopt_feature("nope");
    assert!(matches!(missing_root.eval(&mut DiceSource::random()), Err(EvalError::UnknownFeature(n)) if n == "nope"));
    let mut missing_ref = Creation::new(&db);
    missing_ref.adopt_feature("r");
    assert!(matches!(missing_ref.eval(&mut DiceSource::random()), Err(EvalError::UnknownFeature(n)) if n == "gone"));
}

#[test]
fn die_without_sides_is_refused() {
    let db = MemDB::from(Library { features: vec![feature("r", &[], vec![roll("x", "2d0")])] });
    let mut creation = Creation::new(&db);
    creation.adopt_feature("r");
    assert!(matches!(creation.eval(&mut DiceSource::random()), Err(EvalError::UnrollableRoll(n)) if n == "x"));
}

#[test]
fn apply_roll_reuses_first_roll() {
    let mut c = Character::new();
    let mut src = DiceSource::fixed(vec![2, 5, 6]);
    let first = RollExpr::parse("1d6").unwrap();
    let other = RollExpr::parse("2d6").unwrap();
    assert!(c.apply_roll(&s("r"), &first, &mut src).is_ok());
    assert_eq!(int_of(&c, "r"), 2);
    c.set_value(&s("r"), &Value::Int(40));
    assert!(c.apply_roll(&s("r"), &other, &mut src).is_ok());
    assert_eq!(int_of(&c, "r"), 2);
    assert_eq!(c.rolls.get(&s("r")).unwrap().dice(), &vec![2]);
    assert_eq!(src.next_face(6), 5);
}

#[test]
fn record_choice_replaces_earlier_record() {
    let a = feature("a", &[], vec![]);
    let b = feature("b", &[], vec![]);
    let mut c = Character::new();
    c.record_choice(&s("pick"), &vec![&a, &b]);
    assert_eq!(c.choices.get(&s("pick")).unwrap(), &vec![s("a"), s("b")]);
    c.record_choice(&s("pick"), &vec![&b]);
    assert_eq!(c.choices.get(&s("pick")).unwrap(), &vec![s("b")]);
    assert!(!c.choices.contains_key(&s("other")));
}

#[test]
fn data_accepts_any_value_kind() {
    let mut c = Character::new();
    c.set_value(&s("name"), &Value::Text(s("Dwarf")));
    c.set_value(&s("flag"), &Value::Bool(true));
    assert!(matches!(c.values.get(&s("name")), Some(Value::Text(t)) if t == "Dwarf"));
    assert!(matches!(c.values.get(&s("flag")), Some(Value::Bool(true))));
    assert!(c.values.get(&s("none")).is_none());
}
