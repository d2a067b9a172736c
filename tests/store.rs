use charbuild::feature_db::{has_unique_ids, MemDB};
use charbuild::material::{Feature, Library, Meta, Query};

fn feature(id: &str, tags: &[&str]) -> Feature {
    Feature { id: id.to_string(), tags: tags.iter().map(|t| t.to_string()).collect(), traits: vec![] }
}

fn meta(t: &str) -> Meta {
    Meta { tag: t.to_string() }
}

fn store() -> MemDB {
    MemDB::from(Library {
        features: vec![
            feature("a", &["x", "y"]),
            feature("b", &["y"]),
            feature("c", &["z"]),
        ],
    })
}

fn ids(found: Vec<&Feature>) -> Vec<String> {
    found.iter().map(|f| f.id.clone()).collect()
}

#[test]
fn meta_selects_tagged_features() {
    let db = store();
    assert_eq!(ids(db.query(&Query::Meta(meta("y")))), vec!["a", "b"]);
    assert_eq!(ids(db.query(&Query::Meta(meta("w")))), Vec::<String>::new());
}

#[test]
fn empty_and_selects_all_empty_or_none() {
    let db = store();
    assert_eq!(ids(db.query(&Query::And(vec![]))), vec!["a", "b", "c"]);
    assert_eq!(ids(db.query(&Query::Or(vec![]))), Vec::<String>::new());
}

#[test]
fn and_intersects_or_unites() {
    let db = store();
    let q = Query::And(vec![Query::Meta(meta("x")), Query::Meta(meta("y"))]);
    assert_eq!(ids(db.query(&q)), vec!["a"]);
    let o = Query::Or(vec![meta("x"), meta("z")]);
    assert_eq!(ids(db.query(&o)), vec!["a", "c"]);
    let nested = Query::And(vec![Query::Or(vec![meta("y"), meta("z")]), Query::Meta(meta("z"))]);
    assert_eq!(ids(db.query(&nested)), vec!["c"]);
}

#[test]
fn lookup_by_identifier() {
    let db = store();
    assert_eq!(db.lookup_feature(&"b".to_string()).unwrap().id, "b");
    assert!(db.lookup_feature(&"q".to_string()).is_none());
    assert_eq!(db.len(), 3);
}

#[test]
fn unique_identifiers_are_checked() {
    let good = Library { features: vec![feature("a", &[]), feature("b", &[])] };
    let bad = Library { features: vec![feature("a", &[]), feature("b", &[]), feature("a", &[])] };
    assert!(has_unique_ids(&good));
    assert!(!has_unique_ids(&bad));
}
