//! Store semantics: push order, range reads, and type safety.

use tiny_redis::storage::db::{Value, DB};

fn strings(vs: &[&str]) -> Vec<String> {
    vs.iter().map(|s| String::from(*s)).collect()
}

#[test]
fn get_missing_key() {
    let db = DB::new();
    assert!(matches!(db.get("nope"), Ok(None)));
}

#[test]
fn set_then_get() {
    let mut db = DB::new();
    db.set(String::from("foo"), Value::String(String::from("bar"))).unwrap();
    assert_eq!(db.get("foo").unwrap().unwrap(), String::from("bar"));
}

#[test]
fn lpush_reverses() {
    let mut db = DB::new();
    let n = db.lpush(String::from("k"), strings(&["a", "b", "c"])).unwrap();
    assert_eq!(n, 3);
    let out = db.lrange(String::from("k"), 0, -1).unwrap();
    assert_eq!(out, strings(&["c", "b", "a"]));
}

#[test]
fn rpush_keeps_order() {
    let mut db = DB::new();
    let n = db.rpush(String::from("k"), strings(&["a", "b", "c"])).unwrap();
    assert_eq!(n, 3);
    let out = db.lrange(String::from("k"), 0, -1).unwrap();
    assert_eq!(out, strings(&["a", "b", "c"]));
}

#[test]
fn pushes_extend_existing_list() {
    let mut db = DB::new();
    db.rpush(String::from("k"), strings(&["a"])).unwrap();
    let n = db.lpush(String::from("k"), strings(&["b", "c"])).unwrap();
    assert_eq!(n, 3);
    let out = db.lrange(String::from("k"), 0, -1).unwrap();
    assert_eq!(out, strings(&["c", "b", "a"]));
}

#[test]
fn type_safety_on_string_entry() {
    let mut db = DB::new();
    db.set(String::from("k"), Value::String(String::from("x"))).unwrap();
    assert!(db.lpush(String::from("k"), strings(&["v"])).is_err());
    assert!(db.rpush(String::from("k"), strings(&["v"])).is_err());
    assert!(db.lrange(String::from("k"), 0, -1).is_err());
    assert_eq!(db.get("k").unwrap().unwrap(), String::from("x"));
}

#[test]
fn wrong_type_on_list_entry() {
    let mut db = DB::new();
    db.rpush(String::from("k"), strings(&["a"])).unwrap();
    assert!(db.get("k").is_err());
}

#[test]
fn set_overwrites_list() {
    let mut db = DB::new();
    db.rpush(String::from("k"), strings(&["a"])).unwrap();
    db.set(String::from("k"), Value::String(String::from("s"))).unwrap();
    assert_eq!(db.get("k").unwrap().unwrap(), String::from("s"));
}

#[test]
fn lrange_empty_cases() {
    let mut db = DB::new();
    db.rpush(String::from("k"), strings(&["a", "b", "c"])).unwrap();
    assert_eq!(db.lrange(String::from("k"), 5, 10).unwrap(), strings(&[]));
    assert_eq!(db.lrange(String::from("k"), 2, 1).unwrap(), strings(&[]));
    assert_eq!(db.lrange(String::from("absent"), 0, -1).unwrap(), strings(&[]));
}

#[test]
fn lrange_negative_indices() {
    let mut db = DB::new();
    db.rpush(String::from("k"), strings(&["a", "b", "c", "d"])).unwrap();
    assert_eq!(db.lrange(String::from("k"), -2, -1).unwrap(), strings(&["c", "d"]));
    assert_eq!(db.lrange(String::from("k"), 1, 2).unwrap(), strings(&["b", "c"]));
    assert_eq!(db.lrange(String::from("k"), -10, 0).unwrap(), strings(&[]));
}

#[test]
fn lrange_of_empty_list_after_absent() {
    let db = DB::new();
    assert_eq!(db.lrange(String::from("k"), 0, 0).unwrap(), strings(&[]));
}
