use hexagondb::database::DB;

fn s(x: &str) -> String {
    x.to_string()
}

#[test]
fn set_then_get_returns_value() {
    let mut db = DB::new();
    db.set(s("x"), s("10"));
    assert_eq!(db.get_at(s("x"), 0), Some(s("10")));
    assert_eq!(db.get_at(s("missing"), 0), None);
}

#[test]
fn set_clears_deadline() {
    let mut db = DB::new();
    db.set(s("k"), s("v"));
    assert!(db.expire_at(s("k"), 5, 0));
    db.set(s("k"), s("w"));
    assert_eq!(db.ttl_at(s("k"), 1000), -1);
    assert_eq!(db.get_at(s("k"), 10_000), Some(s("w")));
}

#[test]
fn del_removes_key() {
    let mut db = DB::new();
    db.set(s("a"), s("1"));
    db.del(s("a"));
    assert!(!db.exists_at(s("a"), 0));
    db.del(s("a"));
    assert!(!db.exists_at(s("a"), 0));
}

#[test]
fn expiry_boundary_is_exclusive() {
    let mut db = DB::new();
    db.set(s("k"), s("v"));
    assert!(db.expire_at(s("k"), 10, 1_000));
    assert!(db.exists_at(s("k"), 1_000));
    assert!(db.exists_at(s("k"), 10_999));
    assert!(!db.exists_at(s("k"), 11_000));
    assert!(!db.exists_at(s("k"), 50_000));
}

#[test]
fn ttl_falls_before_expiry() {
    let mut db = DB::new();
    db.set(s("k"), s("v"));
    assert!(db.expire_at(s("k"), 10, 0));
    assert_eq!(db.ttl_at(s("k"), 0), 10);
    assert_eq!(db.ttl_at(s("k"), 1_000), 9);
    assert_eq!(db.ttl_at(s("k"), 2_500), 7);
    assert_eq!(db.ttl_at(s("k"), 9_999), 0);
    assert_eq!(db.ttl_at(s("k"), 10_000), -2);
    assert_eq!(db.get_at(s("k"), 0), None);
}

#[test]
fn expire_zero_expires_at_once() {
    let mut db = DB::new();
    db.set(s("k"), s("v"));
    assert!(db.expire_at(s("k"), 0, 500));
    assert!(!db.exists_at(s("k"), 500));
    assert!(!db.expire_at(s("k"), 5, 500));
}

#[test]
fn expire_on_missing_key_is_false() {
    let mut db = DB::new();
    assert!(!db.expire_at(s("nope"), 5, 0));
    assert_eq!(db.ttl_at(s("nope"), 0), -2);
}

#[test]
fn persist_clears_deadline_once() {
    let mut db = DB::new();
    db.set(s("k"), s("v"));
    assert!(!db.persist_at(s("k"), 0));
    assert!(db.expire_at(s("k"), 3, 0));
    assert!(db.persist_at(s("k"), 1_000));
    assert_eq!(db.ttl_at(s("k"), 1_000), -1);
    assert!(!db.persist_at(s("k"), 1_000));
    assert!(db.exists_at(s("k"), 100_000));
    assert!(!db.persist_at(s("absent"), 0));
}

#[test]
fn persist_on_expired_key_is_false() {
    let mut db = DB::new();
    db.set(s("k"), s("v"));
    assert!(db.expire_at(s("k"), 1, 0));
    assert!(!db.persist_at(s("k"), 1_000));
    assert!(!db.exists_at(s("k"), 0));
}

#[test]
fn incr_then_decr_from_absent_gives_zero() {
    let mut db = DB::new();
    assert_eq!(db.incr_at(s("n"), 0), Ok(1));
    assert_eq!(db.decr_at(s("n"), 0), Ok(0));
    assert_eq!(db.get_at(s("n"), 0), Some(s("0")));
}

#[test]
fn incr_on_text_fails_and_keeps_value() {
    let mut db = DB::new();
    db.set(s("t"), s("abc"));
    assert_eq!(db.incr_at(s("t"), 0), Err(s("value is not an integer or out of range")));
    assert_eq!(db.get_at(s("t"), 0), Some(s("abc")));
}

#[test]
fn incr_parses_signs_and_keeps_deadline() {
    let mut db = DB::new();
    db.set(s("n"), s("-5"));
    assert_eq!(db.incr_at(s("n"), 0), Ok(-4));
    db.set(s("p"), s("+41"));
    assert!(db.expire_at(s("p"), 10, 0));
    assert_eq!(db.incr_at(s("p"), 0), Ok(42));
    assert_eq!(db.get_at(s("p"), 0), Some(s("42")));
    assert_eq!(db.ttl_at(s("p"), 0), 10);
}

#[test]
fn incr_out_of_range_fails() {
    let mut db = DB::new();
    db.set(s("m"), s("9223372036854775807"));
    assert!(db.incr_at(s("m"), 0).is_err());
    db.set(s("l"), s("-9223372036854775808"));
    assert!(db.decr_at(s("l"), 0).is_err());
    assert_eq!(db.incr_at(s("l"), 0), Ok(-9223372036854775807));
    db.set(s("big"), s("99999999999999999999999"));
    assert!(db.incr_at(s("big"), 0).is_err());
}

#[test]
fn incr_on_expired_key_starts_from_zero() {
    let mut db = DB::new();
    db.set(s("n"), s("7"));
    assert!(db.expire_at(s("n"), 1, 0));
    assert_eq!(db.incr_at(s("n"), 2_000), Ok(1));
    assert_eq!(db.ttl_at(s("n"), 2_000), -1);
}

fn sorted(mut v: Vec<String>) -> Vec<String> {
    v.sort();
    v
}

#[test]
fn keys_pattern_selects() {
    let mut db = DB::new();
    db.set(s("a"), s("1"));
    db.set(s("ab"), s("2"));
    db.set(s("b"), s("3"));
    assert_eq!(sorted(db.keys_at(s("a*"), 0)), vec![s("a"), s("ab")]);
    assert_eq!(db.keys_at(s("a"), 0), vec![s("a")]);
    assert_eq!(sorted(db.keys_at(s("*"), 0)), vec![s("a"), s("ab"), s("b")]);
    assert_eq!(db.keys_at(s("c"), 0), Vec::<String>::new());
    assert_eq!(sorted(db.keys_at(s("a**"), 0)), vec![s("a"), s("ab")]);
    assert_eq!(db.keys_at(s("a*b"), 0), Vec::<String>::new());
}

#[test]
fn keys_skips_expired() {
    let mut db = DB::new();
    db.set(s("a"), s("1"));
    db.set(s("ab"), s("2"));
    assert!(db.expire_at(s("ab"), 1, 0));
    assert_eq!(db.keys_at(s("*"), 1_000), vec![s("a")]);
    assert_eq!(db.keys_at(s("ab"), 1_000), Vec::<String>::new());
}

#[test]
fn clock_methods_agree_on_fresh_keys() {
    let mut db = DB::new();
    db.set(s("k"), s("v"));
    assert_eq!(db.get(s("k")), Some(s("v")));
    assert!(db.key_exists(s("k")));
    assert_eq!(db.keys(s("*")), vec![s("k")]);
    assert_eq!(db.ttl(s("k")), -1);
    assert!(db.expire(s("k"), 100));
    let t = db.ttl(s("k"));
    assert!(t >= 0 && t <= 100);
    assert!(db.persist(s("k")));
    assert_eq!(db.incr(s("c")), Ok(1));
    assert_eq!(db.decr(s("c")), Ok(0));
}
