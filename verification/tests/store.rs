use rusty_redis::db_ops::{expiry, DBMessage, Db, DbAction};

fn s(x: &str) -> String {
    x.to_string()
}

fn set(key: &str, value: &str, expire_seconds: Option<u64>) -> DBMessage {
    DBMessage::SetValue { key: s(key), value: s(value), expire_seconds }
}

fn get(key: &str) -> DBMessage {
    DBMessage::Get { key: s(key) }
}

#[test]
fn empty_store_has_nothing() {
    let db = Db::new();
    assert_eq!(db.get(&s("lang"), 0), None);
    assert!(db.snapshot(0).is_empty());
}

#[test]
fn insert_then_get() {
    let mut db = Db::new();
    db.insert(s("lang"), s("rust"), None);
    db.insert(s("name"), s("nebiyu"), None);
    assert_eq!(db.get(&s("lang"), 5), Some(s("rust")));
    assert_eq!(db.get(&s("name"), 5), Some(s("nebiyu")));
    assert_eq!(db.get(&s("other"), 5), None);
}

#[test]
fn insert_replaces_earlier_binding() {
    let mut db = Db::new();
    db.insert(s("k"), s("1"), Some(10));
    db.insert(s("k"), s("2"), None);
    assert_eq!(db.get(&s("k"), 100), Some(s("2")));
    assert_eq!(db.snapshot(100), vec![(s("k"), s("2"), None)]);
}

#[test]
fn expiry_instants() {
    assert_eq!(expiry(1_000, None), None);
    assert_eq!(expiry(1_000, Some(10)), Some(11_000));
    assert_eq!(expiry(u64::MAX - 5, Some(1)), Some(u64::MAX));
}

#[test]
fn bindings_expire() {
    let mut db = Db::new();
    assert_eq!(
        db.apply(set("session", "abc", Some(10)), 1_000),
        DbAction::Persist(vec![(s("session"), s("abc"), Some(10))])
    );
    assert_eq!(db.apply(get("session"), 1_000), DbAction::Reply(Some(s("abc"))));
    assert_eq!(db.apply(get("session"), 10_999), DbAction::Reply(Some(s("abc"))));
    assert_eq!(db.apply(get("session"), 11_000), DbAction::Reply(None));
    assert_eq!(db.snapshot(11_000), vec![]);
}

#[test]
fn snapshot_rounds_seconds_left_up() {
    let mut db = Db::new();
    db.insert(s("a"), s("1"), Some(10_000));
    db.insert(s("b"), s("2"), None);
    db.insert(s("c"), s("3"), Some(5_000));
    assert_eq!(
        db.snapshot(8_500),
        vec![(s("a"), s("1"), Some(2)), (s("b"), s("2"), None)]
    );
    assert_eq!(db.snapshot(9_999), vec![(s("a"), s("1"), Some(1)), (s("b"), s("2"), None)]);
}

#[test]
fn from_snapshot_later_entries_win_and_expirations_restart() {
    let db = Db::from_snapshot(
        vec![(s("a"), s("1"), None), (s("b"), s("2"), Some(3)), (s("a"), s("3"), None)],
        50_000,
    );
    assert_eq!(db.get(&s("a"), 50_000), Some(s("3")));
    assert_eq!(db.get(&s("b"), 52_999), Some(s("2")));
    assert_eq!(db.get(&s("b"), 53_000), None);
    assert_eq!(db.snapshot(50_000).len(), 2);
}

#[test]
fn restoring_a_snapshot_gives_the_same_answers() {
    let mut db = Db::new();
    db.apply(set("x", "1", None), 0);
    db.apply(set("y", "2", Some(60)), 0);
    db.apply(set("z", "3", Some(1)), 0);
    let snapshot = db.snapshot(30_000);
    let restored = Db::from_snapshot(snapshot, 90_000);
    assert_eq!(restored.get(&s("x"), 90_000), Some(s("1")));
    assert_eq!(restored.get(&s("y"), 90_000), Some(s("2")));
    assert_eq!(restored.get(&s("z"), 90_000), None);
}

#[test]
fn apply_set_asks_to_persist_and_get_replies() {
    let mut db = Db::new();
    assert_eq!(
        db.apply(set("lang", "rust", None), 7),
        DbAction::Persist(vec![(s("lang"), s("rust"), None)])
    );
    assert_eq!(db.apply(get("lang"), 8), DbAction::Reply(Some(s("rust"))));
    assert_eq!(db.apply(get("nope"), 8), DbAction::Reply(None));
    assert_eq!(
        db.apply(set("lang", "verus", None), 9),
        DbAction::Persist(vec![(s("lang"), s("verus"), None)])
    );
    assert_eq!(db.apply(get("lang"), 10), DbAction::Reply(Some(s("verus"))));
}

#[test]
fn expiration_holds_across_other_requests() {
    let mut db = Db::new();
    db.apply(set("k", "v", Some(5)), 1_000);
    db.apply(set("other", "x", None), 2_000);
    assert_eq!(db.apply(get("other"), 3_000), DbAction::Reply(Some(s("x"))));
    assert_eq!(db.apply(get("k"), 5_999), DbAction::Reply(Some(s("v"))));
    db.apply(set("another", "y", Some(1)), 5_999);
    assert_eq!(db.apply(get("k"), 6_000), DbAction::Reply(None));
    assert_eq!(db.apply(get("other"), 6_000), DbAction::Reply(Some(s("x"))));
}
