use record_store::store::{Database, Task, User};

fn task(id: u64, name: &str, completed: bool) -> Task {
    Task { id, name: name.to_string(), completed }
}

fn user(id: u64, username: &str, password: &str) -> User {
    User { id, username: username.to_string(), password: password.to_string() }
}

#[test]
fn round_trip_restores_every_record() {
    let mut db = Database::new();
    db.insert(task(1, "buy milk", false));
    db.insert(task(2, "write report", true));
    db.insert_user(user(7, "ada", "secret"));
    let words = db.to_snapshot();
    let restored = Database::from_snapshot(&words);
    assert_eq!(restored.get_all().len(), 2);
    let t1 = restored.get(1).expect("task 1 must survive the round trip");
    assert_eq!(t1.name, "buy milk");
    assert_eq!(t1.completed, false);
    let t2 = restored.get(2).expect("task 2 must survive the round trip");
    assert_eq!(t2.name, "write report");
    assert_eq!(t2.completed, true);
    let u = restored.get_user_by_id(7).expect("user must survive the round trip");
    assert_eq!(u.username, "ada");
    assert_eq!(u.password, "secret");
}

#[test]
fn round_trip_keeps_non_ascii_names() {
    let mut db = Database::new();
    db.insert(task(1, "caf\u{e9} \u{1F600} \u{4e16}\u{754c}", true));
    let restored = Database::from_snapshot(&db.to_snapshot());
    let t = restored.get(1).expect("task must survive the round trip");
    assert_eq!(t.name, "caf\u{e9} \u{1F600} \u{4e16}\u{754c}");
}

#[test]
fn round_trip_of_empty_store_is_empty() {
    let db = Database::new();
    let words = db.to_snapshot();
    assert_eq!(words, vec![0u64, 0u64]);
    let restored = Database::from_snapshot(&words);
    assert!(restored.get_all().is_empty());
}

#[test]
fn empty_stream_yields_empty_store() {
    let restored = Database::from_snapshot(&Vec::new());
    assert!(restored.get_all().is_empty());
    assert!(restored.get_user_by_id(1).is_none());
}

#[test]
fn truncated_stream_yields_empty_store() {
    // Claims five tasks but carries none.
    let restored = Database::from_snapshot(&vec![5u64]);
    assert!(restored.get_all().is_empty());
}

#[test]
fn trailing_garbage_yields_empty_store() {
    let mut db = Database::new();
    db.insert(task(1, "ok", false));
    let mut words = db.to_snapshot();
    words.push(77);
    let restored = Database::from_snapshot(&words);
    assert!(restored.get_all().is_empty());
}

#[test]
fn surrogate_code_point_yields_empty_store() {
    // One task whose single name character sits in the surrogate range.
    let words = vec![1u64, 1, 1, 0xD800, 0, 0];
    let restored = Database::from_snapshot(&words);
    assert!(restored.get_all().is_empty());
}

#[test]
fn snapshot_with_one_record_restores_exactly_that_record() {
    let mut db = Database::new();
    db.insert(task(11, "only", true));
    let restored = Database::from_snapshot(&db.to_snapshot());
    let all = restored.get_all();
    assert_eq!(all.len(), 1);
    assert_eq!(all[0].id, 11);
    assert_eq!(all[0].name, "only");
    assert!(restored.get_user_by_id(11).is_none());
}

#[test]
fn snapshot_encodes_characters_one_word_each() {
    let mut db = Database::new();
    db.insert(task(1, "ab", false));
    let words = db.to_snapshot();
    // task count, id, name length, 'a', 'b', flag, user count
    assert_eq!(words, vec![1u64, 1, 2, 0x61, 0x62, 0, 0]);
}

#[test]
fn duplicate_keys_in_stream_keep_the_later_record() {
    // Two tasks under the same key decode like two inserts: the later wins.
    let words = vec![2u64, 1, 1, 0x61, 0, 1, 1, 0x62, 1, 0];
    let restored = Database::from_snapshot(&words);
    let all = restored.get_all();
    assert_eq!(all.len(), 1);
    assert_eq!(all[0].name, "b");
    assert_eq!(all[0].completed, true);
}
