use record_store::store::{Database, Task, User};

fn task(id: u64, name: &str, completed: bool) -> Task {
    Task { id, name: name.to_string(), completed }
}

fn user(id: u64, username: &str, password: &str) -> User {
    User { id, username: username.to_string(), password: password.to_string() }
}

#[test]
fn insert_then_get_returns_record() {
    let mut db = Database::new();
    db.insert(task(1, "buy milk", false));
    let got = db.get(1).expect("inserted task must be found");
    assert_eq!(got.id, 1);
    assert_eq!(got.name, "buy milk");
    assert_eq!(got.completed, false);
}

#[test]
fn get_missing_returns_none() {
    let db = Database::new();
    assert!(db.get(42).is_none());
}

#[test]
fn insert_same_key_overwrites() {
    let mut db = Database::new();
    db.insert(task(1, "first", false));
    db.insert(task(1, "second", true));
    let got = db.get(1).expect("task must be found");
    assert_eq!(got.name, "second");
    assert_eq!(got.completed, true);
    assert_eq!(db.get_all().len(), 1);
}

#[test]
fn update_after_insert_yields_second_record() {
    let mut db = Database::new();
    db.insert(task(3, "draft", false));
    db.update(3, task(3, "final", true));
    let got = db.get(3).expect("task must be found");
    assert_eq!(got.name, "final");
    assert_eq!(got.completed, true);
}

#[test]
fn update_absent_key_creates_record() {
    let mut db = Database::new();
    db.update(9, task(9, "fresh", false));
    assert_eq!(db.get(9).expect("task must be found").name, "fresh");
}

#[test]
fn delete_then_get_returns_none() {
    let mut db = Database::new();
    db.insert(task(5, "gone soon", false));
    db.delete(5);
    assert!(db.get(5).is_none());
}

#[test]
fn delete_absent_key_is_accepted() {
    let mut db = Database::new();
    db.insert(task(1, "stay", false));
    db.delete(999);
    assert!(db.get(1).is_some());
    assert_eq!(db.get_all().len(), 1);
}

#[test]
fn delete_twice_same_as_once() {
    let mut db1 = Database::new();
    db1.insert(task(1, "a", false));
    db1.insert(task(2, "b", true));
    let mut db2 = Database::new();
    db2.insert(task(1, "a", false));
    db2.insert(task(2, "b", true));
    db1.delete(1);
    db2.delete(1);
    db2.delete(1);
    assert!(db1.get(1).is_none() && db2.get(1).is_none());
    assert_eq!(db1.get_all().len(), db2.get_all().len());
    assert_eq!(db1.get(2).unwrap().name, db2.get(2).unwrap().name);
}

#[test]
fn distinct_inserts_all_present() {
    let mut db = Database::new();
    let n: u64 = 25;
    for id in 0..n {
        db.insert(task(id, &format!("item {}", id), id % 2 == 0));
    }
    assert_eq!(db.get_all().len(), n as usize);
    for id in 0..n {
        let got = db.get(id).expect("every distinct key must be present");
        assert_eq!(got.name, format!("item {}", id));
    }
}

#[test]
fn get_all_keeps_insertion_order() {
    let mut db = Database::new();
    db.insert(task(2, "two", false));
    db.insert(task(1, "one", true));
    let all = db.get_all();
    assert_eq!(all.len(), 2);
    assert_eq!(all[0].id, 2);
    assert_eq!(all[1].id, 1);
}

#[test]
fn user_crud_by_id() {
    let mut db = Database::new();
    db.insert_user(user(1, "ada", "pw1"));
    db.insert_user(user(2, "bob", "pw2"));
    assert_eq!(db.get_user_by_id(1).unwrap().username, "ada");
    db.update_user_by_id(2, user(2, "bob", "changed"));
    assert_eq!(db.get_user_by_id(2).unwrap().password, "changed");
    db.delete_user_by_id(1);
    assert!(db.get_user_by_id(1).is_none());
    assert!(db.get_user_by_id(2).is_some());
}

#[test]
fn get_user_by_name_finds_first_match() {
    let mut db = Database::new();
    db.insert_user(user(1, "ada", "one"));
    db.insert_user(user(2, "ada", "two"));
    let found = db.get_user_by_name(&"ada".to_string()).expect("user must be found");
    assert_eq!(found.id, 1);
    assert!(db.get_user_by_name(&"nobody".to_string()).is_none());
}

#[test]
fn login_success_and_failures_look_alike() {
    let mut db = Database::new();
    db.insert_user(user(1, "a", "p"));
    assert!(db.check_login(&"a".to_string(), &"p".to_string()));
    let wrong_password = db.check_login(&"a".to_string(), &"wrong".to_string());
    let missing_user = db.check_login(&"missing".to_string(), &"p".to_string());
    assert_eq!(wrong_password, false);
    assert_eq!(missing_user, false);
    assert_eq!(wrong_password, missing_user);
}

#[test]
fn tasks_and_users_do_not_interfere() {
    let mut db = Database::new();
    db.insert(task(1, "t", false));
    db.insert_user(user(1, "u", "p"));
    db.delete(1);
    assert!(db.get_user_by_id(1).is_some());
    db.delete_user_by_id(1);
    assert!(db.get(1).is_none());
}
