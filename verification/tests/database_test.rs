use bytes::Bytes;
use mini_redis::database::Database;

#[test]
fn test_database_new() {
    let test_db = Database::new();
    assert_eq!(test_db.len(), 0);
}

#[test]
fn test_database_get() {
    let mut test_db = Database::new();
    test_db.set(String::from("Answer"), Bytes::from("42"));

    // Test 1: get with a valid key
    let valid_value = test_db.get("Answer").unwrap();
    assert_eq!(valid_value, Bytes::from("42"));

    // Test 2: get with an invalid key
    let invalid_value = test_db.get("Solution");
    assert_eq!(invalid_value, None);
}

#[test]
fn test_database_set() {
    let mut test_db = Database::new();
    test_db.set(String::from("Answer"), Bytes::from("42"));

    // Test 1: set to overwrite an entry
    test_db.set(String::from("Answer"), Bytes::from("Forty-two"));
    let overwrite_value = test_db.get("Answer").unwrap();
    assert_eq!(overwrite_value, Bytes::from("Forty-two"));

    // Test 2: set to add an entry
    test_db.set(String::from("Alpha"), Bytes::from("137"));
    let new_value = test_db.get("Alpha").unwrap();
    assert_eq!(new_value, Bytes::from("137"));
}

#[test]
fn overwriting_keeps_one_entry_per_key() {
    let mut db = Database::new();
    db.set("a".to_string(), Bytes::from("1"));
    db.set("b".to_string(), Bytes::from("2"));
    db.set("a".to_string(), Bytes::from("3"));
    assert_eq!(db.len(), 2);
    assert_eq!(db.get("a"), Some(Bytes::from("3")));
    assert_eq!(db.get("b"), Some(Bytes::from("2")));
    assert_eq!(db.get("é"), None);
}
