use protohackers::kv::{apply_datagram, Database};

#[test]
fn set_then_get() {
    let mut db = Database::new();
    db.set(b"foo".to_vec(), b"bar".to_vec());
    assert_eq!(db.get(b"foo"), Some(b"bar".to_vec()));
    assert_eq!(db.get(b"missing"), None);
}

#[test]
fn set_overwrites() {
    let mut db = Database::new();
    db.set(b"k".to_vec(), b"one".to_vec());
    db.set(b"k".to_vec(), b"two".to_vec());
    assert_eq!(db.get(b"k"), Some(b"two".to_vec()));
}

#[test]
fn version_key_is_reserved() {
    let mut db = Database::new();
    assert_eq!(db.get(b"version"), Some(b"Unusual Database Program".to_vec()));
    db.set(b"version".to_vec(), b"evil".to_vec());
    assert_eq!(db.get(b"version"), Some(b"Unusual Database Program".to_vec()));
}

#[test]
fn datagram_insert_and_retrieve() {
    let mut db = Database::new();
    assert_eq!(apply_datagram(&mut db, b"foo=bar"), None);
    assert_eq!(apply_datagram(&mut db, b"foo"), Some(b"foo=bar".to_vec()));
}

#[test]
fn datagram_value_keeps_later_equals() {
    let mut db = Database::new();
    assert_eq!(apply_datagram(&mut db, b"foo=bar=baz"), None);
    assert_eq!(apply_datagram(&mut db, b"foo"), Some(b"foo=bar=baz".to_vec()));
}

#[test]
fn datagram_empty_key_and_value() {
    let mut db = Database::new();
    assert_eq!(apply_datagram(&mut db, b"=empty"), None);
    assert_eq!(apply_datagram(&mut db, b""), Some(b"=empty".to_vec()));
    assert_eq!(apply_datagram(&mut db, b"foo="), None);
    assert_eq!(apply_datagram(&mut db, b"foo"), Some(b"foo=".to_vec()));
}

#[test]
fn datagram_miss_answers_nothing() {
    let mut db = Database::new();
    assert_eq!(apply_datagram(&mut db, b"nothing"), None);
}

#[test]
fn oversized_datagram_is_dropped() {
    let mut db = Database::new();
    let mut big = b"huge=".to_vec();
    big.resize(1001, b'x');
    assert_eq!(apply_datagram(&mut db, &big), None);
    assert_eq!(apply_datagram(&mut db, b"huge"), None);
}
