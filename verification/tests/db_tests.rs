use rstredis::db::DbCore;
use rstredis::protocol::{Command, RedisValue, Response};

fn set(db: &mut DbCore, k: &[u8], v: &[u8]) -> Response {
    db.execute(Command::SetKey { key: k.to_vec(), value: RedisValue::Str(v.to_vec()) }).0
}

fn get(db: &mut DbCore, k: &[u8]) -> Response {
    db.execute(Command::Get { key: k.to_vec() }).0
}

fn del(db: &mut DbCore, ks: &[&[u8]]) -> Response {
    db.execute(Command::Del { keys: ks.iter().map(|k| k.to_vec()).collect() }).0
}

fn bulk(r: Response) -> Option<Vec<u8>> {
    match r {
        Response::Bulk(v) => Some(v),
        Response::Nil => None,
        _ => panic!("unexpected response"),
    }
}

#[test]
fn get_after_set_gives_the_value() {
    let mut db = DbCore::new("dump.rdb".to_string());
    assert!(matches!(set(&mut db, b"a", b"1"), Response::Okay));
    assert_eq!(bulk(get(&mut db, b"a")), Some(b"1".to_vec()));
    assert!(matches!(set(&mut db, b"a", b"2"), Response::Okay));
    assert_eq!(bulk(get(&mut db, b"a")), Some(b"2".to_vec()));
    assert_eq!(bulk(get(&mut db, b"b")), None);
}

#[test]
fn delete_counts_keys_present() {
    let mut db = DbCore::new("dump.rdb".to_string());
    set(&mut db, b"a", b"1");
    set(&mut db, b"b", b"2");
    assert!(matches!(del(&mut db, &[b"a", b"zz", b"a"]), Response::Integer(1)));
    assert_eq!(bulk(get(&mut db, b"a")), None);
    assert_eq!(bulk(get(&mut db, b"b")), Some(b"2".to_vec()));
    assert!(matches!(del(&mut db, &[b"a"]), Response::Integer(0)));
}

#[test]
fn save_gives_the_dump_bytes() {
    let mut db = DbCore::new("dump.rdb".to_string());
    set(&mut db, b"k", b"val");
    let (resp, dump) = db.execute(Command::Save);
    assert!(matches!(resp, Response::Okay));
    let mut expected = b"RSTREDISV1\0\0\0\0\0\0".to_vec();
    expected.push(0);
    expected.extend_from_slice(&1u64.to_le_bytes());
    expected.extend_from_slice(&3u64.to_le_bytes());
    expected.extend_from_slice(b"kval");
    expected.push(0xff);
    assert_eq!(dump, Some(expected));
    let (_, none) = db.execute(Command::Get { key: b"k".to_vec() });
    assert!(none.is_none());
}

#[test]
fn load_after_save_restores_the_store() {
    let mut db = DbCore::new("dump.rdb".to_string());
    set(&mut db, b"one", b"1");
    set(&mut db, b"two", b"");
    set(&mut db, b"", b"empty key");
    let dump = db.execute(Command::Save).1.unwrap();
    let mut fresh = DbCore::new("other.rdb".to_string());
    assert!(fresh.load(&dump).is_ok());
    assert_eq!(bulk(get(&mut fresh, b"one")), Some(b"1".to_vec()));
    assert_eq!(bulk(get(&mut fresh, b"two")), Some(b"".to_vec()));
    assert_eq!(bulk(get(&mut fresh, b"")), Some(b"empty key".to_vec()));
    assert_eq!(fresh.dump_path(), "other.rdb");
}

#[test]
fn load_errors() {
    let expect = |bytes: &[u8], msg: &str| {
        let mut db = DbCore::new("d".to_string());
        match db.load(bytes) {
            Err(e) => assert_eq!(e, msg),
            Ok(()) => panic!("expected an error"),
        }
    };
    expect(b"RST", "Invalid read length: expected 8, got 3");
    expect(b"XSTREDISV1\0\0\0\0\0\0\xff", "Invalid magic");
    expect(b"RSTREDISV2\0\0\0\0\0\0\xff", "Invalid version");
    expect(b"RSTREDISV1\0\0", "Invalid read length: expected 8, got 4");
    expect(b"RSTREDISV1\0\0\0\0\0\0", "Invalid read length: expected 1, got 0");
    let mut truncated = b"RSTREDISV1\0\0\0\0\0\0".to_vec();
    truncated.push(0);
    truncated.extend_from_slice(&5u64.to_le_bytes());
    truncated.extend_from_slice(&1u64.to_le_bytes());
    truncated.extend_from_slice(b"ab");
    expect(&truncated, "Invalid read length: expected 5, got 2");
}

#[test]
fn failed_load_keeps_entries_read_before() {
    let mut bytes = b"RSTREDISV1\0\0\0\0\0\0".to_vec();
    bytes.push(0);
    bytes.extend_from_slice(&1u64.to_le_bytes());
    bytes.extend_from_slice(&1u64.to_le_bytes());
    bytes.extend_from_slice(b"ab");
    bytes.push(0);
    let mut db = DbCore::new("d".to_string());
    assert!(db.load(&bytes).is_err());
    assert_eq!(bulk(get(&mut db, b"a")), Some(b"b".to_vec()));
}

#[test]
fn flags_other_than_the_end_marker_load_as_strings() {
    let mut bytes = b"RSTREDISV1\0\0\0\0\0\0".to_vec();
    bytes.push(7);
    bytes.extend_from_slice(&1u64.to_le_bytes());
    bytes.extend_from_slice(&2u64.to_le_bytes());
    bytes.extend_from_slice(b"kvv");
    bytes.push(0xff);
    bytes.extend_from_slice(b"ignored after the end marker");
    let mut db = DbCore::new("d".to_string());
    assert!(db.load(&bytes).is_ok());
    assert_eq!(bulk(get(&mut db, b"k")), Some(b"vv".to_vec()));
}

#[test]
fn dump_keeps_first_insertion_order() {
    let mut db = DbCore::new("d".to_string());
    set(&mut db, b"a", b"1");
    set(&mut db, b"b", b"2");
    set(&mut db, b"a", b"3");
    let dump = db.execute(Command::Save).1.unwrap();
    let mut expected = b"RSTREDISV1\0\0\0\0\0\0".to_vec();
    for (k, v) in [(b"a", b"3"), (b"b", b"2")] {
        expected.push(0);
        expected.extend_from_slice(&1u64.to_le_bytes());
        expected.extend_from_slice(&1u64.to_le_bytes());
        expected.extend_from_slice(k);
        expected.extend_from_slice(v);
    }
    expected.push(0xff);
    assert_eq!(dump, expected);
}

#[test]
fn delete_after_set_answers_one() {
    let mut db = DbCore::new("d".to_string());
    set(&mut db, b"x", b"1");
    assert!(matches!(del(&mut db, &[b"x"]), Response::Integer(1)));
    assert_eq!(bulk(get(&mut db, b"x")), None);
}

#[test]
fn loading_merges_into_what_is_there() {
    let mut db = DbCore::new("d".to_string());
    set(&mut db, b"old", b"1");
    set(&mut db, b"k", b"before");
    let mut src = DbCore::new("e".to_string());
    set(&mut src, b"k", b"after");
    let dump = src.execute(Command::Save).1.unwrap();
    assert!(db.load(&dump).is_ok());
    assert_eq!(bulk(get(&mut db, b"old")), Some(b"1".to_vec()));
    assert_eq!(bulk(get(&mut db, b"k")), Some(b"after".to_vec()));
}
