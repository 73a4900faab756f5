use tempdir::TempDir;
use tinyamodb::AtomDB;

fn open_test_db() -> (TempDir, AtomDB) {
    let dir = TempDir::new("tinyamodb_test").unwrap();
    let s = dir.path().to_str().unwrap();
    let atomdb = AtomDB::new(s).unwrap();
    (dir, atomdb)
}

#[test]
fn test_put_get() {
    let (_, mut atomdb) = open_test_db();
    atomdb.put_item(b"hoge", b"hogevalue").unwrap();
    let mut buf = vec![];
    atomdb.get_item(b"hoge", &mut buf).unwrap();
    assert_eq!(b"hogevalue", buf.as_slice());
}

#[test]
fn test_query() {
    let (_, mut atomdb) = open_test_db();
    atomdb.put_item(b"hogehoge", b"hogehogevalue").unwrap();
    atomdb.put_item(b"hogenanika", b"hogenanikavalue").unwrap();
    atomdb.put_item(b"hugahuga", b"hugahugavalue").unwrap();

    let mut ret = vec![];
    atomdb.query(b"hoge", false).each(|key, value| {
        ret.push((key.to_owned(), value.to_owned()));
        true
    });
    assert_eq!(
        vec![
            (b"hogehoge".to_vec(), b"hogehogevalue".to_vec()),
            (b"hogenanika".to_vec(), b"hogenanikavalue".to_vec()),
            (b"hugahuga".to_vec(), b"hugahugavalue".to_vec()),
        ],
        ret
    );

    ret.clear();
    atomdb.query(b"hoge", false).each(|key, value| {
        ret.push((key.to_owned(), value.to_owned()));
        false
    });
    assert_eq!(vec![(b"hogehoge".to_vec(), b"hogehogevalue".to_vec()),], ret);

    ret.clear();
    atomdb.query(b"hoge", true).each(|key, value| {
        ret.push((key.to_owned(), value.to_owned()));
        true
    });
    assert_eq!(vec![] as Vec<(Vec<u8>, Vec<u8>)>, ret);

    ret.clear();
    atomdb.query(b"huga", false).each(|key, value| {
        ret.push((key.to_owned(), value.to_owned()));
        true
    });
    assert_eq!(vec![(b"hugahuga".to_vec(), b"hugahugavalue".to_vec())], ret);

    ret.clear();
    atomdb.query(b"huga", true).each(|key, value| {
        ret.push((key.to_owned(), value.to_owned()));
        true
    });
    assert_eq!(
        vec![
            (b"hogenanika".to_vec(), b"hogenanikavalue".to_vec()),
            (b"hogehoge".to_vec(), b"hogehogevalue".to_vec()),
        ],
        ret
    );
}

#[test]
fn test_absent_key_is_not_an_error() {
    let (_, atomdb) = open_test_db();
    let mut buf = vec![];
    let found = atomdb.get_item(b"never-written", &mut buf).unwrap();
    assert!(!found);
    assert!(buf.is_empty());
}

#[test]
fn test_absent_after_other_writes() {
    let (_, mut atomdb) = open_test_db();
    atomdb.put_item(b"aaa", b"1").unwrap();
    atomdb.put_item(b"ccc", b"3").unwrap();
    let mut buf = vec![];
    let found = atomdb.get_item(b"bbb", &mut buf).unwrap();
    assert!(!found);
    assert!(buf.is_empty());
}

#[test]
fn test_overwrite_last_write_wins() {
    let (_, mut atomdb) = open_test_db();
    atomdb.put_item(b"key", b"first").unwrap();
    atomdb.put_item(b"key", b"second").unwrap();
    let mut buf = vec![];
    let found = atomdb.get_item(b"key", &mut buf).unwrap();
    assert!(found);
    assert_eq!(b"second", buf.as_slice());
}

#[test]
fn test_get_appends_to_buffer() {
    let (_, mut atomdb) = open_test_db();
    atomdb.put_item(b"k", b"abc").unwrap();
    let mut buf = vec![];
    atomdb.get_item(b"k", &mut buf).unwrap();
    atomdb.get_item(b"k", &mut buf).unwrap();
    assert_eq!(b"abcabc", buf.as_slice());
}

#[test]
fn test_cursor_independence() {
    let (_, mut atomdb) = open_test_db();
    atomdb.put_item(b"hogehoge", b"1").unwrap();
    atomdb.put_item(b"hogenanika", b"2").unwrap();
    atomdb.put_item(b"hugahuga", b"3").unwrap();

    let mut it_fwd = atomdb.query(b"hoge", false);
    let mut it_rev = atomdb.query(b"huga", true);

    let mut keys_fwd = vec![];
    it_fwd.each(|key, _| {
        keys_fwd.push(key.to_owned());
        true
    });
    let mut keys_rev = vec![];
    it_rev.each(|key, _| {
        keys_rev.push(key.to_owned());
        true
    });
    assert_eq!(
        vec![b"hogehoge".to_vec(), b"hogenanika".to_vec(), b"hugahuga".to_vec()],
        keys_fwd
    );
    assert_eq!(vec![b"hogenanika".to_vec(), b"hogehoge".to_vec()], keys_rev);
}

#[test]
fn test_insertion_order_does_not_matter() {
    let (_, mut atomdb) = open_test_db();
    atomdb.put_item(b"hugahuga", b"3").unwrap();
    atomdb.put_item(b"hogenanika", b"2").unwrap();
    atomdb.put_item(b"hogehoge", b"1").unwrap();

    let mut keys = vec![];
    atomdb.query(b"", false).each(|key, _| {
        keys.push(key.to_owned());
        true
    });
    assert_eq!(
        vec![b"hogehoge".to_vec(), b"hogenanika".to_vec(), b"hugahuga".to_vec()],
        keys
    );
}

#[test]
fn test_seek_exact_hit_forward_and_reverse() {
    let (_, mut atomdb) = open_test_db();
    atomdb.put_item(b"b", b"2").unwrap();
    atomdb.put_item(b"d", b"4").unwrap();
    atomdb.put_item(b"f", b"6").unwrap();

    let mut keys = vec![];
    atomdb.query(b"d", false).each(|key, _| {
        keys.push(key.to_owned());
        true
    });
    assert_eq!(vec![b"d".to_vec(), b"f".to_vec()], keys);

    keys.clear();
    atomdb.query(b"d", true).each(|key, _| {
        keys.push(key.to_owned());
        true
    });
    assert_eq!(vec![b"d".to_vec(), b"b".to_vec()], keys);
}

#[test]
fn test_reverse_early_termination() {
    let (_, mut atomdb) = open_test_db();
    atomdb.put_item(b"a", b"1").unwrap();
    atomdb.put_item(b"b", b"2").unwrap();
    atomdb.put_item(b"c", b"3").unwrap();

    let mut seen = vec![];
    atomdb.query(b"zzz", true).each(|key, value| {
        seen.push((key.to_owned(), value.to_owned()));
        false
    });
    assert_eq!(vec![(b"c".to_vec(), b"3".to_vec())], seen);
}
