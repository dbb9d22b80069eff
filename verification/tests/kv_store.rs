use hs_demo::kv::{KVStore, WriteBatch};

fn batch(ops: &[(&[u8], Option<&[u8]>)]) -> WriteBatch {
    let mut wb = WriteBatch::new();
    for (k, v) in ops {
        match v {
            Some(v) => wb.put(k.to_vec(), v.to_vec()),
            None => wb.delete(k.to_vec()),
        }
    }
    wb
}

#[test]
fn new_store_is_empty() {
    let kv = KVStore::new();
    assert_eq!(kv.get(b"a"), None);
    let kv2 = KVStore::default();
    assert_eq!(kv2.get(b""), None);
}

#[test]
fn put_then_get_reads_value() {
    let mut kv = KVStore::new();
    kv.write(batch(&[(b"k", Some(b"v1")), (b"j", Some(b"w"))]));
    assert_eq!(kv.get(b"k"), Some(b"v1".to_vec()));
    assert_eq!(kv.get(b"j"), Some(b"w".to_vec()));
    assert_eq!(kv.get(b"x"), None);
}

#[test]
fn last_write_to_a_key_wins() {
    let mut kv = KVStore::new();
    kv.write(batch(&[(b"k", Some(b"a")), (b"k", Some(b"b"))]));
    assert_eq!(kv.get(b"k"), Some(b"b".to_vec()));
    kv.write(batch(&[(b"k", Some(b"c")), (b"k", None)]));
    assert_eq!(kv.get(b"k"), None);
    kv.write(batch(&[(b"k", None), (b"k", Some(b"d"))]));
    assert_eq!(kv.get(b"k"), Some(b"d".to_vec()));
}

#[test]
fn delete_of_missing_key_changes_nothing() {
    let mut kv = KVStore::new();
    kv.write(batch(&[(b"a", Some(b"1"))]));
    kv.write(batch(&[(b"b", None)]));
    assert_eq!(kv.get(b"a"), Some(b"1".to_vec()));
    assert_eq!(kv.get(b"b"), None);
}

#[test]
fn two_batches_equal_their_concatenation() {
    let mut kv1 = KVStore::new();
    kv1.write(batch(&[(b"a", Some(b"1")), (b"b", Some(b"2"))]));
    kv1.write(batch(&[(b"a", None), (b"c", Some(b"3"))]));
    let mut kv2 = KVStore::new();
    kv2.write(batch(&[(b"a", Some(b"1")), (b"b", Some(b"2")), (b"a", None), (b"c", Some(b"3"))]));
    for k in [&b"a"[..], b"b", b"c", b"d"] {
        assert_eq!(kv1.get(k), kv2.get(k));
    }
}

#[test]
fn untouched_keys_keep_their_values() {
    let mut kv = KVStore::new();
    kv.write(batch(&[(b"keep", Some(b"x")), (b"other", Some(b"y"))]));
    kv.write(batch(&[(b"other", None), (b"new", Some(b"z"))]));
    assert_eq!(kv.get(b"keep"), Some(b"x".to_vec()));
}

#[test]
fn keys_that_are_prefixes_are_distinct() {
    let mut kv = KVStore::new();
    kv.write(batch(&[(b"ab", Some(b"2")), (b"a", Some(b"1")), (b"abc", Some(b"3")), (b"", Some(b"0"))]));
    assert_eq!(kv.get(b""), Some(b"0".to_vec()));
    assert_eq!(kv.get(b"a"), Some(b"1".to_vec()));
    assert_eq!(kv.get(b"ab"), Some(b"2".to_vec()));
    assert_eq!(kv.get(b"abc"), Some(b"3".to_vec()));
    kv.write(batch(&[(b"ab", None)]));
    assert_eq!(kv.get(b"ab"), None);
    assert_eq!(kv.get(b"abc"), Some(b"3".to_vec()));
}

#[test]
fn clear_removes_everything() {
    let mut kv = KVStore::new();
    kv.write(batch(&[(b"a", Some(b"1")), (b"b", Some(b"2"))]));
    kv.clear();
    assert_eq!(kv.get(b"a"), None);
    assert_eq!(kv.get(b"b"), None);
}

#[test]
fn snapshot_keeps_the_contents_it_was_taken_with() {
    let mut kv = KVStore::new();
    kv.write(batch(&[(b"a", Some(b"1"))]));
    let snap = kv.snapshot();
    kv.write(batch(&[(b"a", Some(b"2")), (b"b", Some(b"3"))]));
    assert_eq!(snap.get(b"a"), Some(b"1".to_vec()));
    assert_eq!(snap.get(b"b"), None);
    assert_eq!(kv.get(b"a"), Some(b"2".to_vec()));
}

#[test]
fn set_and_delete_key_copy_their_arguments() {
    let mut wb = WriteBatch::default();
    wb.set(b"k", b"v");
    wb.set(b"gone", b"x");
    wb.delete_key(b"gone");
    let mut kv = KVStore::new();
    kv.write(wb);
    assert_eq!(kv.get(b"k"), Some(b"v".to_vec()));
    assert_eq!(kv.get(b"gone"), None);
}

#[test]
fn snapshot_survives_any_later_writes_and_clears() {
    let mut kv = KVStore::new();
    kv.write(batch(&[(b"k", Some(b"v")), (b"x", Some(b"y"))]));
    let snap = kv.snapshot();
    for i in 0u8..20 {
        kv.write(batch(&[(&[i], Some(b"n")), (b"k", None)]));
        if i % 7 == 0 {
            kv.clear();
        }
    }
    assert_eq!(snap.get(b"k"), Some(b"v".to_vec()));
    assert_eq!(snap.get(b"x"), Some(b"y".to_vec()));
    assert_eq!(snap.get(&[3u8]), None);
}
