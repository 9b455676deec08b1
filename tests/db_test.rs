use boltdb::bucket::MAX_KEY_SIZE;
use boltdb::cursor::{Cursor, CursorApi};
use boltdb::db::{default_page_size, pick_meta, Db};
use boltdb::errors::BoltError;
use boltdb::meta::Meta;
use boltdb::tx::Tx;

fn fresh() -> Db {
    Db::init(4096)
}

fn reopen(db: &Db) -> Db {
    Db::open(db.data.clone(), 4096, false).unwrap()
}

#[test]
fn open_empty_and_write_one() {
    let mut db = fresh();
    let mut tx = Tx::begin(&mut db, true).unwrap();
    let u = tx.create_bucket(tx.root(), b"u").unwrap();
    tx.put(u, b"k", b"v").unwrap();
    tx.commit(&mut db).unwrap();

    let mut db2 = reopen(&db);
    assert_eq!(db2.meta.txid, 2);
    let m0 = Meta::read_at(&db2.data, 16);
    let m1 = Meta::read_at(&db2.data, 4096 + 16);
    assert_eq!(m0.txid, 2);
    assert_eq!(m1.txid, 1);
    let mut r = Tx::begin(&mut db2, false).unwrap();
    let u = r.bucket(r.root(), b"u").unwrap();
    assert_eq!(r.get(u, b"k"), Some(b"v".to_vec()));
    // The root leaf holds one inode: the inline bucket "u".
    assert_eq!(r.bucket_ref(r.root()).root.num_children(), 1);
    r.rollback(&mut db2).unwrap();
}

#[test]
fn sub_bucket_nesting() {
    let mut db = fresh();
    let mut tx = Tx::begin(&mut db, true).unwrap();
    let a = tx.create_bucket(tx.root(), b"a").unwrap();
    let b = tx.create_bucket(a, b"b").unwrap();
    tx.put(b, b"x", b"1").unwrap();
    tx.commit(&mut db).unwrap();

    let mut r = Tx::begin(&mut db, false).unwrap();
    let a = r.bucket(r.root(), b"a").unwrap();
    let b = r.bucket(a, b"b").unwrap();
    assert_eq!(r.get(b, b"x"), Some(b"1".to_vec()));
}

#[test]
fn delete_bucket_recursion() {
    let mut db = fresh();
    let mut tx = Tx::begin(&mut db, true).unwrap();
    let big = tx.create_bucket(tx.root(), b"big").unwrap();
    for i in 0..10_000u32 {
        tx.put(big, format!("{:08}", i).as_bytes(), &[b'v'; 100]).unwrap();
    }
    tx.commit(&mut db).unwrap();
    let hwm = db.meta.pgid;
    let before = db.freelist.free_count() + db.freelist.pending_count();

    let mut tx = Tx::begin(&mut db, true).unwrap();
    let subtree = tx.old_pages.len();
    assert!(subtree > 100);
    tx.delete_bucket(tx.root(), b"big").unwrap();
    tx.commit(&mut db).unwrap();
    // The deleted subtree's pages are pending, not reusable in this transaction, so the
    // file grows only by the pages of the new, larger freelist.
    let freelist_pages = (16 + 8 * (before + subtree + 2)) / 4096 + 1;
    assert!(db.meta.pgid <= hwm + freelist_pages as u64);
    let after = db.freelist.free_count() + db.freelist.pending_count();
    assert!(after + 3 >= before + subtree);

    let mut r = Tx::begin(&mut db, false).unwrap();
    assert_eq!(r.bucket(r.root(), b"big"), None);
    r.rollback(&mut db).unwrap();
}

#[test]
fn crash_between_commits() {
    let mut db = fresh();
    for i in 2..=5u64 {
        let mut tx = Tx::begin(&mut db, true).unwrap();
        let u = tx.create_bucket_if_not_exists(tx.root(), b"u").unwrap();
        tx.put(u, b"k", format!("{}", i).as_bytes()).unwrap();
        tx.commit(&mut db).unwrap();
    }
    assert_eq!(db.meta.txid, 5);

    let mut tx = Tx::begin(&mut db, true).unwrap();
    let u = tx.bucket(tx.root(), b"u").unwrap();
    tx.put(u, b"k2", b"v2").unwrap();
    tx.commit_data(&mut db).unwrap();

    let mut db2 = reopen(&db);
    assert_eq!(db2.meta.txid, 5);
    let mut r = Tx::begin(&mut db2, false).unwrap();
    let u = r.bucket(r.root(), b"u").unwrap();
    assert_eq!(r.get(u, b"k2"), None);
    assert_eq!(r.get(u, b"k"), Some(b"5".to_vec()));
}

#[test]
fn reader_isolation() {
    let mut db = fresh();
    let mut w1 = Tx::begin(&mut db, true).unwrap();
    let b = w1.create_bucket(w1.root(), b"b").unwrap();
    w1.put(b, b"k", b"v1").unwrap();
    w1.commit(&mut db).unwrap();

    let mut r = Tx::begin(&mut db, false).unwrap();
    let mut w2 = Tx::begin(&mut db, true).unwrap();
    let b2 = w2.bucket(w2.root(), b"b").unwrap();
    w2.put(b2, b"k", b"v2").unwrap();
    w2.commit(&mut db).unwrap();

    let rb = r.bucket(r.root(), b"b").unwrap();
    assert_eq!(r.get(rb, b"k"), Some(b"v1".to_vec()));
    r.rollback(&mut db).unwrap();

    let mut r2 = Tx::begin(&mut db, false).unwrap();
    let rb = r2.bucket(r2.root(), b"b").unwrap();
    assert_eq!(r2.get(rb, b"k"), Some(b"v2".to_vec()));
}

#[test]
fn cursor_stability_vs_seek() {
    let mut db = fresh();
    let mut tx = Tx::begin(&mut db, true).unwrap();
    let b = tx.create_bucket(tx.root(), b"b").unwrap();
    for k in [b"a", b"c", b"e", b"g"] {
        tx.put(b, k, b"x").unwrap();
    }
    let mut c = Cursor::new();
    let bk = tx.bucket_ref(b);
    assert_eq!(c.seek(bk, b"b").map(|e| e.0), Some(b"c".to_vec()));
    assert_eq!(c.next(bk).map(|e| e.0), Some(b"e".to_vec()));
    assert_eq!(c.next(bk).map(|e| e.0), Some(b"g".to_vec()));
    assert_eq!(c.next(bk), None);
    assert_eq!(c.seek(bk, b"h"), None);
    assert_eq!(c.first(bk).map(|e| e.0), Some(b"a".to_vec()));
    assert_eq!(c.prev(bk), None);
    assert_eq!(c.last(bk).map(|e| e.0), Some(b"g".to_vec()));
    assert_eq!(c.prev(bk).map(|e| e.0), Some(b"e".to_vec()));
}

#[test]
fn cursor_delete_and_bucket_entries() {
    let mut db = fresh();
    let mut tx = Tx::begin(&mut db, true).unwrap();
    let root = tx.root();
    tx.create_bucket(root, b"sub").unwrap();
    let mut c = Cursor::new();
    assert_eq!(c.first(tx.bucket_ref(root)), Some((b"sub".to_vec(), None)));
    let mut bk = boltdb::bucket::Bucket::new(boltdb::in_bucket::InBucket::new(0, 0));
    bk.put(true, b"a", b"1").unwrap();
    bk.put(true, b"b", b"2").unwrap();
    let mut c = Cursor::new();
    c.seek(&bk, b"b");
    assert_eq!(c.delete(&mut bk, false), Err(BoltError::TxNotWritable));
    assert_eq!(c.delete(&mut bk, true), Ok(()));
    assert_eq!(bk.get(b"b"), None);
    assert_eq!(bk.get(b"a"), Some(&b"1".to_vec()));
}

#[test]
fn put_then_get_in_same_tx_and_later_reader() {
    let mut db = fresh();
    let mut tx = Tx::begin(&mut db, true).unwrap();
    let b = tx.create_bucket(tx.root(), b"b").unwrap();
    tx.put(b, b"key", b"value").unwrap();
    assert_eq!(tx.get(b, b"key"), Some(b"value".to_vec()));
    tx.commit(&mut db).unwrap();
    let mut r = Tx::begin(&mut db, false).unwrap();
    let b = r.bucket(r.root(), b"b").unwrap();
    assert_eq!(r.get(b, b"key"), Some(b"value".to_vec()));
}

#[test]
fn delete_then_get_is_none() {
    let mut db = fresh();
    let mut tx = Tx::begin(&mut db, true).unwrap();
    let b = tx.create_bucket(tx.root(), b"b").unwrap();
    tx.put(b, b"key", b"value").unwrap();
    tx.delete(b, b"key").unwrap();
    assert_eq!(tx.get(b, b"key"), None);
}

#[test]
fn for_each_is_ascending_without_repeats() {
    let mut db = fresh();
    let mut tx = Tx::begin(&mut db, true).unwrap();
    let b = tx.create_bucket(tx.root(), b"b").unwrap();
    for k in [&b"m"[..], b"a", b"z", b"m", b"ab", b"b"] {
        tx.put(b, k, b"1").unwrap();
    }
    tx.delete(b, b"z").unwrap();
    tx.commit(&mut db).unwrap();
    let mut r = Tx::begin(&mut db, false).unwrap();
    let b = r.bucket(r.root(), b"b").unwrap();
    let keys: Vec<Vec<u8>> = r.entries(b).into_iter().map(|e| e.0).collect();
    assert_eq!(keys, vec![b"a".to_vec(), b"ab".to_vec(), b"b".to_vec(), b"m".to_vec()]);
}

#[test]
fn reopen_sees_last_commit() {
    let mut db = fresh();
    for round in 0..3u32 {
        let mut tx = Tx::begin(&mut db, true).unwrap();
        let b = tx.create_bucket_if_not_exists(tx.root(), b"b").unwrap();
        for i in 0..200u32 {
            tx.put(b, format!("{:04}", i).as_bytes(), format!("{}-{}", round, i).as_bytes()).unwrap();
        }
        tx.commit(&mut db).unwrap();
    }
    let mut db2 = reopen(&db);
    assert_eq!(db2.meta, db.meta);
    let mut r = Tx::begin(&mut db2, false).unwrap();
    let b = r.bucket(r.root(), b"b").unwrap();
    assert_eq!(r.entries(b).len(), 200);
    assert_eq!(r.get(b, b"0123"), Some(b"2-123".to_vec()));
}

#[test]
fn key_size_boundaries_and_empty_key() {
    let mut db = fresh();
    let mut tx = Tx::begin(&mut db, true).unwrap();
    let b = tx.create_bucket(tx.root(), b"b").unwrap();
    assert_eq!(tx.put(b, &vec![1u8; MAX_KEY_SIZE], b"v"), Ok(()));
    assert_eq!(tx.put(b, &vec![1u8; MAX_KEY_SIZE + 1], b"v"), Err(BoltError::KeyTooLarge));
    assert_eq!(tx.put(b, b"", b"v"), Err(BoltError::KeyRequired));
    tx.commit(&mut db).unwrap();
    let mut r = Tx::begin(&mut db, false).unwrap();
    let b = r.bucket(r.root(), b"b").unwrap();
    assert_eq!(r.get(b, &vec![1u8; MAX_KEY_SIZE]), Some(b"v".to_vec()));
}

fn sub_bucket_value_len(db: &mut Db, value_len: usize) -> usize {
    let mut tx = Tx::begin(db, true).unwrap();
    let b = tx.create_bucket_if_not_exists(tx.root(), b"b").unwrap();
    tx.put(b, b"k", &vec![3u8; value_len]).unwrap();
    tx.commit(db).unwrap();
    let r = Tx::begin(db, false).unwrap();
    let root = r.bucket_ref(r.root());
    let i = root.find(b"b").unwrap();
    root.root.inodes.get(i).value().len()
}

#[test]
fn bucket_inlining_boundary() {
    // With 4096-byte pages a bucket stays inline while its leaf takes at most
    // 4096 / 4 - 16 = 1008 bytes: 16 + 16 + 1 + 975 for one entry with key "k".
    let mut db = fresh();
    let inline_len = sub_bucket_value_len(&mut db, 975);
    assert!(inline_len > 16);
    assert_eq!(inline_len, 16 + 1008);
    let mut db = fresh();
    let paged_len = sub_bucket_value_len(&mut db, 976);
    assert_eq!(paged_len, 16);
}

#[test]
fn bucket_errors() {
    let mut db = fresh();
    let mut tx = Tx::begin(&mut db, true).unwrap();
    let root = tx.root();
    assert_eq!(tx.create_bucket(root, b""), Err(BoltError::BucketNameRequired));
    let b = tx.create_bucket(root, b"b").unwrap();
    assert_eq!(tx.create_bucket(root, b"b"), Err(BoltError::BucketExists));
    tx.put(b, b"plain", b"1").unwrap();
    assert_eq!(tx.create_bucket(b, b"plain"), Err(BoltError::IncompatibleValue));
    assert_eq!(tx.delete_bucket(b, b"plain"), Err(BoltError::IncompatibleValue));
    assert_eq!(tx.delete_bucket(root, b"nope"), Err(BoltError::BucketNotFound));
    assert_eq!(tx.put(root, b"b", b"x"), Err(BoltError::IncompatibleValue));
    assert_eq!(tx.delete(root, b"b"), Err(BoltError::IncompatibleValue));
    assert_eq!(tx.put(999, b"k", b"v"), Err(BoltError::BucketNotFound));
    tx.commit(&mut db).unwrap();
    assert_eq!(tx.commit(&mut db), Err(BoltError::TxClosed));
    let mut r = Tx::begin(&mut db, false).unwrap();
    let b = r.bucket(r.root(), b"b").unwrap();
    assert_eq!(r.put(b, b"k", b"v"), Err(BoltError::TxNotWritable));
    assert_eq!(r.commit(&mut db), Err(BoltError::TxNotWritable));
    assert_eq!(r.rollback(&mut db), Ok(()));
    assert_eq!(r.rollback(&mut db), Err(BoltError::TxClosed));
}

#[test]
fn read_only_database_refuses_writers() {
    let db = fresh();
    let mut ro = Db::open(db.data.clone(), 4096, true).unwrap();
    assert_eq!(Tx::begin(&mut ro, true).err(), Some(BoltError::DatabaseReadOnly));
}

#[test]
fn meta_selection() {
    let mut db = fresh();
    let mut tx = Tx::begin(&mut db, true).unwrap();
    tx.create_bucket(tx.root(), b"b").unwrap();
    tx.commit(&mut db).unwrap();
    // Page 0 now holds txid 2 and page 1 txid 1: the higher one wins.
    assert_eq!(pick_meta(&db.data, 4096).unwrap().txid, 2);
    // Corrupting page 0's meta leaves page 1's view.
    let mut data = db.data.clone();
    data[16 + 20] ^= 0xFF;
    assert_eq!(pick_meta(&data, 4096).unwrap().txid, 1);
    // Corrupting both fails.
    data[4096 + 16 + 20] ^= 0xFF;
    assert_eq!(pick_meta(&data, 4096), Err(BoltError::Invalid));
}

#[test]
fn rollback_discards_writes() {
    let mut db = fresh();
    let mut tx = Tx::begin(&mut db, true).unwrap();
    tx.create_bucket(tx.root(), b"b").unwrap();
    tx.rollback(&mut db).unwrap();
    let mut r = Tx::begin(&mut db, false).unwrap();
    assert_eq!(r.bucket(r.root(), b"b"), None);
    assert_eq!(db.meta.txid, 1);
}

#[test]
fn default_page_size_prefers_the_request() {
    assert_eq!(default_page_size(8192), 8192);
    let d = default_page_size(0);
    assert!(d >= 512);
}

#[test]
fn move_bucket_between_parents() {
    let mut db = fresh();
    let mut tx = Tx::begin(&mut db, true).unwrap();
    let root = tx.root();
    let a = tx.create_bucket(root, b"a").unwrap();
    let b = tx.create_bucket(root, b"b").unwrap();
    let c = tx.create_bucket(a, b"c").unwrap();
    tx.put(c, b"k", b"v").unwrap();
    assert_eq!(tx.move_bucket(a, b"c", a), Err(BoltError::SameBuckets));
    assert_eq!(tx.move_bucket(a, b"nope", b), Err(BoltError::BucketNotFound));
    tx.put(a, b"plain", b"1").unwrap();
    assert_eq!(tx.move_bucket(a, b"plain", b), Err(BoltError::IncompatibleValue));
    tx.create_bucket(b, b"c2").unwrap();
    assert_eq!(tx.move_bucket(a, b"c", b), Ok(()));
    assert_eq!(tx.bucket(a, b"c"), None);
    let moved = tx.bucket(b, b"c").unwrap();
    assert_eq!(tx.get(moved, b"k"), Some(b"v".to_vec()));
    tx.commit(&mut db).unwrap();
    let mut r = Tx::begin(&mut db, false).unwrap();
    let b = r.bucket(r.root(), b"b").unwrap();
    let c = r.bucket(b, b"c").unwrap();
    assert_eq!(r.get(c, b"k"), Some(b"v".to_vec()));
}

#[test]
fn successive_commits_alternate_meta_pages() {
    let mut db = fresh();
    for expected_slot in [0usize, 1, 0] {
        let mut tx = Tx::begin(&mut db, true).unwrap();
        let b = tx.create_bucket_if_not_exists(tx.root(), b"b").unwrap();
        tx.put(b, b"k", b"v").unwrap();
        tx.commit(&mut db).unwrap();
        let m = Meta::read_at(&db.data, expected_slot * 4096 + 16);
        assert_eq!(m, db.meta);
        assert!(m.validate().is_ok());
        assert_eq!(m.txid as usize % 2, expected_slot);
    }
}
