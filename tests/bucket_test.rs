use boltdb::bucket::{clone_bytes, Bucket, BucketStats, BucketStructure, MAX_KEY_SIZE, MAX_VALUE_SIZE};
use boltdb::errors::BoltError;
use boltdb::freelist::{Freelist, FreelistType};
use boltdb::in_bucket::InBucket;
use boltdb::node::Node;
use boltdb::tx::TxStats;

#[test]
fn test_in_bucket() {
    let mut in_bucket = InBucket::new(1, 1);

    in_bucket.inc_sequence();

    assert_eq!(in_bucket.root_page(), 1);
    assert_eq!(in_bucket.in_sequence(), 2);
}

#[test]
fn test_bucket() {
    assert_eq!(MAX_KEY_SIZE, 32768);
}

#[test]
fn test_bucket_stats() {
    let mut bucket_stats = BucketStats::default();
    bucket_stats.bucket_n = 5;
    bucket_stats.key_n = 2;

    let other_bucket_stats = BucketStats { key_n: 2, bucket_n: 5, ..Default::default() };

    assert_eq!(bucket_stats.bucket_n, 5);
    assert_eq!(bucket_stats.key_n, 2);
    bucket_stats.add(other_bucket_stats);

    assert_eq!(bucket_stats.bucket_n, 10);
    assert_eq!(bucket_stats.key_n, 4);

    let mut bucket_stats = BucketStats::default();
    bucket_stats.bucket_n = 5;
    bucket_stats.key_n = 2;

    let mut other_bucket_stats = BucketStats::default();
    other_bucket_stats.bucket_n = 3;
    other_bucket_stats.key_n = 4;

    bucket_stats.add(other_bucket_stats);

    assert_eq!(bucket_stats.bucket_n, 8);
    assert_eq!(bucket_stats.key_n, 6);
}

#[test]
fn bucket_stats_add_keeps_the_greater_depth() {
    let mut a = BucketStats { depth: 3, leaf_page_n: 1, ..Default::default() };
    a.add(BucketStats { depth: 5, leaf_page_n: 2, ..Default::default() });
    assert_eq!(a.depth, 5);
    assert_eq!(a.leaf_page_n, 3);
    a.add(BucketStats { depth: 1, ..Default::default() });
    assert_eq!(a.depth, 5);
}

#[test]
fn test_bucket_structure() {
    let bucket_structure = BucketStructure { name: String::from("example"), key_n: 10, children: vec![] };

    println!("{:?}", bucket_structure);

    assert_eq!(bucket_structure.name, "example");
    assert_eq!(bucket_structure.key_n, 10);
    assert!(bucket_structure.children.is_empty());
}

#[test]
fn clone_bytes_copies() {
    assert_eq!(clone_bytes(b"abc"), b"abc".to_vec());
}

#[test]
fn bucket_put_get_delete() {
    let mut b = Bucket::new(InBucket::new(0, 0));
    assert_eq!(b.put(true, b"k", b"v"), Ok(()));
    assert_eq!(b.get(b"k"), Some(&b"v".to_vec()));
    assert_eq!(b.put(true, b"k", b"w"), Ok(()));
    assert_eq!(b.get(b"k"), Some(&b"w".to_vec()));
    assert_eq!(b.delete(true, b"k"), Ok(()));
    assert_eq!(b.get(b"k"), None);
    assert_eq!(b.delete(true, b"missing"), Ok(()));
}

#[test]
fn bucket_put_errors() {
    let mut b = Bucket::new(InBucket::new(0, 0));
    assert_eq!(b.put(true, b"", b"v"), Err(BoltError::KeyRequired));
    assert_eq!(b.put(false, b"k", b"v"), Err(BoltError::TxNotWritable));
    assert_eq!(b.delete(false, b"k"), Err(BoltError::TxNotWritable));
    let big = vec![7u8; MAX_KEY_SIZE];
    assert_eq!(b.put(true, &big, b"v"), Ok(()));
    let bigger = vec![7u8; MAX_KEY_SIZE + 1];
    assert_eq!(b.put(true, &bigger, b"v"), Err(BoltError::KeyTooLarge));
    assert_eq!(MAX_VALUE_SIZE, (1usize << 31) - 2);
}

#[test]
fn bucket_sequence() {
    let mut b = Bucket::new(InBucket::new(0, 41));
    assert_eq!(b.sequence(), 41);
    assert_eq!(b.next_sequence(true), Ok(42));
    assert_eq!(b.set_sequence(true, 100), Ok(()));
    assert_eq!(b.sequence(), 100);
    assert_eq!(b.next_sequence(false), Err(BoltError::TxNotWritable));
    assert_eq!(b.set_sequence(false, 1), Err(BoltError::TxNotWritable));
}

#[test]
fn node_put_keeps_order_and_del_marks_unbalanced() {
    let mut n = Node::new(true);
    for k in [b"d", b"b", b"a", b"c"] {
        n.put(k, k, b"x", 0, 0);
    }
    let keys: Vec<Vec<u8>> = (0..n.num_children()).map(|i| n.inodes.get(i).key().clone()).collect();
    assert_eq!(keys, vec![b"a".to_vec(), b"b".to_vec(), b"c".to_vec(), b"d".to_vec()]);
    assert!(!n.unbalanced);
    n.del(b"zz");
    assert!(!n.unbalanced);
    n.del(b"b");
    assert!(n.unbalanced);
    assert_eq!(n.num_children(), 3);
    assert_eq!(n.size(), 16 + 3 * 16 + 3 * 2);
    assert_eq!(n.min_keys(), 1);
    assert_eq!(Node::new(false).min_keys(), 2);
}

#[test]
fn node_split_index_and_split_two() {
    let mut n = Node::new(true);
    for i in 0..10u8 {
        n.put(&[b'a' + i], &[b'a' + i], &[0u8; 83], 0, 0);
    }
    // Each inode takes 16 + 1 + 83 = 100 bytes; with a threshold of 250 the first cut
    // after the minimum of two inodes is where a third would pass it.
    let (i, sz) = n.split_index(250);
    assert_eq!(i, 2);
    assert_eq!(sz, 16 + 200);
    let (i, _) = n.split_index(100_000);
    assert_eq!(i, 8);
    let right = n.split_two(512, 500).unwrap();
    assert_eq!(n.num_children() + right.num_children(), 10);
    assert_eq!(n.num_children(), 2);
    let mut small = Node::new(true);
    small.put(b"a", b"a", b"1", 0, 0);
    assert!(small.split_two(512, 500).is_none());
}

#[test]
fn node_split_parts_keep_two_inodes() {
    let mut n = Node::new(true);
    for i in 0..50u8 {
        n.put(&[b'a', i], &[b'a', i], &[1u8; 60], 0, 0);
    }
    let parts = n.split(1024, 500).unwrap();
    assert!(parts.len() > 1);
    let total: usize = parts.iter().map(|p| p.num_children()).sum();
    assert_eq!(total, 50);
    for p in &parts {
        assert!(p.num_children() >= 2);
    }
}

#[test]
fn freelist_allocate_free_release() {
    let mut f = Freelist::new();
    f.free(5, 3, 0).unwrap();
    f.free(5, 4, 1).unwrap();
    f.free(6, 9, 0).unwrap();
    assert_eq!(f.pending_count(), 4);
    assert_eq!(f.allocate(7, 1), 0);
    assert!(f.freed(4) && f.freed(5) && !f.freed(6));
    f.release(5);
    assert_eq!(f.ids, vec![3, 4, 5]);
    assert_eq!(f.allocate(7, 2), 3);
    assert_eq!(f.ids, vec![5]);
    f.rollback(6);
    assert_eq!(f.pending_count(), 0);
    assert_eq!(f.copy_all(), vec![5]);
}

#[test]
fn freelist_readers_hold_back_release() {
    let mut f = Freelist::new();
    f.free(3, 10, 0).unwrap();
    f.free(8, 11, 0).unwrap();
    f.add_readonly_txid(5);
    f.release_pending_pages();
    assert_eq!(f.ids, vec![10]);
    f.remove_readonly_txid(5);
    f.release_pending_pages();
    assert_eq!(f.ids, vec![10, 11]);
}

#[test]
fn freelist_allocate_takes_the_first_run() {
    let mut f = Freelist { ids: vec![3, 5, 6, 8, 9, 10], pending: vec![], readonly_txids: vec![], kind: FreelistType::Array };
    assert_eq!(f.allocate(1, 2), 5);
    assert_eq!(f.ids, vec![3, 8, 9, 10]);
    assert_eq!(f.allocate(1, 4), 0);
    assert_eq!(f.allocate(1, 3), 8);
}

#[test]
fn tx_stats_counters() {
    let mut s = TxStats::default();
    s.inc_page_count();
    s.inc_page_count();
    s.inc_split();
    s.inc_spill_time(5);
    assert_eq!(s.page_count(), 2);
    assert_eq!(s.split(), 1);
    assert_eq!(s.spill_time(), 5);
    let d = s.sub(&TxStats { page_count: 1, ..Default::default() });
    assert_eq!(d.page_count, 1);
    assert_eq!(d.split, 1);
}

#[test]
fn branch_keys_are_first_keys_of_children() {
    let mut left = Node::new(true);
    left.put(b"a", b"a", b"1", 0, 0);
    left.put(b"b", b"b", b"2", 0, 0);
    let mut right = Node::new(true);
    right.put(b"m", b"m", b"3", 0, 0);
    let b = Node::branch_of(&vec![left, right], &vec![7, 9]).unwrap();
    assert!(!b.is_leaf());
    assert_eq!(b.inodes.get(0).key(), &b"a".to_vec());
    assert_eq!(b.inodes.get(0).pgid(), 7);
    assert_eq!(b.inodes.get(1).key(), &b"m".to_vec());
    assert_eq!(b.inodes.get(1).pgid(), 9);
    let mut late = Node::new(true);
    late.put(b"z", b"z", b"1", 0, 0);
    let mut early = Node::new(true);
    early.put(b"c", b"c", b"1", 0, 0);
    assert!(Node::branch_of(&vec![late, early], &vec![1, 2]).is_err());
}

#[test]
fn freelist_estimated_size() {
    let f = Freelist { ids: vec![2, 3], pending: vec![(1, 9)], readonly_txids: vec![], kind: FreelistType::Array };
    assert_eq!(f.estimated_write_page_size(), 16 + 24);
    let big = Freelist { ids: (2..0x10001u64).collect(), pending: vec![], readonly_txids: vec![], kind: FreelistType::Array };
    assert_eq!(big.estimated_write_page_size(), 16 + 8 * (0xFFFF + 1));
}

#[test]
fn freelist_refuses_double_free() {
    let mut f = Freelist::new();
    f.free(4, 10, 2).unwrap();
    assert!(f.free(5, 12, 0).is_err());
    assert_eq!(f.pending_count(), 3);
    f.release(4);
    assert!(f.free(6, 11, 0).is_err());
    assert_eq!(f.free(6, 13, 0), Ok(()));
}

#[test]
fn hashmap_freelist_takes_the_shortest_fitting_span() {
    let mut f = Freelist::with_type(FreelistType::HashMap);
    f.ids = vec![3, 4, 5, 6, 10, 11, 20, 21, 22];
    // Spans: 3..=6 (4), 10..=11 (2), 20..=22 (3). Two pages come from the span of two.
    assert_eq!(f.allocate(1, 2), 10);
    assert_eq!(f.ids, vec![3, 4, 5, 6, 20, 21, 22]);
    // Three pages come from the span of three, not the first span of four.
    assert_eq!(f.allocate(1, 3), 20);
    assert_eq!(f.allocate(1, 5), 0);
    let mut a = Freelist::new();
    a.ids = vec![3, 4, 5, 6, 10, 11];
    assert_eq!(a.allocate(1, 2), 3);
}

#[test]
fn size_less_than_compares_the_exact_size() {
    let n = Node::new(true);
    assert_eq!(n.size(), 16);
    assert!(!n.size_less_than(0));
    assert!(!n.size_less_than(16));
    assert!(n.size_less_than(17));
}
