use boltdb::errors::BoltError;
use boltdb::freelist::{read_freelist_page, write_freelist_page};
use boltdb::inode::{read_inode_from_page, write_inode_to_page, Inode, Inodes};
use boltdb::meta::{Meta, MAGIC, VERSION};
use boltdb::page::{
    LeafPageElement, OwnedPage, Page, PgId, BRANCH_PAGE_FLAG, FREELIST_PAGE_FLAG, LEAF_PAGE_FLAG,
    META_PAGE_FLAG,
};
use boltdb::pgids::PgIds;

#[test]
fn it_works() {
    println!("{:?}", BoltError::Checksum);

    let _pid: PgId = 64;
    assert_eq!(2 + 2, 4);
}

#[test]
fn test_page_type() {
    let page = Page::new(0, LEAF_PAGE_FLAG, 0, 0);
    let typ = page.typ();
    println!("page type:{}", typ);
    if typ != "leaf" {
        panic!("is not leaf page")
    }

    assert_eq!(Page::new(0, BRANCH_PAGE_FLAG, 0, 0).typ(), "branch");
    assert_eq!(Page::new(0, LEAF_PAGE_FLAG, 0, 0).typ(), "leaf");
    assert_eq!(Page::new(0, META_PAGE_FLAG, 0, 0).typ(), "meta");
    assert_eq!(Page::new(0, FREELIST_PAGE_FLAG, 0, 0).typ(), "freelist");
}

#[test]
fn unknown_page_type_names_its_flags_in_hex() {
    assert_eq!(Page::new(0, 0x20, 0, 0).typ(), "unknown<20>");
    assert_eq!(Page::new(0, 0x4e20, 0, 0).typ(), "unknown<4e20>");
}

#[test]
fn page_to_string_lists_header_fields() {
    let p = Page::new(123, LEAF_PAGE_FLAG, 7, 1);
    assert_eq!(p.to_string(), "ID: 123, Type: leaf, count: 7, overflow: 1");
}

#[test]
fn test_pgids_merge() {
    let mut pgids_a: PgIds = PgIds::from(vec![12323, 334, 3445, 4456, 333]);
    let pgids_b: PgIds = PgIds { pgids: vec![12323, 4567, 3445, 3489, 33356] };

    println!("pgids a is: {:?}", pgids_a);
    println!("pgids b is: {:?}", pgids_b);

    assert_eq!(pgids_a.len(), 5);

    pgids_a.extend_from_slice(pgids_b);

    println!("pgids a is: {:?}", pgids_a);

    assert_eq!(pgids_a.len(), 8);
}

#[test]
fn pgids_merge_is_sorted_union() {
    let mut a = PgIds::from(vec![9, 3, 3, 7]);
    a.extend_from_slice(PgIds::from(vec![7, 1]));
    assert_eq!(a.to_vec(), vec![1, 3, 7, 9]);
}

#[test]
fn pgids_sort_keeps_repeats() {
    let mut a = PgIds::from(vec![5, 2, 5, 1]);
    a.sort();
    assert_eq!(a.as_slice(), &vec![1, 2, 5, 5]);
}

#[test]
fn pgids_drain_takes_a_range() {
    let mut a = PgIds::from(vec![10, 11, 12, 13, 14]);
    let taken = a.drain(1, 3);
    assert_eq!(taken, vec![11, 12]);
    assert_eq!(a.to_vec(), vec![10, 13, 14]);
}

#[test]
fn test_page_buffer() {
    let page: Page = Page::default();
    println!("new page from default :{}", page.to_string());

    let mut page: Page = Page::default();
    page.set_id(2);
    page.set_flags(LEAF_PAGE_FLAG);
    page.set_count(2);
    page.set_overflow(0);

    let mut buffer = Vec::new();
    page.write_header(&mut buffer);
    let new_page = Page::read_header(&buffer);
    let mut again = Vec::new();
    new_page.write_header(&mut again);

    assert_eq!(buffer, again);
}

#[test]
fn page_header_layout_is_little_endian() {
    let p = Page::new(0x0102030405060708, 0x0002, 0x0304, 0x05060708);
    let mut b = Vec::new();
    p.write_header(&mut b);
    assert_eq!(
        b,
        vec![8, 7, 6, 5, 4, 3, 2, 1, 2, 0, 4, 3, 8, 7, 6, 5]
    );
}

#[test]
fn test_page_new() {
    let buf = vec![0u8; 1024];
    let mut page = Page::read_header(&buf);

    assert_eq!(page.id, 0);
    assert_eq!(page.count, 0);

    page.set_id(36);
    assert_eq!(page.id, 36);

    page.set_flags(META_PAGE_FLAG);
    assert_eq!(page.flags, META_PAGE_FLAG);

    let owned: OwnedPage = OwnedPage::new(1024);
    let mut page = owned.header().unwrap();
    page.set_id(26);
    page.set_count(36);

    assert_eq!(page.id(), 26);
    assert_eq!(owned.size(), 1024);
}

fn two_leaf_elements() -> Vec<u8> {
    let len: usize = 2;
    let mut buf = Vec::new();
    let mut page = Page::new(0, 0, 0, 0);
    page.set_id(123);
    page.set_flags(LEAF_PAGE_FLAG);
    page.set_count(len as u16);
    page.set_overflow(0);
    page.write_header(&mut buf);

    let mut first = LeafPageElement::default();
    first.set_pos(32);
    first.set_ksize(5);
    first.set_flags(1);
    first.set_vsize(5);
    first.write(&mut buf);

    let second = LeafPageElement { flags: 0, pos: 26, ksize: 3, vsize: 4 };
    second.write(&mut buf);
    buf.resize(4096, 0);
    buf
}

#[test]
fn test_read_ownedpage() {
    let buf = two_leaf_elements();
    let page = Page::read_header(&buf);

    let elem = page.leaf_page_element(&buf, 0).unwrap();
    assert_eq!(elem.pos, 32);
    assert_eq!(elem.ksize, 5);
    assert_eq!(elem.vsize, 5);
    assert_eq!(elem.flags(), 1);

    let elem1 = page.leaf_page_element(&buf, 1).unwrap();
    assert_eq!(elem1.pos, 26);
    assert_eq!(elem1.ksize, 3);
    assert_eq!(elem1.vsize, 4);
    assert_eq!(elem1.flags(), 0);
}

#[test]
fn test_write_ownedpage() {
    let buf = two_leaf_elements();
    let page = Page::read_header(&buf);
    assert_eq!(page.typ(), "leaf");
    let size = page.byte_size(&buf).unwrap();
    println!("page head:{}, size:{}", 16, size);
    // The last element starts at 16 + 16 and its data ends 26 + 3 + 4 bytes further.
    assert_eq!(size, 32 + 26 + 3 + 4);
    let owned = OwnedPage::from_vec(buf.clone());
    println!("owned: {}", owned.size());
    assert_eq!(owned.buf(), &buf[..]);
}

#[test]
fn test_meta() {
    let mut buf: Vec<u8> = Vec::new();
    let mut page = Page::new(0, 0, 0, 0);

    let mut meta = Meta {
        magic: MAGIC,
        version: VERSION,
        page_size: 4096,
        flags: 0,
        root: Default::default(),
        freelist: 5,
        pgid: 10,
        txid: 2,
        checksum: 23,
    };

    meta.write(&mut page, &mut buf);

    assert!(meta.validate().is_ok());
    assert_eq!(10, meta.pgid);
    assert!(page.is_meta_page());
    assert!(Meta::read_at(&buf, 16).pgid() == 10);
}

#[test]
fn meta_write_chooses_slot_by_txid_parity() {
    for txid in [6u64, 7u64] {
        let mut m = Meta { magic: MAGIC, version: VERSION, page_size: 4096, pgid: 10, txid, ..Default::default() };
        let mut p = Page::new(9, 0, 0, 0);
        let mut b = Vec::new();
        m.write(&mut p, &mut b);
        assert_eq!(p.id, txid % 2);
        assert_eq!(b.len(), 16 + 64);
    }
}

#[test]
fn meta_validate_reports_each_error() {
    let good = Meta { magic: MAGIC, version: VERSION, page_size: 4096, pgid: 10, txid: 3, ..Default::default() };
    let mut m = good;
    m.checksum = m.sum64();
    assert_eq!(m.validate(), Ok(()));
    assert_eq!(Meta { magic: 1, ..m }.validate(), Err(BoltError::Invalid));
    assert_eq!(Meta { version: 1, ..m }.validate(), Err(BoltError::VersionMismatch));
    assert_eq!(Meta { checksum: m.checksum ^ 1, ..m }.validate(), Err(BoltError::Checksum));
    assert_eq!(Meta { txid: 4, ..m }.validate(), Err(BoltError::Checksum));
}

#[test]
fn meta_checksum_is_fnv1a_of_the_first_56_bytes() {
    let m = Meta { magic: MAGIC, version: VERSION, page_size: 4096, pgid: 10, txid: 3, ..Default::default() };
    let mut b = Vec::new();
    m.write_bytes(&mut b);
    let mut h: u64 = 0xcbf29ce484222325;
    for byte in &b[..56] {
        h ^= *byte as u64;
        h = h.wrapping_mul(0x100000001b3);
    }
    assert_eq!(m.sum64(), h);
    assert_ne!(m.sum64(), 0);
}

#[test]
fn meta_bytes_round_trip() {
    let mut m = Meta { magic: MAGIC, version: VERSION, page_size: 4096, flags: 0, root: boltdb::in_bucket::InBucket::new(3, 9), freelist: 2, pgid: 10, txid: 77, checksum: 0 };
    m.checksum = m.sum64();
    let mut b = vec![0xAA; 5];
    m.write_bytes(&mut b);
    assert_eq!(Meta::read_at(&b, 5), m);
}

fn leaf(keys: &[(&[u8], &[u8], u32)]) -> Inodes {
    let mut s = Inodes::new();
    for (k, v, f) in keys {
        s.push(Inode::new(*f, 0, k.to_vec(), v.to_vec()));
    }
    s
}

#[test]
fn leaf_page_write_then_read_gives_same_inodes() {
    let inodes = leaf(&[(b"a", b"1", 0), (b"bb", b"", 1), (b"ccc", b"three", 0)]);
    let mut page = Page::new(4, LEAF_PAGE_FLAG, 3, 0);
    let mut buf = Vec::new();
    page.write_header(&mut buf);
    let size = write_inode_to_page(&inodes, &page, &mut buf);
    assert_eq!(size as usize, 3 * 16 + 1 + 1 + 2 + 3 + 5);
    // First element: flags 0, key 48 bytes after it, key size 1, value size 1.
    assert_eq!(&buf[16..32], &[0, 0, 0, 0, 48, 0, 0, 0, 1, 0, 0, 0, 1, 0, 0, 0]);
    page.count = 3;
    let back = read_inode_from_page(&page, &buf).unwrap();
    assert_eq!(back.len(), 3);
    for i in 0..3 {
        assert_eq!(back.get(i).key(), inodes.get(i).key());
        assert_eq!(back.get(i).value(), inodes.get(i).value());
        assert_eq!(back.get(i).flags(), inodes.get(i).flags());
    }
}

#[test]
fn page_read_rejects_elements_outside_the_page() {
    let inodes = leaf(&[(b"a", b"1", 0)]);
    let page = Page::new(4, LEAF_PAGE_FLAG, 1, 0);
    let mut buf = Vec::new();
    page.write_header(&mut buf);
    write_inode_to_page(&inodes, &page, &mut buf);
    buf.truncate(buf.len() - 1);
    assert!(read_inode_from_page(&page, &buf).is_err());
}

#[test]
fn freelist_page_round_trips_with_and_without_overflow() {
    for n in [0usize, 3, 0xFFFE, 0xFFFF, 0x10005] {
        let ids: Vec<u64> = (0..n as u64).map(|i| i * 2 + 5).collect();
        let mut page = Page::new(7, 0, 0, 0);
        let mut buf = Vec::new();
        write_freelist_page(&ids, &mut page, &mut buf);
        if n >= 0xFFFF {
            assert_eq!(page.count, 0xFFFF);
            assert_eq!(u64::from_le_bytes(buf[16..24].try_into().unwrap()), n as u64);
        } else {
            assert_eq!(page.count as usize, n);
        }
        let back = read_freelist_page(&page, &buf).unwrap();
        assert_eq!(back, ids);
    }
}
