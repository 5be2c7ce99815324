use cqdb::format::Bucket;
use cqdb::writer::build_table;
use cqdb::{CQDBWriter, Error, Flag, Stream, CQDB};

fn build(flag: Flag, n: i32) -> Vec<u8> {
    let mut writer = CQDBWriter::with_flag(Stream::new(), flag).unwrap();
    for id in 0..n {
        let key = format!("{:08}", id);
        writer.put(key.as_bytes(), id).unwrap();
    }
    writer.close().unwrap().into_inner()
}

#[test]
fn test_cqdb_writer() {
    let mut writer = CQDBWriter::new(Stream::new()).unwrap();
    for id in 0..100 {
        let key = format!("{:08}", id);
        writer.put(key.as_bytes(), id).unwrap();
    }
    let buf = writer.close().unwrap().into_inner();

    let db = CQDB::new(&buf).unwrap();
    assert_eq!(100, db.num());

    // Forward lookups, strings to integer indentifiers
    for i in 0..db.num() {
        let s = format!("{:08}", i);
        let j = db.to_id(&s).unwrap();
        assert_eq!(i as u32, j);
    }

    // Backward lookups: integer identifiers to strings.
    for i in 0..db.num() {
        let value = db.to_str(i as u32).unwrap();
        assert_eq!(value, format!("{:08}", i));
    }
}

#[test]
fn sequential_keys_scenario() {
    let buf = build(Flag::NONE, 100);
    let db = CQDB::new(&buf).unwrap();
    assert_eq!(db.num(), 100);
    assert_eq!(db.to_id("00000042"), Some(42));
    assert_eq!(db.to_str(42).unwrap(), "00000042");
    assert_eq!(db.to_id("nonexistent"), None);
}

#[test]
fn chunk_layout_of_one_pair() {
    let mut writer = CQDBWriter::new(Stream::new()).unwrap();
    writer.put(b"abc", 0).unwrap();
    let buf = writer.close().unwrap().into_inner();
    // header + directory + record (4 + 4 + 4) + two buckets + one backlink
    assert_eq!(buf.len(), 2072 + 12 + 16 + 4);
    assert_eq!(&buf[0..4], b"CQDB");
    assert_eq!(&buf[4..8], &(buf.len() as u32).to_le_bytes());
    assert_eq!(&buf[8..12], &0u32.to_le_bytes());
    assert_eq!(&buf[12..16], &0x62445371u32.to_le_bytes());
    assert_eq!(&buf[16..20], &1u32.to_le_bytes());
    assert_eq!(&buf[20..24], &(2072u32 + 12 + 16).to_le_bytes());
    // the record
    assert_eq!(&buf[2072..2084], &[0, 0, 0, 0, 4, 0, 0, 0, b'a', b'b', b'c', 0]);
    // the backward array points at the record
    assert_eq!(&buf[2100..2104], &2072u32.to_le_bytes());
    // exactly one table has an entry, with two buckets right after the record
    let hash = cqdb::jhash(b"abc\0", 4, 0);
    for t in 0..256usize {
        let offset = u32::from_le_bytes(buf[24 + 8 * t..28 + 8 * t].try_into().unwrap());
        let count = u32::from_le_bytes(buf[28 + 8 * t..32 + 8 * t].try_into().unwrap());
        if t == (hash % 256) as usize {
            assert_eq!(offset, 2084);
            assert_eq!(count, 2);
        } else {
            assert_eq!(offset, 0);
            assert_eq!(count, 0);
        }
    }
    // the bucket sits in its home slot, the other slot is vacant
    let home = ((hash >> 8) % 2) as usize;
    let slot = 2084 + 8 * home;
    assert_eq!(&buf[slot..slot + 4], &hash.to_le_bytes());
    assert_eq!(&buf[slot + 4..slot + 8], &2072u32.to_le_bytes());
    let other = 2084 + 8 * (1 - home);
    assert_eq!(&buf[other..other + 8], &[0u8; 8]);
}

#[test]
fn one_way_has_no_backward_lookup() {
    let buf = build(Flag::ONEWAY, 50);
    assert_eq!(&buf[8..12], &1u32.to_le_bytes());
    assert_eq!(&buf[16..24], &[0u8; 8]);
    let db = CQDB::new(&buf).unwrap();
    assert_eq!(db.num(), 50);
    for i in 0..50u32 {
        assert_eq!(db.to_id(&format!("{:08}", i)), Some(i));
        assert!(db.to_str(i).is_none());
    }
    assert!(db.to_str(1000).is_none());
    let mut it = db.iter();
    assert!(it.next().is_none());
}

#[test]
fn negative_id_is_rejected() {
    let mut writer = CQDBWriter::new(Stream::new()).unwrap();
    writer.put(b"first", 0).unwrap();
    assert_eq!(writer.put(b"bad", -1), Err(Error::InvalidId));
    assert_eq!(writer.put(b"worse", i32::MIN), Err(Error::InvalidId));
    writer.put(b"second", 1).unwrap();
    let buf = writer.close().unwrap().into_inner();
    let db = CQDB::new(&buf).unwrap();
    assert_eq!(db.num(), 2);
    assert_eq!(db.to_id("first"), Some(0));
    assert_eq!(db.to_id("second"), Some(1));
    assert_eq!(db.to_id("bad"), None);
    assert_eq!(db.to_id("worse"), None);
}

#[test]
fn not_found() {
    let buf = build(Flag::NONE, 10);
    let db = CQDB::new(&buf).unwrap();
    assert_eq!(db.to_id("never inserted"), None);
    assert_eq!(db.to_id(""), None);
    assert_eq!(db.to_id_impl(b"never inserted"), Ok(None));
    assert!(db.to_str(10).is_none());
    assert!(db.to_str(u32::MAX).is_none());
    assert!(matches!(db.to_str_impl(10), Ok(None)));
}

#[test]
fn sparse_ids() {
    let mut writer = CQDBWriter::new(Stream::new()).unwrap();
    writer.put(b"zero", 0).unwrap();
    writer.put(b"five", 5).unwrap();
    writer.put(b"two", 2).unwrap();
    let buf = writer.close().unwrap().into_inner();
    // the backward array covers the identifiers 0..=5
    assert_eq!(&buf[16..20], &6u32.to_le_bytes());
    let db = CQDB::new(&buf).unwrap();
    assert_eq!(db.num(), 3);
    assert_eq!(db.to_id("zero"), Some(0));
    assert_eq!(db.to_id("five"), Some(5));
    assert_eq!(db.to_id("two"), Some(2));
    assert_eq!(db.to_str(0).unwrap(), "zero");
    assert_eq!(db.to_str(2).unwrap(), "two");
    // identifier 1 was never put
    assert!(db.to_str(1).is_none());
    // only as many backward links are read as there are associations
    assert!(db.to_str(5).is_none());
    let mut it = db.iter();
    let (id, s) = it.next().unwrap();
    assert_eq!((id, s), (0, bstr::BStr::new("zero")));
    let (id, s) = it.next().unwrap();
    assert_eq!((id, s), (2, bstr::BStr::new("two")));
    assert!(it.next().is_none());
    assert!(it.next().is_none());
}

#[test]
fn iteration_is_in_order_and_restartable() {
    let buf = build(Flag::NONE, 20);
    let db = CQDB::new(&buf).unwrap();
    for _ in 0..2 {
        let mut it = db.iter();
        for i in 0..20u32 {
            let (id, s) = it.next().unwrap();
            assert_eq!(id, i);
            assert_eq!(s, format!("{:08}", i));
        }
        assert!(it.next().is_none());
    }
}

#[test]
fn keys_that_share_a_table_are_told_apart() {
    // Find keys of one hash class, and among them two with one home slot.
    let mut class: Vec<String> = Vec::new();
    let mut i = 0u32;
    while class.len() < 40 {
        let key = format!("key-{}", i);
        let mut bytes = key.clone().into_bytes();
        bytes.push(0);
        let hash = cqdb::jhash(&bytes, bytes.len() as u32, 0);
        if hash % 256 == 7 {
            class.push(key);
        }
        i += 1;
    }
    let mut writer = CQDBWriter::new(Stream::new()).unwrap();
    for (id, key) in class.iter().enumerate() {
        writer.put(key.as_bytes(), id as i32).unwrap();
    }
    let buf = writer.close().unwrap().into_inner();
    // all forty keys went to table 7, which has eighty buckets
    let count = u32::from_le_bytes(buf[28 + 8 * 7..32 + 8 * 7].try_into().unwrap());
    assert_eq!(count, 80);
    for t in 0..256usize {
        if t != 7 {
            assert_eq!(&buf[24 + 8 * t..32 + 8 * t], &[0u8; 8]);
        }
    }
    let db = CQDB::new(&buf).unwrap();
    assert_eq!(db.num(), 40);
    for (id, key) in class.iter().enumerate() {
        assert_eq!(db.to_id(key), Some(id as u32));
        assert_eq!(db.to_str(id as u32).unwrap(), key.as_str());
    }
    assert_eq!(db.to_id("key-absent"), None);
}

#[test]
fn bucket_arrays_are_twice_the_key_count() {
    let buf = build(Flag::NONE, 1000);
    let mut total = 0u32;
    let mut next = 0u32;
    for t in 0..256usize {
        let offset = u32::from_le_bytes(buf[24 + 8 * t..28 + 8 * t].try_into().unwrap());
        let count = u32::from_le_bytes(buf[28 + 8 * t..32 + 8 * t].try_into().unwrap());
        assert_eq!(count % 2, 0);
        if count == 0 {
            assert_eq!(offset, 0);
            continue;
        }
        if next != 0 {
            assert_eq!(offset, next);
        }
        next = offset + 8 * count;
        // count the live buckets
        let mut live = 0u32;
        for k in 0..count as usize {
            let at = offset as usize + 8 * k + 4;
            if u32::from_le_bytes(buf[at..at + 4].try_into().unwrap()) != 0 {
                live += 1;
            }
        }
        assert_eq!(count, 2 * live);
        total += live;
    }
    assert_eq!(total, 1000);
}

#[test]
fn writer_in_the_middle_of_a_stream() {
    let mut stream = Stream::from_vec(vec![0xaa; 100]);
    stream.seek(100);
    let mut writer = CQDBWriter::new(stream).unwrap();
    assert_eq!(writer.get_ref().position(), 100 + 2072);
    for id in 0..10 {
        let key = format!("{:08}", id);
        writer.put(key.as_bytes(), id).unwrap();
    }
    let stream = writer.close().unwrap();
    let end = stream.position();
    let buf = stream.into_inner();
    assert_eq!(&buf[..100], &[0xaa; 100][..]);
    let chunk = &buf[100..];
    let size = u32::from_le_bytes(chunk[4..8].try_into().unwrap());
    assert_eq!(size as usize, chunk.len());
    assert_eq!(end, 100 + size as usize);
    // 10 records of 17 bytes, 10 * 2 buckets, 10 backlinks
    assert_eq!(size, 2072 + 10 * 17 + 10 * 16 + 10 * 4);
    let bwd_offset = u32::from_le_bytes(chunk[20..24].try_into().unwrap());
    assert_eq!(bwd_offset, 2072 + 10 * 17 + 10 * 16);
    // the same pairs written at the start of a stream give the same chunk
    assert_eq!(chunk, &build(Flag::NONE, 10)[..]);
    let db = CQDB::new(chunk).unwrap();
    assert_eq!(db.num(), 10);
    for i in 0..10u32 {
        assert_eq!(db.to_id(&format!("{:08}", i)), Some(i));
        assert_eq!(db.to_str(i).unwrap(), format!("{:08}", i));
    }
}

#[test]
fn empty_database() {
    let buf = CQDBWriter::new(Stream::new()).unwrap().close().unwrap().into_inner();
    assert_eq!(buf.len(), 2072);
    assert_eq!(&buf[0..4], b"CQDB");
    assert_eq!(&buf[4..8], &2072u32.to_le_bytes());
    assert_eq!(&buf[16..24], &[0u8; 8]);
    let db = CQDB::new(&buf).unwrap();
    assert_eq!(db.num(), 0);
    assert_eq!(db.to_id("anything"), None);
    assert!(db.to_str(0).is_none());
}

#[test]
fn keys_with_embedded_nul_and_awkward_lengths() {
    let keys: Vec<Vec<u8>> = vec![
        b"".to_vec(),
        b"a\0b".to_vec(),
        b"a".to_vec(),
        b"a\0".to_vec(),
        b"twelve bytes".to_vec(),
        b"eleven byte".to_vec(),
        b"thirteen byte".to_vec(),
        b"twenty-four bytes long..".to_vec(),
    ];
    let mut writer = CQDBWriter::new(Stream::new()).unwrap();
    for (id, key) in keys.iter().enumerate() {
        writer.put(key, id as i32).unwrap();
    }
    let buf = writer.close().unwrap().into_inner();
    let db = CQDB::new(&buf).unwrap();
    assert_eq!(db.num(), keys.len() as u32);
    for (id, key) in keys.iter().enumerate() {
        assert_eq!(db.to_id_impl(key), Ok(Some(id as u32)));
        assert_eq!(db.to_str(id as u32).unwrap(), key.as_slice());
    }
    assert_eq!(db.to_id_impl(b"a\0\0"), Ok(None));
}

#[test]
fn open_rejects_bad_buffers() {
    let good = build(Flag::NONE, 3);
    assert!(matches!(CQDB::new(&good[..2071]), Err(Error::InvalidFormat)));
    assert!(matches!(CQDB::new(&[]), Err(Error::InvalidFormat)));
    let mut bad = good.clone();
    bad[0] = b'X';
    assert!(matches!(CQDB::new(&bad), Err(Error::MagicMismatch)));
    let mut bad = good.clone();
    bad[12] ^= 0xff;
    assert!(matches!(CQDB::new(&bad), Err(Error::ByteOrderMismatch)));
    // cut into the backward array
    assert!(matches!(CQDB::new(&good[..good.len() - 1]), Err(Error::UnexpectedEof)));
    // cut into the tables
    assert!(matches!(CQDB::new(&good[..2072 + 3 * 17 + 5]), Err(Error::UnexpectedEof)));
    assert!(CQDB::new(&good).is_ok());
}

#[test]
fn lookup_in_a_damaged_chunk_does_not_panic() {
    let mut buf = build(Flag::NONE, 1);
    // point the only bucket and the only backlink far outside the chunk
    let hash = cqdb::jhash(b"00000000\0", 9, 0);
    let home = ((hash >> 8) % 2) as usize;
    let slot = 2072 + 17 + 8 * home;
    buf[slot + 4..slot + 8].copy_from_slice(&0xffff_fff0u32.to_le_bytes());
    let bwd = 2072 + 17 + 16;
    buf[bwd..bwd + 4].copy_from_slice(&0xffff_fff0u32.to_le_bytes());
    let db = CQDB::new(&buf).unwrap();
    assert_eq!(db.to_id_impl(b"00000000"), Err(Error::UnexpectedEof));
    assert_eq!(db.to_id("00000000"), None);
    assert!(matches!(db.to_str_impl(0), Err(Error::UnexpectedEof)));
    assert!(db.to_str(0).is_none());
}

#[test]
fn writer_errors() {
    // the cursor cannot be moved past the header area
    let mut stream = Stream::new();
    stream.seek(usize::MAX - 100);
    assert!(matches!(CQDBWriter::new(stream), Err(Error::Seek)));
    // the stream cannot take the record
    let mut stream = Stream::new();
    stream.seek(usize::MAX - 2072 - 5);
    let mut writer = CQDBWriter::new(stream).unwrap();
    assert_eq!(writer.put(b"key", 0), Err(Error::Write));
    assert_eq!(writer.get_ref().position(), usize::MAX - 5);
    assert!(writer.get_ref().as_slice().is_empty());
}

#[test]
fn one_way_takes_large_ids() {
    // without a backward array a large identifier costs nothing
    let mut writer = CQDBWriter::with_flag(Stream::new(), Flag::ONEWAY).unwrap();
    writer.put(b"key", 1 << 30).unwrap();
    assert!(writer.close().is_ok());
}

#[test]
fn keys_stored_under_one_hash_value() {
    // Three keys under the very same hash value: they share a table and a
    // home slot, and only the comparison of the keys tells them apart.
    let mut writer = CQDBWriter::new(Stream::new()).unwrap();
    writer.put_hashed(b"one", 1, 0x1234_5605).unwrap();
    writer.put_hashed(b"two", 2, 0x1234_5605).unwrap();
    writer.put_hashed(b"three", 0, 0x1234_5605).unwrap();
    // a fourth key in the same table, with a home slot of its own
    writer.put_hashed(b"four", 3, 0x0000_0105).unwrap();
    let buf = writer.close().unwrap().into_inner();
    let db = CQDB::new(&buf).unwrap();
    assert_eq!(db.num(), 4);
    // table 5 has eight buckets
    let count = u32::from_le_bytes(buf[28 + 8 * 5..32 + 8 * 5].try_into().unwrap());
    assert_eq!(count, 8);
    assert_eq!(db.find(b"one", 0x1234_5605), Ok(Some(1)));
    assert_eq!(db.find(b"two", 0x1234_5605), Ok(Some(2)));
    assert_eq!(db.find(b"three", 0x1234_5605), Ok(Some(0)));
    assert_eq!(db.find(b"four", 0x0000_0105), Ok(Some(3)));
    assert_eq!(db.find(b"five", 0x1234_5605), Ok(None));
    // under another hash value the key is not met
    assert_eq!(db.find(b"one", 0x1234_5705), Ok(None));
    assert_eq!(db.to_str(1).unwrap(), "one");
    assert_eq!(db.to_str(2).unwrap(), "two");
    assert_eq!(db.to_str(0).unwrap(), "three");
    assert_eq!(db.to_str(3).unwrap(), "four");
    // home slot of 0x123456 in eight slots is 6: the three keys fill the
    // slots 6, 7 and, wrapping round, 0, in the order they were put
    let table = u32::from_le_bytes(buf[24 + 8 * 5..28 + 8 * 5].try_into().unwrap()) as usize;
    let offset_at = |slot: usize| {
        u32::from_le_bytes(buf[table + 8 * slot + 4..table + 8 * slot + 8].try_into().unwrap())
    };
    assert_eq!(offset_at(6), 2072);
    assert_eq!(offset_at(7), 2072 + 12);
    assert_eq!(offset_at(0), 2072 + 24);
    // home slot of 0x000001 is 1
    assert_eq!(offset_at(1), 2072 + 24 + 14);
    for slot in 2..6 {
        assert_eq!(offset_at(slot), 0);
    }
}

#[test]
fn put_stores_under_the_hash_of_the_terminated_key() {
    let mut a = CQDBWriter::new(Stream::new()).unwrap();
    a.put(b"some key", 0).unwrap();
    let mut b = CQDBWriter::new(Stream::new()).unwrap();
    b.put_hashed(b"some key", 0, cqdb::jhash(b"some key\0", 9, 0)).unwrap();
    assert_eq!(a.close().unwrap().into_inner(), b.close().unwrap().into_inner());
}

#[test]
fn a_failed_put_changes_nothing() {
    let mut writer = CQDBWriter::new(Stream::new()).unwrap();
    writer.put(b"kept", 4).unwrap();
    let before = writer.get_ref().as_slice().to_vec();
    let at = writer.get_ref().position();
    assert_eq!(writer.put(b"dropped", -7), Err(Error::InvalidId));
    assert_eq!(writer.put_hashed(b"dropped", -7, 1), Err(Error::InvalidId));
    assert_eq!(writer.get_ref().as_slice(), &before[..]);
    assert_eq!(writer.get_ref().position(), at);
    let buf = writer.close().unwrap().into_inner();
    let db = CQDB::new(&buf).unwrap();
    assert_eq!(db.num(), 1);
    assert_eq!(db.to_id("kept"), Some(4));
}

#[test]
fn read_bucket_and_backward_links() {
    let buf = build(Flag::NONE, 1);
    let buckets = CQDB::read_bucket(&buf, 2072 + 17, 2).unwrap();
    assert_eq!(buckets.len(), 2);
    let hash = cqdb::jhash(b"00000000\0", 9, 0);
    let home = ((hash >> 8) % 2) as usize;
    assert_eq!(buckets[home].hash, hash);
    assert_eq!(buckets[home].offset, 2072);
    assert_eq!(buckets[1 - home].offset, 0);
    assert_eq!(CQDB::read_backward_links(&buf, 2072 + 17 + 16, 1), Ok(vec![2072]));
    assert_eq!(CQDB::read_backward_links(&buf, 2072 + 17 + 16, 2), Err(Error::UnexpectedEof));
    assert_eq!(CQDB::read_backward_links(&buf, usize::MAX, 0), Ok(vec![]));
    assert!(matches!(CQDB::read_bucket(&buf, 2072 + 17, 3), Err(Error::UnexpectedEof)));
    assert!(matches!(CQDB::read_bucket(&buf, usize::MAX, 1), Err(Error::UnexpectedEof)));
}

#[test]
fn build_table_places_by_open_addressing() {
    assert!(build_table(&vec![]).is_empty());
    // one bucket: two slots, the bucket in its home slot
    let one = build_table(&vec![Bucket { hash: 0x0000_0300, offset: 9 }]);
    assert_eq!(one, vec![Bucket { hash: 0, offset: 0 }, Bucket { hash: 0x0000_0300, offset: 9 }]);
    // the low eight bits of the hash do not count for the home slot
    let list = vec![
        Bucket { hash: 0x0000_05ff, offset: 10 }, // home 5
        Bucket { hash: 0x0000_0500, offset: 20 }, // home 5, goes to 0
        Bucket { hash: 0x0000_0b07, offset: 30 }, // home 11 mod 6 = 5, goes to 1
    ];
    let table = build_table(&list);
    assert_eq!(table.len(), 6);
    assert_eq!(table[5], list[0]);
    assert_eq!(table[0], list[1]);
    assert_eq!(table[1], list[2]);
    for slot in 2..5 {
        assert_eq!(table[slot], Bucket { hash: 0, offset: 0 });
    }
}

/// A chunk of the two pairs ("00000000", 0) and ("00000042", 1), put
/// together byte by byte.
fn chunk_by_hand() -> Vec<u8> {
    fn word(buf: &mut Vec<u8>, at: usize, value: u32) {
        buf[at..at + 4].copy_from_slice(&value.to_le_bytes());
    }
    let mut buf = vec![0u8; 2146];
    buf[0..4].copy_from_slice(b"CQDB");
    word(&mut buf, 4, 2146);
    word(&mut buf, 8, 0);
    word(&mut buf, 12, 0x62445371);
    word(&mut buf, 16, 2);
    word(&mut buf, 20, 2138);
    // the hash values of the two keys are 0x7624bf55 and 0x49482d83:
    // tables 0x55 and 0x83, two buckets each, after the two records
    word(&mut buf, 24 + 8 * 0x55, 2106);
    word(&mut buf, 28 + 8 * 0x55, 2);
    word(&mut buf, 24 + 8 * 0x83, 2122);
    word(&mut buf, 28 + 8 * 0x83, 2);
    // the records
    word(&mut buf, 2072, 0);
    word(&mut buf, 2076, 9);
    buf[2080..2088].copy_from_slice(b"00000000");
    word(&mut buf, 2089, 1);
    word(&mut buf, 2093, 9);
    buf[2097..2105].copy_from_slice(b"00000042");
    // both home slots are 1: 0x7624bf and 0x49482d are odd
    word(&mut buf, 2106 + 8, 0x7624bf55);
    word(&mut buf, 2106 + 12, 2072);
    word(&mut buf, 2122 + 8, 0x49482d83);
    word(&mut buf, 2122 + 12, 2089);
    // the backward array
    word(&mut buf, 2138, 2072);
    word(&mut buf, 2142, 2089);
    buf
}

#[test]
fn reads_a_chunk_put_together_by_hand() {
    let buf = chunk_by_hand();
    let db = CQDB::new(&buf).unwrap();
    assert_eq!(db.num(), 2);
    assert_eq!(db.to_id("00000000"), Some(0));
    assert_eq!(db.to_id("00000042"), Some(1));
    assert_eq!(db.to_id("00000001"), None);
    assert_eq!(db.to_str(0).unwrap(), "00000000");
    assert_eq!(db.to_str(1).unwrap(), "00000042");
    assert!(db.to_str(2).is_none());
}

#[test]
fn writes_the_chunk_put_together_by_hand() {
    let mut writer = CQDBWriter::new(Stream::new()).unwrap();
    writer.put(b"00000000", 0).unwrap();
    writer.put(b"00000042", 1).unwrap();
    assert_eq!(writer.close().unwrap().into_inner(), chunk_by_hand());
}
