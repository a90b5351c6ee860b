use kagi::block::filter_policy::{FilterBitsBuilder, FilterBitsReader, FilterPolicy};
use kagi::block::{Block, BloomFilterPolicy, DataBlockBuilder, DataBlockView, ItemPointer};
use kagi::key::{Bytewise, StringKey, U32Key};
use kagi::table::block_table::default_block_cache;
use kagi::table::{
    BlockTableBuilder, BlockTableOptions, BlockTableReader, MemoryTables, OwningTableIterator,
    TableBuilder, TableCache, TableFileRef, TableIterator, TableStore,
};
use kagi::merging_iter::MergingIter;
use kagi::transaction::Timestamp;
use kagi::Error;
use std::collections::BTreeMap;
use std::sync::Arc;

fn get_keys() -> Vec<&'static [u8]> {
    vec![
        "abcd".as_bytes(),
        "efgh".as_bytes(),
        "ijkl".as_bytes(),
        "mnopqrstuvwxyz".as_bytes(),
    ]
}

#[test]
fn can_build_and_read_bloom_filter() {
    let policy = BloomFilterPolicy::default();
    let mut builder = policy.get_filter_bits_builder();

    let keys = get_keys();
    let unknown_keys = vec!["xsb".as_bytes(), "9sad".as_bytes(), "assssaaaass".as_bytes()];

    for k in &keys {
        builder.add_key(k);
    }

    let data = builder.seal();

    let reader = policy.get_filter_bits_reader(&data);

    for k in &keys {
        assert!(reader.may_match(k));
    }

    for k in &unknown_keys {
        assert!(!reader.may_match(k));
    }
}

fn encode(n: u32) -> Vec<u8> {
    bincode::serialize(&n).unwrap()
}

fn decode(bytes: &[u8]) -> u32 {
    bincode::deserialize(bytes).unwrap()
}

#[test]
fn can_build_table() {
    let options = BlockTableOptions::default();
    let mut builder = BlockTableBuilder::new(options);

    for i in 0..1000 {
        assert!(builder.add(&encode(i), &encode(i + 1)).is_ok());
    }

    assert!(builder.finish().is_ok());
}

#[test]
fn can_read_table() {
    let options = BlockTableOptions::default();
    let mut builder = BlockTableBuilder::new(options);

    for i in 1..=1000 {
        assert!(builder.add(&encode(i), &encode(i + 1)).is_ok());
    }

    assert!(builder.finish().is_ok());
    let file = builder.take_output();

    let options = BlockTableOptions::default();
    let mut cache = default_block_cache();
    let file_size = file.len();
    let reader = BlockTableReader::open(options, file, file_size, &mut cache).unwrap();

    let mut get = |i: u32| {
        reader.get::<U32Key>(&mut cache, &encode(i)).unwrap().map(|v| decode(&v))
    };
    for i in 1..=1000 {
        assert_eq!(get(i), Some(i + 1));
    }
    assert_eq!(get(0), None);
    assert_eq!(get(1001), None);

    let mut iter = reader.iter(false);
    let mut count = 0;
    while let Some((k, v)) = iter.next().unwrap() {
        assert_eq!(decode(&k) + 1, decode(&v));
        count += 1;
    }
    assert_eq!(count, 1000);
}

#[test]
fn can_read_string_table() {
    let mut map = BTreeMap::new();
    let encode = |s: &str| bincode::serialize(s).unwrap();
    let decode = |b: &[u8]| -> String { bincode::deserialize(b).unwrap() };

    let options = BlockTableOptions::default();
    let mut builder = BlockTableBuilder::new(options);

    for i in 1..=1000 {
        map.insert(i.to_string(), (i + 1).to_string());
    }

    for (k, v) in &map {
        assert!(builder.add(&encode(k), &encode(v)).is_ok());
    }

    assert!(builder.finish().is_ok());
    let file = builder.take_output();

    let options = BlockTableOptions::default();
    let mut cache = default_block_cache();
    let file_size = file.len();
    let reader = BlockTableReader::open(options, file, file_size, &mut cache).unwrap();

    for (k, v) in &map {
        let got = reader.get::<StringKey>(&mut cache, &encode(k)).unwrap();
        assert_eq!(got.map(|b| decode(&b)), Some(v.to_owned()));
    }
    assert_eq!(reader.get::<StringKey>(&mut cache, &encode("0")).unwrap(), None);
    assert_eq!(reader.get::<StringKey>(&mut cache, &encode("1001")).unwrap(), None);

    let mut iter = reader.iter(false);
    let mut count = 0;
    while let Some((k, v)) = iter.next_cached(&mut cache).unwrap() {
        assert_eq!(decode(&k).parse::<u32>().unwrap() + 1, decode(&v).parse::<u32>().unwrap());
        count += 1;
    }
    assert_eq!(count, 1000);
}

#[test]
fn filters_are_made_of_cache_lines() {
    let policy = BloomFilterPolicy::default();
    // No keys, no bits; only the number of probes.
    assert_eq!(policy.get_filter_bits_builder().seal().len(), 1);
    let mut builder = policy.get_filter_bits_builder();
    for i in 0..100u32 {
        builder.add_key(&encode(i));
    }
    // Ten bits per key, in whole lines of 64 bytes.
    assert_eq!(builder.seal().len(), 128 + 1);
}

#[test]
fn tables_without_entries_have_no_values() {
    let file = small_table(&[]);
    let size = file.len();
    let mut cache = default_block_cache();
    let options = BlockTableOptions::default();
    let reader = BlockTableReader::open(options, file, size, &mut cache).unwrap();
    assert_eq!(reader.get::<Bytewise>(&mut cache, b"a").unwrap(), None);
    assert!(reader.iter(false).next().unwrap().is_none());
}

#[test]
fn blocks_hold_their_entries() {
    let mut builder = DataBlockBuilder::new(3);
    assert!(builder.empty());
    let keys: Vec<Vec<u8>> = (0..10u8).map(|i| vec![b'k', b'e', b'y', b'0' + i]).collect();
    for (i, k) in keys.iter().enumerate() {
        builder.add(k, &[i as u8]).unwrap();
    }
    let data = builder.seal();
    let mut it = DataBlockView::new(Block::new(data)).iter();
    let mut n: u8 = 0;
    while let Some((k, v)) = it.next() {
        assert_eq!(k, keys[n as usize]);
        assert_eq!(v, vec![n]);
        n += 1;
    }
    assert_eq!(n, 10);
    // The first entry that is not below the key.
    it.seek::<Bytewise>(b"key45");
    assert_eq!(it.current(), Some((keys[5].clone(), vec![5])));
    assert_eq!(it.next(), Some((keys[6].clone(), vec![6])));
    it.reset();
    assert_eq!(it.next(), Some((keys[0].clone(), vec![0])));
}

#[test]
fn pointers_round_trip() {
    let p = ItemPointer { offset: 300, length: 7 };
    let bytes = p.encode();
    // Two eight-byte numbers, the low byte first.
    assert_eq!(bytes, vec![0x2c, 1, 0, 0, 0, 0, 0, 0, 7, 0, 0, 0, 0, 0, 0, 0]);
    assert_eq!(ItemPointer::decode(&bytes), p);
}

fn small_table(entries: &[(&[u8], &[u8])]) -> Vec<u8> {
    let mut builder = BlockTableBuilder::new(BlockTableOptions::default());
    for (k, v) in entries {
        builder.add(k, v).unwrap();
    }
    builder.finish().unwrap();
    builder.take_output()
}

#[test]
fn large_entries_get_blocks_of_their_own() {
    let mut builder = BlockTableBuilder::new(BlockTableOptions::default());
    let big = vec![7u8; 5000];
    for i in 0..4u8 {
        builder.add(&[b'k', i], &big).unwrap();
    }
    assert!(builder.size_hint() > 3 * 5000);
    builder.finish().unwrap();
    let file = builder.take_output();
    let size = file.len();
    let mut cache = default_block_cache();
    let reader =
        BlockTableReader::open(BlockTableOptions::default(), file, size, &mut cache).unwrap();
    for i in 0..4u8 {
        assert_eq!(reader.get::<Bytewise>(&mut cache, &[b'k', i]).unwrap(), Some(big.clone()));
    }
    assert_eq!(reader.get::<Bytewise>(&mut cache, b"l").unwrap(), None);
}

#[test]
fn damaged_tables_are_refused() {
    let mut file = small_table(&[(b"a", b"1")]);
    let size = file.len();
    // The last bytes say that this is a table.
    file[size - 1] ^= 1;
    let mut cache = default_block_cache();
    let res = BlockTableReader::open(BlockTableOptions::default(), file, size, &mut cache);
    assert!(matches!(res, Err(Error::DataCorrupted(_))));
}

#[test]
fn table_files_are_found_again() {
    let mut store = MemoryTables::new();
    let a = TableFileRef::new(0, 1);
    let b = TableFileRef::new(0, 2);
    store.create_table(a, small_table(&[(b"a", b"1"), (b"b", b"2")])).unwrap();
    store.create_table(b, small_table(&[(b"c", b"3")])).unwrap();
    let (_, size) = store.open_table(a).unwrap();
    assert!(size > 40);
    assert!(matches!(store.open_table(TableFileRef::new(0, 3)), Err(Error::Io(_))));

    let factory = kagi::table::block_table::default_table_factory();
    let mut tables = TableCache::new(factory, 64);
    assert_eq!(
        tables.get_in_file::<Bytewise, MemoryTables>(&store, a, b"b").unwrap(),
        Some(b"2".to_vec())
    );
    assert_eq!(tables.get_in_file::<Bytewise, MemoryTables>(&store, a, b"c").unwrap(), None);
    assert_eq!(
        tables.get_in_file::<Bytewise, MemoryTables>(&store, b, b"c").unwrap(),
        Some(b"3".to_vec())
    );
    assert!(tables
        .get_in_file::<Bytewise, MemoryTables>(&store, TableFileRef::new(0, 9), b"c")
        .is_err());
}

#[test]
fn merging_takes_the_youngest_value() {
    let open = |entries: &[(&[u8], &[u8])]| {
        let file = small_table(entries);
        let size = file.len();
        let mut cache = default_block_cache();
        let options = BlockTableOptions::default();
        let reader = BlockTableReader::open(options, file, size, &mut cache).unwrap();
        OwningTableIterator::from_table(Arc::new(reader))
    };
    let iters = vec![
        (Timestamp::from(30), open(&[(b"a", b"new"), (b"c", b"3")])),
        (Timestamp::from(20), open(&[(b"a", b"old"), (b"b", b"2")])),
        (Timestamp::from(0), open(&[(b"b", b"oldest"), (b"d", b"4")])),
    ];
    let mut it = MergingIter::<Bytewise, Vec<u8>>::new(iters);
    let mut out = Vec::new();
    while let Some((k, v)) = it.next().unwrap() {
        out.push((k, v));
    }
    let expected: Vec<(Vec<u8>, Vec<u8>)> = vec![
        (b"a".to_vec(), b"new".to_vec()),
        (b"b".to_vec(), b"2".to_vec()),
        (b"c".to_vec(), b"3".to_vec()),
        (b"d".to_vec(), b"4".to_vec()),
    ];
    assert_eq!(out, expected);

    // The tables are left at their ends.
    assert!(it.next().unwrap().is_none());
    it.reset();
    assert!(it.next().unwrap().is_none());
}

#[test]
fn builders_are_empty_after_their_block_is_taken() {
    let mut builder = DataBlockBuilder::new(4);
    assert!(builder.empty());
    // One restart point and their number.
    assert_eq!(builder.full_len(), 8);
    builder.add(b"abc", b"1").unwrap();
    assert!(!builder.empty());
    builder.add(b"abd", b"2").unwrap();
    let len = builder.full_len();
    // Three lengths, what the keys do not share, and the values.
    assert_eq!(len, 8 + (3 + 3 + 1) + (3 + 1 + 1));
    assert_eq!(builder.seal().len(), len);
    assert!(builder.empty());
    builder.add(b"x", b"3").unwrap();
    assert!(!builder.empty());
    builder.reset();
    assert!(builder.empty());
    assert_eq!(builder.full_len(), 8);
}

#[test]
fn iterators_stand_at_what_they_read() {
    let mut builder = DataBlockBuilder::new(2);
    for k in [b"a", b"b", b"c"] {
        builder.add(k, b"v").unwrap();
    }
    let mut it = DataBlockView::new(Block::new(builder.seal())).iter();
    assert!(!it.valid());
    assert!(it.current().is_none());
    for _ in 0..3 {
        assert!(it.next().is_some());
        assert!(it.valid());
        assert!(it.current().is_some());
    }
    assert!(it.next().is_none());
    assert!(!it.valid());
    assert!(it.current().is_none());
}

#[test]
fn blocks_end_where_they_are_full() {
    let options = BlockTableOptions { block_size: 40, ..BlockTableOptions::default() };
    let mut builder = BlockTableBuilder::new(options);
    let mut sizes = vec![builder.size_hint()];
    for k in [b"a", b"b", b"c", b"d"] {
        builder.add(k, b"12345").unwrap();
        sizes.push(builder.size_hint());
    }
    // An entry takes nine bytes. Three of them leave room for no other in a block of 40 bytes, so
    // the fourth starts a new one: eight bytes and a checksum of four more.
    assert_eq!(sizes, vec![48, 57, 66, 75, 96]);
}

#[test]
fn tables_without_filter_bits_are_walked_over() {
    let options = BlockTableOptions {
        block_size: 30,
        filter_policy: BloomFilterPolicy { millibits_per_key: 0 },
        ..BlockTableOptions::default()
    };
    let mut builder = BlockTableBuilder::new(options);
    for k in [b"a", b"b", b"c"] {
        builder.add(k, b"12345").unwrap();
    }
    builder.finish().unwrap();
    let file = builder.take_output();
    let size = file.len();
    let mut cache = default_block_cache();
    let reader = BlockTableReader::open(options, file, size, &mut cache).unwrap();
    let mut it = reader.iter(false);
    for k in [b"a", b"b", b"c"] {
        assert_eq!(it.next().unwrap(), Some((k.to_vec(), b"12345".to_vec())));
    }
    assert!(it.next().unwrap().is_none());
}

#[test]
fn empty_keys_are_not_found() {
    let file = small_table(&[(b"", b"0"), (b"a", b"1")]);
    let size = file.len();
    let mut cache = default_block_cache();
    let options = BlockTableOptions::default();
    let reader = BlockTableReader::open(options, file, size, &mut cache).unwrap();
    assert_eq!(reader.get::<Bytewise>(&mut cache, b"").unwrap(), None);
    assert_eq!(reader.get::<Bytewise>(&mut cache, b"a").unwrap(), Some(b"1".to_vec()));
    assert_eq!(reader.iter(false).next().unwrap(), Some((b"".to_vec(), b"0".to_vec())));
}

#[test]
fn filters_keep_what_was_added() {
    let policy = BloomFilterPolicy::default();
    let mut keys: Vec<Vec<u8>> = Vec::new();
    for n in 0..40u32 {
        keys.push(encode(n));
        let mut builder = policy.get_filter_bits_builder();
        for k in &keys {
            builder.add_key(k);
        }
        let data = builder.seal();
        let reader = policy.get_filter_bits_reader(&data);
        assert!(keys.iter().all(|k| reader.may_match(k)));
    }
    // A line of zeros has nothing but for a key that is not probed.
    let mut zeros = vec![0u8; 65];
    zeros[64] = 6;
    assert!(!policy.get_filter_bits_reader(&zeros).may_match(b"abcd"));
    zeros[64] = 0;
    assert!(policy.get_filter_bits_reader(&zeros).may_match(b"abcd"));
}
