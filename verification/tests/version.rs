use kagi::key::{Bytewise, StringKey};
use kagi::options::table_file_name;
use kagi::table::block_table::default_table_factory;
use kagi::table::{
    MemoryTables, TableBuilder, TableCache, TableFileMeta, TableFileRef, TableIterator, TableStore,
};
use kagi::transaction::Timestamp;
use kagi::version::builder::VersionBuilder;
use kagi::version::{CompactionScore, Version, VersionEdit, VersionSet};
use kagi::DbOptions;

fn encode(s: &str) -> Vec<u8> {
    bincode::serialize(s).unwrap()
}

fn write_table(
    store: &mut MemoryTables,
    contents: &[(&str, &str)],
    min_xip: Timestamp,
    file_num: usize,
) -> TableFileMeta {
    assert!(contents.len() > 0);

    let file_ref = TableFileRef::new(0, file_num);
    let mut builder = default_table_factory().create_table_builder();
    for (key, value) in contents {
        builder.add(&encode(key), &encode(value)).unwrap();
    }
    builder.finish().unwrap();
    let bytes = builder.take_output();
    let size = bytes.len();
    store.create_table(file_ref, bytes).unwrap();
    TableFileMeta::new(
        file_ref,
        size,
        min_xip,
        encode(contents[0].0),
        encode(contents[contents.len() - 1].0),
    )
}

fn make_files(store: &mut MemoryTables) -> Vec<Vec<TableFileMeta>> {
    // level 0
    let t3 = write_table(store, &[("caa", "val1"), ("cab", "val2")], Timestamp::from(30), 3);
    let f2 = [("aac", "val4"), ("aax", "val2"), ("aba", "val5"), ("bab", "val4"), ("bba", "val5")];
    let t2 = write_table(store, &f2, Timestamp::from(26), 2);
    let f1 = [("aaa", "val2"), ("aab", "val2"), ("aac", "val3"), ("aba", "val4")];
    let t1 = write_table(store, &f1, Timestamp::from(22), 1);

    // level 1
    let f4 = [("aaa", "val1"), ("cab", "val2"), ("cba", "val3")];
    let t4 = write_table(store, &f4, Timestamp::default(), 4);
    let f5 = [("daa", "val2"), ("dab", "val2"), ("dba", "val3"), ("dbb", "val4")];
    let t5 = write_table(store, &f5, Timestamp::default(), 5);
    let f6 = [("eaa", "val1"), ("eab", "val2"), ("fab", "val3")];
    let t6 = write_table(store, &f6, Timestamp::default(), 6);

    // level 2
    let f7 = [("cab", "val1"), ("daa", "val2"), ("fab", "val3"), ("fba", "val4")];
    let t7 = write_table(store, &f7, Timestamp::default(), 7);
    let f8 = [("gaa", "val1"), ("gab", "val2"), ("gba", "val3"), ("gca", "val4"), ("gda", "val5")];
    let t8 = write_table(store, &f8, Timestamp::default(), 8);

    // level 3
    let t9 = write_table(store, &[("haa", "val1"), ("hba", "val2")], Timestamp::default(), 9);
    let t10 = write_table(store, &[("iaa", "val1"), ("iba", "val2")], Timestamp::default(), 10);

    vec![vec![t3, t2, t1], vec![t4, t5, t6], vec![t7, t8], vec![t9, t10], vec![], vec![]]
}

fn make_version(store: &mut MemoryTables) -> Version {
    Version::from_files(make_files(store))
}

/// A level that is to be compacted, and the others that are not.
fn scores(due: usize) -> Vec<CompactionScore> {
    let mut scores = vec![CompactionScore { amount: 0, limit: 1 }; 6];
    scores[due] = CompactionScore { amount: 2, limit: 1 };
    scores
}

#[test]
fn can_pick_compaction_l0() {
    let mut store = MemoryTables::new();
    let mut version = make_version(&mut store);
    let mut vset = VersionSet::new(DbOptions::default());

    version.set_compaction_score(scores(0));
    vset.set_next_file_number(20);
    vset.set_current(version);

    let c = vset.pick_compaction::<StringKey>().unwrap().unwrap();
    assert_eq!(c.level(), 0);
    assert_eq!(c.num_inputs(0), 2);
    assert_eq!(c.num_inputs(1), 1);
    let current = vset.current();
    assert!(current.levels()[0][1].being_compacted);
    assert!(current.levels()[0][2].being_compacted);
    assert!(current.levels()[1][0].being_compacted);
}

#[test]
fn can_pick_compaction_l1() {
    let mut store = MemoryTables::new();
    let mut version = make_version(&mut store);
    let mut vset = VersionSet::new(DbOptions::default());

    version.set_compaction_score(scores(1));
    vset.set_next_file_number(20);
    vset.set_current(version);

    let c = vset.pick_compaction::<StringKey>().unwrap().unwrap();
    assert_eq!(c.level(), 1);
    assert_eq!(c.num_inputs(0), 1);
    assert_eq!(c.num_inputs(1), 1);
    let current = vset.current();
    assert!(current.levels()[1][1].being_compacted);
    assert!(current.levels()[2][0].being_compacted);
}

#[test]
fn no_file_is_picked_twice() {
    let mut store = MemoryTables::new();
    let mut version = make_version(&mut store);
    let mut vset = VersionSet::new(DbOptions::default());
    version.set_compaction_score(scores(1));
    vset.set_current(version);
    let first = vset.pick_compaction::<StringKey>().unwrap().unwrap();
    assert_eq!((first.level(), first.output_level()), (1, 2));
    // The scores are worked out anew, and no level is large enough.
    assert!(vset.pick_compaction::<StringKey>().unwrap().is_none());

    let mut again = Version::from_files(vset.current().levels().iter().map(|l| l.to_vec()).collect());
    again.set_compaction_score(scores(1));
    vset.set_current(again);
    // The first file overlaps one that is being compacted, and so does the last one.
    assert!(vset.pick_compaction::<StringKey>().unwrap().is_none());

    // Level 0 is not compacted twice at the same time.
    let mut again = make_version(&mut store);
    again.set_compaction_score(scores(0));
    vset.set_current(again);
    assert_eq!(vset.pick_compaction::<StringKey>().unwrap().unwrap().level(), 0);
    let mut again = make_version(&mut store);
    again.set_compaction_score(scores(0));
    vset.set_current(again);
    assert!(vset.pick_compaction::<StringKey>().unwrap().is_none());
}

#[test]
fn values_come_from_the_first_level() {
    let mut store = MemoryTables::new();
    let version = make_version(&mut store);
    let mut tables = TableCache::new(default_table_factory(), 100);
    let mut get = |k: &str| -> Option<String> {
        version
            .get::<StringKey, MemoryTables>(&mut tables, &store, &encode(k))
            .unwrap()
            .map(|v| bincode::deserialize(&v).unwrap())
    };
    // The youngest file of level 0 that has the key counts.
    assert_eq!(get("aac"), Some("val4".to_owned()));
    assert_eq!(get("aaa"), Some("val2".to_owned()));
    assert_eq!(get("cab"), Some("val2".to_owned()));
    assert_eq!(get("cba"), Some("val3".to_owned()));
    assert_eq!(get("fba"), Some("val4".to_owned()));
    assert_eq!(get("iba"), Some("val2".to_owned()));
    assert_eq!(get("zzz"), None);
    assert_eq!(get("ddd"), None);
}

#[test]
fn merged_inputs_have_each_key_once() {
    let mut store = MemoryTables::new();
    let mut version = make_version(&mut store);
    let mut vset = VersionSet::new(DbOptions::default());
    version.set_compaction_score(scores(0));
    vset.set_current(version);
    let c = vset.pick_compaction::<StringKey>().unwrap().unwrap();
    let mut tables = TableCache::new(default_table_factory(), 100);
    let mut it =
        vset.make_input_iterator::<StringKey, MemoryTables>(&mut tables, &store, &c).unwrap();
    let mut out: Vec<(String, String)> = Vec::new();
    while let Some((k, v)) = it.next().unwrap() {
        out.push((bincode::deserialize(&k).unwrap(), bincode::deserialize(&v).unwrap()));
    }
    let expected: Vec<(String, String)> = [
        ("aaa", "val2"),
        ("aab", "val2"),
        ("aac", "val4"),
        ("aax", "val2"),
        ("aba", "val5"),
        ("bab", "val4"),
        ("bba", "val5"),
        ("cab", "val2"),
        ("cba", "val3"),
    ]
    .iter()
    .map(|(k, v)| (k.to_string(), v.to_string()))
    .collect();
    assert_eq!(out, expected);
}

fn meta(num: usize, min_xip: u64, lo: &str, hi: &str) -> TableFileMeta {
    let (lo, hi) = (lo.as_bytes().to_vec(), hi.as_bytes().to_vec());
    TableFileMeta::new(TableFileRef::new(0, num), 10, Timestamp::from(min_xip), lo, hi)
}

#[test]
fn edits_keep_files_in_order() {
    let base = Version::from_files(vec![
        vec![meta(2, 9, "a", "z"), meta(1, 5, "a", "z")],
        vec![meta(3, 0, "c", "d"), meta(4, 0, "k", "m")],
    ]);
    let mut edit = VersionEdit::new();
    edit.add_file(0, meta(5, 7, "b", "c"));
    edit.add_file(1, meta(7, 0, "x", "y"));
    edit.add_file(1, meta(6, 0, "e", "f"));
    edit.delete_file(1, &meta(3, 0, "c", "d"));
    edit.mark_as_being_compacted(0, &meta(1, 5, "a", "z"));
    let mut builder = VersionBuilder::new(2);
    builder.apply(&edit);
    let mut after = Version::new(2);
    builder.save_to::<Bytewise>(&base, &mut after);
    let numbers: Vec<Vec<usize>> =
        after.levels().iter().map(|l| l.iter().map(|f| f.file_ref.1).collect()).collect();
    // Level 0 has the youngest file first, the other level the smallest keys.
    assert_eq!(numbers, vec![vec![2, 5, 1], vec![6, 4, 7]]);
    assert!(after.levels()[0][2].being_compacted);
    assert!(!after.levels()[0][0].being_compacted);

    // The deletions are used up: what was deleted is there when the changes are saved once more.
    let mut again = Version::new(2);
    builder.save_to::<Bytewise>(&base, &mut again);
    let numbers: Vec<Vec<usize>> =
        again.levels().iter().map(|l| l.iter().map(|f| f.file_ref.1).collect()).collect();
    assert_eq!(numbers, vec![vec![2, 5, 1], vec![3, 6, 4, 7]]);
    assert!(again.levels()[0][2].being_compacted);
}

#[test]
fn scores_tell_what_is_due() {
    let options = DbOptions::new().num_levels(3).max_bytes_for_level_base(15);
    let mut version = Version::from_files(vec![
        vec![meta(1, 4, "a", "b"), meta(2, 3, "a", "b"), meta(3, 2, "a", "b")],
        vec![meta(4, 0, "a", "b"), meta(5, 0, "c", "d")],
        vec![meta(6, 0, "a", "b")],
    ]);
    version.calculate_compaction_score(&options);
    let scores = version.compaction_score();
    // Three files where four are too many, and twenty bytes where there is room for 150.
    assert_eq!((scores[0].amount, scores[0].limit), (3, 4));
    assert_eq!((scores[1].amount, scores[1].limit), (20, 150));
    assert_eq!((scores[2].amount, scores[2].limit), (0, 1));
}

#[test]
fn sizes_grow_with_the_level() {
    let options = DbOptions::default();
    assert_eq!(options.max_bytes_for_level(0), 256 << 20);
    assert_eq!(options.max_bytes_for_level(2), 100 * (256 << 20));
    assert_eq!(options.max_file_size_for_level(1), 256 << 20);
    assert_eq!(options.max_file_size_for_level(3), 256 << 20);
    let options = options.target_file_size_multiplier(2);
    assert_eq!(options.max_file_size_for_level(3), 2 << 30);
}

#[test]
fn names_of_table_files() {
    let name = table_file_name(TableFileRef::new(0, 42));
    assert_eq!(name, b"0000000000042.sst".to_vec());
}
