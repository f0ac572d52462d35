use std::collections::BTreeSet;

use table_split::codec::{encode_bytes, encode_i64, gen_table_prefix, TABLE_PREFIX_KEY_LEN};
use table_split::keys::{
    data_end_key, data_key, enc_end_key, enc_start_key, origin_key, validate_data_key, Region,
};
use table_split::table::{
    before_check, bound_keys, bounds_in_order, check_key, extract_encoded_table_prefix,
    is_same_table, scan_range, Bounds, Error, Status, TableCheckObserver, TableStatus,
};

/// An ordered set of keys in the place of a column family.
struct Engine {
    keys: BTreeSet<Vec<u8>>,
}

impl Engine {
    fn new() -> Engine {
        Engine { keys: BTreeSet::new() }
    }

    fn put(&mut self, key: &[u8]) {
        self.keys.insert(key.to_vec());
    }

    fn seek(&self, start: &[u8], end: &[u8]) -> Option<Vec<u8>> {
        self.keys.iter().find(|k| k.as_slice() >= start).filter(|k| k.as_slice() < end).cloned()
    }

    fn seek_to_last(&self, end: &[u8]) -> Option<Vec<u8>> {
        self.keys.iter().filter(|k| k.as_slice() < end).last().cloned()
    }

    fn scan(&self, start: &[u8], end: &[u8]) -> Vec<Vec<u8>> {
        self.keys
            .iter()
            .filter(|k| k.as_slice() >= start && k.as_slice() < end)
            .cloned()
            .collect()
    }
}

fn region(start_key: &[u8], end_key: &[u8]) -> Region {
    Region { id: 1, start_key: start_key.to_vec(), end_key: end_key.to_vec(), peers: vec![0] }
}

fn find_bounds(engine: &Engine, region: &Region) -> Bounds {
    let start = enc_start_key(region);
    let end = enc_end_key(region);
    bound_keys(engine.seek(&start, &end), engine.seek_to_last(&end))
}

/// A whole check of a region; the split key comes without the data mark.
fn run(engine: &Engine, region: &Region) -> Option<Vec<u8>> {
    let observer = TableCheckObserver::default();
    let mut status = Status::default();
    let bounds = match scan_range(region) {
        Some((start, end)) => bound_keys(engine.seek(&start, &end), engine.seek_to_last(&end)),
        None => Ok(None),
    };
    if let Ok(Some((first, last))) = &bounds {
        assert!(bounds_in_order(first, last));
    }
    observer.new_split_check_status(&mut status, region, bounds);
    if status.table.is_none() {
        return None;
    }
    for key in engine.scan(&enc_start_key(region), &enc_end_key(region)) {
        if let Some(split_key) = observer.on_split_check(&mut status, &key, 1) {
            return Some(origin_key(&split_key).to_vec());
        }
    }
    None
}

fn encoded_table(table_id: i64) -> Vec<u8> {
    encode_bytes(&gen_table_prefix(table_id))
}

fn gen_data_table_prefix(table_id: i64) -> Vec<u8> {
    extract_encoded_table_prefix(&encoded_table(table_id)).unwrap().to_vec()
}

/// The data key of a row of a table.
fn row(table_id: i64, rest: &[u8]) -> Vec<u8> {
    let mut key = gen_table_prefix(table_id);
    key.extend_from_slice(rest);
    data_key(&encode_bytes(&key))
}

#[test]
fn test_bound_keys() {
    let mut engine = Engine::new();
    assert_eq!(find_bounds(&engine, &region(b"", b"")).unwrap(), None);

    // arbitrary padding.
    let padding = b"_r00000005";
    // Put t1_xxx
    let s1 = row(1, padding);
    engine.put(&s1);

    let check = |engine: &Engine, start_id: Option<i64>, end_id: Option<i64>, result| {
        let start_key = start_id.map(encoded_table).unwrap_or_else(Vec::new);
        let end_key = end_id.map(encoded_table).unwrap_or_else(Vec::new);
        let region = region(&start_key, &end_key);
        assert_eq!(find_bounds(engine, &region).unwrap(), result);
    };

    // ["", "") => {t1_xx, t1_xx}
    check(&engine, None, None, Some((s1.clone(), s1.clone())));

    // ["", "t1") => None
    check(&engine, None, Some(1), None);

    // ["t1", "") => {t1_xx, t1_xx}
    check(&engine, Some(1), None, Some((s1.clone(), s1.clone())));

    // ["t1", "t2") => {t1_xx, t1_xx}
    check(&engine, Some(1), Some(2), Some((s1.clone(), s1.clone())));

    // Put t2_xx
    let s2 = row(2, padding);
    engine.put(&s2);

    // ["t1", "") => {t1_xx, t2_xx}
    check(&engine, Some(1), None, Some((s1.clone(), s2.clone())));

    // ["", "t2") => {t1_xx, t1_xx}
    check(&engine, None, Some(2), Some((s1.clone(), s1.clone())));

    // ["t1", "t2") => {t1_xx, t1_xx}
    check(&engine, Some(1), Some(2), Some((s1.clone(), s1.clone())));

    // Put t3_xx
    let s3 = row(3, padding);
    engine.put(&s3);

    // ["", "t3") => {t1_xx, t2_xx}
    check(&engine, None, Some(3), Some((s1.clone(), s2.clone())));

    // ["t1", "t3") => {t1_xx, t2_xx}
    check(&engine, Some(1), Some(3), Some((s1.clone(), s2.clone())));
}

#[test]
fn test_table_check_observer() {
    let mut engine = Engine::new();

    let check = |engine: &Engine,
                 encoded_start_key: Option<Vec<u8>>,
                 encoded_end_key: Option<Vec<u8>>,
                 table_id: Option<i64>| {
        let region = region(
            &encoded_start_key.unwrap_or_else(Vec::new),
            &encoded_end_key.unwrap_or_else(Vec::new),
        );
        let split_key = run(engine, &region);
        if let Some(id) = table_id {
            let key = encoded_table(id);
            match split_key {
                Some(split_key) => {
                    assert_eq!(
                        split_key.as_slice(),
                        extract_encoded_table_prefix(&key).unwrap()
                    );
                }
                others => panic!("expect split check result, but got {:?}", others),
            }
        } else {
            match split_key {
                None => (),
                others => panic!("expect empty, but got {:?}", others),
            }
        }
    };

    // arbitrary padding.
    let padding = b"_r00000005";

    // Put some tables
    // t1_xx, t3_xx
    for i in 1..4 {
        if i % 2 == 0 {
            // leave some space.
            continue;
        }
        engine.put(&row(i, padding));
    }

    // ["", "") => t3
    check(&engine, None, None, Some(3));

    // ["t1", "") => t3
    check(&engine, Some(gen_data_table_prefix(1)), None, Some(3));

    // ["t1", "t5") => t3
    check(
        &engine,
        Some(gen_data_table_prefix(1)),
        Some(gen_data_table_prefix(5)),
        Some(3),
    );

    // Put some data to t3
    for i in 1..4 {
        engine.put(&row(3, format!("{:?}{}", padding, i).as_bytes()));
    }

    // ["t1", "") => t3
    check(&engine, Some(gen_data_table_prefix(1)), None, Some(3));

    // ["t3", "") => skip
    check(&engine, Some(gen_data_table_prefix(3)), None, None);

    // ["t3", "t5") => skip
    check(
        &engine,
        Some(gen_data_table_prefix(3)),
        Some(gen_data_table_prefix(5)),
        None,
    );

    // Put some data before t and after t.
    for i in 0..3 {
        {
            // m is less than t and is the prefix of meta keys.
            let key = format!("m{:?}{}", padding, i);
            engine.put(&data_key(&encode_bytes(key.as_bytes())));
        }
        {
            let key = format!("u{:?}{}", padding, i);
            engine.put(&data_key(&encode_bytes(key.as_bytes())));
        }
    }

    // ["", "") => t1
    check(&engine, None, None, Some(1));

    // ["", "t1"] => skip
    check(&engine, None, Some(gen_data_table_prefix(1)), None);

    // ["", "t3"] => t1
    check(&engine, None, Some(gen_data_table_prefix(3)), Some(1));

    // ["", "s"] => skip
    check(&engine, None, Some(b"s".to_vec()), None);

    // ["u", ""] => skip
    check(&engine, Some(b"u".to_vec()), None, None);

    // ["t3", ""] => None
    check(&engine, Some(gen_data_table_prefix(3)), None, None);

    // ["t1", ""] => t3
    check(&engine, Some(gen_data_table_prefix(1)), None, Some(3));
}

/// A status as the bounds leave it, or `None` if the check is skipped.
fn begin(first: &[u8], last: &[u8]) -> Option<TableStatus> {
    let mut status = TableStatus::default();
    let bounds = Ok(Some((first.to_vec(), last.to_vec())));
    if before_check(&mut status, &region(b"", b""), bounds) {
        None
    } else {
        Some(status)
    }
}

#[test]
fn data_keys_are_marked() {
    assert_eq!(data_key(b"abc"), b"zabc".to_vec());
    assert_eq!(data_key(b""), b"z".to_vec());
    assert_eq!(origin_key(b"zabc"), b"abc");
    assert_eq!(origin_key(&data_key(b"")), b"");
    assert!(validate_data_key(b"z"));
    assert!(!validate_data_key(b""));
    assert!(!validate_data_key(b"abc"));
}

#[test]
fn region_without_end_is_bounded_by_all_data() {
    assert_eq!(data_end_key(b""), b"{".to_vec());
    assert_eq!(data_end_key(b"k"), b"zk".to_vec());
    let region = region(b"a", b"");
    assert_eq!(enc_start_key(&region), b"za".to_vec());
    assert_eq!(enc_end_key(&region), b"{".to_vec());
}

#[test]
fn data_keys_keep_order() {
    assert!(data_key(b"a") < data_key(b"ab"));
    assert!(data_key(b"ab") < data_key(b"b"));
    assert!(data_key(b"\xff\xff") < data_end_key(b""));
}

#[test]
fn numbers_are_encoded_by_distance() {
    let encode = |v: i64| {
        let mut buf = vec![9];
        encode_i64(&mut buf, v);
        buf
    };
    assert_eq!(encode(1), vec![9, 0x80, 0, 0, 0, 0, 0, 0, 1]);
    assert_eq!(encode(-1), vec![9, 0x7f, 255, 255, 255, 255, 255, 255, 255]);
    assert_eq!(encode(i64::MIN), vec![9, 0, 0, 0, 0, 0, 0, 0, 0]);
    assert_eq!(encode(i64::MAX), vec![9, 255, 255, 255, 255, 255, 255, 255, 255]);
    assert_eq!(encode(0x0102_0304), vec![9, 0x80, 0, 0, 0, 1, 2, 3, 4]);
}

#[test]
fn keys_are_encoded_in_groups() {
    assert_eq!(encode_bytes(b""), vec![0, 0, 0, 0, 0, 0, 0, 0, 0xf7]);
    assert_eq!(encode_bytes(b"abc"), vec![97, 98, 99, 0, 0, 0, 0, 0, 0xfa]);
    assert_eq!(
        encode_bytes(b"12345678"),
        vec![49, 50, 51, 52, 53, 54, 55, 56, 0xff, 0, 0, 0, 0, 0, 0, 0, 0, 0xf7]
    );
    assert_eq!(
        encode_bytes(b"123456789"),
        vec![49, 50, 51, 52, 53, 54, 55, 56, 0xff, 57, 0, 0, 0, 0, 0, 0, 0, 0xf8]
    );
}

#[test]
fn extracted_prefix_is_enough() {
    assert_eq!(gen_table_prefix(1), vec![b't', 0x80, 0, 0, 0, 0, 0, 0, 1]);
    assert_eq!(gen_table_prefix(1).len(), TABLE_PREFIX_KEY_LEN);
    assert_eq!(gen_data_table_prefix(1), vec![b't', 0x80, 0, 0, 0, 0, 0, 0, 0xff, 1]);
    for a in [i64::MIN, -1, 0, 1, 255, 256, i64::MAX] {
        for b in [i64::MIN, -1, 0, 1, 255, 256, i64::MAX] {
            let left = row(a, b"_r1");
            let right = row(b, b"_i22222222");
            assert_eq!(is_same_table(origin_key(&left), origin_key(&right)), a == b);
            if a < b {
                assert!(left < right);
            }
        }
    }
}

#[test]
fn extract_needs_mark_and_length() {
    assert_eq!(extract_encoded_table_prefix(b""), None);
    assert_eq!(extract_encoded_table_prefix(b"t12345678"), None);
    assert_eq!(extract_encoded_table_prefix(b"t123456789"), Some(&b"t123456789"[..]));
    assert_eq!(extract_encoded_table_prefix(b"t1234567890"), Some(&b"t123456789"[..]));
    assert_eq!(extract_encoded_table_prefix(b"u1234567890"), None);
}

#[test]
fn same_table_needs_both_keys() {
    assert!(is_same_table(b"t123456789", b"t123456789abc"));
    assert!(!is_same_table(b"t123456789", b"t12345678"));
    assert!(!is_same_table(b"t12345678", b"t123456789"));
    assert!(!is_same_table(b"t123456789", b"t123456780"));
    assert!(!is_same_table(b"u123456789", b"u123456789"));
    assert!(!is_same_table(b"t123456789", b"u123456789"));
    assert!(!is_same_table(b"", b""));
}

#[test]
fn keys_between_keys_of_a_table_belong_to_it() {
    let left = row(3, b"a");
    let key = row(3, b"m");
    let right = row(3, b"z");
    assert!(left < key && key < right);
    assert!(is_same_table(origin_key(&left), origin_key(&right)));
    assert!(is_same_table(origin_key(&left), origin_key(&key)));
}

#[test]
fn region_inside_table_is_not_read() {
    let inside = region(&gen_data_table_prefix(3), &[gen_data_table_prefix(3), vec![9]].concat());
    assert_eq!(scan_range(&inside), None);
    let outside = region(&gen_data_table_prefix(3), b"");
    assert_eq!(
        scan_range(&outside),
        Some((data_key(&gen_data_table_prefix(3)), b"{".to_vec()))
    );
    // Whatever the engine says, such a region is skipped.
    let mut status = TableStatus::default();
    let bounds = Ok(Some((row(1, b""), row(2, b""))));
    assert!(before_check(&mut status, &inside, bounds));
    assert_eq!(check_key(&mut status, b"zm"), None);
}

#[test]
fn bounds_come_together() {
    assert_eq!(bound_keys(None, None), Ok(None));
    assert_eq!(
        bound_keys(Some(vec![1]), Some(vec![2])),
        Ok(Some((vec![1], vec![2])))
    );
    assert_eq!(
        bound_keys(Some(vec![1]), None),
        Err(Error::InvalidBound { first_key: Some(vec![1]), last_key: None })
    );
    assert_eq!(
        bound_keys(None, Some(vec![2])),
        Err(Error::InvalidBound { first_key: None, last_key: Some(vec![2]) })
    );
}

#[test]
fn key_before_empty_region_is_an_invalid_bound() {
    let mut engine = Engine::new();
    engine.put(&row(1, b"_r"));
    assert_eq!(
        find_bounds(&engine, &region(&encoded_table(2), b"")),
        Err(Error::InvalidBound { first_key: None, last_key: Some(row(1, b"_r")) })
    );
    assert_eq!(run(&engine, &region(&encoded_table(2), b"")), None);
}

#[test]
fn scan_range_holds_no_other_records() {
    let mut engine = Engine::new();
    engine.put(b"\x01local");
    engine.put(&row(1, b"_r"));
    engine.put(b"{behind");
    assert_eq!(
        find_bounds(&engine, &region(b"", b"")),
        Ok(Some((row(1, b"_r"), row(1, b"_r"))))
    );
}

#[test]
fn missing_bounds_are_skipped() {
    let all = region(b"", b"");
    let mut status = TableStatus::default();
    assert!(before_check(&mut status, &all, Ok(None)));
    assert!(before_check(&mut status, &all, Err(Error::Engine(String::from("closed")))));
    let invalid = Error::InvalidBound { first_key: None, last_key: Some(vec![1]) };
    assert!(before_check(&mut status, &all, Err(invalid)));
    assert!(begin(b"\x01local", &row(1, b"")).is_none());
    assert!(begin(&row(1, b""), b"{").is_none());
}

#[test]
fn areas_decide_about_long_bounds() {
    let before = data_key(&encode_bytes(b"m"));
    let after = data_key(&encode_bytes(b"u"));
    assert!(begin(&before, &before).is_none());
    assert!(begin(&after, &after).is_none());
    assert!(begin(&row(1, b"a"), &row(1, b"b")).is_none());

    // All table data: the first table key is the split key.
    let mut status = begin(&before, &after).unwrap();
    assert_eq!(check_key(&mut status, &before), None);
    assert_eq!(
        check_key(&mut status, &row(7, b"a")),
        Some(data_key(&gen_data_table_prefix(7)))
    );

    // The last table is split off, once.
    for first in [before.clone(), row(1, b"a")] {
        let mut status = begin(&first, &row(9, b"a")).unwrap();
        assert_eq!(
            check_key(&mut status, b"no data key"),
            Some(data_key(&gen_data_table_prefix(9)))
        );
        assert_eq!(check_key(&mut status, b"no data key"), None);
    }

    // The first table is left where it is.
    let mut status = begin(&row(1, b"a"), &after).unwrap();
    assert_eq!(check_key(&mut status, &row(1, b"a")), None);
    assert_eq!(check_key(&mut status, &row(1, b"b")), None);
    assert_eq!(
        check_key(&mut status, &row(2, b"a")),
        Some(data_key(&gen_data_table_prefix(2)))
    );
    assert_eq!(check_key(&mut status, &after), None);
}

#[test]
fn short_bounds_are_walked() {
    // Nothing is known, so the first table key counts.
    let mut status = begin(b"zm", b"zn").unwrap();
    assert_eq!(check_key(&mut status, b"zm"), None);
    assert_eq!(
        check_key(&mut status, b"zt123456789"),
        Some(b"zt123456789".to_vec())
    );
    // Eight bytes are short, nine are not.
    assert!(begin(b"zm1234567", b"zn1234567").is_some());
    assert!(begin(b"zm12345678", b"zn12345678").is_none());
}

#[test]
fn nine_bytes_name_no_table() {
    // Long enough to be compared, too short for a table.
    let mut status = begin(b"zm12345678", b"zt12345678").unwrap();
    assert_eq!(check_key(&mut status, b"zt12345678"), None);
    let mut status = begin(b"zt12345678", b"zu12345678").unwrap();
    assert_eq!(
        check_key(&mut status, b"zt123456789"),
        Some(b"zt123456789".to_vec())
    );
}

#[test]
fn order_of_bounds_is_told() {
    let before = data_key(&encode_bytes(b"m"));
    let table = row(1, b"a");
    let after = data_key(&encode_bytes(b"u"));
    assert!(bounds_in_order(&before, &table));
    assert!(bounds_in_order(&table, &after));
    assert!(bounds_in_order(&before, &after));
    assert!(bounds_in_order(&row(2, b"a"), &row(1, b"a")));
    assert!(!bounds_in_order(&table, &before));
    assert!(!bounds_in_order(&after, &before));
    assert!(!bounds_in_order(&after, &table));
    // Bounds that are not compared are not out of order.
    assert!(bounds_in_order(&after, b"zm"));
    assert!(bounds_in_order(&after, b"m12345678"));
}

#[test]
fn skipped_check_keeps_status() {
    let observer = TableCheckObserver::default();
    let all = region(b"", b"");
    let mut status = Status::default();
    assert_eq!(observer.on_split_check(&mut status, &row(1, b"a"), 1), None);
    observer.new_split_check_status(&mut status, &all, Ok(None));
    assert!(status.table.is_none());

    let bounds = Ok(Some((row(1, b"a"), row(2, b"a"))));
    observer.new_split_check_status(&mut status, &all, bounds);
    assert!(status.table.is_some());
    observer.new_split_check_status(&mut status, &all, Ok(None));
    assert_eq!(
        observer.on_split_check(&mut status, &row(1, b"a"), 1),
        Some(data_key(&gen_data_table_prefix(2)))
    );
}

#[test]
fn split_key_separates_tables() {
    let mut engine = Engine::new();
    engine.put(&data_key(&encode_bytes(b"m1")));
    for id in [1, 4, 9] {
        engine.put(&row(id, b"a"));
        engine.put(&row(id, b"b"));
    }
    let split = run(&engine, &region(b"", b"")).unwrap();
    assert_eq!(split, gen_data_table_prefix(9));
    let split = data_key(&split);
    let keys: Vec<&Vec<u8>> = engine.keys.iter().collect();
    assert!(*keys[0] < split && split <= *keys[keys.len() - 1]);
    for id in [1, 4, 9] {
        assert_eq!(row(id, b"a") < split, row(id, b"b") < split);
    }
}

#[test]
fn splitting_ends_with_one_table_per_region() {
    let mut engine = Engine::new();
    engine.put(&data_key(&encode_bytes(b"m1")));
    for id in [-5, 1, 4, 9] {
        engine.put(&row(id, b"a"));
        engine.put(&row(id, b"b"));
    }
    engine.put(&data_key(&encode_bytes(b"u1")));

    let mut todo = vec![(vec![], vec![])];
    let mut done = vec![];
    while let Some((start, end)) = todo.pop() {
        match run(&engine, &region(&start, &end)) {
            Some(split) => {
                assert!(start < split && (end.is_empty() || split < end));
                todo.push((start, split.clone()));
                todo.push((split, end));
            }
            None => done.push((start, end)),
        }
    }
    done.sort();
    let starts: Vec<Vec<u8>> = done.iter().map(|r| r.0.clone()).collect();
    let mut expected = vec![vec![]];
    for id in [-5, 1, 4, 9] {
        expected.push(gen_data_table_prefix(id));
    }
    assert_eq!(starts, expected);
}

#[test]
fn short_last_key_splits_at_table_of_first_key() {
    let mut engine = Engine::new();
    engine.put(&row(1, b"a"));
    engine.put(b"zu");
    assert_eq!(run(&engine, &region(b"", b"")), Some(gen_data_table_prefix(1)));
}
