use async_1brc::parser::models::{StationRecords, StationStats};
use async_1brc::parser::LiteHashBuffer;

fn key(name: &[u8]) -> LiteHashBuffer {
    LiteHashBuffer::new(name.to_vec())
}

#[test]
fn station_stats_extend() {
    let mut stats = StationStats::default();
    stats.extend(1);
    stats.extend(2);
    stats.extend(3);
    stats.extend(4);
    stats.extend(5);
    stats.extend(6);
    stats.extend(7);
    stats.extend(8);
    stats.extend(9);
    stats.extend(10);

    assert_eq!(stats.min, 1);
    assert_eq!(stats.max, 10);
    assert_eq!(stats.sum, 55);
    assert_eq!(stats.count, 10);
}

#[test]
fn station_stats_export() {
    let mut stats = StationStats::new(10);
    stats.extend(60);
    stats.extend(40);
    stats.extend(20);
    stats.extend(50);
    stats.extend(30);

    assert_eq!(
        &stats.export_text(b"station1".as_ref()),
        "station1=1.0/3.5/6.0"
    );
}

#[test]
fn station_records_insert() {
    let mut records = StationRecords::new();
    records.insert(b"station1".to_vec().into(), 1);
    records.insert(b"station2".to_vec().into(), 2);

    records.insert(b"station1".to_vec().into(), 3);
    records.insert(b"station1".to_vec().into(), 4);
    records.insert(b"station1".to_vec().into(), 5);

    let stats1 = records.get(&key(b"station1")).unwrap();

    assert_eq!(stats1.min, 1);
    assert_eq!(stats1.max, 5);
    assert_eq!(stats1.sum, 13);
    assert_eq!(stats1.count, 4);

    let stats2 = records.get(&key(b"station2")).unwrap();

    assert_eq!(stats2.min, 2);
    assert_eq!(stats2.max, 2);
    assert_eq!(stats2.sum, 2);
    assert_eq!(stats2.count, 1);

    assert!(records.get(&key(b"station3")).is_none());
}

#[test]
fn station_records_add() {
    let mut records1 = StationRecords::new();
    records1.insert(b"station1".to_vec().into(), 1);
    records1.insert(b"station2".to_vec().into(), 2);

    let mut records2 = StationRecords::new();
    records2.insert(b"station1".to_vec().into(), 3);
    records2.insert(b"station1".to_vec().into(), 4);
    records2.insert(b"station1".to_vec().into(), 5);
    records2.insert(b"station2".to_vec().into(), 6);
    records2.insert(b"station2".to_vec().into(), 7);
    records2.insert(b"station2".to_vec().into(), 8);

    let mut records = records1;
    records.merge(records2);

    let stats1 = records.get(&key(b"station1")).unwrap();

    assert_eq!(stats1.min, 1);
    assert_eq!(stats1.max, 5);
    assert_eq!(stats1.sum, 13);
    assert_eq!(stats1.count, 4);

    let stats2 = records.get(&key(b"station2")).unwrap();

    assert_eq!(stats2.min, 2);
    assert_eq!(stats2.max, 8);
    assert_eq!(stats2.sum, 23);
    assert_eq!(stats2.count, 4);
}

#[test]
fn station_records_iter() {
    let mut records = StationRecords::new();
    records.insert(b"this".to_vec().into(), 4);
    records.insert(b"that".to_vec().into(), 5);
    records.insert(b"foo".to_vec().into(), 1);
    records.insert(b"bar".to_vec().into(), 2);
    records.insert(b"baz".to_vec().into(), 3);

    let mut iter = records.iter_sorted().into_iter();

    assert_eq!(
        iter.next(),
        Some((b"bar".to_vec(), *records.get(&key(b"bar")).unwrap()))
    );
    assert_eq!(
        iter.next(),
        Some((b"baz".to_vec(), *records.get(&key(b"baz")).unwrap()))
    );
    assert_eq!(
        iter.next(),
        Some((b"foo".to_vec(), *records.get(&key(b"foo")).unwrap()))
    );
    assert_eq!(
        iter.next(),
        Some((b"that".to_vec(), *records.get(&key(b"that")).unwrap()))
    );
    assert_eq!(
        iter.next(),
        Some((b"this".to_vec(), *records.get(&key(b"this")).unwrap()))
    );
    assert_eq!(iter.next(), None);
}

#[test]
fn station_records_export() {
    let mut records = StationRecords::new();
    records.insert(b"this".to_vec().into(), 4);
    records.insert(b"that".to_vec().into(), 5);
    records.insert(b"foo".to_vec().into(), 1);
    records.insert(b"bar".to_vec().into(), 2);
    records.insert(b"baz".to_vec().into(), 3);

    assert_eq!(
        records.export_text(),
        "{bar=0.2/0.2/0.2, baz=0.3/0.3/0.3, foo=0.1/0.1/0.1, that=0.5/0.5/0.5, this=0.4/0.4/0.4}\n"
    );
}

#[test]
fn stats_default_is_merge_identity() {
    let mut stats = StationStats::new(-42);
    stats.merge(StationStats::default());
    assert_eq!(stats, StationStats::new(-42));

    let mut empty = StationStats::default();
    empty.merge(StationStats::new(-42));
    assert_eq!(empty, StationStats::new(-42));
}

#[test]
fn stats_from_value() {
    let stats: StationStats = (-7i16).into();
    assert_eq!(stats, StationStats { min: -7, max: -7, sum: -7, count: 1 });
}

#[test]
fn stats_export_negative_and_rounding() {
    let mut stats = StationStats::new(-5);
    stats.extend(5);
    assert_eq!(stats.export_text(b"a"), "a=-0.5/0.0/0.5");

    // 25 / 2 = 12.5 tenths, rounded half away from zero to 13.
    let mut up = StationStats::new(12);
    up.extend(13);
    assert_eq!(up.export_text(b"u"), "u=1.2/1.3/1.3");

    let mut down = StationStats::new(-12);
    down.extend(-13);
    assert_eq!(down.export_text(b"d"), "d=-1.3/-1.3/-1.2");

    let wide = StationStats { min: -999, max: 999, sum: 0, count: 3 };
    assert_eq!(wide.export_text(b"w"), "w=-99.9/0.0/99.9");
}

#[test]
fn stats_export_keeps_utf8_names() {
    let stats = StationStats::new(123);
    assert_eq!(stats.export_text("Abéché".as_bytes()), "Abéché=12.3/12.3/12.3");
}

#[test]
fn records_merge_identity_and_commutativity() {
    let build = |pairs: &[(&[u8], i16)]| {
        let mut r = StationRecords::new();
        for (name, v) in pairs {
            r.insert(name.to_vec().into(), *v);
        }
        r
    };
    let a = [(&b"x"[..], 3i16), (&b"y"[..], -4)];
    let b = [(&b"y"[..], 9i16), (&b"z"[..], 1)];

    let mut with_empty = build(&a);
    with_empty.merge(StationRecords::new());
    assert_eq!(with_empty.export_text(), build(&a).export_text());

    let mut empty_first = StationRecords::new();
    empty_first.merge(build(&a));
    assert_eq!(empty_first.export_text(), build(&a).export_text());

    let mut ab = build(&a);
    ab.merge(build(&b));
    let mut ba = build(&b);
    ba.merge(build(&a));
    assert_eq!(ab.export_text(), ba.export_text());
    assert_eq!(ab.export_text(), "{x=0.3/0.3/0.3, y=-0.4/0.3/0.9, z=0.1/0.1/0.1}\n");
}

#[test]
fn records_merge_associative() {
    let one = |name: &[u8], v: i16| {
        let mut r = StationRecords::new();
        r.insert(name.to_vec().into(), v);
        r
    };
    let mut left = one(b"k", 1);
    left.merge(one(b"k", 2));
    left.merge(one(b"j", 3));

    let mut right_tail = one(b"k", 2);
    right_tail.merge(one(b"j", 3));
    let mut right = one(b"k", 1);
    right.merge(right_tail);

    assert_eq!(left.export_text(), right.export_text());
}

#[test]
fn records_merge_all() {
    let mut tables = Vec::new();
    for v in [10i16, 20, 30] {
        let mut r = StationRecords::new();
        r.insert(b"s".to_vec().into(), v);
        tables.push(r);
    }
    let merged = StationRecords::merge_all(tables);
    let s = merged.get(&key(b"s")).unwrap();
    assert_eq!((s.min, s.max, s.sum, s.count), (10, 30, 60, 3));

    let none = StationRecords::merge_all(Vec::new());
    assert!(none.is_empty());
    assert_eq!(none.export_text(), "{}\n");
}

#[test]
fn records_len_counts_observations() {
    let mut records = StationRecords::new();
    assert!(records.is_empty());
    records.insert(b"a".to_vec().into(), 1);
    records.insert(b"b".to_vec().into(), 1);
    records.insert(b"a".to_vec().into(), 1);
    assert_eq!(records.len(), 3);
    assert!(!records.is_empty());
}

#[test]
fn records_can_insert_checks_the_fields() {
    let mut records = StationRecords::new();
    records.insert(b"hot".to_vec().into(), i16::MAX);
    assert!(records.can_insert(&key(b"hot"), i16::MAX));
    assert!(records.can_insert(&key(b"new"), i16::MIN));
}

#[test]
fn key_equality_is_bytewise() {
    assert_eq!(key(b"station"), key(b"station"));
    assert_ne!(key(b"station"), key(b"stations"));
    assert_ne!(key(b"abcdefgX"), key(b"abcdefgY"));
    // Same length and first seven bytes: same digest, still different keys.
    assert_eq!(key(b"abcdefgX").digest(), key(b"abcdefgY").digest());
}

#[test]
fn key_digest_layout() {
    let d = key(b"abc").digest();
    assert_eq!(d, 3 | (0x61 << 8) | (0x62 << 16) | (0x63 << 24));
    let long = key(b"0123456789").digest();
    let expected = 10u64
        | (0x30u64 << 8)
        | (0x31u64 << 16)
        | (0x32u64 << 24)
        | (0x33u64 << 32)
        | (0x34u64 << 40)
        | (0x35u64 << 48)
        | (0x36u64 << 56);
    assert_eq!(long, expected);
    assert_eq!(key(b"").digest(), 0);
}
