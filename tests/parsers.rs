use async_1brc::parser::func::{bytes_to_string, digits_to_number, u8_to_digit};
use async_1brc::parser::models::StationRecords;
use async_1brc::parser::simd_parser::{find_separators, find_separators_iter, find_separators_simd, LineParser};
use async_1brc::parser::sync;
use async_1brc::parser::LiteHashBuffer;

static SAMPLE_CHUNK: &[u8] =
    b"station 1;1.23\nstation 2;4.56\nstation 3;7.89\nstation 15;0.12\n12345678";

#[test]
fn find_separators_simd_in_text() {
    let chunk = SAMPLE_CHUNK.to_vec();
    let result_simd = find_separators_simd(&chunk);
    let result_iter = find_separators_iter(&chunk);
    assert_eq!(result_iter, [(9, 4), (9, 4), (9, 4), (10, 4)]);
    assert_eq!(result_simd, [(9, 4), (9, 4), (9, 4), (10, 4)]);
}

#[test]
fn parse_line_in_text() {
    let mut parser = LineParser::new(SAMPLE_CHUNK.to_vec());

    for expected in vec![
        (b"station 1".to_vec(), 123),
        (b"station 2".to_vec(), 456),
        (b"station 3".to_vec(), 789),
        (b"station 15".to_vec(), 12),
    ] {
        let real = parser.parse_line().unwrap();
        println!("{:?} {:?}", real, expected);
        assert_eq!(real, expected);
    }
}

#[test]
fn parse_line_stops_at_unterminated_tail() {
    let mut parser = LineParser::new(SAMPLE_CHUNK.to_vec());
    for _ in 0..4 {
        assert!(parser.parse_line().is_some());
    }
    assert_eq!(parser.parse_line(), None);
    assert_eq!(LineParser::new(Vec::new()).parse_line(), None);
}

#[test]
fn separators_across_a_long_window() {
    let mut frame = Vec::new();
    for i in 0..20 {
        frame.extend_from_slice(format!("st{};-{}.{}\n", i, i % 10, i % 7).as_bytes());
    }
    let window = &frame[..64];
    let iter = find_separators_iter(window);
    let simd = find_separators_simd(&frame);
    assert_eq!(iter, simd);
    assert_eq!(find_separators(&frame), simd);
    assert_eq!(simd[0], (3, 4));
    assert!(find_separators_iter(b"").is_empty());
    assert!(find_separators_iter(b"a;1.0").is_empty());
}

#[test]
fn value_parsers() {
    assert_eq!(async_1brc::parser::line::parse_value(b"535.4\n", 0), (5354, 5));
    assert_eq!(async_1brc::parser::line::parse_value(b"-535.4\n", 0), (-5354, 6));
    assert_eq!(async_1brc::parser::line::parse_value(b"0\n", 0).0, 0);
    assert_eq!(async_1brc::parser::line::parse_value(b"10\n", 0).0, 10);
    assert_eq!(async_1brc::parser::line::parse_value(b"-0\n", 0).0, 0);
    assert_eq!(async_1brc::parser::line::parse_value(b"-1\n", 0).0, -1);
    assert_eq!(async_1brc::parser::line::parse_value(b"x;12.5", 2), (125, 6));

    assert_eq!(sync::parse_value(b"535.4\n"), 5354);
    assert_eq!(sync::parse_value(b"-535.4\n"), -5354);
    assert_eq!(sync::parse_value(b"-1"), -1);

    assert_eq!(digits_to_number(b"535.4"), 5354);
    assert_eq!(digits_to_number(b"-535.4"), -5354);
    assert_eq!(digits_to_number(b""), 0);
    assert_eq!(u8_to_digit(b'7'), 7);
}

#[test]
fn name_parser() {
    let (name, end) = async_1brc::parser::line::parse_name(b"abc;", 0);
    assert_eq!(name, LiteHashBuffer::new(b"abc".to_vec()));
    assert_eq!(end, 3);
    let (name, end) = async_1brc::parser::line::parse_name(b"hello, world!;123.4", 0);
    assert_eq!(name.bytes(), &b"hello, world!".to_vec());
    assert_eq!(end, 13);
    let (name, end) = async_1brc::parser::line::parse_name(b"jack;1.2\njill:3.4", 0);
    assert_eq!(name.into_bytes(), b"jack".to_vec());
    assert_eq!(end, 4);
    let (name, end) = async_1brc::parser::line::parse_name(b"hello, world!", 0);
    assert_eq!(name.into_bytes(), b"hello, world!".to_vec());
    assert_eq!(end, 13);
}

fn byte_scan(input: &[u8]) -> StationRecords {
    let mut records = StationRecords::new();
    assert!(async_1brc::parser::line::parse_bytes(input, &mut records));
    records
}

fn window_scan(input: &[u8]) -> StationRecords {
    let mut records = StationRecords::new();
    assert!(LineParser::parse_bytes(input.to_vec(), &mut records));
    records
}

#[test]
fn parse_bytes_sums() {
    let records = byte_scan(b"jack;1.2\n");
    assert_eq!(records.get(&LiteHashBuffer::new(b"jack".to_vec())).unwrap().sum, 12);
    let records = byte_scan(b"jill;3.4\njack;1.2\njill;2.3\njill;4.5\n");
    assert_eq!(records.get(&LiteHashBuffer::new(b"jill".to_vec())).unwrap().sum, 102);
}

#[test]
fn both_parsers_agree() {
    let mut frame = Vec::new();
    for i in 0..300 {
        frame.extend_from_slice(
            format!("name number {};{}{}.{}\n", i % 37, if i % 3 == 0 { "-" } else { "" }, i % 100, i % 10)
                .as_bytes(),
        );
    }
    let a = byte_scan(&frame);
    let b = window_scan(&frame);
    assert_eq!(a.export_text(), b.export_text());
    assert_eq!(a.len(), 300);
    assert_eq!(b.len(), 300);

    let mut parser = LineParser::new(frame.clone());
    let mut n = 0;
    while let Some((name, value)) = parser.parse_line() {
        assert!(name.starts_with(b"name number "));
        assert!(value.abs() <= 999);
        n += 1;
    }
    assert_eq!(n, 300);
}

#[test]
fn parsers_report_sum_overflow() {
    let mut frame = Vec::new();
    for _ in 0..214_800 {
        frame.extend_from_slice(b"a;999.9\n");
    }
    let mut records = StationRecords::new();
    assert!(!async_1brc::parser::line::parse_bytes(&frame, &mut records));
    let mut records = StationRecords::new();
    assert!(!LineParser::parse_bytes(frame, &mut records));
}

#[test]
fn lossy_text_of_bytes() {
    assert_eq!(bytes_to_string(b"plain"), "plain");
    assert_eq!(bytes_to_string("Zürich".as_bytes()), "Zürich");
    assert_eq!(bytes_to_string(&[0x61, 0xff, 0x62]), "a\u{fffd}b");
}

#[test]
fn byte_scan_reads_an_unterminated_last_line() {
    let records = byte_scan(b"a;1.5\nb;-2.5");
    assert_eq!(records.export_text(), "{a=1.5/1.5/1.5, b=-2.5/-2.5/-2.5}\n");
    let empty = byte_scan(b"");
    assert!(empty.is_empty());
}

#[test]
fn merge_check_refuses_overflowing_sums() {
    let mut frame = Vec::new();
    for _ in 0..110_000 {
        frame.extend_from_slice(b"a;999.9\n");
    }
    let one = byte_scan(&frame);
    let two = byte_scan(&frame);
    assert!(!one.can_merge(&two));
    let small = byte_scan(b"a;1.0\nb;2.0\n");
    assert!(one.can_merge(&small));
}

#[test]
fn leading_lines_before_a_malformed_tail_are_recorded() {
    let mut records = StationRecords::new();
    LineParser::parse_bytes(SAMPLE_CHUNK.to_vec(), &mut records);
    for (name, sum) in [(&b"station 1"[..], 123), (b"station 2", 456), (b"station 3", 789), (b"station 15", 12)] {
        assert_eq!(records.get(&LiteHashBuffer::new(name.to_vec())).unwrap().sum, sum);
    }
    let mut scanned = StationRecords::new();
    async_1brc::parser::line::parse_bytes(SAMPLE_CHUNK, &mut scanned);
    for name in [&b"station 1"[..], b"station 2", b"station 3", b"station 15"] {
        let key = LiteHashBuffer::new(name.to_vec());
        assert_eq!(scanned.get(&key), records.get(&key));
    }
}

#[test]
fn key_digest_is_kept_from_construction() {
    let from_new = LiteHashBuffer::new(b"Hamburg".to_vec());
    let from_vec: LiteHashBuffer = b"Hamburg".to_vec().into();
    assert_eq!(from_new.digest(), from_vec.digest());
    assert_eq!(from_new.digest(), 7 | (u64::from_le_bytes(*b"Hamburg\0") << 8));
}
