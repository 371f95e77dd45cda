use async_1brc::parser::models::StationRecords;
use async_1brc::parser::simd_parser::LineParser;
use async_1brc::reader::frames::FrameBuilder;
use async_1brc::reader::func::{buffer_full, clone_buffer, transfer_buffer};

/// Cut `input` into frames the way the reader does, reading `chunk` bytes at a time.
fn frames_of(input: &[u8], chunk: usize, capacity: usize, waiting: bool) -> Vec<Vec<u8>> {
    let mut builder = FrameBuilder::with_chunk_sizes(chunk, capacity);
    let step = builder.chunk_size();
    let mut pos = 0;
    let mut frames = Vec::new();
    loop {
        let end = (pos + step).min(input.len());
        let mut piece = input[pos..end].to_vec();
        pos = end;
        if builder.push_chunk(&mut piece, waiting) {
            let mut line = Vec::new();
            while pos < input.len() {
                let b = input[pos];
                pos += 1;
                line.push(b);
                if b == b'\n' {
                    break;
                }
            }
            let (frame, ended) = builder.finish_frame(&mut line);
            frames.push(frame);
            if ended {
                return frames;
            }
        }
    }
}

/// Run the whole pipeline with `workers` workers taking frames in turn.
fn run(input: &[u8], workers: usize) -> String {
    let frames = frames_of(input, 30, 80, false);
    let mut tables: Vec<StationRecords> = (0..workers).map(|_| StationRecords::new()).collect();
    for (i, frame) in frames.into_iter().enumerate() {
        let table = &mut tables[i % workers];
        if i % 2 == 0 {
            assert!(async_1brc::parser::line::parse_bytes(&frame, table));
        } else {
            assert!(LineParser::parse_bytes(frame, table));
        }
    }
    StationRecords::merge_all(tables).export_text()
}

const TWO_STATIONS: &[u8] = b"jill;3.4\njack;1.2\njill;2.3\njill;4.5\n";

#[test]
fn scenario_single_line() {
    assert_eq!(run(b"jack;1.2\n", 1), "{jack=1.2/1.2/1.2}\n");
}

#[test]
fn scenario_two_stations() {
    assert_eq!(run(TWO_STATIONS, 1), "{jack=1.2/1.2/1.2, jill=2.3/3.4/4.5}\n");
}

#[test]
fn scenario_mean_of_opposites() {
    assert_eq!(run(b"a;-0.5\na;0.5\n", 1), "{a=-0.5/0.0/0.5}\n");
}

#[test]
fn scenario_sorted_output() {
    assert_eq!(
        run(b"this;0.4\nthat;0.5\nfoo;0.1\nbar;0.2\nbaz;0.3\n", 1),
        "{bar=0.2/0.2/0.2, baz=0.3/0.3/0.3, foo=0.1/0.1/0.1, that=0.5/0.5/0.5, this=0.4/0.4/0.4}\n"
    );
}

#[test]
fn scenario_worker_count_does_not_matter() {
    assert_eq!(run(TWO_STATIONS, 1), run(TWO_STATIONS, 8));
    let mut big = Vec::new();
    for i in 0..500 {
        big.extend_from_slice(format!("station {};{}.{}\n", i % 13, i % 97, i % 10).as_bytes());
    }
    let one = run(&big, 1);
    assert_eq!(one, run(&big, 3));
    assert_eq!(one, run(&big, 8));
}

#[test]
fn counts_and_sums_are_conserved() {
    let mut big = Vec::new();
    let mut expected_sum = 0i32;
    for i in 0..400 {
        let v = (i % 200) as i32 - 100;
        expected_sum += v;
        let text = format!("k{};{}{}.{}\n", i % 4, if v < 0 { "-" } else { "" }, v.abs() / 10, v.abs() % 10);
        big.extend_from_slice(text.as_bytes());
    }
    for workers in [1usize, 5] {
        let frames = frames_of(&big, 40, 200, false);
        let mut tables: Vec<StationRecords> = (0..workers).map(|_| StationRecords::new()).collect();
        for (i, frame) in frames.into_iter().enumerate() {
            assert!(async_1brc::parser::line::parse_bytes(&frame, &mut tables[i % workers]));
        }
        let merged = StationRecords::merge_all(tables);
        assert_eq!(merged.len(), 400);
        let total: i32 = merged.iter_sorted().iter().map(|(_, s)| s.sum).sum();
        assert_eq!(total, expected_sum);
        let k0 = merged.iter_sorted()[0].1;
        assert_eq!((k0.min, k0.max), (-100, 96));
    }
}

#[test]
fn frames_hold_whole_lines() {
    let mut input = Vec::new();
    for i in 0..200 {
        input.extend_from_slice(format!("place {};{}.{}\n", i, i % 50, i % 10).as_bytes());
    }
    for waiting in [false, true] {
        let frames = frames_of(&input, 30, 100, waiting);
        assert!(frames.len() > 1);
        let (last, rest) = frames.split_last().unwrap();
        for frame in rest {
            assert_eq!(frame.last(), Some(&b'\n'));
        }
        assert!(last.is_empty() || last.last() == Some(&b'\n'));
        assert_eq!(frames.concat(), input);
    }
}

#[test]
fn frame_builder_flush_decisions() {
    let mut builder = FrameBuilder::with_chunk_sizes(10, 1000);
    assert_eq!(builder.chunk_size(), 30);
    let mut chunk = b"a;1.0\nb;2".to_vec();
    assert!(!builder.push_chunk(&mut chunk, false));
    assert!(builder.push_chunk(&mut chunk, true));
    let mut nothing: Vec<u8> = Vec::new();
    assert!(builder.push_chunk(&mut nothing, false));
    let mut line = b".0\n".to_vec();
    let (frame, ended) = builder.finish_frame(&mut line);
    assert_eq!(frame, b"a;1.0\nb;2a;1.0\nb;2.0\n".to_vec());
    assert!(!ended);
    assert!(line.is_empty());
    let (frame, ended) = builder.finish_frame(&mut line);
    assert!(frame.is_empty());
    assert!(ended);
}

#[test]
fn buffer_helpers() {
    let mut read = b"abc".to_vec();
    let mut export = b"xy".to_vec();
    clone_buffer(&mut read, &mut export);
    assert_eq!(export, b"xyabc".to_vec());
    assert_eq!(read, b"abc".to_vec());
    transfer_buffer(&mut read, &mut export);
    assert_eq!(export, b"xyabcabc".to_vec());
    assert!(read.is_empty());

    let v = vec![0u8; 60];
    assert!(!buffer_full(&v, 200, 100));
    assert!(buffer_full(&v, 190, 100));
    assert!(buffer_full(&v, 10, 100));
}
