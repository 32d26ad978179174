use cochange::parse::{BlameChunk, ChunkParser, ParseError, chunk_entry};
use cochange::varint::{decode_changes, encode_changes, read_varint, write_varint};

fn line(s: &str) -> Vec<u8> {
    s.as_bytes().to_vec()
}

#[test]
fn varint_round_trip_list() {
    let l: Vec<u32> = vec![0, 1, 127, 128, 129, 300, 16384, 4294967295];
    let blob = encode_changes(&l);
    let back = decode_changes(&blob).expect("well-formed");
    assert_eq!(back, l);
}

#[test]
fn varint_round_trip_empty() {
    let l: Vec<u32> = vec![];
    let blob = encode_changes(&l);
    assert_eq!(blob.len(), 0);
    assert_eq!(decode_changes(&blob).expect("well-formed"), l);
}

#[test]
fn varint_single_values() {
    let mut out = Vec::new();
    write_varint(&mut out, 128);
    assert_eq!(out, vec![0x80, 0x01]);
    assert_eq!(read_varint(&out, 0), Some((128, 2)));
    let mut out2 = Vec::new();
    write_varint(&mut out2, 5);
    assert_eq!(out2, vec![5]);
}

#[test]
fn varint_rejects_truncated() {
    assert_eq!(read_varint(&vec![0x80], 0), None);
    assert_eq!(decode_changes(&vec![0xFF]), None);
}

#[test]
fn varint_rejects_overlong() {
    // six continuation-marked bytes never fit a u32
    let buf = vec![0x80, 0x80, 0x80, 0x80, 0x80, 0x01];
    assert_eq!(read_varint(&buf, 0), None);
}

const SHA_B: &str = "bbbbbbbbbbbbbbbbbbbbbbbbbbbbbbbbbbbbbbbb";

#[test]
fn parser_one_chunk() {
    let mut p = ChunkParser::new();
    let header = format!("{} 7 9 3", SHA_B);
    assert!(matches!(p.feed_line(&line(&header)), Ok(None)));
    assert!(matches!(p.feed_line(&line("author Someone")), Ok(None)));
    let done = p.feed_line(&line("filename foo.txt"));
    let chunk: BlameChunk = done.expect("ok").expect("chunk");
    assert_eq!(chunk.sha, vec![0xBBu8; 20]);
    assert_eq!(chunk.line_original, 7);
    assert_eq!(chunk.line_final, 9);
    assert_eq!(chunk.num_lines, 3);
    assert_eq!(chunk.previous_filename, None);
}

#[test]
fn parser_previous_filename() {
    let mut p = ChunkParser::new();
    let header = format!("{} 1 1 1", SHA_B);
    assert!(matches!(p.feed_line(&line(&header)), Ok(None)));
    let prev = format!("previous {} old name.txt", SHA_B);
    assert!(matches!(p.feed_line(&line(&prev)), Ok(None)));
    let chunk = p.feed_line(&line("filename new.txt")).unwrap().unwrap();
    assert_eq!(chunk.previous_filename, Some(line("old name.txt")));
}

#[test]
fn parser_bad_sha() {
    let mut p = ChunkParser::new();
    // 39 hex digits only
    assert_eq!(
        p.feed_line(&line("bbbbbbbbbbbbbbbbbbbbbbbbbbbbbbbbbbbbbbb 1 1 1")).unwrap_err(),
        ParseError::BadSha
    );
    let mut q = ChunkParser::new();
    // right length, wrong digits
    assert_eq!(
        q.feed_line(&line("zzzzzzzzzzzzzzzzzzzzzzzzzzzzzzzzzzzzzzzz 1 1 1")).unwrap_err(),
        ParseError::BadSha
    );
}

#[test]
fn parser_missing_fields() {
    let mut p = ChunkParser::new();
    let header = format!("{} 1 1", SHA_B);
    assert_eq!(p.feed_line(&line(&header)).unwrap_err(), ParseError::MissingField);
    let mut q = ChunkParser::new();
    assert_eq!(q.feed_line(&line(SHA_B)).unwrap_err(), ParseError::MissingField);
}

#[test]
fn parser_bad_number() {
    let mut p = ChunkParser::new();
    let header = format!("{} 1x 1 1", SHA_B);
    assert_eq!(p.feed_line(&line(&header)).unwrap_err(), ParseError::BadNumber);
    let mut q = ChunkParser::new();
    let header2 = format!("{} 1 99999999999 1", SHA_B);
    assert_eq!(q.feed_line(&line(&header2)).unwrap_err(), ParseError::BadNumber);
}

#[test]
fn chunk_to_entry_ranges() {
    let c = BlameChunk {
        sha: vec![0xAAu8; 20],
        line_original: 4,
        line_final: 9,
        num_lines: 3,
        previous_filename: None,
    };
    let e = chunk_entry(c).expect("fits");
    assert_eq!(e.range_in_blamed_file.start, 9);
    assert_eq!(e.range_in_blamed_file.end, 12);
    assert_eq!(e.range_in_original_file.start, 4);
    assert_eq!(e.range_in_original_file.end, 7);
    assert_eq!(e.commit_id, vec![0xAAu8; 20]);
}

#[test]
fn chunk_to_entry_overflow() {
    let c = BlameChunk {
        sha: vec![0xAAu8; 20],
        line_original: 1,
        line_final: u32::MAX,
        num_lines: 2,
        previous_filename: None,
    };
    assert_eq!(chunk_entry(c).unwrap_err(), ParseError::RangeOverflow);
}
