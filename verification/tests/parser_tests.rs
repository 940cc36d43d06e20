use rori::error::ProcessError;
use rori::parser::{
    compare_inhabited_time, extract_inhabited_time, is_inhabited_time_string, process_chunk,
    search_compound, search_compound_recursive, skip_bytes, skip_compound, skip_string,
    skip_tag_value, NbtError,
};
use rori::reader::ByteReader;

const OVERRUN: &str = "Declared length exceeds the remaining data";

fn named(kind: u8, name: &str) -> Vec<u8> {
    let mut out = vec![kind];
    out.extend_from_slice(&(name.len() as u16).to_be_bytes());
    out.extend_from_slice(name.as_bytes());
    out
}

fn member(kind: u8, name: &str, payload: &[u8]) -> Vec<u8> {
    let mut out = named(kind, name);
    out.extend_from_slice(payload);
    out
}

fn compound(members: &[Vec<u8>]) -> Vec<u8> {
    let mut out = Vec::new();
    for m in members {
        out.extend_from_slice(m);
    }
    out.push(0);
    out
}

fn document(members: &[Vec<u8>]) -> Vec<u8> {
    let mut out = named(10, "");
    out.extend_from_slice(&compound(members));
    out
}

fn list(kind: u8, count: i32, body: &[u8]) -> Vec<u8> {
    let mut out = vec![kind];
    out.extend_from_slice(&count.to_be_bytes());
    out.extend_from_slice(body);
    out
}

fn text(s: &str) -> Vec<u8> {
    let mut out = (s.len() as u16).to_be_bytes().to_vec();
    out.extend_from_slice(s.as_bytes());
    out
}

fn array(count: i32, body: &[u8]) -> Vec<u8> {
    let mut out = count.to_be_bytes().to_vec();
    out.extend_from_slice(body);
    out
}

fn long_field(value: i64) -> Vec<u8> {
    member(4, "InhabitedTime", &value.to_be_bytes())
}

/// One member of every kind, none of them under the field's name.
fn siblings() -> Vec<Vec<u8>> {
    let inner = compound(&[member(1, "b", &[7]), member(8, "s", &text("deep"))]);
    let mut compounds = Vec::new();
    compounds.extend_from_slice(&compound(&[long_field(99)]));
    compounds.extend_from_slice(&compound(&[]));
    let mut lists = Vec::new();
    lists.extend_from_slice(&list(3, 2, &[0, 0, 0, 1, 0, 0, 0, 2]));
    lists.extend_from_slice(&list(0, 0, &[]));
    let mut strings = Vec::new();
    strings.extend_from_slice(&text("one"));
    strings.extend_from_slice(&text(""));
    vec![
        member(1, "byte", &[0x80]),
        member(2, "short", &[1, 2]),
        member(3, "int", &[1, 2, 3, 4]),
        member(4, "long", &[1, 2, 3, 4, 5, 6, 7, 8]),
        member(5, "float", &[0x3f, 0x80, 0, 0]),
        member(6, "double", &[0x3f, 0xf0, 0, 0, 0, 0, 0, 0]),
        member(7, "bytes", &array(3, &[1, 2, 3])),
        member(8, "string", &text("hello world")),
        member(9, "ints", &list(3, 2, &[0, 0, 0, 1, 0, 0, 0, 2])),
        member(9, "doubles", &list(6, 1, &[0; 8])),
        member(9, "empty", &list(0, 0, &[])),
        member(9, "compounds", &list(10, 2, &compounds)),
        member(9, "lists", &list(9, 2, &lists)),
        member(9, "strings", &list(8, 2, &strings)),
        member(9, "arrays", &list(11, 1, &array(1, &[0, 0, 0, 9]))),
        member(10, "nested", &inner),
        member(11, "int_array", &array(2, &[0; 8])),
        member(12, "long_array", &array(2, &[0; 16])),
        member(8, "InhabitedTimf", &text("near miss")),
        member(8, "inhabitedtime", &text("wrong case")),
    ]
}

fn format_error(result: Result<Option<i64>, NbtError>) -> String {
    match result {
        Err(NbtError::InvalidFormat(text)) => text,
        other => panic!("expected a format error, got {:?}", other),
    }
}

fn is_short_read(result: Result<Option<i64>, NbtError>) -> bool {
    match result {
        Err(NbtError::IoError(e)) => e.kind() == std::io::ErrorKind::UnexpectedEof,
        _ => false,
    }
}

#[test]
fn finds_long_in_root() {
    let data = document(&[long_field(1234)]);
    assert_eq!(extract_inhabited_time(&data).unwrap(), Some(1234));
}

#[test]
fn decodes_every_whole_number_kind() {
    let data = document(&[member(1, "InhabitedTime", &[0xff])]);
    assert_eq!(extract_inhabited_time(&data).unwrap(), Some(-1));
    let data = document(&[member(1, "InhabitedTime", &[0x7f])]);
    assert_eq!(extract_inhabited_time(&data).unwrap(), Some(127));
    let data = document(&[member(2, "InhabitedTime", &[0xff, 0xfe])]);
    assert_eq!(extract_inhabited_time(&data).unwrap(), Some(-2));
    let data = document(&[member(2, "InhabitedTime", &[0x12, 0x34])]);
    assert_eq!(extract_inhabited_time(&data).unwrap(), Some(0x1234));
    let data = document(&[member(3, "InhabitedTime", &[0x80, 0, 0, 0])]);
    assert_eq!(extract_inhabited_time(&data).unwrap(), Some(i32::MIN as i64));
    let data = document(&[member(3, "InhabitedTime", &[0x01, 0x02, 0x03, 0x04])]);
    assert_eq!(extract_inhabited_time(&data).unwrap(), Some(0x01020304));
    let data = document(&[long_field(i64::MIN)]);
    assert_eq!(extract_inhabited_time(&data).unwrap(), Some(i64::MIN));
    let data = document(&[long_field(i64::MAX)]);
    assert_eq!(extract_inhabited_time(&data).unwrap(), Some(i64::MAX));
    let data = document(&[member(4, "InhabitedTime", &[1, 2, 3, 4, 5, 6, 7, 8])]);
    assert_eq!(extract_inhabited_time(&data).unwrap(), Some(0x0102030405060708));
}

#[test]
fn finds_field_after_siblings_of_every_kind() {
    let mut members = siblings();
    members.push(long_field(4242));
    let data = document(&members);
    assert_eq!(extract_inhabited_time(&data).unwrap(), Some(4242));
}

#[test]
fn finds_field_before_siblings() {
    let mut members = vec![long_field(-5)];
    members.extend(siblings());
    let data = document(&members);
    assert_eq!(extract_inhabited_time(&data).unwrap(), Some(-5));
}

#[test]
fn finds_field_whatever_the_order_of_siblings() {
    let all = siblings();
    for at in 0..=all.len() {
        let mut members = all.clone();
        members.reverse();
        members.insert(at, long_field(77));
        let data = document(&members);
        assert_eq!(extract_inhabited_time(&data).unwrap(), Some(77));
    }
}

#[test]
fn root_name_is_stepped_over() {
    let mut data = named(10, "Level data");
    data.extend_from_slice(&compound(&[long_field(5)]));
    assert_eq!(extract_inhabited_time(&data).unwrap(), Some(5));
}

#[test]
fn finds_field_one_and_two_levels_down() {
    let level = compound(&[member(3, "x", &[0, 0, 0, 1]), long_field(300)]);
    let data = document(&[member(10, "Level", &level)]);
    assert_eq!(extract_inhabited_time(&data).unwrap(), Some(300));
    let outer = compound(&[member(10, "Inner", &level)]);
    let data = document(&[member(10, "Outer", &outer)]);
    assert_eq!(extract_inhabited_time(&data).unwrap(), Some(300));
}

#[test]
fn field_below_the_depth_bound_is_not_found() {
    let level = compound(&[long_field(300)]);
    let two = compound(&[member(10, "c", &level)]);
    let one = compound(&[member(10, "b", &two)]);
    let data = document(&[member(10, "a", &one)]);
    assert_eq!(extract_inhabited_time(&data).unwrap(), None);
}

#[test]
fn search_goes_on_after_a_nested_compound() {
    let empty = compound(&[member(1, "b", &[1])]);
    let data = document(&[member(10, "first", &empty), long_field(8)]);
    assert_eq!(extract_inhabited_time(&data).unwrap(), Some(8));
}

#[test]
fn field_in_a_list_is_not_found() {
    let data = document(&[member(9, "list", &list(10, 1, &compound(&[long_field(9)])))]);
    assert_eq!(extract_inhabited_time(&data).unwrap(), None);
}

#[test]
fn absent_field_is_not_found() {
    assert_eq!(extract_inhabited_time(&document(&[])).unwrap(), None);
    assert_eq!(extract_inhabited_time(&document(&siblings())).unwrap(), None);
}

#[test]
fn first_field_in_document_order_wins() {
    let data = document(&[long_field(1), long_field(2)]);
    assert_eq!(extract_inhabited_time(&data).unwrap(), Some(1));
    let nested = compound(&[long_field(3)]);
    let data = document(&[member(10, "n", &nested), long_field(4)]);
    assert_eq!(extract_inhabited_time(&data).unwrap(), Some(3));
}

#[test]
fn field_of_another_kind_is_a_format_error() {
    let data = document(&[member(8, "InhabitedTime", &text("12"))]);
    assert_eq!(
        format_error(extract_inhabited_time(&data)),
        "InhabitedTime has unexpected type: 8"
    );
    let data = document(&[member(10, "InhabitedTime", &compound(&[long_field(1)]))]);
    assert_eq!(
        format_error(extract_inhabited_time(&data)),
        "InhabitedTime has unexpected type: 10"
    );
    let data = document(&[member(5, "InhabitedTime", &[0, 0, 0, 0])]);
    assert_eq!(
        format_error(extract_inhabited_time(&data)),
        "InhabitedTime has unexpected type: 5"
    );
    let data = document(&[member(200, "InhabitedTime", &[])]);
    assert_eq!(
        format_error(extract_inhabited_time(&data)),
        "InhabitedTime has unexpected type: 200"
    );
}

#[test]
fn unknown_kind_is_a_format_error() {
    let data = document(&[member(13, "other", &[1, 2, 3])]);
    assert_eq!(format_error(extract_inhabited_time(&data)), "Unknown tag type: 13");
    let data = document(&[member(255, "other", &[])]);
    assert_eq!(format_error(extract_inhabited_time(&data)), "Unknown tag type: 255");
    let nested = compound(&[member(99, "bad", &[])]);
    let data = document(&[member(9, "list", &list(10, 1, &nested))]);
    assert_eq!(format_error(extract_inhabited_time(&data)), "Unknown tag type: 99");
}

#[test]
fn list_of_end_tags_is_a_format_error_unless_empty() {
    let data = document(&[member(9, "list", &list(0, 1, &[])), long_field(3)]);
    assert_eq!(format_error(extract_inhabited_time(&data)), "Unknown tag type: 0");
    let data = document(&[member(9, "list", &list(0, 0, &[])), long_field(3)]);
    assert_eq!(extract_inhabited_time(&data).unwrap(), Some(3));
}

#[test]
fn element_kind_of_an_empty_list_is_not_looked_at() {
    let data = document(&[member(9, "list", &list(77, 0, &[])), long_field(3)]);
    assert_eq!(extract_inhabited_time(&data).unwrap(), Some(3));
    let data = document(&[member(9, "list", &list(77, 1, &[])), long_field(3)]);
    assert_eq!(format_error(extract_inhabited_time(&data)), "Unknown tag type: 77");
}

#[test]
fn root_must_be_compound() {
    assert_eq!(
        format_error(extract_inhabited_time(&[1, 0, 0, 5])),
        "Root tag is not a compound"
    );
    assert_eq!(
        format_error(extract_inhabited_time(&[0])),
        "Root tag is not a compound"
    );
}

#[test]
fn empty_buffer_is_a_short_read() {
    assert!(is_short_read(extract_inhabited_time(&[])));
}

#[test]
fn short_reads_are_io_errors() {
    // the root's name length
    assert!(is_short_read(extract_inhabited_time(&[10])));
    assert!(is_short_read(extract_inhabited_time(&[10, 0])));
    // the end tag of the root
    assert!(is_short_read(extract_inhabited_time(&[10, 0, 0])));
    // the name length of a member
    assert!(is_short_read(extract_inhabited_time(&[10, 0, 0, 3])));
    assert!(is_short_read(extract_inhabited_time(&[10, 0, 0, 3, 0])));
    // the value of the field
    let mut data = named(10, "");
    data.extend_from_slice(&named(4, "InhabitedTime"));
    data.extend_from_slice(&[0, 0, 0, 0, 0, 0, 0]);
    assert!(is_short_read(extract_inhabited_time(&data)));
    // a value of fixed width that is stepped over
    let mut data = named(10, "");
    data.extend_from_slice(&named(3, "int"));
    data.extend_from_slice(&[0, 0, 0]);
    assert!(is_short_read(extract_inhabited_time(&data)));
    // the count of an array, and the head of a list
    let mut data = named(10, "");
    data.extend_from_slice(&named(11, "ints"));
    data.extend_from_slice(&[0, 0, 0]);
    assert!(is_short_read(extract_inhabited_time(&data)));
    let mut data = named(10, "");
    data.extend_from_slice(&named(9, "list"));
    data.extend_from_slice(&[3, 0, 0, 0]);
    assert!(is_short_read(extract_inhabited_time(&data)));
    // a bad kind byte before a name length that is cut short
    assert!(is_short_read(extract_inhabited_time(&[10, 0, 0, 99])));
}

#[test]
fn truncated_spans_are_format_errors() {
    // the root's name
    assert_eq!(format_error(extract_inhabited_time(&[10, 0, 2, 65])), OVERRUN);
    // a member's name
    assert_eq!(format_error(extract_inhabited_time(&[10, 0, 0, 1, 0, 5, 65, 66])), OVERRUN);
    // the field's name, cut short
    let mut data = named(10, "");
    data.extend_from_slice(&[4, 0, 13]);
    data.extend_from_slice(b"InhabitedTim");
    assert_eq!(format_error(extract_inhabited_time(&data)), OVERRUN);
    // a string, the arrays, a list of a fixed width
    for (kind, payload) in [
        (8u8, vec![0u8, 4, 1, 2, 3]),
        (7, array(4, &[1, 2, 3])),
        (11, array(2, &[0; 7])),
        (12, array(2, &[0; 15])),
        (9, list(2, 3, &[0; 5])),
        (9, list(6, 1, &[0; 7])),
    ] {
        let mut data = named(10, "");
        data.extend_from_slice(&member(kind, "m", &payload));
        assert_eq!(format_error(extract_inhabited_time(&data)), OVERRUN);
    }
}

#[test]
fn negative_lengths_are_format_errors() {
    for (kind, payload) in [
        (7u8, array(-1, &[1, 2, 3])),
        (11, array(i32::MIN, &[0; 8])),
        (12, array(-2, &[0; 16])),
        (9, list(1, -1, &[0; 4])),
        (9, list(10, -1, &[0, 0, 0])),
        (9, list(8, -5, &[0, 0, 0])),
    ] {
        let mut members = vec![member(kind, "m", &payload)];
        members.push(long_field(1));
        let data = document(&members);
        assert_eq!(format_error(extract_inhabited_time(&data)), OVERRUN);
    }
}

#[test]
fn huge_declared_length_is_a_format_error() {
    let data = document(&[member(12, "m", &array(i32::MAX, &[0; 32])), long_field(1)]);
    assert_eq!(format_error(extract_inhabited_time(&data)), OVERRUN);
    let data = document(&[member(9, "m", &list(4, i32::MAX, &[0; 32])), long_field(1)]);
    assert_eq!(format_error(extract_inhabited_time(&data)), OVERRUN);
}

#[test]
fn list_with_more_elements_than_data_fails() {
    let data = document(&[member(9, "m", &list(10, 3, &[0, 0]))]);
    // two empty compounds, then the end of the root is taken for the third,
    // and the end of the root is missing
    assert!(is_short_read(extract_inhabited_time(&data)));
}

#[test]
fn document_cut_short_anywhere_is_an_error() {
    let data = document(&siblings());
    assert_eq!(extract_inhabited_time(&data).unwrap(), None);
    for kept in 0..data.len() {
        match extract_inhabited_time(&data[..kept]) {
            Err(NbtError::IoError(e)) => assert_eq!(e.kind(), std::io::ErrorKind::UnexpectedEof),
            Err(NbtError::InvalidFormat(text)) => assert_eq!(text, OVERRUN),
            Ok(found) => panic!("cut at {} gave {:?}", kept, found),
        }
    }
}

#[test]
fn document_cut_short_after_the_field_still_answers() {
    let mut members = vec![member(8, "s", &text("abc")), long_field(31)];
    let upto = document(&members).len() - 1;
    members.extend(siblings());
    let data = document(&members);
    for kept in 0..data.len() {
        let result = extract_inhabited_time(&data[..kept]);
        if kept >= upto {
            assert_eq!(result.unwrap(), Some(31));
        } else {
            assert!(result.is_err());
        }
    }
}

#[test]
fn garbage_never_panics() {
    let mut seed: u32 = 0x2545_f491;
    for round in 0..2000 {
        let len = (round % 40) as usize;
        let mut data = vec![10u8, 0, 0];
        for _ in 0..len {
            seed ^= seed << 13;
            seed ^= seed >> 17;
            seed ^= seed << 5;
            data.push((seed % 16) as u8);
        }
        let _ = extract_inhabited_time(&data);
    }
}

#[test]
fn compares_name() {
    assert!(compare_inhabited_time(b"InhabitedTime"));
    assert!(!compare_inhabited_time(b"InhabitedTimf"));
    assert!(!compare_inhabited_time(b"inhabitedTime"));
    assert!(!compare_inhabited_time(b"Inhabitedtime"));
    assert!(!compare_inhabited_time(&[0; 13]));
}

#[test]
fn compares_name_byte_by_byte() {
    let name = *b"InhabitedTime";
    for at in 0..13 {
        for bit in 0..8 {
            let mut other = name;
            other[at] ^= 1 << bit;
            assert!(!compare_inhabited_time(&other));
        }
    }
}

#[test]
fn reader_reads_big_endian_numbers() {
    let data = [0x12, 0x34, 0xff, 0xfe, 0x80, 0xff, 0xff, 0xff, 0xfd, 1, 2, 3, 4, 5, 6, 7, 8, 9];
    let mut reader = ByteReader::new(&data);
    assert_eq!(reader.remaining(), 18);
    assert_eq!(reader.read_u16().unwrap(), 0x1234);
    assert_eq!(reader.read_i16().unwrap(), -2);
    assert_eq!(reader.read_i8().unwrap(), -128);
    assert_eq!(reader.read_i32().unwrap(), -3);
    assert_eq!(reader.read_i64().unwrap(), 0x0102030405060708);
    assert_eq!(reader.remaining(), 1);
    assert_eq!(reader.read_u8().unwrap(), 9);
    assert_eq!(reader.remaining(), 0);
}

#[test]
fn reader_fails_without_moving() {
    let data = [1, 2, 3];
    let mut reader = ByteReader::new(&data);
    assert_eq!(reader.read_i32().unwrap_err().kind(), std::io::ErrorKind::UnexpectedEof);
    assert!(reader.read_i64().is_err());
    assert_eq!(reader.remaining(), 3);
    assert_eq!(reader.read_u16().unwrap(), 0x0102);
    assert!(reader.read_u16().is_err());
    assert!(reader.read_i16().is_err());
    assert_eq!(reader.remaining(), 1);
    assert_eq!(reader.read_i8().unwrap(), 3);
    assert!(reader.read_u8().is_err());
    assert!(reader.read_i8().is_err());
}

#[test]
fn reader_copies_and_advances() {
    let data: Vec<u8> = (0..20).collect();
    let mut reader = ByteReader::new(&data);
    reader.advance(2);
    let mut buffer = [0u8; 13];
    reader.read_exact(&mut buffer);
    assert_eq!(buffer, [2, 3, 4, 5, 6, 7, 8, 9, 10, 11, 12, 13, 14]);
    assert_eq!(reader.remaining(), 5);
    reader.advance(5);
    assert_eq!(reader.remaining(), 0);
    reader.advance(0);
    assert_eq!(reader.remaining(), 0);
}

#[test]
fn skip_bytes_checks_the_span() {
    let data = [0u8; 10];
    let mut reader = ByteReader::new(&data);
    assert!(skip_bytes(&mut reader, 4).is_ok());
    assert_eq!(reader.remaining(), 6);
    match skip_bytes(&mut reader, 7) {
        Err(NbtError::InvalidFormat(text)) => assert_eq!(text, OVERRUN),
        other => panic!("unexpected result: {:?}", other),
    }
    assert!(skip_bytes(&mut reader, 6).is_ok());
    assert_eq!(reader.remaining(), 0);
    assert!(skip_bytes(&mut reader, 0).is_ok());
    assert!(skip_bytes(&mut reader, usize::MAX).is_err());
}

#[test]
fn skip_string_steps_over_length_and_bytes() {
    let mut data = text("hello");
    data.extend_from_slice(&[9, 9]);
    let mut reader = ByteReader::new(&data);
    assert!(skip_string(&mut reader).is_ok());
    assert_eq!(reader.remaining(), 2);
    assert!(matches!(skip_string(&mut reader), Err(NbtError::InvalidFormat(_))));
    let one = [0u8];
    let mut reader = ByteReader::new(&one);
    assert!(matches!(skip_string(&mut reader), Err(NbtError::IoError(_))));
}

#[test]
fn skip_tag_value_steps_over_exactly_the_value() {
    let cases: Vec<(u8, Vec<u8>)> = vec![
        (1, vec![5]),
        (2, vec![5, 6]),
        (3, vec![1, 2, 3, 4]),
        (4, vec![0; 8]),
        (5, vec![0; 4]),
        (6, vec![0; 8]),
        (7, array(3, &[1, 2, 3])),
        (7, array(0, &[])),
        (8, text("some text")),
        (9, list(1, 3, &[1, 2, 3])),
        (9, list(2, 2, &[0; 4])),
        (9, list(4, 2, &[0; 16])),
        (9, list(5, 3, &[0; 12])),
        (9, list(10, 2, &[0, 0])),
        (9, list(9, 1, &list(1, 1, &[7]))),
        (9, list(7, 2, &[0, 0, 0, 1, 9, 0, 0, 0, 0])),
        (9, list(12, 1, &array(1, &[0; 8]))),
        (10, compound(&siblings())),
        (11, array(3, &[0; 12])),
        (12, array(1, &[0; 8])),
    ];
    for (kind, payload) in cases {
        let mut data = payload.clone();
        data.extend_from_slice(&[0xaa, 0xbb, 0xcc]);
        let mut reader = ByteReader::new(&data);
        assert!(skip_tag_value(&mut reader, kind).is_ok(), "kind {}", kind);
        assert_eq!(reader.remaining(), 3, "kind {}", kind);
    }
}

#[test]
fn skip_tag_value_refuses_what_is_no_value() {
    for kind in [0u8, 13, 14, 100, 255] {
        let data = [0u8; 16];
        let mut reader = ByteReader::new(&data);
        match skip_tag_value(&mut reader, kind) {
            Err(NbtError::InvalidFormat(text)) => {
                assert_eq!(text, format!("Unknown tag type: {}", kind))
            }
            other => panic!("unexpected result: {:?}", other),
        }
    }
}

#[test]
fn skip_compound_walks_to_the_end_tag() {
    let mut data = compound(&siblings());
    data.extend_from_slice(&[1, 2]);
    let mut reader = ByteReader::new(&data);
    assert!(skip_compound(&mut reader).is_ok());
    assert_eq!(reader.remaining(), 2);
    let data = compound(&siblings());
    let mut reader = ByteReader::new(&data[..data.len() - 1]);
    assert!(matches!(skip_compound(&mut reader), Err(NbtError::IoError(_))));
}

#[test]
fn name_test_reads_the_whole_name() {
    let mut data = text("InhabitedTime");
    data.push(1);
    let mut reader = ByteReader::new(&data);
    assert_eq!(is_inhabited_time_string(&mut reader).unwrap(), true);
    assert_eq!(reader.remaining(), 1);
    let mut data = text("InhabitedTimes");
    data.push(1);
    let mut reader = ByteReader::new(&data);
    assert_eq!(is_inhabited_time_string(&mut reader).unwrap(), false);
    assert_eq!(reader.remaining(), 1);
    let mut data = text("LastUpdate___");
    data.push(1);
    let mut reader = ByteReader::new(&data);
    assert_eq!(is_inhabited_time_string(&mut reader).unwrap(), false);
    assert_eq!(reader.remaining(), 1);
    let data = text("");
    let mut reader = ByteReader::new(&data);
    assert_eq!(is_inhabited_time_string(&mut reader).unwrap(), false);
    assert_eq!(reader.remaining(), 0);
}

#[test]
fn search_depth_is_a_parameter() {
    let level = compound(&[long_field(300)]);
    let members = compound(&[member(10, "a", &level), member(1, "b", &[1])]);
    let mut reader = ByteReader::new(&members);
    assert_eq!(search_compound(&mut reader, 0).unwrap(), None);
    assert_eq!(reader.remaining(), 0);
    let mut reader = ByteReader::new(&members);
    assert_eq!(search_compound(&mut reader, 1).unwrap(), Some(300));
    let deep = compound(&[member(10, "x", &compound(&[member(10, "y", &members)]))]);
    let mut reader = ByteReader::new(&deep);
    assert_eq!(search_compound(&mut reader, 2).unwrap(), None);
    let mut reader = ByteReader::new(&deep);
    assert_eq!(search_compound(&mut reader, 3).unwrap(), Some(300));
    let mut reader = ByteReader::new(&deep);
    assert_eq!(search_compound_recursive(&mut reader, 3, 1).unwrap(), None);
    let mut reader = ByteReader::new(&deep);
    assert_eq!(search_compound_recursive(&mut reader, 255, 0).unwrap(), Some(300));
}

#[test]
fn search_leaves_the_reader_after_the_compound() {
    let mut data = compound(&siblings());
    data.extend_from_slice(&[1, 2, 3, 4]);
    let mut reader = ByteReader::new(&data);
    assert_eq!(search_compound(&mut reader, 2).unwrap(), None);
    assert_eq!(reader.remaining(), 4);
}

#[test]
fn process_chunk_passes_the_value_on() {
    assert_eq!(process_chunk(&document(&[long_field(17)])).unwrap(), Some(17));
    assert_eq!(process_chunk(&document(&[])).unwrap(), None);
}

#[test]
fn process_chunk_wraps_error() {
    let data = document(&[member(13, "Other", &[])]);
    match process_chunk(&data) {
        Err(ProcessError::ChunkError(text)) => assert_eq!(
            text,
            "Fast NBT parsing failed: Invalid NBT format: Unknown tag type: 13"
        ),
        other => panic!("unexpected result: {:?}", other),
    }
    match process_chunk(&[]) {
        Err(ProcessError::ChunkError(text)) => {
            assert!(text.starts_with("Fast NBT parsing failed: IO error: "))
        }
        other => panic!("unexpected result: {:?}", other),
    }
}

#[test]
fn errors_describe_themselves() {
    let error = NbtError::InvalidFormat("Root tag is not a compound".to_string());
    assert_eq!(error.message(), "Invalid NBT format: Root tag is not a compound");
    let cause = std::io::Error::from(std::io::ErrorKind::UnexpectedEof);
    let expected = format!("IO error: {}", cause);
    assert_eq!(NbtError::from(cause).message(), expected);
    let error = ProcessError::RegionError("no header".to_string());
    assert_eq!(error.message(), "Region error: no header");
    let error = ProcessError::ChunkError("bad chunk".to_string());
    assert_eq!(error.message(), "Chunk error: bad chunk");
    let cause = std::io::Error::from(std::io::ErrorKind::PermissionDenied);
    let expected = format!("IO error: {}", cause);
    let error = ProcessError::from(cause);
    assert!(matches!(error, ProcessError::IoError(_)));
    assert_eq!(error.message(), expected);
}

#[test]
fn decimal_numerals() {
    assert_eq!(rori::text::decimal_string(0), "0");
    assert_eq!(rori::text::decimal_string(7), "7");
    assert_eq!(rori::text::decimal_string(10), "10");
    assert_eq!(rori::text::decimal_string(255), "255");
    assert_eq!(rori::text::decimal_string(1024), "1024");
    assert_eq!(rori::text::decimal_string(u64::MAX), "18446744073709551615");
}

#[test]
fn search_stops_right_behind_the_value_it_finds() {
    let mut data = vec![4u8, 0, 13];
    data.extend_from_slice(b"InhabitedTime");
    data.extend_from_slice(&[0, 0, 0, 0, 0, 0, 0, 200, 0]);
    let mut reader = ByteReader::new(&data);
    assert_eq!(search_compound_recursive(&mut reader, 2, 0).unwrap(), Some(200));
    assert_eq!(data.len() - reader.remaining(), 24);
    // found two levels down, with members behind it at every level
    let level = compound(&[member(1, "a", &[1]), member(2, "InhabitedTime", &[1, 2]), member(1, "b", &[2])]);
    let outer = compound(&[member(10, "in", &level), member(1, "c", &[3])]);
    let root = compound(&[member(8, "s", &text("xy")), member(10, "out", &outer), member(1, "d", &[4])]);
    let mut reader = ByteReader::new(&root);
    assert_eq!(search_compound(&mut reader, 2).unwrap(), Some(0x0102));
    let behind = 1 + (1 + 2 + 1 + 1) + (1 + 2 + 1 + 1) + 1 + (1 + 2 + 1 + 1) + 1;
    assert_eq!(reader.remaining(), behind);
}

#[test]
fn unknown_kind_is_refused_before_a_byte_is_read() {
    let data = [1u8, 2, 3];
    let mut reader = ByteReader::new(&data);
    assert!(matches!(skip_tag_value(&mut reader, 13), Err(NbtError::InvalidFormat(_))));
    assert_eq!(reader.remaining(), 3);
    let mut reader = ByteReader::new(&data);
    assert!(matches!(skip_tag_value(&mut reader, 0), Err(NbtError::InvalidFormat(_))));
    assert_eq!(reader.remaining(), 3);
}

#[test]
fn reader_stands_where_the_walk_stopped() {
    // a field of fixed width that is cut short is not read at all
    let data = [1u8, 2, 3];
    let mut reader = ByteReader::new(&data);
    assert!(matches!(skip_tag_value(&mut reader, 3), Err(NbtError::IoError(_))));
    assert_eq!(reader.remaining(), 3);
    // a span that is not there: the reader stands behind the length
    let data = [0u8, 5, 1, 2];
    let mut reader = ByteReader::new(&data);
    assert!(matches!(skip_tag_value(&mut reader, 8), Err(NbtError::InvalidFormat(_))));
    assert_eq!(reader.remaining(), 2);
    let data = [0u8, 0, 0, 3, 1, 2];
    let mut reader = ByteReader::new(&data);
    assert!(matches!(skip_tag_value(&mut reader, 11), Err(NbtError::InvalidFormat(_))));
    assert_eq!(reader.remaining(), 2);
    // a list whose count is cut short: the kind of its elements has been read
    let data = [3u8, 0, 0];
    let mut reader = ByteReader::new(&data);
    assert!(matches!(skip_tag_value(&mut reader, 9), Err(NbtError::IoError(_))));
    assert_eq!(reader.remaining(), 2);
    // a list of a fixed width that is not there, and one with a negative count
    let data = [3u8, 0, 0, 0, 2, 9, 9, 9];
    let mut reader = ByteReader::new(&data);
    assert!(matches!(skip_tag_value(&mut reader, 9), Err(NbtError::InvalidFormat(_))));
    assert_eq!(reader.remaining(), 3);
    let data = [10u8, 0xff, 0xff, 0xff, 0xff, 0];
    let mut reader = ByteReader::new(&data);
    assert!(matches!(skip_tag_value(&mut reader, 9), Err(NbtError::InvalidFormat(_))));
    assert_eq!(reader.remaining(), 1);
    // a member of an unknown kind in a compound: kind and name have been read
    let mut data = member(13, "bad", &[7, 7]);
    data.push(0);
    let mut reader = ByteReader::new(&data);
    assert!(matches!(skip_compound(&mut reader), Err(NbtError::InvalidFormat(_))));
    assert_eq!(reader.remaining(), 3);
    let mut reader = ByteReader::new(&data);
    assert!(matches!(search_compound(&mut reader, 2), Err(NbtError::InvalidFormat(_))));
    assert_eq!(reader.remaining(), 3);
    // the field with a value of another kind: the value is not read
    let mut data = member(8, "InhabitedTime", &text("12"));
    data.push(0);
    let mut reader = ByteReader::new(&data);
    assert!(matches!(search_compound(&mut reader, 2), Err(NbtError::InvalidFormat(_))));
    assert_eq!(reader.remaining(), 5);
    // the field's name cut short: the reader stands behind its length
    let mut data = vec![4u8, 0, 13];
    data.extend_from_slice(b"Inhabited");
    let mut reader = ByteReader::new(&data);
    assert!(matches!(search_compound(&mut reader, 2), Err(NbtError::InvalidFormat(_))));
    assert_eq!(reader.remaining(), 9);
}

fn field_at_depth(depth: usize) -> Vec<u8> {
    let mut members = vec![member(1, "a", &[1]), long_field(55), member(8, "z", &text("end"))];
    for _ in 0..depth {
        let inner = compound(&members);
        members = vec![member(1, "a", &[1]), member(10, "down", &inner), member(8, "z", &text("end"))];
    }
    compound(&members)
}

#[test]
fn depth_bound_decides_whether_the_field_is_found() {
    for depth in 0..6usize {
        let data = field_at_depth(depth);
        for max_depth in 0..6u8 {
            for current_depth in 0..8u8 {
                let levels = max_depth.saturating_sub(current_depth) as usize;
                let expected = if depth <= levels { Some(55) } else { None };
                let mut reader = ByteReader::new(&data);
                let found = search_compound_recursive(&mut reader, max_depth, current_depth);
                assert_eq!(found.unwrap(), expected, "{} {} {}", depth, max_depth, current_depth);
                if expected.is_none() {
                    assert_eq!(reader.remaining(), 0);
                }
            }
        }
    }
}
