use beluga_builder::error::MdictError;
use beluga_builder::header::{Attr, Header};
use beluga_builder::index::{build_record_index, parse_keywords};
use beluga_builder::mdict::locate;
use beluga_builder::scanner::Scanner;

#[test]
fn numbers_follow_the_width() {
    let bytes = vec![0u8, 0, 0, 1, 0, 0, 0, 2, 9];
    let mut s = Scanner::new(bytes.clone(), true, false);
    assert_eq!(s.read_number(), Ok(0x0000_0001_0000_0002));
    assert_eq!(s.pos, 8);
    assert_eq!(s.read_number(), Err(MdictError::TruncatedInput));
    assert_eq!(s.pos, 8);
    let mut s = Scanner::new(bytes, false, false);
    assert_eq!(s.read_number(), Ok(1));
    assert_eq!(s.read_number(), Ok(2));
    assert_eq!(s.pos, 8);
}

#[test]
fn short_numbers_follow_the_width() {
    let mut s = Scanner::new(vec![1, 2, 3], true, true);
    assert_eq!(s.read_short_number(), Ok(0x0102));
    let mut s = Scanner::new(vec![1, 2, 3], false, true);
    assert_eq!(s.read_short_number(), Ok(1));
    assert_eq!(s.pos, 1);
}

#[test]
fn sized_text_skips_tail_in_v2_only() {
    let mut s = Scanner::new(vec![b'a', 0, b'b', 0, 0, 0, b'z', 0], true, true);
    assert_eq!(s.text_tail, 2);
    assert_eq!(s.read_text(2), Ok(String::from("ab")));
    assert_eq!(s.pos, 6);
    let mut s = Scanner::new(b"abcd".to_vec(), false, false);
    assert_eq!(s.text_tail, 0);
    assert_eq!(s.read_text(3), Ok(String::from("abc")));
    assert_eq!(s.pos, 3);
    assert_eq!(s.read_text(2), Err(MdictError::TruncatedInput));
    let mut s = Scanner::new(vec![0xff, 0xfe], false, false);
    assert_eq!(s.read_text(2), Err(MdictError::DecodeError));
    let mut s = Scanner::new(vec![0x00, 0xd8], false, true);
    assert_eq!(s.read_text(1), Err(MdictError::DecodeError));
}

#[test]
fn unsized_text_stops_at_nul() {
    let mut s = Scanner::new(b"key\0rest".to_vec(), false, false);
    assert_eq!(s.read_text_unsized(), Ok(String::from("key")));
    assert_eq!(s.pos, 4);
    assert_eq!(s.read_text_unsized(), Err(MdictError::TruncatedInput));
    let mut s = Scanner::new(vec![0x3d, 0xd8, 0x00, 0xde, 0, 0], true, true);
    assert_eq!(s.read_text_unsized(), Ok(String::from("\u{1F600}")));
    assert_eq!(s.pos, 6);
    let mut s = Scanner::new(vec![b'a', 0, 0], false, true);
    assert_eq!(s.read_text_unsized(), Err(MdictError::TruncatedInput));
    let mut s = Scanner::new(vec![b'a', 0, 0, 0], false, true);
    assert_eq!(s.read_text_unsized(), Ok(String::from("a")));
}

#[test]
fn read_seek_forward() {
    let mut s = Scanner::new(vec![1, 2, 3, 4, 5], false, false);
    s.seek(1);
    assert_eq!(s.read(2), Ok(vec![2, 3]));
    s.forward(1);
    assert_eq!(s.read(2), Err(MdictError::TruncatedInput));
    assert_eq!(s.read(1), Ok(vec![5]));
}

fn attr(k: &str, v: &str) -> Attr {
    Attr { key: k.as_bytes().to_vec(), value: v.as_bytes().to_vec() }
}

#[test]
fn header_attributes_are_read() {
    let h = Header::from_attributes(&vec![attr("GeneratedByEngineVersion", "2.0"), attr("Encrypted", "2")]).unwrap();
    assert_eq!(h, Header { v2: true, encryption: 2, utf16: true, unknown_encoding: false });
    let h = Header::from_attributes(&vec![
        attr("GeneratedByEngineVersion", "1.2"),
        attr("Encrypted", "NO"),
        attr("Encoding", "GBK"),
    ])
    .unwrap();
    assert_eq!(h, Header { v2: false, encryption: 0, utf16: false, unknown_encoding: true });
    let h = Header::from_attributes(&vec![attr("GeneratedByEngineVersion", "10"), attr("Encoding", "UTF-8")]).unwrap();
    assert_eq!(h, Header { v2: true, encryption: 0, utf16: false, unknown_encoding: false });
    assert_eq!(
        Header::from_attributes(&vec![attr("GeneratedByEngineVersion", "2.0"), attr("Encrypted", "1")]),
        Err(MdictError::UnsupportedEncryption)
    );
    assert_eq!(
        Header::from_attributes(&vec![attr("GeneratedByEngineVersion", "x")]),
        Err(MdictError::MalformedHeader)
    );
    assert_eq!(
        Header::from_attributes(&vec![attr("GeneratedByEngineVersion", "2.0"), attr("Encrypted", "300")]),
        Err(MdictError::MalformedHeader)
    );
}

#[test]
fn keyword_sizes_chain_to_next_offset() {
    let mut buf = Vec::new();
    for (off, key) in [(0u32, "a"), (5, "b"), (12, "c")] {
        buf.extend(off.to_be_bytes());
        buf.extend(key.as_bytes());
        buf.push(0);
    }
    let ks = parse_keywords(buf, 3, false, false).unwrap();
    let sizes: Vec<u64> = ks.iter().map(|k| k.size).collect();
    assert_eq!(sizes, vec![5, 7, 0]);
    assert_eq!(ks[2].key, "c");
}

#[test]
fn record_index_is_cumulative() {
    let mut buf = Vec::new();
    for x in [10u64, 100, 20, 50] {
        buf.extend(x.to_be_bytes());
    }
    let ri = build_record_index(buf.clone(), 2, 1000, true).unwrap();
    assert_eq!(ri, vec![(1000, 0), (1010, 100), (1030, 150)]);
    assert_eq!(locate(&ri, 0), Some(0));
    assert_eq!(locate(&ri, 99), Some(0));
    assert_eq!(locate(&ri, 100), Some(1));
    assert_eq!(locate(&ri, 150), None);
    let mut zero = buf;
    zero[15] = 0;
    assert_eq!(build_record_index(zero, 2, 1000, true), Err(MdictError::CorruptIndex));
}

#[test]
fn decreasing_keyword_offsets_are_corrupt() {
    let mut buf = Vec::new();
    for (off, key) in [(8u32, "a"), (3, "b")] {
        buf.extend(off.to_be_bytes());
        buf.extend(key.as_bytes());
        buf.push(0);
    }
    assert!(matches!(parse_keywords(buf, 2, false, false), Err(MdictError::CorruptIndex)));
    let mut good = Vec::new();
    for (off, key) in [(0u32, "a"), (5, "b")] {
        good.extend(off.to_be_bytes());
        good.extend(key.as_bytes());
        good.push(0);
    }
    assert!(parse_keywords(good.clone(), 2, false, false).is_ok());
    assert!(matches!(parse_keywords(good, 3, false, false), Err(MdictError::TruncatedInput)));
}

#[test]
fn record_index_overflow_and_short_input() {
    let mut buf = Vec::new();
    for x in [u64::MAX, 1u64] {
        buf.extend(x.to_be_bytes());
    }
    assert_eq!(build_record_index(buf.clone(), 1, 1, true), Err(MdictError::CorruptIndex));
    assert_eq!(build_record_index(buf, 2, 0, true), Err(MdictError::TruncatedInput));
    assert_eq!(build_record_index(vec![], 0, 7, false), Ok(vec![(7, 0)]));
}
