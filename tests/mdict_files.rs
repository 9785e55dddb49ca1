use beluga_builder::block::{decode_block, decrypt};
use beluga_builder::error::MdictError;
use beluga_builder::mdict::Mdict;
use beluga_builder::raw::{entry_row, row_value, Batch, FileKind};
use flate2::write::ZlibEncoder;
use flate2::Compression;
use ripemd128::{Digest, Ripemd128};
use std::io::Write;

#[derive(Clone, Copy)]
struct Fmt {
    v2: bool,
    utf16: bool,
}

fn num(f: Fmt, x: u64) -> Vec<u8> {
    if f.v2 {
        x.to_be_bytes().to_vec()
    } else {
        (x as u32).to_be_bytes().to_vec()
    }
}

fn short(f: Fmt, x: usize) -> Vec<u8> {
    if f.v2 {
        (x as u16).to_be_bytes().to_vec()
    } else {
        vec![x as u8]
    }
}

fn text(f: Fmt, s: &str) -> Vec<u8> {
    if f.utf16 {
        s.encode_utf16().flat_map(|u| u.to_le_bytes()).collect()
    } else {
        s.as_bytes().to_vec()
    }
}

fn units(f: Fmt, s: &str) -> usize {
    if f.utf16 {
        s.encode_utf16().count()
    } else {
        s.len()
    }
}

fn nul(f: Fmt) -> Vec<u8> {
    if f.utf16 {
        vec![0, 0]
    } else {
        vec![0]
    }
}

fn raw_block(body: &[u8]) -> Vec<u8> {
    let mut b = vec![0u8, 0, 0, 0, 0, 0, 0, 0];
    b.extend_from_slice(body);
    b
}

fn zlib(body: &[u8]) -> Vec<u8> {
    let mut e = ZlibEncoder::new(Vec::new(), Compression::default());
    e.write_all(body).unwrap();
    e.finish().unwrap()
}

fn key_digest(seed: &[u8]) -> Vec<u8> {
    let mut key = seed.to_vec();
    key.extend_from_slice(&[0x95, 0x36, 0, 0]);
    Ripemd128::digest(&key).to_vec()
}

fn encrypt(plain: &[u8], k: &[u8]) -> Vec<u8> {
    let mut out = Vec::new();
    let mut prev: u8 = 0x36;
    for (i, &p) in plain.iter().enumerate() {
        let x = p ^ prev ^ (i as u8) ^ k[i % 16];
        let c = (x >> 4) | (x << 4);
        out.push(c);
        prev = c;
    }
    out
}

fn zlib_block(body: &[u8], encrypted: bool) -> Vec<u8> {
    let seed = [0x11u8, 0x22, 0x33, 0x44];
    let mut b = vec![2u8, 0, 0, 0];
    b.extend_from_slice(&seed);
    let c = zlib(body);
    if encrypted {
        b.extend(encrypt(&c, &key_digest(&seed)));
    } else {
        b.extend(c);
    }
    b
}

fn header_bytes(xml: &str) -> Vec<u8> {
    let x: Vec<u8> = xml.encode_utf16().flat_map(|u| u.to_le_bytes()).collect();
    let mut b = (x.len() as u32).to_be_bytes().to_vec();
    b.extend(x);
    b.extend([0u8; 4]);
    b
}

/// An MDX/MDD file: `blocks` are keyword blocks of (key, payload) pairs;
/// all payloads stand in one record block, except where `split` names the
/// number of payloads in the first record block.
fn build(xml: &str, f: Fmt, blocks: &[Vec<(&str, Vec<u8>)>], index_kind: u8, split: Option<usize>) -> Vec<u8> {
    let mut stream: Vec<u8> = Vec::new();
    let mut bounds: Vec<usize> = Vec::new();
    let mut kw_blocks: Vec<Vec<u8>> = Vec::new();
    let mut index = Vec::new();
    let mut total = 0u64;
    for blk in blocks {
        let mut content = Vec::new();
        for (key, payload) in blk {
            content.extend(num(f, stream.len() as u64));
            content.extend(text(f, key));
            content.extend(nul(f));
            stream.extend_from_slice(payload);
            bounds.push(stream.len());
            total += 1;
        }
        let block = raw_block(&content);
        index.extend(num(f, blk.len() as u64));
        for w in [blk[0].0, blk[blk.len() - 1].0] {
            index.extend(short(f, units(f, w)));
            index.extend(text(f, w));
            if f.v2 {
                index.extend(nul(f));
            }
        }
        index.extend(num(f, block.len() as u64));
        index.extend(num(f, content.len() as u64));
        kw_blocks.push(block);
    }
    let index_block = match index_kind {
        0 => raw_block(&index),
        2 => zlib_block(&index, false),
        22 => zlib_block(&index, true),
        k => {
            let mut b = raw_block(&index);
            b[0] = k;
            b
        }
    };
    let kb: Vec<u8> = kw_blocks.concat();
    let mut file = header_bytes(xml);
    file.extend(num(f, blocks.len() as u64));
    file.extend(num(f, total));
    if f.v2 {
        file.extend(num(f, index.len() as u64));
    }
    file.extend(num(f, index_block.len() as u64));
    file.extend(num(f, kb.len() as u64));
    file.extend([0u8; 4]);
    file.extend(index_block);
    file.extend(kb);
    let parts: Vec<Vec<u8>> = match split {
        None => vec![stream.clone()],
        Some(n) => vec![stream[..bounds[n - 1]].to_vec(), stream[bounds[n - 1]..].to_vec()],
    };
    let rec: Vec<Vec<u8>> = parts.iter().map(|p| raw_block(p)).collect();
    let mut ri = Vec::new();
    for (r, p) in rec.iter().zip(parts.iter()) {
        ri.extend(num(f, r.len() as u64));
        ri.extend(num(f, p.len() as u64));
    }
    let rb: Vec<u8> = rec.concat();
    file.extend(num(f, rec.len() as u64));
    file.extend(num(f, total));
    file.extend(num(f, ri.len() as u64));
    file.extend(num(f, rb.len() as u64));
    file.extend(ri);
    file.extend(rb);
    file
}

fn entry(f: Fmt, s: &str) -> Vec<u8> {
    let mut b = text(f, s);
    b.extend(nul(f));
    b
}

const V1_UTF8: &str = r#"<Dictionary GeneratedByEngineVersion="1.2" Encoding="UTF-8" Encrypted="no"/>"#;

#[test]
fn v1_utf8_three_blocks_seven_entries() {
    let f = Fmt { v2: false, utf16: false };
    let words = ["apple", "banana", "cherry", "date", "elder", "fig", "grape"];
    let defs: Vec<String> = words.iter().map(|w| format!("<b>{}</b> é", w)).collect();
    let blocks: Vec<Vec<(&str, Vec<u8>)>> = vec![
        (0..3).map(|i| (words[i], entry(f, &defs[i]))).collect(),
        (3..5).map(|i| (words[i], entry(f, &defs[i]))).collect(),
        (5..7).map(|i| (words[i], entry(f, &defs[i]))).collect(),
    ];
    let file = build(V1_UTF8, f, &blocks, 0, None);
    let mut m = Mdict::new("dict.mdx", file).unwrap();
    let out = m.parse().unwrap();
    assert_eq!(out.len(), 7);
    for i in 0..7 {
        assert_eq!(out[i].0, words[i]);
        assert_eq!(out[i].1, defs[i].as_bytes().to_vec());
    }
    assert!(!m.header.v2);
    assert!(!m.header.utf16);
    assert_eq!(m.summary.num_blocks, 3);
    assert_eq!(m.summary.num_entries, 7);
    assert_eq!(m.record_summary.num_entries, 7);
}

#[test]
fn v2_utf16_encrypted_single_entry() {
    let f = Fmt { v2: true, utf16: true };
    let xml = r#"<Dictionary GeneratedByEngineVersion="2.0" Encrypted="2" Encoding="UTF-16"/>"#;
    let blocks = vec![vec![("hello", entry(f, "<p>hi</p>"))]];
    let file = build(xml, f, &blocks, 22, None);
    let mut m = Mdict::new("dict.mdx", file).unwrap();
    let out = m.parse().unwrap();
    assert_eq!(out, vec![(String::from("hello"), b"<p>hi</p>".to_vec())]);
    assert_eq!(m.header.encryption, 2);
}

#[test]
fn v2_mdd_last_of_block_size() {
    let f = Fmt { v2: true, utf16: true };
    let xml = r#"<Library_Data GeneratedByEngineVersion="2.0" Encrypted="0" Encoding=""/>"#;
    let a: Vec<u8> = (0u8..10).collect();
    let b: Vec<u8> = (100u8..117).collect();
    let blocks = vec![vec![("img/a.png", a.clone()), ("img/b.png", b.clone())]];
    let file = build(xml, f, &blocks, 2, None);
    let mut m = Mdict::new("res.mdd", file).unwrap();
    let out = m.parse().unwrap();
    assert_eq!(out.len(), 2);
    assert_eq!(out[0], (String::from("img/a.png"), a.clone()));
    assert_eq!(out[1], (String::from("img/b.png"), b.clone()));
    assert_eq!(m.blocks[0][0].size, 10);
    assert_eq!(m.blocks[0][1].size, 0);
}

#[test]
fn unknown_compression_is_fatal() {
    let f = Fmt { v2: false, utf16: false };
    let blocks = vec![vec![("a", entry(f, "x"))]];
    let file = build(V1_UTF8, f, &blocks, 3, None);
    let mut m = Mdict::new("dict.mdx", file).unwrap();
    assert_eq!(m.parse(), Err(MdictError::UnknownCompression));
}

#[test]
fn encryption_mode_one_is_refused() {
    let f = Fmt { v2: false, utf16: false };
    let xml = r#"<Dictionary GeneratedByEngineVersion="1.2" Encoding="UTF-8" Encrypted="1"/>"#;
    let blocks = vec![vec![("a", entry(f, "x"))]];
    let file = build(xml, f, &blocks, 0, None);
    let mut m = Mdict::new("dict.mdx", file).unwrap();
    assert_eq!(m.parse(), Err(MdictError::UnsupportedEncryption));
}

#[test]
fn hundred_entries_in_two_record_blocks() {
    let f = Fmt { v2: true, utf16: false };
    let xml = r#"<Dictionary GeneratedByEngineVersion="2.0" Encoding="UTF-8" Encrypted="No"/>"#;
    let keys: Vec<String> = (0..100).map(|i| format!("word{:03}", i)).collect();
    let defs: Vec<String> = (0..100).map(|i| format!("definition number {}", i)).collect();
    let blocks: Vec<Vec<(&str, Vec<u8>)>> = (0..4)
        .map(|b| (b * 25..b * 25 + 25).map(|i| (keys[i].as_str(), entry(f, &defs[i]))).collect())
        .collect();
    let file = build(xml, f, &blocks, 2, Some(40));
    let mut m = Mdict::new("big.mdx", file).unwrap();
    let out = m.parse().unwrap();
    assert_eq!(out.len(), 100);
    for i in 0..100 {
        assert_eq!(out[i].0, keys[i]);
        assert_eq!(out[i].1, defs[i].as_bytes().to_vec());
    }
    assert_eq!(m.record_index.len(), 3);
    assert!(m.record_index[0].0 < m.record_index[1].0 && m.record_index[1].0 < m.record_index[2].0);
    assert!(m.record_index[0].1 < m.record_index[1].1 && m.record_index[1].1 < m.record_index[2].1);
}

#[test]
fn width_flip_breaks_parsing() {
    let f = Fmt { v2: true, utf16: false };
    let xml2 = r#"<Dictionary GeneratedByEngineVersion="2.0" Encoding="UTF-8" Encrypted="no"/>"#;
    let xml1 = r#"<Dictionary GeneratedByEngineVersion="1.0" Encoding="UTF-8" Encrypted="no"/>"#;
    let blocks = vec![vec![("k", entry(f, "v"))]];
    let good = build(xml2, f, &blocks, 0, None);
    let mut m = Mdict::new("d.mdx", good).unwrap();
    assert_eq!(m.parse().unwrap().len(), 1);
    let flipped = build(xml1, f, &blocks, 0, None);
    let mut m = Mdict::new("d.mdx", flipped).unwrap();
    assert!(m.parse().is_err());
}

#[test]
fn cache_gives_same_payloads() {
    let f = Fmt { v2: true, utf16: false };
    let xml = r#"<Dictionary GeneratedByEngineVersion="2.0" Encoding="UTF-8"/>"#;
    let blocks = vec![vec![("a", entry(f, "one")), ("b", entry(f, "two")), ("c", entry(f, "three"))]];
    let file = build(xml, f, &blocks, 0, None);
    let mut m = Mdict::new("d.mdx", file).unwrap();
    m.parse_index().unwrap();
    let mut cached = Vec::new();
    for k in 0..3 {
        let kw = &m.blocks[0][k];
        let kw = beluga_builder::index::Keyword { offset: kw.offset, key: kw.key.clone(), size: kw.size };
        cached.push(m.definition(&kw).unwrap());
    }
    let mut fresh = Vec::new();
    for k in 0..3 {
        let kw = &m.blocks[0][k];
        let kw = beluga_builder::index::Keyword { offset: kw.offset, key: kw.key.clone(), size: kw.size };
        m.cached = false;
        fresh.push(m.definition(&kw).unwrap());
    }
    assert_eq!(cached, fresh);
    assert_eq!(cached[2], (String::from("c"), b"three".to_vec()));
}

#[test]
fn offset_outside_records_is_out_of_range() {
    let f = Fmt { v2: true, utf16: false };
    let xml = r#"<Dictionary GeneratedByEngineVersion="2.0" Encoding="UTF-8"/>"#;
    let blocks = vec![vec![("a", entry(f, "one"))]];
    let file = build(xml, f, &blocks, 0, None);
    let mut m = Mdict::new("d.mdx", file).unwrap();
    m.parse_index().unwrap();
    let kw = beluga_builder::index::Keyword { offset: 4, key: String::from("z"), size: 0 };
    assert_eq!(m.definition(&kw).map(|_| ()), Err(MdictError::OutOfRange));
}

#[test]
fn bad_extension_is_invalid_path() {
    assert!(matches!(Mdict::new("dict.txt", vec![]), Err(MdictError::InvalidPath)));
    assert!(Mdict::new("dict.mdd", vec![]).is_ok());
}

#[test]
fn missing_version_is_malformed() {
    let f = Fmt { v2: false, utf16: false };
    let xml = r#"<Dictionary Encoding="UTF-8"/>"#;
    let blocks = vec![vec![("a", entry(f, "x"))]];
    let file = build(xml, f, &blocks, 0, None);
    let mut m = Mdict::new("dict.mdx", file).unwrap();
    assert_eq!(m.parse(), Err(MdictError::MalformedHeader));
}

#[test]
fn count_mismatch_is_corrupt_index() {
    let f = Fmt { v2: false, utf16: false };
    let blocks = vec![vec![("a", entry(f, "x")), ("b", entry(f, "y"))]];
    let mut file = build(V1_UTF8, f, &blocks, 0, None);
    let h = header_bytes(V1_UTF8).len();
    file[h + 7] = 3;
    let mut m = Mdict::new("dict.mdx", file).unwrap();
    assert_eq!(m.parse(), Err(MdictError::CorruptIndex));
}

#[test]
fn ripemd128_published_vectors() {
    let hex = |b: &[u8]| b.iter().map(|x| format!("{:02x}", x)).collect::<String>();
    assert_eq!(hex(&Ripemd128::digest(b"")), "cdf26213a150dc3ecb610f18f6b38b46");
    assert_eq!(hex(&Ripemd128::digest(b"abc")), "c14a12199c66e4ba84636b0f69144c77");
    assert_eq!(hex(&Ripemd128::digest(b"message digest")), "9e327b3d6e523062afc1132d7df9d1b8");
}

#[test]
fn decrypt_uses_key_digest() {
    let key = [1u8, 2, 3, 4, 0x95, 0x36, 0, 0];
    let k = Ripemd128::digest(&key).to_vec();
    let mut buf = vec![0u8; 20];
    decrypt(&mut buf, key);
    for i in 0..20 {
        let prev = if i == 0 { 0x36 } else { 0 };
        assert_eq!(buf[i], prev ^ (i as u8) ^ k[i % 16]);
    }
    let plain = b"keyword index body".to_vec();
    let mut c = encrypt(&plain, &k);
    let again = c.clone();
    decrypt(&mut c, key);
    assert_eq!(c, plain);
    let mut d = again.clone();
    decrypt(&mut d, key);
    assert_eq!(d, plain);
}

#[test]
fn decode_block_kinds() {
    let body = b"some block body, some block body".to_vec();
    assert_eq!(decode_block(&raw_block(&body), 0, 0), Ok(body.clone()));
    assert_eq!(decode_block(&zlib_block(&body, false), 0, 0), Ok(body.clone()));
    assert_eq!(decode_block(&zlib_block(&body, true), 0, 2), Ok(body.clone()));
    let mut lzo = vec![1u8, 0, 0, 0, 0, 0, 0, 0];
    let mut ctx = rust_lzo::LZOContext::new();
    let mut comp = Vec::with_capacity(rust_lzo::worst_compress(body.len()));
    assert!(ctx.compress(&body, &mut comp) == rust_lzo::LZOError::OK);
    lzo.extend(comp);
    assert_eq!(decode_block(&lzo, body.len(), 0), Ok(body.clone()));
    let mut bad = raw_block(&body);
    bad[0] = 3;
    assert_eq!(decode_block(&bad, 0, 0), Err(MdictError::UnknownCompression));
    assert_eq!(decode_block(&vec![2u8, 0, 0], 0, 0), Err(MdictError::CorruptBlock));
    let mut junk = vec![2u8, 0, 0, 0, 0, 0, 0, 0];
    junk.extend_from_slice(b"not zlib");
    assert_eq!(decode_block(&junk, 0, 0), Err(MdictError::CorruptBlock));
}

#[test]
fn truncated_header_is_truncated_input() {
    let f = Fmt { v2: false, utf16: false };
    let blocks = vec![vec![("a", entry(f, "x"))]];
    let file = build(V1_UTF8, f, &blocks, 0, None);
    let cut = file[..20].to_vec();
    let mut m = Mdict::new("dict.mdx", cut).unwrap();
    assert_eq!(m.parse(), Err(MdictError::TruncatedInput));
}

#[test]
fn hundred_entries_survive_raw_rows() {
    let f = Fmt { v2: true, utf16: true };
    let xml = r#"<Dictionary GeneratedByEngineVersion="2.0" Encrypted="2"/>"#;
    let keys: Vec<String> = (0..100).map(|i| format!("词{}", i)).collect();
    let defs: Vec<String> = (0..100).map(|i| format!("<i>释义</i> {}", i * 7)).collect();
    let blocks: Vec<Vec<(&str, Vec<u8>)>> = (0..2)
        .map(|b| (b * 50..b * 50 + 50).map(|i| (keys[i].as_str(), entry(f, &defs[i]))).collect())
        .collect();
    let file = build(xml, f, &blocks, 22, Some(30));
    let mut m = Mdict::new("big.mdx", file).unwrap();
    let direct = m.parse().unwrap();
    assert_eq!(direct.len(), 100);
    let mut batch = Batch::new(200);
    for (k, v) in &direct {
        batch.push(entry_row(FileKind::Entry, k, v).unwrap());
    }
    let back: Vec<(String, Vec<u8>)> = batch
        .take()
        .iter()
        .map(|r| (r.name.clone(), row_value(FileKind::Entry, r).unwrap()))
        .collect();
    assert_eq!(back, direct);
    assert_eq!(back[99], (keys[99].clone(), defs[99].as_bytes().to_vec()));
}

#[test]
fn resources_survive_raw_rows() {
    let f = Fmt { v2: true, utf16: true };
    let xml = r#"<Library_Data GeneratedByEngineVersion="2.0" Encrypted="0"/>"#;
    let blobs: Vec<Vec<u8>> = (0..5u8).map(|i| (0..=i * 40).map(|x| x ^ 0xa5).collect()).collect();
    let names = ["\\a.png", "\\b.css", "\\c.js", "\\d.mp3", "\\e.bin"];
    let blocks = vec![(0..5).map(|i| (names[i], blobs[i].clone())).collect::<Vec<_>>()];
    let file = build(xml, f, &blocks, 2, Some(2));
    let mut m = Mdict::new("res.mdd", file).unwrap();
    let out = m.parse().unwrap();
    assert_eq!(out.len(), 5);
    for (i, (k, v)) in out.iter().enumerate() {
        assert_eq!(k, names[i]);
        assert_eq!(v, &blobs[i]);
        let row = entry_row(FileKind::Resource, k, v).unwrap();
        assert_eq!(row_value(FileKind::Resource, &row).as_ref(), Some(v));
    }
}

#[test]
fn index_words_must_match_block_keys() {
    let f = Fmt { v2: false, utf16: false };
    let blocks = vec![vec![("a", entry(f, "x")), ("b", entry(f, "y"))]];
    let file = build(V1_UTF8, f, &blocks, 0, None);
    let mut m = Mdict::new("dict.mdx", file.clone()).unwrap();
    assert_eq!(m.parse().unwrap().len(), 2);
    let first_word_at = header_bytes(V1_UTF8).len() + 16 + 4 + 8 + 4 + 1;
    assert_eq!(file[first_word_at], b'a');
    let mut bad = file;
    bad[first_word_at] = b'z';
    let mut m = Mdict::new("dict.mdx", bad).unwrap();
    assert_eq!(m.parse(), Err(MdictError::CorruptIndex));
}
