use beluga_builder::error::MdictError;
use beluga_builder::raw::{entry_row, raw_kind, row_value, transform_of, Batch, FileKind, Transform};

#[test]
fn extension_pairs_select_transforms() {
    assert_eq!(transform_of("mdx", "bel"), Some(Transform::MdxToEntry));
    assert_eq!(transform_of("mdd", "beld"), Some(Transform::MddToResource));
    assert_eq!(transform_of("mdx", "bel-db"), Some(Transform::MdictToRaw(FileKind::Entry)));
    assert_eq!(transform_of("mdd", "beld-db"), Some(Transform::MdictToRaw(FileKind::Resource)));
    assert_eq!(transform_of("bel", "bel-db"), Some(Transform::BelugaToRaw(FileKind::Entry)));
    assert_eq!(transform_of("beld", "beld-db"), Some(Transform::BelugaToRaw(FileKind::Resource)));
    assert_eq!(transform_of("bel-db", "bel"), Some(Transform::RawToBeluga(FileKind::Entry)));
    assert_eq!(transform_of("beld-db", "beld"), Some(Transform::RawToBeluga(FileKind::Resource)));
    assert_eq!(transform_of("mdx", "beld"), None);
    assert_eq!(transform_of("bel", "beld-db"), None);
    assert_eq!(transform_of("txt", "bel"), None);
}

#[test]
fn raw_kind_follows_path() {
    assert_eq!(raw_kind("out/dict.bel-db"), FileKind::Entry);
    assert_eq!(raw_kind("out/dict.beld-db"), FileKind::Resource);
    assert_eq!(raw_kind("bel-db"), FileKind::Resource);
}

#[test]
fn entry_rows_keep_text_or_bytes() {
    let row = entry_row(FileKind::Entry, "café", "<b>x</b> é".as_bytes()).unwrap();
    assert_eq!(row.name, "café");
    assert_eq!(row.text.as_deref(), Some("<b>x</b> é"));
    assert!(row.binary.is_none());
    assert_eq!(row_value(FileKind::Entry, &row), Some("<b>x</b> é".as_bytes().to_vec()));
    let bytes = vec![0u8, 0xff, 7];
    let row = entry_row(FileKind::Resource, "a.png", &bytes).unwrap();
    assert!(row.text.is_none());
    assert_eq!(row.binary, Some(bytes.clone()));
    assert_eq!(row_value(FileKind::Resource, &row), Some(bytes.clone()));
    assert_eq!(row_value(FileKind::Entry, &row), None);
    assert!(matches!(entry_row(FileKind::Entry, "bad", &bytes), Err(MdictError::DecodeError)));
}

#[test]
fn batch_flushes_at_cache_size() {
    let mut b: Batch<u32> = Batch::new(3);
    assert!(!b.push(1));
    assert!(!b.push(2));
    assert!(b.push(3));
    assert_eq!(b.take(), vec![1, 2, 3]);
    assert!(b.items.is_empty());
    assert!(!b.push(4));
    assert_eq!(b.cache_size, 3);
}

#[test]
fn paging_moves_to_last_id_and_stops_on_short_page() {
    assert_eq!(beluga_builder::raw::next_page(0, &vec![3, 5, 9], 3), (9, false));
    assert_eq!(beluga_builder::raw::next_page(9, &vec![11], 3), (11, true));
    assert_eq!(beluga_builder::raw::next_page(11, &vec![], 3), (11, true));
}
