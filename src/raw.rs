//! The raw staging store's rows and write batches, and the choice of
//! conversion by file extension.
use vstd::prelude::*;
use vstd::utf8::{decode_utf8, encode_utf8, valid_utf8};
use vstd::string::StringSliceAdditionalSpecFns;
use crate::error::MdictError;
use crate::header::bytes_eq;
use crate::mdict::{ends_with, has_ext, payload_at};
use crate::scanner::{unit, units_before_nul};
use crate::text::text_decodes;
use crate::text::{utf8_bytes, utf8_string};

verus! {

/// Whether an archive or raw store holds text entries or binary resources.
#[derive(Debug, Clone, Copy, PartialEq, Eq, Structural)]
pub enum FileKind {
    Entry,
    Resource,
}

/// A conversion that the command line can ask for.
#[derive(Debug, Clone, Copy, PartialEq, Eq, Structural)]
pub enum Transform {
    /// MDX to a Beluga entry archive.
    MdxToEntry,
    /// MDD to a Beluga resource archive.
    MddToResource,
    /// MDX or MDD to a raw store of that kind.
    MdictToRaw(FileKind),
    /// A Beluga archive to a raw store of the same kind.
    BelugaToRaw(FileKind),
    /// A raw store to a Beluga archive of the same kind.
    RawToBeluga(FileKind),
}

pub open spec fn ext_is(e: Seq<u8>, name: Seq<char>) -> bool {
    e == encode_utf8(name)
}

/// The conversion that a pair of file extensions selects.
pub open spec fn transform_for(src: Seq<u8>, dst: Seq<u8>) -> Option<Transform> {
    if ext_is(src, "mdx"@) && ext_is(dst, "bel"@) {
        Some(Transform::MdxToEntry)
    } else if ext_is(src, "mdd"@) && ext_is(dst, "beld"@) {
        Some(Transform::MddToResource)
    } else if ext_is(src, "mdx"@) && ext_is(dst, "bel-db"@) {
        Some(Transform::MdictToRaw(FileKind::Entry))
    } else if ext_is(src, "mdd"@) && ext_is(dst, "beld-db"@) {
        Some(Transform::MdictToRaw(FileKind::Resource))
    } else if ext_is(src, "bel"@) && ext_is(dst, "bel-db"@) {
        Some(Transform::BelugaToRaw(FileKind::Entry))
    } else if ext_is(src, "beld"@) && ext_is(dst, "beld-db"@) {
        Some(Transform::BelugaToRaw(FileKind::Resource))
    } else if ext_is(src, "bel-db"@) && ext_is(dst, "bel"@) {
        Some(Transform::RawToBeluga(FileKind::Entry))
    } else if ext_is(src, "beld-db"@) && ext_is(dst, "beld"@) {
        Some(Transform::RawToBeluga(FileKind::Resource))
    } else {
        None
    }
}

/// The conversion from a file with extension `src` to one with extension
/// `dst`, or `None` for a pairing that is not offered.
pub fn transform_of(src: &str, dst: &str) -> (r: Option<Transform>)
    ensures
        r == transform_for(src.spec_bytes(), dst.spec_bytes()),
{
    let s = src.as_bytes();
    let d = dst.as_bytes();
    if bytes_eq(s, "mdx".as_bytes()) && bytes_eq(d, "bel".as_bytes()) {
        Some(Transform::MdxToEntry)
    } else if bytes_eq(s, "mdd".as_bytes()) && bytes_eq(d, "beld".as_bytes()) {
        Some(Transform::MddToResource)
    } else if bytes_eq(s, "mdx".as_bytes()) && bytes_eq(d, "bel-db".as_bytes()) {
        Some(Transform::MdictToRaw(FileKind::Entry))
    } else if bytes_eq(s, "mdd".as_bytes()) && bytes_eq(d, "beld-db".as_bytes()) {
        Some(Transform::MdictToRaw(FileKind::Resource))
    } else if bytes_eq(s, "bel".as_bytes()) && bytes_eq(d, "bel-db".as_bytes()) {
        Some(Transform::BelugaToRaw(FileKind::Entry))
    } else if bytes_eq(s, "beld".as_bytes()) && bytes_eq(d, "beld-db".as_bytes()) {
        Some(Transform::BelugaToRaw(FileKind::Resource))
    } else if bytes_eq(s, "bel-db".as_bytes()) && bytes_eq(d, "bel".as_bytes()) {
        Some(Transform::RawToBeluga(FileKind::Entry))
    } else if bytes_eq(s, "beld-db".as_bytes()) && bytes_eq(d, "beld".as_bytes()) {
        Some(Transform::RawToBeluga(FileKind::Resource))
    } else {
        None
    }
}

/// A raw store whose path ends in `.bel-db` holds entries; any other holds
/// resources.
pub fn raw_kind(path: &str) -> (r: FileKind)
    ensures
        r == if has_ext(path.spec_bytes(), encode_utf8(".bel-db"@)) {
            FileKind::Entry
        } else {
            FileKind::Resource
        },
{
    if ends_with(path.as_bytes(), ".bel-db".as_bytes()) {
        FileKind::Entry
    } else {
        FileKind::Resource
    }
}

/// A row of the raw store's entry table: text for entries, bytes for
/// resources.
pub struct EntryRow {
    pub name: String,
    pub text: Option<String>,
    pub binary: Option<Vec<u8>>,
}

/// A row of the raw store's token table.
pub struct TokenRow {
    pub name: String,
    pub entries: Vec<String>,
}

/// `row` holds `value` as a store of `kind` keeps it: as decoded UTF-8 text
/// for entries, as bytes for resources.
pub open spec fn stores(kind: FileKind, value: Seq<u8>, row: EntryRow) -> bool {
    match kind {
        FileKind::Entry => valid_utf8(value) && row.binary is None && row.text is Some
            && row.text->0@ == decode_utf8(value),
        FileKind::Resource => row.text is None && row.binary is Some && row.binary->0@ == value,
    }
}

/// The payload that an archive of `kind` takes from `row`.
pub open spec fn read_back(kind: FileKind, row: EntryRow) -> Option<Seq<u8>> {
    match kind {
        FileKind::Entry => match row.text {
            Some(t) => Some(encode_utf8(t@)),
            None => None,
        },
        FileKind::Resource => match row.binary {
            Some(b) => Some(b@),
            None => None,
        },
    }
}

/// A payload put into the raw store and read back for an archive of the
/// same kind comes out unchanged.
pub proof fn lemma_row_round_trip(kind: FileKind, value: Seq<u8>, row: EntryRow)
    requires
        stores(kind, value, row),
    ensures
        read_back(kind, row) == Some(value),
{
    if kind == FileKind::Entry {
        vstd::utf8::decode_utf8_encode_utf8(value);
    }
}

/// Every entry payload that an MDX file resolves to is UTF-8, so the raw
/// store takes it as text, and reading it back gives the same bytes.
pub proof fn lemma_mdx_payload_round_trip(block: Seq<u8>, rel: int, size: nat, utf16: bool, data: Seq<u8>, row: EntryRow)
    requires
        payload_at(block, rel, size, true, utf16, data),
    ensures
        valid_utf8(data),
        stores(FileKind::Entry, data, row) ==> read_back(FileKind::Entry, row) == Some(data),
{
    reveal(payload_at);
    let u = unit(utf16) as int;
    let k = units_before_nul(block, rel, u)->0;
    let chars = choose|chars: Seq<char>| #[trigger] text_decodes(block.subrange(rel, rel + k * u), utf16, chars)
        && data == encode_utf8(chars);
    vstd::utf8::encode_utf8_valid_utf8(chars);
    if stores(FileKind::Entry, data, row) {
        lemma_row_round_trip(FileKind::Entry, data, row);
    }
}

/// The row that stores `value` under `name`: entries keep it as text, which
/// must be UTF-8; resources keep the bytes.
pub fn entry_row(kind: FileKind, name: &str, value: &[u8]) -> (r: Result<EntryRow, MdictError>)
    ensures
        match r {
            Ok(row) => row.name@ == name@ && stores(kind, value@, row),
            Err(e) => e == MdictError::DecodeError && kind == FileKind::Entry && !valid_utf8(value@),
        },
{
    let owned = name.to_owned();
    match kind {
        FileKind::Entry => match utf8_string(vstd::slice::slice_to_vec(value)) {
            Some(t) => Ok(EntryRow { name: owned, text: Some(t), binary: None }),
            None => Err(MdictError::DecodeError),
        },
        FileKind::Resource => Ok(
            EntryRow { name: owned, text: None, binary: Some(vstd::slice::slice_to_vec(value)) },
        ),
    }
}

/// The payload that a row of the entry table holds for an archive of
/// `kind`, or `None` where that column is empty.
pub fn row_value(kind: FileKind, row: &EntryRow) -> (r: Option<Vec<u8>>)
    ensures
        match r {
            Some(v) => read_back(kind, *row) == Some(v@),
            None => read_back(kind, *row) is None,
        },
{
    match kind {
        FileKind::Entry => match &row.text {
            Some(t) => Some(utf8_bytes(t)),
            None => None,
        },
        FileKind::Resource => match &row.binary {
            Some(b) => Some(vstd::slice::slice_to_vec(b.as_slice())),
            None => None,
        },
    }
}

/// Rows waiting to be written in one transaction.
pub struct Batch<T> {
    pub items: Vec<T>,
    pub cache_size: usize,
}

impl<T> Batch<T> {
    /// An empty batch that asks to be flushed once it holds `cache_size`
    /// rows.
    pub fn new(cache_size: usize) -> (r: Batch<T>)
        ensures
            r.items@.len() == 0,
            r.cache_size == cache_size,
    {
        Batch { items: Vec::new(), cache_size }
    }

    /// Adds a row; tells whether the batch is now due to be flushed.
    pub fn push(&mut self, item: T) -> (full: bool)
        ensures
            final(self).items@ == old(self).items@.push(item),
            final(self).cache_size == old(self).cache_size,
            full == (final(self).items@.len() >= old(self).cache_size),
    {
        self.items.push(item);
        self.items.len() >= self.cache_size
    }

    /// Hands out the waiting rows in the order they came and empties the
    /// batch.
    pub fn take(&mut self) -> (r: Vec<T>)
        ensures
            r@ == old(self).items@,
            final(self).items@.len() == 0,
            final(self).cache_size == old(self).cache_size,
    {
        let mut out: Vec<T> = Vec::new();
        std::mem::swap(&mut out, &mut self.items);
        out
    }
}

/// The step of a paged read in id order: after a page whose rows have the
/// ids `ids`, read with at most `limit` rows, the id to read after next (the
/// last id of the page, or `after` for an empty page), and whether the table
/// is done (the page came back short).
pub fn next_page(after: i64, ids: &Vec<i64>, limit: usize) -> (r: (i64, bool))
    ensures
        r.0 == (if ids@.len() > 0 { ids@.last() } else { after }),
        r.1 == (ids@.len() < limit),
{
    let n = ids.len();
    let next = if n > 0 { ids[n - 1] } else { after };
    (next, n < limit)
}

} // verus!
