//! The decoder: the file's layout, the block cache, resolving payloads and
//! the driver over all headwords.
use vstd::prelude::*;
use vstd::utf8::encode_utf8;
use vstd::string::StringSliceAdditionalSpecFns;
use crate::block::{block_result, decode_block};
use crate::error::MdictError;
use crate::header::{header_attributes, header_from_text, Header};
use crate::index::{
    index_first, index_last, index_comp, index_comp_sum, index_decomp, index_n, keyword_block_ok, keyword_index_ok,
    lemma_index_fields, record_index_ok_at, block_holds, index_matches, num_at, read_keyword_blocks, read_keyword_index, read_record_index,
    read_record_summary, read_summary, record_index_from, record_summary_at, sizes_chained,
    strictly_increasing, sum_entries, summary_at, summary_len, to_usize, Keyword, KeywordIndex,
    RecordSummary, Summary,
};
use crate::scanner::width;
use crate::scanner::{unit, units_before_nul, Scanner};
use crate::text::{decode_text, decoded_text, lemma_decoded_text, text_decodes, text_valid, utf8_bytes};

verus! {

/// `off` lies inside the record stream that `ri` covers.
pub open spec fn in_range(ri: Seq<(u64, u64)>, off: int) -> bool {
    ri.len() >= 1 && ri[0].1 <= off < ri.last().1
}

/// The record block whose decompressed span holds `off`.
pub open spec fn block_of(ri: Seq<(u64, u64)>, off: int) -> int {
    choose|j: int| 0 <= j < ri.len() - 1 && #[trigger] ri[j].1 <= off < ri[j + 1].1
}

/// The decoded record block `j` of `file`.
#[verifier::opaque]
pub open spec fn record_block(file: Seq<u8>, ri: Seq<(u64, u64)>, j: int) -> Result<Seq<u8>, MdictError> {
    if ri[j + 1].0 > file.len() || ri[j + 1].1 - ri[j].1 > usize::MAX {
        Err(MdictError::TruncatedInput)
    } else {
        block_result(file.subrange(ri[j].0 as int, ri[j + 1].0 as int), (ri[j + 1].1 - ri[j].1) as nat, 0)
    }
}

/// `data` is the payload at `rel` in a decoded record block: for entries,
/// the UTF-8 form of the NUL-terminated text there; for resources, `size`
/// bytes, or the rest of the block where `size` is 0.
#[verifier::opaque]
pub open spec fn payload_at(block: Seq<u8>, rel: int, size: nat, is_index: bool, utf16: bool, data: Seq<u8>) -> bool {
    if is_index {
        let u = unit(utf16) as int;
        match units_before_nul(block, rel, u) {
            Some(k) => exists|chars: Seq<char>| #[trigger] text_decodes(block.subrange(rel, rel + k * u), utf16, chars)
                && data == encode_utf8(chars),
            None => false,
        }
    } else {
        let end = if size == 0 { block.len() as int } else { rel + size };
        0 <= rel <= end <= block.len() && data == block.subrange(rel, end)
    }
}

/// Position `a` comes before position `b` in keyword-block order.
pub open spec fn before(a: (int, int), b: (int, int)) -> bool {
    a.0 < b.0 || (a.0 == b.0 && a.1 < b.1)
}

/// `e` is the error that reading the payload at `rel` in a decoded record
/// block gives: no terminated text there, text that does not decode, or too
/// few bytes for a resource.
#[verifier::opaque]
pub open spec fn payload_err(block: Seq<u8>, rel: int, size: nat, is_index: bool, utf16: bool, e: MdictError) -> bool {
    if is_index {
        let u = unit(utf16) as int;
        match units_before_nul(block, rel, u) {
            None => e == MdictError::TruncatedInput,
            Some(k) => e == MdictError::DecodeError && !text_valid(block.subrange(rel, rel + k * u), utf16),
        }
    } else {
        let end = if size == 0 { block.len() as int } else { rel + size };
        !(0 <= rel <= end <= block.len()) && e == MdictError::TruncatedInput
    }
}

/// A decoder over the bytes of one MDX (entries) or MDD (resources) file.
pub struct Mdict {
    pub file: Scanner,
    pub is_index: bool,
    pub header: Header,
    pub summary: Summary,
    pub kis: Vec<KeywordIndex>,
    pub blocks: Vec<Vec<Keyword>>,
    pub record_summary: RecordSummary,
    pub record_index: Vec<(u64, u64)>,
    pub cache_offset: u64,
    pub cache: Vec<u8>,
    pub cached: bool,
    /// Headwords that the last run of `parse` left out, with their errors.
    pub skipped: Vec<(String, MdictError)>,
}

/// `path` ends with `ext`.
pub open spec fn has_ext(path: Seq<u8>, ext: Seq<u8>) -> bool {
    path.len() >= ext.len() && path.subrange(path.len() - ext.len(), path.len() as int) == ext
}

/// Whether `path` ends with `ext`.
pub fn ends_with(path: &[u8], ext: &[u8]) -> (r: bool)
    ensures
        r == has_ext(path@, ext@),
{
    if path.len() < ext.len() {
        return false;
    }
    let tail = vstd::slice::slice_subrange(path, path.len() - ext.len(), path.len());
    crate::header::bytes_eq(tail, ext)
}

impl Mdict {
    /// The index, the format and the block cache agree.
    pub open spec fn wf(&self) -> bool {
        &&& self.file.wf()
        &&& self.file.v2 == self.header.v2
        &&& self.file.utf16 == self.header.utf16
        &&& strictly_increasing(self.record_index@)
        &&& self.cached ==> forall|j: int|
            0 <= j < self.record_index@.len() - 1 && #[trigger] self.record_index@[j].0 == self.cache_offset
                ==> record_block(self.file.buf@, self.record_index@, j) == Ok::<Seq<u8>, MdictError>(self.cache@)
    }

    /// The counts of the summaries and of the parsed keyword blocks agree.
    pub open spec fn counts_agree(&self) -> bool {
        &&& sum_entries(self.kis@) == self.summary.num_entries
        &&& self.summary.num_entries == self.record_summary.num_entries
        &&& self.blocks@.len() == self.kis@.len()
        &&& forall|i: int| 0 <= i < self.blocks@.len() ==> self.blocks@[i]@.len() == self.kis@[i].num_entries
            && sizes_chained(#[trigger] self.blocks@[i]@)
        &&& self.record_index@.len() == self.record_summary.num_blocks + 1
    }

    /// `data` is what the keyword at decompressed offset `off` with size
    /// `size` holds: its record block decodes, and the payload at its offset
    /// in that block is `data`.
    pub open spec fn resolves(&self, off: u64, size: u64, data: Seq<u8>) -> bool {
        let ri = self.record_index@;
        let j = block_of(ri, off as int);
        &&& in_range(ri, off as int)
        &&& record_block(self.file.buf@, ri, j) is Ok
        &&& payload_at(
            record_block(self.file.buf@, ri, j)->Ok_0,
            off - ri[j].1,
            size as nat,
            self.is_index,
            self.header.utf16,
            data,
        )
    }

    /// `e` is the error that resolving the keyword at `off` with size `size`
    /// gives: an offset outside the records, a record block that does not
    /// decode (or is too large to scan), or a payload that cannot be read.
    #[verifier::opaque]
    pub open spec fn fails_with(&self, off: u64, size: u64, e: MdictError) -> bool {
        let ri = self.record_index@;
        let j = block_of(ri, off as int);
        if !in_range(ri, off as int) {
            e == MdictError::OutOfRange
        } else {
            match record_block(self.file.buf@, ri, j) {
                Err(b) => e == b,
                Ok(block) => if block.len() + 8 > usize::MAX {
                    e == MdictError::CorruptBlock
                } else {
                    payload_err(block, off - ri[j].1, size as nat, self.is_index, self.header.utf16, e)
                },
            }
        }
    }

    /// `out` are the pairs that the keywords at `pos` resolve to, and `pos`
    /// runs through the keyword blocks in stored order.
    pub open spec fn emitted(&self, pos: Seq<(int, int)>, out: Seq<(String, Vec<u8>)>) -> bool {
        &&& pos.len() == out.len()
        &&& forall|t: int| 0 <= t < pos.len() ==> {
            let (i, k) = #[trigger] pos[t];
            &&& 0 <= i < self.blocks@.len()
            &&& 0 <= k < self.blocks@[i]@.len()
            &&& out[t].0@ == self.blocks@[i]@[k].key@
            &&& self.resolves(self.blocks@[i]@[k].offset, self.blocks@[i]@[k].size, out[t].1@)
        }
        &&& forall|t: int, u: int| 0 <= t < u < pos.len() ==> before(#[trigger] pos[t], #[trigger] pos[u])
    }

    /// Resolving the keyword at `off` with size `size` fails.
    pub open spec fn fails(&self, off: u64, size: u64) -> bool {
        exists|e: MdictError| #[trigger] self.fails_with(off, size, e)
    }

    /// Every keyword before position `upto` in keyword-block order stands in
    /// `pos`, or resolving it fails.
    pub open spec fn covered(&self, pos: Seq<(int, int)>, upto: (int, int)) -> bool {
        forall|i: int, k: int| #![trigger self.blocks@[i]@[k]]
            0 <= i < self.blocks@.len() && 0 <= k < self.blocks@[i]@.len() && before((i, k), upto)
                ==> pos.contains((i, k)) || self.fails(self.blocks@[i]@[k].offset, self.blocks@[i]@[k].size)
    }

    /// `s` names a stored keyword by its key and the error that resolving it
    /// gives.
    pub open spec fn skipped_ok(&self, s: (String, MdictError)) -> bool {
        exists|i: int, k: int| #![trigger self.blocks@[i]@[k]]
            0 <= i < self.blocks@.len() && 0 <= k < self.blocks@[i]@.len() && s.0@
                == self.blocks@[i]@[k].key@ && self.fails_with(
                self.blocks@[i]@[k].offset,
                self.blocks@[i]@[k].size,
                s.1,
            )
    }

    /// `out` are the pairs resolved from the stored keywords, in keyword-block
    /// order, and every keyword left out is one whose resolution fails.
    pub open spec fn emits(&self, out: Seq<(String, Vec<u8>)>) -> bool {
        exists|pos: Seq<(int, int)>| #[trigger] self.emitted(pos, out) && self.covered(
            pos,
            (self.blocks@.len() as int, 0),
        )
    }

    /// The header, the summaries and every index stand where the file's
    /// layout puts them and hold what those bytes declare: the header's
    /// length, the header, the keyword-index summary and a checksum, the
    /// keyword index, the keyword blocks, the record summary, the record
    /// index.
    pub open spec fn indexed_from_file(&self) -> bool {
        let b = self.file.buf@;
        let v2 = self.header.v2;
        let utf16 = self.header.utf16;
        let s = self.summary;
        let rs = self.record_summary;
        let after_header = num_at(b, 0, 4) as int + 8;
        let index_at = after_header + summary_len(v2) + 4;
        let blocks_at = index_at + s.key_index_comp_len;
        let records_at = blocks_at + s.key_blocks_len;
        let record_index_at = records_at + 4 * width(v2);
        let index = block_result(b.subrange(index_at, blocks_at), s.key_index_decomp_len as nat, self.header.encryption);
        &&& header_result(b, 0) == Ok::<Header, MdictError>(self.header)
        &&& s == summary_at(b, after_header, v2)
        &&& index is Ok
        &&& index_matches(index->Ok_0, self.kis@, v2, utf16)
        &&& forall|i: int| 0 <= i < self.blocks@.len() ==> block_holds(
            b.subrange(blocks_at, records_at),
            self.kis@[i],
            #[trigger] self.blocks@[i]@,
            v2,
            utf16,
        )
        &&& rs == record_summary_at(b, records_at, v2)
        &&& record_index_from(
            b.subrange(record_index_at, record_index_at + rs.index_len),
            self.record_index@,
            rs.num_blocks as int,
            rs.blocks_pos,
            v2,
        )
    }

    /// Same file and index; only the cache may differ.
    pub open spec fn same_index(&self, o: &Mdict) -> bool {
        &&& self.file.buf@ == o.file.buf@
        &&& self.header == o.header
        &&& self.is_index == o.is_index
        &&& self.record_index@ == o.record_index@
        &&& self.blocks@ == o.blocks@
        &&& self.kis@ == o.kis@
        &&& self.summary == o.summary
        &&& self.record_summary == o.record_summary
    }

    /// A decoder for the file at `path` whose bytes are `data`: `mdx` files
    /// hold entries, `mdd` files resources.
    pub fn new(path: &str, data: Vec<u8>) -> (r: Result<Mdict, MdictError>)
        requires
            data@.len() + 8 <= usize::MAX,
        ensures
            match r {
                Ok(m) => m.wf() && m.file.buf@ == data@ && m.file.pos == 0 && !m.header.v2 && !m.header.utf16
                    && m.header.encryption == 0 && m.kis@.len() == 0 && m.blocks@.len() == 0
                    && m.record_index@.len() == 0 && !m.cached && m.cache@.len() == 0 && m.is_index == has_ext(
                    path.spec_bytes(),
                    encode_utf8(".mdx"@),
                ) && (has_ext(path.spec_bytes(), encode_utf8(".mdx"@)) || has_ext(
                    path.spec_bytes(),
                    encode_utf8(".mdd"@),
                )),
                Err(e) => e == MdictError::InvalidPath && !has_ext(
                    path.spec_bytes(),
                    encode_utf8(".mdx"@),
                ) && !has_ext(path.spec_bytes(), encode_utf8(".mdd"@)),
            },
    {
        let p = path.as_bytes();
        let is_index = if ends_with(p, ".mdx".as_bytes()) {
            true
        } else if ends_with(p, ".mdd".as_bytes()) {
            false
        } else {
            return Err(MdictError::InvalidPath);
        };
        Ok(Mdict {
            file: Scanner::new(data, false, false),
            is_index,
            header: Header { v2: false, encryption: 0, utf16: false, unknown_encoding: false },
            summary: Summary {
                num_blocks: 0,
                num_entries: 0,
                key_index_decomp_len: 0,
                key_index_comp_len: 0,
                key_blocks_len: 0,
            },
            kis: Vec::new(),
            blocks: Vec::new(),
            record_summary: RecordSummary {
                num_blocks: 0,
                num_entries: 0,
                index_len: 0,
                blocks_len: 0,
                blocks_pos: 0,
            },
            record_index: Vec::new(),
            cache_offset: 0,
            cache: Vec::new(),
            cached: false,
            skipped: Vec::new(),
        })
    }
}

/// The record block that holds decompressed offset `off`: the `j` with
/// `ri[j].1 <= off < ri[j + 1].1`, or `None` outside the stream.
pub fn locate(ri: &Vec<(u64, u64)>, off: u64) -> (r: Option<usize>)
    requires
        strictly_increasing(ri@),
    ensures
        match r {
            Some(j) => in_range(ri@, off as int) && j + 1 < ri@.len() && ri@[j as int].1 <= off
                < ri@[j + 1].1 && j == block_of(ri@, off as int),
            None => !in_range(ri@, off as int),
        },
{
    let n = ri.len();
    if n == 0 {
        return None;
    }
    if off < ri[0].1 || off >= ri[n - 1].1 {
        return None;
    }
    let mut lo: usize = 0;
    let mut hi: usize = n - 1;
    while hi - lo > 1
        invariant
            n == ri@.len(),
            lo < hi < n,
            ri@[lo as int].1 <= off < ri@[hi as int].1,
        decreases hi - lo,
    {
        let mid = lo + (hi - lo) / 2;
        if ri[mid].1 <= off {
            lo = mid;
        } else {
            hi = mid;
        }
    }
    proof {
        let j = block_of(ri@, off as int);
        assert(0 <= lo < ri@.len() - 1 && ri@[lo as int].1 <= off < ri@[lo + 1].1);
        assert(0 <= j < ri@.len() - 1 && ri@[j].1 <= off < ri@[j + 1].1);
        if j < lo {
            assert(ri@[j + 1].1 <= ri@[lo as int].1);
        } else if lo < j {
            assert(ri@[lo + 1].1 <= ri@[j].1);
        }
    }
    Some(lo)
}

/// What reading the header at `p` gives: a 32-bit length, that many bytes
/// of UTF-16LE XML whose header element declares the header, and a 4-byte
/// checksum.
pub open spec fn header_result(b: Seq<u8>, p: int) -> Result<Header, MdictError> {
    let len = num_at(b, p, 4) as int;
    let text = b.subrange(p + 4, p + 4 + len);
    if p + 4 + len > b.len() {
        Err(MdictError::TruncatedInput)
    } else if !text_valid(text, true) {
        Err(MdictError::DecodeError)
    } else {
        match header_from_text(decoded_text(text, true)) {
            Err(e) => Err(e),
            Ok(h) => if p + 8 + len > b.len() {
                Err(MdictError::TruncatedInput)
            } else {
                Ok(h)
            },
        }
    }
}

/// Reads the header at the cursor: a 32-bit length, that many bytes of
/// UTF-16LE XML, and a 4-byte checksum that is not checked. The scanner then
/// takes the header's widths and encoding.
pub fn read_header(sc: &mut Scanner) -> (r: Result<Header, MdictError>)
    requires
        old(sc).wf(),
    ensures
        final(sc).wf(),
        final(sc).buf@ == old(sc).buf@,
        r == header_result(old(sc).buf@, old(sc).pos as int),
        match r {
            Ok(h) => {
                &&& h.encryption == 0 || h.encryption == 2
                &&& final(sc).pos == old(sc).pos + num_at(old(sc).buf@, old(sc).pos as int, 4) + 8
                &&& final(sc).v2 == h.v2
                &&& final(sc).utf16 == h.utf16
            },
            Err(_) => final(sc).v2 == old(sc).v2 && final(sc).utf16 == old(sc).utf16,
        },
{
    let ghost b = sc.buf@;
    let ghost p = sc.pos as int;
    let len = sc.read_u32()?;
    let bytes = sc.read(len as usize)?;
    let content = decode_text(bytes, true)?;
    proof {
        lemma_decoded_text(bytes@, true, content@);
    }
    let attrs = header_attributes(content.as_str())?;
    let h = Header::from_attributes(&attrs)?;
    let _checksum = sc.read(4)?;
    sc.set_format(h.v2, h.utf16);
    Ok(h)
}

/// Reads the payload at `rel` in the decoded record block `block`, and
/// hands the block back.
pub fn read_payload(block: Vec<u8>, rel: u64, size: u64, is_index: bool, v2: bool, utf16: bool) -> (r: (Vec<u8>, Result<Vec<u8>, MdictError>))
    requires
        block@.len() + 8 <= usize::MAX,
    ensures
        r.0@ == block@,
        match r.1 {
            Ok(d) => payload_at(block@, rel as int, size as nat, is_index, utf16, d@),
            Err(e) => payload_err(block@, rel as int, size as nat, is_index, utf16, e),
        },
{
    reveal(payload_at);
    reveal(payload_err);
    let rel = match to_usize(rel) {
        Ok(r) => r,
        Err(e) => return (block, Err(e)),
    };
    let mut sc = Scanner::new(block, v2, utf16);
    sc.seek(rel);
    let got: Result<Vec<u8>, MdictError> = if is_index {
        match sc.read_text_unsized() {
            Ok(s) => Ok(utf8_bytes(&s)),
            Err(e) => Err(e),
        }
    } else if size == 0 {
        if rel > sc.buf.len() {
            Err(MdictError::TruncatedInput)
        } else {
            let n = sc.buf.len() - rel;
            sc.read(n)
        }
    } else {
        match to_usize(size) {
            Ok(n) => sc.read(n),
            Err(e) => Err(e),
        }
    };
    (sc.buf, got)
}

/// Where the parts of a file stand, as its header and summaries declare:
/// after the header, after the keyword-index summary and its checksum, after
/// the keyword index, after the keyword blocks, after the record summary.
pub open spec fn layout(b: Seq<u8>) -> (int, int, int, int, int) {
    let h = header_result(b, 0)->Ok_0;
    let after_header = num_at(b, 0, 4) as int + 8;
    let s = summary_at(b, after_header, h.v2);
    let index_at = after_header + summary_len(h.v2) + 4;
    let blocks_at = index_at + s.key_index_comp_len;
    let records_at = blocks_at + s.key_blocks_len;
    (after_header, index_at, blocks_at, records_at, records_at + 4 * width(h.v2))
}

/// The decoded keyword index of a file.
pub open spec fn file_key_index(b: Seq<u8>) -> Seq<u8> {
    let h = header_result(b, 0)->Ok_0;
    let (after_header, index_at, blocks_at, records_at, ri_at) = layout(b);
    let s = summary_at(b, after_header, h.v2);
    block_result(b.subrange(index_at, blocks_at), s.key_index_decomp_len as nat, h.encryption)->Ok_0
}

/// Every part of a file up to its record blocks can be read, in file order:
/// the header, the keyword-index summary and its checksum, the keyword index,
/// every keyword block, the record summary (whose entry count agrees with
/// the keyword index's), and the record index.
pub open spec fn file_indexes(b: Seq<u8>) -> bool {
    let h = header_result(b, 0)->Ok_0;
    let v2 = h.v2;
    let utf16 = h.utf16;
    let (after_header, index_at, blocks_at, records_at, ri_at) = layout(b);
    let s = summary_at(b, after_header, v2);
    let rs = record_summary_at(b, records_at, v2);
    let dec = file_key_index(b);
    &&& header_result(b, 0) is Ok
    &&& index_at <= b.len()
    &&& keyword_index_ok(b, index_at, s, h)
    &&& s.key_blocks_len <= usize::MAX
    &&& records_at <= b.len()
    &&& forall|t: int| 0 <= t < s.num_blocks ==> keyword_block_ok(
        b.subrange(blocks_at, records_at),
        index_comp_sum(dec, t, v2, utf16),
        index_comp(dec, t, v2, utf16),
        index_decomp(dec, t, v2, utf16),
        #[trigger] index_n(dec, t, v2, utf16),
        index_first(dec, t, v2, utf16),
        index_last(dec, t, v2, utf16),
        v2,
        utf16,
    )
    &&& ri_at <= b.len()
    &&& ri_at + num_at(b, records_at + 2 * width(v2), width(v2) as int) <= u64::MAX
    &&& rs.num_entries == s.num_entries
    &&& record_index_ok_at(b, ri_at, rs, v2)
}

/// The keyword index's block of a file with a readable header lies inside
/// the file but does not decode.
pub open spec fn key_index_block_fails(b: Seq<u8>) -> bool {
    let h = header_result(b, 0)->Ok_0;
    let (after_header, index_at, blocks_at, records_at, ri_at) = layout(b);
    let s = summary_at(b, after_header, h.v2);
    &&& header_result(b, 0) is Ok
    &&& s.key_index_comp_len <= usize::MAX && s.key_index_decomp_len <= usize::MAX
    &&& blocks_at <= b.len()
    &&& block_result(b.subrange(index_at, blocks_at), s.key_index_decomp_len as nat, h.encryption) is Err
}

/// The error that decoding the keyword index's block gives.
pub open spec fn key_index_block_error(b: Seq<u8>) -> MdictError {
    let h = header_result(b, 0)->Ok_0;
    let (after_header, index_at, blocks_at, records_at, ri_at) = layout(b);
    let s = summary_at(b, after_header, h.v2);
    block_result(b.subrange(index_at, blocks_at), s.key_index_decomp_len as nat, h.encryption)->Err_0
}

/// Every part up to the record summary can be read, but the record
/// summary's entry count differs from the keyword-index summary's.
pub open spec fn counts_disagree(b: Seq<u8>) -> bool {
    let h = header_result(b, 0)->Ok_0;
    let (after_header, index_at, blocks_at, records_at, ri_at) = layout(b);
    let s = summary_at(b, after_header, h.v2);
    let rs = record_summary_at(b, records_at, h.v2);
    &&& file_indexes_upto_counts(b)
    &&& rs.num_entries != s.num_entries
}

/// The parts of a file before the count check can be read.
pub open spec fn file_indexes_upto_counts(b: Seq<u8>) -> bool {
    let h = header_result(b, 0)->Ok_0;
    let v2 = h.v2;
    let utf16 = h.utf16;
    let (after_header, index_at, blocks_at, records_at, ri_at) = layout(b);
    let s = summary_at(b, after_header, v2);
    let dec = file_key_index(b);
    &&& header_result(b, 0) is Ok
    &&& index_at <= b.len()
    &&& keyword_index_ok(b, index_at, s, h)
    &&& s.key_blocks_len <= usize::MAX
    &&& records_at <= b.len()
    &&& forall|t: int| 0 <= t < s.num_blocks ==> keyword_block_ok(
        b.subrange(blocks_at, records_at),
        index_comp_sum(dec, t, v2, utf16),
        index_comp(dec, t, v2, utf16),
        index_decomp(dec, t, v2, utf16),
        #[trigger] index_n(dec, t, v2, utf16),
        index_first(dec, t, v2, utf16),
        index_last(dec, t, v2, utf16),
        v2,
        utf16,
    )
    &&& ri_at <= b.len()
    &&& ri_at + num_at(b, records_at + 2 * width(v2), width(v2) as int) <= u64::MAX
}

impl Mdict {
    /// Parses the header and every index, from the start of the file. The
    /// keyword counts of the index, of its summary and of the record summary
    /// must agree; the record index must grow strictly in both columns.
    pub fn parse_index(&mut self) -> (r: Result<(), MdictError>)
        requires
            old(self).wf(),
        ensures
            final(self).wf(),
            final(self).file.buf@ == old(self).file.buf@,
            final(self).is_index == old(self).is_index,
            r is Ok ==> final(self).counts_agree() && final(self).indexed_from_file(),
            r is Ok <==> file_indexes(old(self).file.buf@),
            header_result(old(self).file.buf@, 0) is Err ==> r == Err::<(), MdictError>(
                header_result(old(self).file.buf@, 0)->Err_0,
            ),
            key_index_block_fails(old(self).file.buf@) ==> r == Err::<(), MdictError>(
                key_index_block_error(old(self).file.buf@),
            ),
            counts_disagree(old(self).file.buf@) ==> r == Err::<(), MdictError>(MdictError::CorruptIndex),
    {
        let ghost b = self.file.buf@;
        self.cached = false;
        self.file.seek(0);
        let header = read_header(&mut self.file)?;
        self.header = header;
        let summary = read_summary(&mut self.file)?;
        let _checksum = self.file.read(4)?;
        let kis = read_keyword_index(&mut self.file, &summary, &header)?;
        let ghost dec = file_key_index(b);
        proof {
            assert forall|t: int| 0 <= t < kis@.len() implies {
                &&& kis@[t].num_entries == index_n(dec, t, header.v2, header.utf16)
                &&& kis@[t].comp_size == index_comp(dec, t, header.v2, header.utf16)
                &&& kis@[t].decomp_size == index_decomp(dec, t, header.v2, header.utf16)
                &&& kis@[t].block_offset == index_comp_sum(dec, t, header.v2, header.utf16)
                &&& kis@[t].first_word@ == index_first(dec, t, header.v2, header.utf16)
                &&& kis@[t].last_word@ == index_last(dec, t, header.v2, header.utf16)
            } by {
                lemma_index_fields(dec, kis@, header.v2, header.utf16, t);
            }
        }
        let ghost at = self.file.pos as int;
        let blocks = match read_keyword_blocks(&mut self.file, &kis, summary.key_blocks_len) {
            Ok(x) => x,
            Err(e) => {
                proof {
                    if file_indexes_upto_counts(b) {
                        let (after_header, index_at, blocks_at, records_at, ri_at) = layout(b);
                        assert(at == blocks_at);
                        assert forall|i: int| 0 <= i < kis@.len() implies keyword_block_ok(
                            b.subrange(at, at + summary.key_blocks_len),
                            kis@[i].block_offset as int,
                            kis@[i].comp_size as int,
                            kis@[i].decomp_size as int,
                            #[trigger] kis@[i].num_entries as int,
                            kis@[i].first_word@,
                            kis@[i].last_word@,
                            header.v2,
                            header.utf16,
                        ) by {
                            assert(kis@[i].num_entries == index_n(dec, i, header.v2, header.utf16));
                        }
                    }
                }
                return Err(e);
            },
        };
        proof {
            let (after_header, index_at, blocks_at, records_at, ri_at) = layout(b);
            assert(at == blocks_at);
            assert forall|t: int| 0 <= t < summary.num_blocks implies keyword_block_ok(
                b.subrange(blocks_at, records_at),
                index_comp_sum(dec, t, header.v2, header.utf16),
                index_comp(dec, t, header.v2, header.utf16),
                index_decomp(dec, t, header.v2, header.utf16),
                #[trigger] index_n(dec, t, header.v2, header.utf16),
                index_first(dec, t, header.v2, header.utf16),
                index_last(dec, t, header.v2, header.utf16),
                header.v2,
                header.utf16,
            ) by {
                assert(kis@[t].num_entries == index_n(dec, t, header.v2, header.utf16));
            }
        }
        let rs = read_record_summary(&mut self.file)?;
        if rs.num_entries != summary.num_entries {
            return Err(MdictError::CorruptIndex);
        }
        assert(file_indexes_upto_counts(b));
        let ri = read_record_index(&mut self.file, &rs)?;
        self.summary = summary;
        self.kis = kis;
        self.blocks = blocks;
        self.record_summary = rs;
        self.record_index = ri;
        self.cache = Vec::new();
        Ok(())
    }

    /// The payload of keyword `kw`: the record block that holds its offset is
    /// decoded (or taken from the one-block cache) and the payload read at
    /// the offset. What comes out is fixed by the file and the keyword alone,
    /// whatever the cache held.
    pub fn definition(&mut self, kw: &Keyword) -> (r: Result<(String, Vec<u8>), MdictError>)
        requires
            old(self).wf(),
        ensures
            final(self).wf(),
            final(self).same_index(old(self)),
            final(self).skipped@ == old(self).skipped@,
            match r {
                Ok((key, data)) => {
                    let ri = old(self).record_index@;
                    let j = block_of(ri, kw.offset as int);
                    &&& key@ == kw.key@
                    &&& old(self).resolves(kw.offset, kw.size, data@)
                    &&& final(self).cached
                    &&& final(self).cache_offset == ri[j].0
                    &&& record_block(old(self).file.buf@, ri, j) == Ok::<Seq<u8>, MdictError>(final(self).cache@)
                },
                Err(e) => old(self).fails_with(kw.offset, kw.size, e),
            },
            !in_range(old(self).record_index@, kw.offset as int) ==> final(self).cached
                == old(self).cached && final(self).cache_offset == old(self).cache_offset
                && final(self).cache@ == old(self).cache@,
    {
        let j = match locate(&self.record_index, kw.offset) {
            Some(j) => j,
            None => {
                proof {
                    reveal(Mdict::fails_with);
                }
                return Err(MdictError::OutOfRange);
            },
        };
        let ghost ri = self.record_index@;
        let ghost file = self.file.buf@;
        assert(j as int == block_of(ri, kw.offset as int));
        match self.load_block(j) {
            Ok(()) => {},
            Err(e) => {
                proof {
                    reveal(Mdict::fails_with);
                }
                return Err(e);
            },
        }
        let ghost block = self.cache@;
        assert(record_block(file, ri, j as int) == Ok::<Seq<u8>, MdictError>(block));
        let d0 = self.record_index[j].1;
        if self.cache.len() > usize::MAX - 8 {
            proof {
                reveal(Mdict::fails_with);
            }
            return Err(MdictError::CorruptBlock);
        }
        let rel = kw.offset - d0;
        let mut buf: Vec<u8> = Vec::new();
        std::mem::swap(&mut buf, &mut self.cache);
        let (back, got) = read_payload(buf, rel, kw.size, self.is_index, self.header.v2, self.header.utf16);
        self.cache = back;
        assert(self.cache@ == block);
        match got {
            Ok(data) => {
                assert(old(self).resolves(kw.offset, kw.size, data@));
                Ok((kw.key.clone(), data))
            },
            Err(e) => {
                proof {
                    reveal(Mdict::fails_with);
                }
                Err(e)
            },
        }
    }

    /// Puts the decoded record block `j` in the cache, unless it is there.
    pub fn load_block(&mut self, j: usize) -> (r: Result<(), MdictError>)
        requires
            old(self).wf(),
            j + 1 < old(self).record_index@.len(),
        ensures
            final(self).wf(),
            final(self).same_index(old(self)),
            final(self).skipped@ == old(self).skipped@,
            match r {
                Ok(()) => record_block(final(self).file.buf@, final(self).record_index@, j as int)
                    == Ok::<Seq<u8>, MdictError>(final(self).cache@) && final(self).cached
                    && final(self).cache_offset == old(self).record_index@[j as int].0,
                Err(e) => record_block(final(self).file.buf@, final(self).record_index@, j as int)
                    == Err::<Seq<u8>, MdictError>(e),
            },
    {
        reveal(record_block);
        let ghost ri = self.record_index@;
        let n = self.record_index.len();
        assert(j + 1 < n);
        let (c0, d0) = self.record_index[j];
        let (c1, d1) = self.record_index[j + 1];
        assert(c0 < c1 && d0 < d1);
        if self.cached && self.cache_offset == c0 {
            return Ok(());
        }
        let end = to_usize(c1)?;
        let start = c0 as usize;
        if end > self.file.buf.len() {
            return Err(MdictError::TruncatedInput);
        }
        let raw = vstd::slice::slice_to_vec(
            vstd::slice::slice_subrange(self.file.buf.as_slice(), start, end),
        );
        let hint = to_usize(d1 - d0)?;
        let block = decode_block(&raw, hint, 0)?;
        self.cache = block;
        self.cache_offset = c0;
        self.cached = true;
        assert forall|k: int| 0 <= k < ri.len() - 1 && #[trigger] ri[k].0 == c0 implies k == j by {
            if k < j {
                assert(ri[k].0 < ri[j as int].0);
            } else if k > j {
                assert(ri[j as int].0 < ri[k].0);
            }
        }
        Ok(())
    }

    /// Parses the indices, then resolves every headword in keyword-block
    /// order. A headword whose payload cannot be decoded is left out; the
    /// others come out in stored order.
    pub fn parse(&mut self) -> (r: Result<Vec<(String, Vec<u8>)>, MdictError>)
        requires
            old(self).wf(),
        ensures
            final(self).wf(),
            r is Ok ==> final(self).counts_agree() && final(self).indexed_from_file(),
            r is Ok ==> final(self).emits(r->Ok_0@),
            r is Ok ==> forall|t: int| 0 <= t < final(self).skipped@.len() ==> final(self).skipped_ok(
                #[trigger] final(self).skipped@[t],
            ),
            r is Ok <==> file_indexes(old(self).file.buf@),
            header_result(old(self).file.buf@, 0) is Err ==> r == Err::<Vec<(String, Vec<u8>)>, MdictError>(
                header_result(old(self).file.buf@, 0)->Err_0,
            ),
            key_index_block_fails(old(self).file.buf@) ==> r == Err::<Vec<(String, Vec<u8>)>, MdictError>(
                key_index_block_error(old(self).file.buf@),
            ),
            counts_disagree(old(self).file.buf@) ==> r == Err::<Vec<(String, Vec<u8>)>, MdictError>(
                MdictError::CorruptIndex,
            ),
    {
        let ghost b = self.file.buf@;
        match self.parse_index() {
            Ok(()) => {},
            Err(e) => return Err(e),
        }
        assert(file_indexes(b));
        self.skipped = Vec::new();
        let mut out: Vec<(String, Vec<u8>)> = Vec::new();
        let ghost mut pos: Seq<(int, int)> = Seq::empty();
        let mut i: usize = 0;
        let ghost start = *self;
        while i < self.blocks.len()
            invariant
                self.wf(),
                self.same_index(&start),
                start.counts_agree(),
                start.indexed_from_file(),
                forall|t: int| 0 <= t < self.skipped@.len() ==> start.skipped_ok(#[trigger] self.skipped@[t]),
                i <= self.blocks@.len(),
                self.emitted(pos, out@),
                start.covered(pos, (i as int, 0)),
                forall|t: int| 0 <= t < pos.len() ==> #[trigger] pos[t].0 < i,
            decreases self.blocks@.len() - i,
        {
            let mut k: usize = 0;
            while k < self.blocks[i].len()
                invariant
                    self.wf(),
                    self.same_index(&start),
                    start.counts_agree(),
                    start.indexed_from_file(),
                    forall|t: int| 0 <= t < self.skipped@.len() ==> start.skipped_ok(#[trigger] self.skipped@[t]),
                    i < self.blocks@.len(),
                    k <= self.blocks@[i as int]@.len(),
                    self.emitted(pos, out@),
                    start.covered(pos, (i as int, k as int)),
                    forall|t: int| 0 <= t < pos.len() ==> before(#[trigger] pos[t], (i as int, k as int)),
                decreases self.blocks@[i as int]@.len() - k,
            {
                let src = &self.blocks[i][k];
                let kw = Keyword { offset: src.offset, key: src.key.clone(), size: src.size };
                let ghost pre = *self;
                let ghost cur = pos;
                match self.definition(&kw) {
                    Ok(pair) => {
                        let ghost old_pos = pos;
                        assert(old_pos == cur);
                        let ghost old_out = out@;
                        out.push(pair);
                        proof {
                            pos = pos.push((i as int, k as int));
                            assert forall|t: int| 0 <= t < pos.len() implies {
                                let (a, b) = #[trigger] pos[t];
                                &&& 0 <= a < self.blocks@.len()
                                &&& 0 <= b < self.blocks@[a]@.len()
                                &&& out@[t].0@ == self.blocks@[a]@[b].key@
                                &&& self.resolves(self.blocks@[a]@[b].offset, self.blocks@[a]@[b].size, out@[t].1@)
                            } by {
                                if t < old_pos.len() {
                                    assert(pos[t] == old_pos[t]);
                                    assert(out@[t] == old_out[t]);
                                }
                            }
                            assert forall|t: int, u: int| 0 <= t < u < pos.len() implies before(
                                #[trigger] pos[t],
                                #[trigger] pos[u],
                            ) by {
                                assert(pos[t] == old_pos[t]);
                                if u < old_pos.len() {
                                    assert(pos[u] == old_pos[u]);
                                }
                            }
                        }
                    },
                    Err(e) => {
                        proof {
                            lemma_cache_transparent(pre, start, kw.offset, kw.size, Seq::empty(), e);
                            assert(start.fails_with(kw.offset, kw.size, e));
                        }
                        let ghost sk = self.skipped@;
                        self.skipped.push((kw.key.clone(), e));
                        proof {
                            assert(start.blocks@[i as int]@[k as int] == start.blocks@[i as int]@[k as int]);
                            assert(start.skipped_ok(self.skipped@.last()));
                            assert forall|t: int| 0 <= t < self.skipped@.len() implies start.skipped_ok(
                                #[trigger] self.skipped@[t],
                            ) by {
                                if t < sk.len() {
                                    assert(self.skipped@[t] == sk[t]);
                                }
                            }
                        }
                    },
                }
                proof {
                    lemma_covered_step(start, cur, pos, i as int, k as int);
                }
                proof {
                    assert forall|t: int| 0 <= t < pos.len() implies before(#[trigger] pos[t], (i as int, k + 1)) by {
                        assert(before(pos[t], (i as int, k as int)) || pos[t] == (i as int, k as int));
                    }
                }
                k += 1;
            }
            proof {
                lemma_covered_next_block(start, pos, i as int);
                assert forall|t: int| 0 <= t < pos.len() implies #[trigger] pos[t].0 < i + 1 by {
                    assert(before(pos[t], (i as int, self.blocks@[i as int]@.len() as int)));
                }
            }
            i += 1;
        }
        assert(self.emitted(pos, out@));
        assert(self.counts_agree());
        assert(self.indexed_from_file());
        proof {
            lemma_covered_transfer(start, *self, pos, (self.blocks@.len() as int, 0));
            assert forall|t: int| 0 <= t < self.skipped@.len() implies self.skipped_ok(#[trigger] self.skipped@[t]) by {
                lemma_skipped_transfer(start, *self, self.skipped@[t]);
            }
        }
        assert(self.emits(out@));
        Ok(out)
    }
}

/// The block cache changes no outcome: two decoders over the same file and
/// index, whatever their caches hold, resolve every keyword to the same
/// payload and fail on the same keywords with the same error.
pub proof fn lemma_cache_transparent(a: Mdict, b: Mdict, off: u64, size: u64, data: Seq<u8>, e: MdictError)
    requires
        a.same_index(&b),
    ensures
        a.resolves(off, size, data) == b.resolves(off, size, data),
        a.fails_with(off, size, e) == b.fails_with(off, size, e),
{
    reveal(Mdict::fails_with);
}

/// The last keyword of a parsed block has size 0, and a resource of size 0
/// is the rest of its record block from its offset on.
pub proof fn lemma_last_of_block(ks: Seq<Keyword>, block: Seq<u8>, rel: int, utf16: bool, data: Seq<u8>)
    requires
        sizes_chained(ks),
        ks.len() > 0,
        payload_at(block, rel, ks.last().size as nat, false, utf16, data),
    ensures
        ks.last().size == 0,
        data == block.subrange(rel, block.len() as int),
{
    reveal(payload_at);
}

/// Handling the keyword at `(i, k)` extends what is covered by one place:
/// it was emitted, or it fails.
pub proof fn lemma_covered_step(m: Mdict, cur: Seq<(int, int)>, pos: Seq<(int, int)>, i: int, k: int)
    requires
        m.covered(cur, (i, k)),
        0 <= i < m.blocks@.len(),
        0 <= k < m.blocks@[i]@.len(),
        pos == cur || pos == cur.push((i, k)),
        pos == cur ==> m.fails(m.blocks@[i]@[k].offset, m.blocks@[i]@[k].size),
    ensures
        m.covered(pos, (i, k + 1)),
{
    assert forall|a: int, c: int|
        0 <= a < m.blocks@.len() && 0 <= c < m.blocks@[a]@.len() && before((a, c), (i, k + 1))
            implies pos.contains((a, c)) || m.fails(
            #[trigger] m.blocks@[a]@[c].offset,
            m.blocks@[a]@[c].size,
        ) by {
        if before((a, c), (i, k)) {
            if cur.contains((a, c)) {
                let j = choose|j: int| 0 <= j < cur.len() && cur[j] == (a, c);
                assert(pos[j] == (a, c));
            }
        } else if pos != cur {
            assert(pos[cur.len() as int] == (a, c));
        }
    }
}

/// Covering every place of a finished block covers the start of the next.
pub proof fn lemma_covered_next_block(m: Mdict, pos: Seq<(int, int)>, i: int)
    requires
        0 <= i < m.blocks@.len(),
        m.covered(pos, (i, m.blocks@[i]@.len() as int)),
    ensures
        m.covered(pos, (i + 1, 0)),
{
    assert forall|a: int, c: int|
        0 <= a < m.blocks@.len() && 0 <= c < m.blocks@[a]@.len() && before((a, c), (i + 1, 0))
            implies pos.contains((a, c)) || m.fails(
            #[trigger] m.blocks@[a]@[c].offset,
            m.blocks@[a]@[c].size,
        ) by {
        assert(before((a, c), (i, m.blocks@[i]@.len() as int)));
    }
}

/// What is covered does not depend on the cache.
pub proof fn lemma_covered_transfer(a: Mdict, b: Mdict, pos: Seq<(int, int)>, upto: (int, int))
    requires
        a.same_index(&b),
        a.covered(pos, upto),
    ensures
        b.covered(pos, upto),
{
    assert forall|i: int, k: int|
        0 <= i < b.blocks@.len() && 0 <= k < b.blocks@[i]@.len() && before((i, k), upto)
            implies pos.contains((i, k)) || b.fails(
            #[trigger] b.blocks@[i]@[k].offset,
            b.blocks@[i]@[k].size,
        ) by {
        assert(a.blocks@[i]@[k] == b.blocks@[i]@[k]);
        if !pos.contains((i, k)) {
            let off = b.blocks@[i]@[k].offset;
            let size = b.blocks@[i]@[k].size;
            let e = choose|e: MdictError| a.fails_with(off, size, e);
            lemma_cache_transparent(a, b, off, size, Seq::empty(), e);
        }
    }
}

/// Which keywords fail, and how, does not depend on the cache.
pub proof fn lemma_skipped_transfer(a: Mdict, b: Mdict, s: (String, MdictError))
    requires
        a.same_index(&b),
        a.skipped_ok(s),
    ensures
        b.skipped_ok(s),
{
    let (i, k) = choose|i: int, k: int| #![trigger a.blocks@[i]@[k]]
        0 <= i < a.blocks@.len() && 0 <= k < a.blocks@[i]@.len() && s.0@ == a.blocks@[i]@[k].key@
            && a.fails_with(a.blocks@[i]@[k].offset, a.blocks@[i]@[k].size, s.1);
    lemma_cache_transparent(a, b, a.blocks@[i]@[k].offset, a.blocks@[i]@[k].size, Seq::empty(), s.1);
    assert(b.blocks@[i]@[k] == a.blocks@[i]@[k]);
}

} // verus!
