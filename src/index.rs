//! The keyword index, the keyword blocks, the record summary and the record
//! index.
use vstd::prelude::*;
use crate::block::{block_result, decode_block};
use crate::bytes::be_value;
use crate::error::MdictError;
use crate::header::Header;
use crate::scanner::{short_width, tail_width, unit, units_before_nul, width, Scanner};
use crate::text::{decoded_text, lemma_decoded_text, text_decodes, text_valid};

verus! {

/// Sizes of the keyword index, as its summary declares them.
#[derive(Debug, Clone, Copy, PartialEq, Eq, Structural)]
pub struct Summary {
    pub num_blocks: u64,
    pub num_entries: u64,
    pub key_index_decomp_len: u64,
    pub key_index_comp_len: u64,
    pub key_blocks_len: u64,
}

/// One entry of the keyword index: a keyword block's size and place.
pub struct KeywordIndex {
    pub num_entries: u64,
    pub first_word: String,
    pub last_word: String,
    pub comp_size: u64,
    pub decomp_size: u64,
    /// Offset of the block from the start of the keyword blocks.
    pub block_offset: u64,
}

/// A headword, its offset in the decompressed record stream, and the size of
/// its payload (0 for the last headword of a keyword block: up to the end of
/// its record block).
pub struct Keyword {
    pub offset: u64,
    pub key: String,
    pub size: u64,
}

/// Sizes of the record section.
#[derive(Debug, Clone, Copy, PartialEq, Eq, Structural)]
pub struct RecordSummary {
    pub num_blocks: u64,
    pub num_entries: u64,
    pub index_len: u64,
    pub blocks_len: u64,
    /// File offset of the first record block.
    pub blocks_pos: u64,
}

/// Each keyword's size reaches the next keyword's offset; the last one's
/// size is 0.
pub open spec fn sizes_chained(ks: Seq<Keyword>) -> bool {
    &&& offsets_chained(ks)
    &&& ks.len() > 0 ==> ks.last().size == 0
}

/// Each keyword but the last has its size up to the next keyword's offset.
pub open spec fn offsets_chained(ks: Seq<Keyword>) -> bool {
    forall|j: int| #![trigger ks[j]] 0 <= j < ks.len() - 1 ==> ks[j].offset <= ks[j + 1].offset
        && ks[j].size == ks[j + 1].offset - ks[j].offset
}

/// The big-endian number of `w` bytes at `at`.
pub open spec fn num_at(b: Seq<u8>, at: int, w: int) -> nat {
    be_value(b.subrange(at, at + w))
}

/// Both columns grow strictly from each pair to the next.
pub open spec fn strictly_increasing(ri: Seq<(u64, u64)>) -> bool {
    forall|i: int, j: int| 0 <= i < j < ri.len() ==> ri[i].0 < ri[j].0 && ri[i].1 < ri[j].1
}

/// Sum of the keyword counts of the index entries.
pub open spec fn sum_entries(kis: Seq<KeywordIndex>) -> int
    decreases kis.len(),
{
    if kis.len() == 0 {
        0
    } else {
        sum_entries(kis.drop_last()) + kis.last().num_entries
    }
}

/// Where the keyword entry that starts at `pos` ends: an offset of the
/// format's width, then a NUL-terminated key.
pub open spec fn entry_end(buf: Seq<u8>, pos: int, v2: bool, utf16: bool) -> Option<int> {
    let w = width(v2) as int;
    let u = unit(utf16) as int;
    if pos < 0 || pos + w > buf.len() {
        None
    } else {
        match units_before_nul(buf, pos + w, u) {
            Some(k) => Some(pos + w + (k + 1) * u),
            None => None,
        }
    }
}

/// Where keyword entry `t` of a decompressed keyword block starts.
pub open spec fn entry_pos(buf: Seq<u8>, t: int, v2: bool, utf16: bool) -> Option<int>
    decreases t,
{
    if t <= 0 {
        Some(0)
    } else {
        match entry_pos(buf, t - 1, v2, utf16) {
            Some(p) => entry_end(buf, p, v2, utf16),
            None => None,
        }
    }
}

/// `offset` and `key` are those of the entry that starts at `pos`.
pub open spec fn keyword_at(buf: Seq<u8>, pos: int, v2: bool, utf16: bool, offset: u64, key: Seq<char>) -> bool {
    let w = width(v2) as int;
    let u = unit(utf16) as int;
    &&& 0 <= pos && pos + w <= buf.len()
    &&& offset == num_at(buf, pos, w)
    &&& match units_before_nul(buf, pos + w, u) {
        Some(k) => text_decodes(buf.subrange(pos + w, pos + w + k * u), utf16, key),
        None => false,
    }
}

/// Each of `ks` holds the offset and key of the entry with its index.
pub open spec fn keywords_match(buf: Seq<u8>, ks: Seq<Keyword>, v2: bool, utf16: bool) -> bool {
    forall|t: int| #![trigger ks[t]] 0 <= t < ks.len() ==> {
        &&& entry_pos(buf, t, v2, utf16) is Some
        &&& keyword_at(buf, entry_pos(buf, t, v2, utf16)->0, v2, utf16, ks[t].offset, ks[t].key@)
    }
}

/// Appending the keyword of the next entry keeps the keywords matched.
pub proof fn lemma_keywords_match_push(buf: Seq<u8>, ks: Seq<Keyword>, kw: Keyword, v2: bool, utf16: bool)
    requires
        keywords_match(buf, ks, v2, utf16),
        entry_pos(buf, ks.len() as int, v2, utf16) is Some,
        keyword_at(buf, entry_pos(buf, ks.len() as int, v2, utf16)->0, v2, utf16, kw.offset, kw.key@),
    ensures
        keywords_match(buf, ks.push(kw), v2, utf16),
{
    let s = ks.push(kw);
    assert forall|t: int| 0 <= t < s.len() implies {
        &&& entry_pos(buf, t, v2, utf16) is Some
        &&& keyword_at(buf, entry_pos(buf, t, v2, utf16)->0, v2, utf16, s[t].offset, s[t].key@)
    } by {
        if t < ks.len() {
            assert(s[t] == ks[t]);
        } else {
            assert(s[t] == kw);
        }
    }
}

/// Entry `t` of a keyword block can be read: its offset and a terminated
/// key lie inside the block, and the key is valid text.
pub open spec fn entry_reads(buf: Seq<u8>, t: int, v2: bool, utf16: bool) -> bool {
    let w = width(v2) as int;
    let u = unit(utf16) as int;
    match entry_pos(buf, t, v2, utf16) {
        Some(p) => p + w <= buf.len() && match units_before_nul(buf, p + w, u) {
            Some(k) => text_valid(buf.subrange(p + w, p + w + k * u), utf16),
            None => false,
        },
        None => false,
    }
}

/// The offset that entry `t` of a keyword block declares.
pub open spec fn entry_offset(buf: Seq<u8>, t: int, v2: bool, utf16: bool) -> nat {
    num_at(buf, entry_pos(buf, t, v2, utf16)->0, width(v2) as int)
}

/// The first `n` entries of a keyword block can be read and their offsets
/// never decrease.
pub open spec fn block_parses(buf: Seq<u8>, n: int, v2: bool, utf16: bool) -> bool {
    &&& forall|t: int| 0 <= t < n ==> #[trigger] entry_reads(buf, t, v2, utf16)
    &&& forall|t: int| 0 <= t < n - 1 ==> #[trigger] entry_offset(buf, t, v2, utf16) <= entry_offset(
        buf,
        t + 1,
        v2,
        utf16,
    )
}

/// Keywords that match their entries, with sizes chained, show that the
/// block parses.
pub proof fn lemma_block_parses(buf: Seq<u8>, ks: Seq<Keyword>, n: int, v2: bool, utf16: bool)
    requires
        ks.len() == n,
        keywords_match(buf, ks, v2, utf16),
        offsets_chained(ks),
    ensures
        block_parses(buf, n, v2, utf16),
{
    assert forall|t: int| 0 <= t < n implies #[trigger] entry_reads(buf, t, v2, utf16) by {
        let kw = ks[t];
        assert(entry_pos(buf, t, v2, utf16) is Some);
        assert(keyword_at(buf, entry_pos(buf, t, v2, utf16)->0, v2, utf16, kw.offset, kw.key@));
    }
    assert forall|t: int| 0 <= t < n - 1 implies #[trigger] entry_offset(buf, t, v2, utf16) <= entry_offset(
        buf,
        t + 1,
        v2,
        utf16,
    ) by {
        let a = ks[t];
        let c = ks[t + 1];
        assert(keyword_at(buf, entry_pos(buf, t, v2, utf16)->0, v2, utf16, a.offset, a.key@));
        assert(keyword_at(buf, entry_pos(buf, t + 1, v2, utf16)->0, v2, utf16, c.offset, c.key@));
        assert(a.offset <= c.offset);
    }
}

/// The headwords of one decompressed keyword block: `n` pairs of an offset
/// and a NUL-terminated key. Each size runs to the next offset; the last is 0.
pub fn parse_keywords(buf: Vec<u8>, n: u64, v2: bool, utf16: bool) -> (r: Result<Vec<Keyword>, MdictError>)
    requires
        buf@.len() + 8 <= usize::MAX,
    ensures
        match r {
            Ok(ks) => ks@.len() == n && sizes_chained(ks@) && keywords_match(buf@, ks@, v2, utf16)
                && block_parses(buf@, n as int, v2, utf16),
            Err(_) => !block_parses(buf@, n as int, v2, utf16),
        },
{
    let ghost b = buf@;
    let mut sc = Scanner::new(buf, v2, utf16);
    let mut out: Vec<Keyword> = Vec::new();
    if n == 0 {
        return Ok(out);
    }
    assert(entry_pos(b, 0int, v2, utf16) == Some(0int));
    let mut pend_offset = match sc.read_number() {
        Ok(x) => x,
        Err(e) => {
            assert(!entry_reads(b, 0, v2, utf16));
            return Err(e);
        },
    };
    let mut pend_key = match sc.read_text_unsized() {
        Ok(k) => k,
        Err(e) => {
            assert(!entry_reads(b, 0, v2, utf16));
            return Err(e);
        },
    };
    let mut i: u64 = 1;
    proof {
        assert(entry_pos(b, 1int, v2, utf16) == entry_end(b, 0, v2, utf16));
    }
    while i < n
        invariant
            sc.wf(),
            sc.buf@ == b,
            b == buf@,
            sc.v2 == v2,
            sc.utf16 == utf16,
            entry_pos(b, i as int, v2, utf16) == Some(sc.pos as int),
            entry_pos(b, i - 1, v2, utf16) is Some,
            keyword_at(b, entry_pos(b, i - 1, v2, utf16)->0, v2, utf16, pend_offset, pend_key@),
            keywords_match(b, out@, v2, utf16),
            1 <= i <= n,
            out@.len() == i - 1,
            offsets_chained(out@),
            out@.len() > 0 ==> out@.last().offset <= pend_offset
                && out@.last().size == pend_offset - out@.last().offset,
        decreases n - i,
    {
        let ghost q = sc.pos as int;
        let offset = match sc.read_number() {
            Ok(x) => x,
            Err(e) => {
                assert(!entry_reads(b, i as int, v2, utf16));
                return Err(e);
            },
        };
        let key = match sc.read_text_unsized() {
            Ok(k) => k,
            Err(e) => {
                assert(!entry_reads(b, i as int, v2, utf16));
                return Err(e);
            },
        };
        proof {
            assert(entry_pos(b, i + 1, v2, utf16) == entry_end(b, q, v2, utf16));
        }
        if offset < pend_offset {
            assert(entry_offset(b, i - 1, v2, utf16) > entry_offset(b, i as int, v2, utf16));
            return Err(MdictError::CorruptIndex);
        }
        let ghost before = out@;
        let ghost po = pend_offset;
        out.push(Keyword { offset: pend_offset, key: pend_key, size: offset - pend_offset });
        proof {
            lemma_keywords_match_push(b, before, out@.last(), v2, utf16);
            assert(out@ == before.push(out@.last()));
        }
        assert forall|j: int| 0 <= j < out@.len() - 1 implies out@[j].offset <= out@[j + 1].offset
            && out@[j].size == out@[j + 1].offset - out@[j].offset by {
            assert(out@[j] == before[j]);
            if j + 1 < before.len() {
                assert(out@[j + 1] == before[j + 1]);
                assert(before[j].size == before[j + 1].offset - before[j].offset);
            } else {
                assert(j == before.len() - 1);
                assert(before[j] == before.last());
            }
        }
        assert(offsets_chained(out@));
        pend_offset = offset;
        pend_key = key;
        i += 1;
    }
    let ghost before = out@;
    out.push(Keyword { offset: pend_offset, key: pend_key, size: 0 });
    proof {
        lemma_keywords_match_push(b, before, out@.last(), v2, utf16);
        assert(out@ == before.push(out@.last()));
    }
    assert forall|j: int| 0 <= j < out@.len() - 1 implies out@[j].offset <= out@[j + 1].offset
        && out@[j].size == out@[j + 1].offset - out@[j].offset by {
        assert(out@[j] == before[j]);
        if j + 1 < before.len() {
            assert(out@[j + 1] == before[j + 1]);
            assert(before[j].size == before[j + 1].offset - before[j].offset);
        } else {
            assert(before[j] == before.last());
        }
    }
    assert(offsets_chained(out@));
    proof {
        lemma_block_parses(b, out@, n as int, v2, utf16);
    }
    Ok(out)
}

/// Sum of the first `i` compressed (`col` 0) or decompressed (`col` 1)
/// sizes in the record-index bytes `buf`, with numbers `w` bytes wide.
pub open spec fn delta_sum(buf: Seq<u8>, i: int, col: int, w: int) -> int
    decreases i,
{
    if i <= 0 {
        0
    } else {
        delta_sum(buf, i - 1, col, w) + num_at(buf, (2 * (i - 1) + col) * w, w)
    }
}

/// Running sums of sizes never shrink.
pub proof fn lemma_delta_sum_mono(buf: Seq<u8>, i: int, j: int, col: int, w: int)
    requires
        0 <= i <= j,
    ensures
        delta_sum(buf, i, col, w) <= delta_sum(buf, j, col, w),
    decreases j - i,
{
    if i < j {
        lemma_delta_sum_mono(buf, i, j - 1, col, w);
    }
}

/// The record-index bytes `buf` hold `n` pairs of sizes, none zero, whose
/// running sums from `(base, 0)` fit in 64 bits.
pub open spec fn record_index_ok(buf: Seq<u8>, n: int, base: int, v2: bool) -> bool {
    let w = width(v2) as int;
    &&& 2 * n * w <= buf.len()
    &&& forall|i: int| 0 <= i < n ==> #[trigger] num_at(buf, 2 * i * w, w) > 0 && num_at(buf, (2 * i + 1) * w, w) > 0
    &&& base + delta_sum(buf, n, 0, w) <= u64::MAX
    &&& delta_sum(buf, n, 1, w) <= u64::MAX
}

/// `ri` is the record index that the size pairs in `buf` give: `n` pairs
/// of running sums from `(base, 0)` on, one more for the end of the stream.
pub open spec fn record_index_from(buf: Seq<u8>, ri: Seq<(u64, u64)>, n: int, base: u64, v2: bool) -> bool {
    let w = width(v2) as int;
    &&& ri.len() == n + 1
    &&& ri[0] == (base, 0u64)
    &&& strictly_increasing(ri)
    &&& forall|i: int| 0 <= i < n ==> {
        &&& #[trigger] ri[i + 1].0 == ri[i].0 + num_at(buf, 2 * i * w, w)
        &&& ri[i + 1].1 == ri[i].1 + num_at(buf, (2 * i + 1) * w, w)
    }
}

/// The keyword-index summary at `p`: widths per the version.
pub open spec fn summary_at(b: Seq<u8>, p: int, v2: bool) -> Summary {
    let w = width(v2) as int;
    let q = if v2 { p + 3 * w } else { p + 2 * w };
    Summary {
        num_blocks: num_at(b, p, w) as u64,
        num_entries: num_at(b, p + w, w) as u64,
        key_index_decomp_len: if v2 { num_at(b, p + 2 * w, w) as u64 } else { 0 },
        key_index_comp_len: num_at(b, q, w) as u64,
        key_blocks_len: num_at(b, q + w, w) as u64,
    }
}

/// Length of the keyword-index summary: five numbers in version 2, four in
/// version 1.
pub open spec fn summary_len(v2: bool) -> int {
    (if v2 { 5int } else { 4int }) * width(v2)
}

/// The record summary at `p`; the record blocks follow the record index.
pub open spec fn record_summary_at(b: Seq<u8>, p: int, v2: bool) -> RecordSummary {
    let w = width(v2) as int;
    RecordSummary {
        num_blocks: num_at(b, p, w) as u64,
        num_entries: num_at(b, p + w, w) as u64,
        index_len: num_at(b, p + 2 * w, w) as u64,
        blocks_len: num_at(b, p + 3 * w, w) as u64,
        blocks_pos: (p + 4 * w + num_at(b, p + 2 * w, w)) as u64,
    }
}

/// The record index: the pairs (file offset, decompressed offset) at which
/// each of `n` record blocks starts, from `(blocks_pos, 0)` on, and a last
/// pair for the end of the stream. A zero size or an overflow is an index
/// error.
pub fn build_record_index(buf: Vec<u8>, n: u64, blocks_pos: u64, v2: bool) -> (r: Result<Vec<(u64, u64)>, MdictError>)
    requires
        buf@.len() + 8 <= usize::MAX,
    ensures
        match r {
            Ok(ri) => record_index_from(buf@, ri@, n as int, blocks_pos, v2) && ri@.last().0 == blocks_pos
                + delta_sum(buf@, n as int, 0, width(v2) as int) && record_index_ok(buf@, n as int, blocks_pos as int, v2),
            Err(e) => !record_index_ok(buf@, n as int, blocks_pos as int, v2) && (2 * n * width(v2)
                <= buf@.len() ==> e == MdictError::CorruptIndex),
        },
{
    let mut sc = Scanner::new(buf, v2, false);
    let mut ri: Vec<(u64, u64)> = Vec::new();
    let mut comp_at: u64 = blocks_pos;
    let mut decomp_at: u64 = 0;
    let mut i: u64 = 0;
    let ghost w = width(v2) as int;
    let ghost b = buf@;
    while i < n
        invariant
            sc.wf(),
            sc.v2 == v2,
            sc.buf@ == buf@,
            w == width(v2),
            sc.pos == 2 * i * w,
            i <= n,
            ri@.len() == i,
            i == 0 ==> comp_at == blocks_pos && decomp_at == 0,
            b == buf@,
            comp_at == blocks_pos + delta_sum(b, i as int, 0, w),
            sc.pos <= b.len(),
            forall|j: int| 0 <= j < i ==> #[trigger] num_at(b, 2 * j * w, w) > 0 && num_at(b, (2 * j + 1) * w, w) > 0,
            decomp_at == delta_sum(b, i as int, 1, w),
            i > 0 ==> ri@[0] == (blocks_pos, 0u64),
            strictly_increasing(ri@),
            forall|k: int| 0 <= k < ri@.len() ==> ri@[k].0 < comp_at && ri@[k].1 < decomp_at,
            forall|k: int| 0 <= k < i ==> {
                &&& #[trigger] (ri@.push((comp_at, decomp_at)))[k + 1].0 == ri@[k].0 + be_value(buf@.subrange(2 * k * w, (2 * k + 1) * w))
                &&& (ri@.push((comp_at, decomp_at)))[k + 1].1 == ri@[k].1 + be_value(buf@.subrange((2 * k + 1) * w, (2 * k + 2) * w))
            },
        decreases n - i,
    {
        let ghost before = ri@;
        let ghost prev_comp = comp_at;
        let ghost prev_decomp = decomp_at;
        ri.push((comp_at, decomp_at));
        assert(2 * i * w + 2 * w <= 2 * n * w) by (nonlinear_arith)
            requires
                i < n,
                w == 4 || w == 8,
        ;
        let d0 = match sc.read_number() {
            Ok(d) => d,
            Err(e) => return Err(e),
        };
        let d1 = match sc.read_number() {
            Ok(d) => d,
            Err(e) => return Err(e),
        };
        assert(d0 == num_at(b, 2 * i * w, w));
        assert(2 * i * w + w == (2 * i + 1) * w) by (nonlinear_arith);
        assert(d1 == num_at(b, (2 * i + 1) * w, w));
        if d0 == 0 || d1 == 0 {
            return Err(MdictError::CorruptIndex);
        }
        if d0 > u64::MAX - comp_at || d1 > u64::MAX - decomp_at {
            proof {
                assert(delta_sum(b, i + 1, 0, w) == delta_sum(b, i as int, 0, w) + d0);
                assert((2 * i + 1) * w == (2 * (i + 1 - 1) + 1) * w);
                assert(delta_sum(b, i + 1, 1, w) == delta_sum(b, i as int, 1, w) + d1);
                lemma_delta_sum_mono(b, i + 1, n as int, 0, w);
                lemma_delta_sum_mono(b, i + 1, n as int, 1, w);
            }
            return Err(MdictError::CorruptIndex);
        }
        comp_at = comp_at + d0;
        decomp_at = decomp_at + d1;
        assert(delta_sum(b, i + 1, 0, w) == delta_sum(b, i as int, 0, w) + d0);
        assert(delta_sum(b, i + 1, 1, w) == delta_sum(b, i as int, 1, w) + d1);
        assert(sc.pos == 2 * (i + 1) * w) by (nonlinear_arith)
            requires
                sc.pos == 2 * i * w + w + w,
        ;
        assert forall|k: int| 0 <= k < i + 1 implies {
            &&& #[trigger] (ri@.push((comp_at, decomp_at)))[k + 1].0 == ri@[k].0 + be_value(buf@.subrange(2 * k * w, (2 * k + 1) * w))
            &&& (ri@.push((comp_at, decomp_at)))[k + 1].1 == ri@[k].1 + be_value(buf@.subrange((2 * k + 1) * w, (2 * k + 2) * w))
        } by {
            if k < i {
                assert(ri@[k] == before[k]);
                assert((ri@.push((comp_at, decomp_at)))[k + 1] == (before.push((prev_comp, prev_decomp)))[k + 1]);
            } else {
                assert(2 * k * w + w == (2 * k + 1) * w) by (nonlinear_arith);
                assert((2 * k + 1) * w + w == (2 * k + 2) * w) by (nonlinear_arith);
            }
        }
        i += 1;
    }
    let ghost before = ri@;
    assert(i == n);
    assert(2 * n * w <= b.len());
    ri.push((comp_at, decomp_at));
    assert(ri@.last() == (comp_at, decomp_at));
    assert forall|k: int| 0 <= k < n implies {
        &&& #[trigger] ri@[k + 1].0 == ri@[k].0 + be_value(buf@.subrange(2 * k * w, (2 * k + 1) * w))
        &&& ri@[k + 1].1 == ri@[k].1 + be_value(buf@.subrange((2 * k + 1) * w, (2 * k + 2) * w))
    } by {
        assert(ri@ == before.push((comp_at, decomp_at)));
        assert(ri@[k] == before[k]);
        assert((2 * k + 1) * w + w == (2 * k + 2) * w) by (nonlinear_arith);
        assert(2 * k * w + w == (2 * k + 1) * w) by (nonlinear_arith);
    }
    Ok(ri)
}

/// `x` as a `usize`, or `TruncatedInput` where no buffer could be that long.
pub fn to_usize(x: u64) -> (r: Result<usize, MdictError>)
    ensures
        match r {
            Ok(v) => v as int == x as int,
            Err(e) => e == MdictError::TruncatedInput && x > usize::MAX,
        },
{
    if x > usize::MAX as u64 {
        Err(MdictError::TruncatedInput)
    } else {
        Ok(x as usize)
    }
}

/// Reads the keyword-index summary: block and entry counts, the index's
/// decompressed length (version 2 only), its compressed length, and the
/// length of the keyword blocks.
pub fn read_summary(sc: &mut Scanner) -> (r: Result<Summary, MdictError>)
    requires
        old(sc).wf(),
    ensures
        final(sc).wf(),
        final(sc).same_source(old(sc)),
        match r {
            Ok(s) => {
                let b = old(sc).buf@;
                let p = old(sc).pos as int;
                let w = width(old(sc).v2) as int;
                let q = if old(sc).v2 { p + 3 * w } else { p + 2 * w };
                &&& s.num_blocks == num_at(b, p, w)
                &&& s.num_entries == num_at(b, p + w, w)
                &&& s.key_index_decomp_len == (if old(sc).v2 { num_at(b, p + 2 * w, w) } else { 0 })
                &&& s.key_index_comp_len == num_at(b, q, w)
                &&& s.key_blocks_len == num_at(b, q + w, w)
                &&& final(sc).pos == q + 2 * w
                &&& s == summary_at(b, p, old(sc).v2)
                &&& final(sc).pos == p + summary_len(old(sc).v2)
            },
            Err(e) => e == MdictError::TruncatedInput && !old(sc).fits(
                (if old(sc).v2 { 5int } else { 4int }) * width(old(sc).v2),
            ),
        },
{
    let ghost b = sc.buf@;
    let ghost p = sc.pos as int;
    let ghost w = width(sc.v2) as int;
    let num_blocks = sc.read_number()?;
    assert(num_blocks == num_at(b, p, w));
    let num_entries = sc.read_number()?;
    assert(num_entries == num_at(b, p + w, w));
    let key_index_decomp_len = if sc.v2 {
        let n = sc.read_number()?;
        assert(n == num_at(b, p + 2 * w, w));
        n
    } else {
        0
    };
    let ghost q = sc.pos as int;
    let key_index_comp_len = sc.read_number()?;
    assert(key_index_comp_len == num_at(b, q, w));
    let key_blocks_len = sc.read_number()?;
    assert(key_blocks_len == num_at(b, q + w, w));
    Ok(Summary { num_blocks, num_entries, key_index_decomp_len, key_index_comp_len, key_blocks_len })
}

/// Layout of the keyword-index entry at `p`: where its first word, its last
/// word, its two sizes and its end stand.
pub open spec fn index_entry_layout(buf: Seq<u8>, p: int, v2: bool, utf16: bool) -> (int, int, int, int, int) {
    let w = width(v2) as int;
    let sw = short_width(v2) as int;
    let u = unit(utf16) as int;
    let tail = tail_width(v2, utf16) as int;
    let first = p + w + sw;
    let n1 = num_at(buf, p + w, sw) as int;
    let c = first + n1 * u + tail;
    let last = c + sw;
    let n2 = num_at(buf, c, sw) as int;
    let sizes = last + n2 * u + tail;
    (first, n1, last, n2, sizes)
}

/// Where keyword-index entry `t` starts.
pub open spec fn index_pos(buf: Seq<u8>, t: int, v2: bool, utf16: bool) -> int
    decreases t,
{
    if t <= 0 {
        0
    } else {
        let p = index_pos(buf, t - 1, v2, utf16);
        index_entry_layout(buf, p, v2, utf16).4 + 2 * width(v2)
    }
}

/// `ki` holds what the keyword-index entry at `p` declares (all but the
/// block offset, which the sizes before it give).
pub open spec fn index_entry_at(buf: Seq<u8>, p: int, v2: bool, utf16: bool, ki: KeywordIndex) -> bool {
    let w = width(v2) as int;
    let u = unit(utf16) as int;
    let (first, n1, last, n2, sizes) = index_entry_layout(buf, p, v2, utf16);
    &&& 0 <= p && sizes + 2 * w <= buf.len()
    &&& ki.num_entries == num_at(buf, p, w)
    &&& text_decodes(buf.subrange(first, first + n1 * u), utf16, ki.first_word@)
    &&& text_decodes(buf.subrange(last, last + n2 * u), utf16, ki.last_word@)
    &&& ki.comp_size == num_at(buf, sizes, w)
    &&& ki.decomp_size == num_at(buf, sizes + w, w)
}

/// Each of `kis` holds the entry of the decoded keyword index `buf` with its
/// index, and the block offsets add up the compressed sizes before them.
#[verifier::opaque]
pub open spec fn index_matches(buf: Seq<u8>, kis: Seq<KeywordIndex>, v2: bool, utf16: bool) -> bool {
    &&& forall|t: int| #![trigger kis[t]] 0 <= t < kis.len() ==> index_entry_at(buf, index_pos(buf, t, v2, utf16), v2, utf16, kis[t])
    &&& kis.len() > 0 ==> kis[0].block_offset == 0
    &&& forall|t: int| #![trigger kis[t + 1]] 0 <= t < kis.len() - 1 ==> kis[t + 1].block_offset == kis[t].block_offset + kis[t].comp_size
}

/// The keyword-index entry at `p` can be read: it lies inside `buf` and
/// both of its words are valid text.
pub open spec fn index_entry_ok(buf: Seq<u8>, p: int, v2: bool, utf16: bool) -> bool {
    let w = width(v2) as int;
    let u = unit(utf16) as int;
    let (first, n1, last, n2, sizes) = index_entry_layout(buf, p, v2, utf16);
    &&& 0 <= p && sizes + 2 * w <= buf.len()
    &&& text_valid(buf.subrange(first, first + n1 * u), utf16)
    &&& text_valid(buf.subrange(last, last + n2 * u), utf16)
}

/// Sum of the keyword counts of the first `t` keyword-index entries.
pub open spec fn index_entries_sum(buf: Seq<u8>, t: int, v2: bool, utf16: bool) -> int
    decreases t,
{
    if t <= 0 {
        0
    } else {
        index_entries_sum(buf, t - 1, v2, utf16) + num_at(buf, index_pos(buf, t - 1, v2, utf16), width(v2) as int)
    }
}

/// Sum of the compressed sizes of the first `t` keyword-index entries.
pub open spec fn index_comp_sum(buf: Seq<u8>, t: int, v2: bool, utf16: bool) -> int
    decreases t,
{
    if t <= 0 {
        0
    } else {
        index_comp_sum(buf, t - 1, v2, utf16) + num_at(
            buf,
            index_entry_layout(buf, index_pos(buf, t - 1, v2, utf16), v2, utf16).4,
            width(v2) as int,
        )
    }
}

pub proof fn lemma_index_sums_mono(buf: Seq<u8>, i: int, j: int, v2: bool, utf16: bool)
    requires
        0 <= i <= j,
    ensures
        index_entries_sum(buf, i, v2, utf16) <= index_entries_sum(buf, j, v2, utf16),
        index_comp_sum(buf, i, v2, utf16) <= index_comp_sum(buf, j, v2, utf16),
    decreases j - i,
{
    if i < j {
        lemma_index_sums_mono(buf, i, j - 1, v2, utf16);
    }
}

/// The keyword index at `pos` can be read: its block lies inside `b` and
/// decodes, all `num_blocks` entries can be read, their keyword counts add up
/// to the summary's and their compressed sizes to the keyword blocks'
/// length.
#[verifier::opaque]
pub open spec fn keyword_index_ok(b: Seq<u8>, pos: int, s: Summary, h: Header) -> bool {
    let dec = block_result(
        b.subrange(pos, pos + s.key_index_comp_len),
        s.key_index_decomp_len as nat,
        h.encryption,
    );
    &&& s.key_index_comp_len <= usize::MAX && s.key_index_decomp_len <= usize::MAX
    &&& pos + s.key_index_comp_len <= b.len()
    &&& dec is Ok
    &&& dec->Ok_0.len() + 8 <= usize::MAX
    &&& forall|t: int| 0 <= t < s.num_blocks ==> #[trigger] index_entry_ok(
        dec->Ok_0,
        index_pos(dec->Ok_0, t, h.v2, h.utf16),
        h.v2,
        h.utf16,
    )
    &&& index_entries_sum(dec->Ok_0, s.num_blocks as int, h.v2, h.utf16) == s.num_entries
    &&& index_comp_sum(dec->Ok_0, s.num_blocks as int, h.v2, h.utf16) == s.key_blocks_len
}

/// Keyword count of keyword-index entry `t`.
pub open spec fn index_n(buf: Seq<u8>, t: int, v2: bool, utf16: bool) -> int {
    num_at(buf, index_pos(buf, t, v2, utf16), width(v2) as int) as int
}

/// Compressed size of the keyword block of keyword-index entry `t`.
pub open spec fn index_comp(buf: Seq<u8>, t: int, v2: bool, utf16: bool) -> int {
    num_at(buf, index_entry_layout(buf, index_pos(buf, t, v2, utf16), v2, utf16).4, width(v2) as int) as int
}

/// Decompressed size of the keyword block of keyword-index entry `t`.
pub open spec fn index_decomp(buf: Seq<u8>, t: int, v2: bool, utf16: bool) -> int {
    let w = width(v2) as int;
    num_at(buf, index_entry_layout(buf, index_pos(buf, t, v2, utf16), v2, utf16).4 + w, w) as int
}

/// The entries of a matched keyword index hold the sizes that the index
/// bytes declare, and each block offset is the sum of the sizes before it.
pub proof fn lemma_index_fields(buf: Seq<u8>, kis: Seq<KeywordIndex>, v2: bool, utf16: bool, t: int)
    requires
        index_matches(buf, kis, v2, utf16),
        0 <= t < kis.len(),
    ensures
        kis[t].num_entries == index_n(buf, t, v2, utf16),
        kis[t].comp_size == index_comp(buf, t, v2, utf16),
        kis[t].decomp_size == index_decomp(buf, t, v2, utf16),
        kis[t].block_offset == index_comp_sum(buf, t, v2, utf16),
        kis[t].first_word@ == index_first(buf, t, v2, utf16),
        kis[t].last_word@ == index_last(buf, t, v2, utf16),
    decreases t,
{
    reveal(index_matches);
    assert(index_entry_at(buf, index_pos(buf, t, v2, utf16), v2, utf16, kis[t]));
    let (first, n1, last, n2, sizes) = index_entry_layout(buf, index_pos(buf, t, v2, utf16), v2, utf16);
    lemma_decoded_text(buf.subrange(first, first + n1 * unit(utf16)), utf16, kis[t].first_word@);
    lemma_decoded_text(buf.subrange(last, last + n2 * unit(utf16)), utf16, kis[t].last_word@);
    if t > 0 {
        lemma_index_fields(buf, kis, v2, utf16, t - 1);
        assert(kis[t - 1 + 1].block_offset == kis[t - 1].block_offset + kis[t - 1].comp_size);
    }
}

/// Reads one keyword-index entry: its keyword count, first and last words,
/// and compressed and decompressed sizes.
pub fn read_index_entry(isc: &mut Scanner, block_offset: u64) -> (r: Result<KeywordIndex, MdictError>)
    requires
        old(isc).wf(),
    ensures
        final(isc).wf(),
        final(isc).same_source(old(isc)),
        match r {
            Ok(ki) => {
                let lay = index_entry_layout(old(isc).buf@, old(isc).pos as int, old(isc).v2, old(isc).utf16);
                &&& index_entry_at(old(isc).buf@, old(isc).pos as int, old(isc).v2, old(isc).utf16, ki)
                &&& ki.block_offset == block_offset
                &&& final(isc).pos == lay.4 + 2 * width(old(isc).v2)
            },
            Err(_) => !index_entry_ok(old(isc).buf@, old(isc).pos as int, old(isc).v2, old(isc).utf16),
        },
{
    let num_entries = isc.read_number()?;
    let first_size = isc.read_short_number()?;
    let first_word = isc.read_text(first_size as usize)?;
    let last_size = isc.read_short_number()?;
    let last_word = isc.read_text(last_size as usize)?;
    let comp_size = isc.read_number()?;
    let decomp_size = isc.read_number()?;
    Ok(KeywordIndex { num_entries, first_word, last_word, comp_size, decomp_size, block_offset })
}

/// Reads and decodes the keyword index. Its keyword counts must sum to the
/// summary's, and its compressed sizes to the keyword blocks' length.
#[verifier::rlimit(100)]
pub fn read_keyword_index(sc: &mut Scanner, summary: &Summary, header: &Header) -> (r: Result<Vec<KeywordIndex>, MdictError>)
    requires
        old(sc).wf(),
    ensures
        final(sc).wf(),
        final(sc).same_source(old(sc)),
        match r {
            Ok(kis) => {
                let raw = old(sc).ahead(summary.key_index_comp_len as int);
                let decoded = block_result(raw, summary.key_index_decomp_len as nat, header.encryption);
                &&& old(sc).fits(summary.key_index_comp_len as int)
                &&& final(sc).pos == old(sc).pos + summary.key_index_comp_len
                &&& decoded is Ok
                &&& index_matches(decoded->Ok_0, kis@, header.v2, header.utf16)
                &&& keyword_index_ok(old(sc).buf@, old(sc).pos as int, *summary, *header)
                &&& kis@.len() == summary.num_blocks
                &&& sum_entries(kis@) == summary.num_entries
                &&& forall|i: int| 0 <= i < kis@.len() ==> #[trigger] kis@[i].block_offset + kis@[i].comp_size
                    <= summary.key_blocks_len
            },
            Err(e) => {
                let raw = old(sc).ahead(summary.key_index_comp_len as int);
                let decoded = block_result(raw, summary.key_index_decomp_len as nat, header.encryption);
                &&& !keyword_index_ok(old(sc).buf@, old(sc).pos as int, *summary, *header)
                &&& old(sc).fits(summary.key_index_comp_len as int) && summary.key_index_comp_len
                    <= usize::MAX && summary.key_index_decomp_len <= usize::MAX && decoded is Err
                    ==> decoded == Err::<Seq<u8>, MdictError>(e)
            },
        },
{
    let clen = match to_usize(summary.key_index_comp_len) {
        Ok(x) => x,
        Err(e) => {
            proof {
                reveal(keyword_index_ok);
            }
            return Err(e);
        },
    };
    let raw = match sc.read(clen) {
        Ok(x) => x,
        Err(e) => {
            proof {
                reveal(keyword_index_ok);
            }
            return Err(e);
        },
    };
    let ghost after = sc.pos;
    let dlen = match to_usize(summary.key_index_decomp_len) {
        Ok(x) => x,
        Err(e) => {
            proof {
                reveal(keyword_index_ok);
            }
            return Err(e);
        },
    };
    let buf = match decode_block(&raw, dlen, header.encryption) {
        Ok(x) => x,
        Err(e) => {
            proof {
                reveal(keyword_index_ok);
            }
            return Err(e);
        },
    };
    if buf.len() > usize::MAX - 8 {
        proof {
            reveal(keyword_index_ok);
        }
        return Err(MdictError::CorruptBlock);
    }
    let ghost b = buf@;
    let mut isc = Scanner::new(buf, header.v2, header.utf16);
    let mut kis: Vec<KeywordIndex> = Vec::new();
    let mut block_offset: u64 = 0;
    let mut total: u64 = 0;
    let mut i: u64 = 0;
    assert(index_matches(b, kis@, header.v2, header.utf16)) by {
        reveal(index_matches);
    }
    while i < summary.num_blocks
        invariant
            sc.wf(),
            sc.same_source(old(sc)),
            sc.pos == after,
            isc.wf(),
            isc.buf@ == b,
            isc.v2 == header.v2,
            isc.utf16 == header.utf16,
            isc.pos == index_pos(b, i as int, header.v2, header.utf16),
            index_matches(b, kis@, header.v2, header.utf16),
            kis@.len() > 0 ==> block_offset == kis@.last().block_offset + kis@.last().comp_size,
            kis@.len() == 0 ==> block_offset == 0,
            i <= summary.num_blocks,
            kis@.len() == i,
            sum_entries(kis@) == total,
            total == index_entries_sum(b, i as int, header.v2, header.utf16),
            forall|t: int| 0 <= t < i ==> #[trigger] index_entry_ok(
                b,
                index_pos(b, t, header.v2, header.utf16),
                header.v2,
                header.utf16,
            ),
            old(sc).fits(summary.key_index_comp_len as int),
            summary.key_index_comp_len <= usize::MAX,
            summary.key_index_decomp_len <= usize::MAX,
            block_result(
                old(sc).ahead(summary.key_index_comp_len as int),
                summary.key_index_decomp_len as nat,
                header.encryption,
            ) == Ok::<Seq<u8>, MdictError>(b),
            block_offset == index_comp_sum(b, i as int, header.v2, header.utf16),
            b.len() + 8 <= usize::MAX,
            forall|k: int| 0 <= k < kis@.len() ==> #[trigger] kis@[k].block_offset + kis@[k].comp_size <= block_offset,
        decreases summary.num_blocks - i,
    {
        let ghost p = isc.pos as int;
        let ki = match read_index_entry(&mut isc, block_offset) {
            Ok(ki) => ki,
            Err(e) => {
                assert(!index_entry_ok(b, index_pos(b, i as int, header.v2, header.utf16), header.v2, header.utf16));
                proof {
                    reveal(keyword_index_ok);
                }
                return Err(e);
            },
        };
        assert(isc.pos == index_pos(b, i + 1, header.v2, header.utf16));
        assert(index_entry_ok(b, index_pos(b, i as int, header.v2, header.utf16), header.v2, header.utf16));
        let comp_size = ki.comp_size;
        let num_entries = ki.num_entries;
        assert(index_entries_sum(b, i + 1, header.v2, header.utf16) == total + num_entries);
        assert(index_comp_sum(b, i + 1, header.v2, header.utf16) == block_offset + comp_size);
        if comp_size > u64::MAX - block_offset || num_entries > u64::MAX - total {
            proof {
                lemma_index_sums_mono(b, i + 1, summary.num_blocks as int, header.v2, header.utf16);
                reveal(keyword_index_ok);
            }
            return Err(MdictError::CorruptIndex);
        }
        let ghost before = kis@;
        kis.push(ki);
        assert(kis@.drop_last() =~= before);
        assert(index_entry_at(b, p, header.v2, header.utf16, kis@.last()));
        assert(index_matches(b, kis@, header.v2, header.utf16)) by {
            reveal(index_matches);
            assert forall|t: int| 0 <= t < kis@.len() implies index_entry_at(
                b,
                index_pos(b, t, header.v2, header.utf16),
                header.v2,
                header.utf16,
                kis@[t],
            ) by {
                if t < before.len() {
                    assert(kis@[t] == before[t]);
                }
            }
            assert forall|t: int| 0 <= t < kis@.len() - 1 implies kis@[t + 1].block_offset
                == kis@[t].block_offset + kis@[t].comp_size by {
                assert(kis@[t] == before[t]);
                if t + 1 < before.len() {
                    assert(kis@[t + 1] == before[t + 1]);
                }
            }
        }
        block_offset = block_offset + comp_size;
        total = total + num_entries;
        assert forall|k: int| 0 <= k < kis@.len() implies #[trigger] kis@[k].block_offset + kis@[k].comp_size
            <= block_offset by {
            if k < before.len() {
                assert(kis@[k] == before[k]);
            }
        }
        i += 1;
    }
    if total != summary.num_entries || block_offset != summary.key_blocks_len {
        proof {
            reveal(keyword_index_ok);
        }
        return Err(MdictError::CorruptIndex);
    }
    proof {
        reveal(keyword_index_ok);
    }
    Ok(kis)
}

/// Keyword block `ki` decodes, and `ks` are the headwords it holds.
/// `region` holds the keyword blocks.
#[verifier::opaque]
pub open spec fn block_holds(region: Seq<u8>, ki: KeywordIndex, ks: Seq<Keyword>, v2: bool, utf16: bool) -> bool {
    let raw = region.subrange(ki.block_offset as int, ki.block_offset + ki.comp_size);
    let decoded = block_result(raw, ki.decomp_size as nat, 0);
    &&& ks.len() == ki.num_entries
    &&& sizes_chained(ks)
    &&& decoded is Ok
    &&& keywords_match(decoded->Ok_0, ks, v2, utf16)
}

/// The keyword block at offset `off` of `region`, `comp` bytes long, can be
/// read: it decodes with room for `decomp` bytes, and its first `n` entries
/// parse.
#[verifier::opaque]
pub open spec fn keyword_block_ok(
    region: Seq<u8>,
    off: int,
    comp: int,
    decomp: int,
    n: int,
    first: Seq<char>,
    last: Seq<char>,
    v2: bool,
    utf16: bool,
) -> bool {
    let dec = block_result(region.subrange(off, off + comp), decomp as nat, 0);
    &&& decomp <= usize::MAX
    &&& dec is Ok
    &&& dec->Ok_0.len() + 8 <= usize::MAX
    &&& block_parses(dec->Ok_0, n, v2, utf16)
    &&& n > 0 ==> entry_key(dec->Ok_0, 0, v2, utf16) == first && entry_key(dec->Ok_0, n - 1, v2, utf16) == last
}

/// The key of keyword entry `t` of a decompressed keyword block.
pub open spec fn entry_key(buf: Seq<u8>, t: int, v2: bool, utf16: bool) -> Seq<char> {
    let w = width(v2) as int;
    let u = unit(utf16) as int;
    let p = entry_pos(buf, t, v2, utf16)->0;
    let k = units_before_nul(buf, p + w, u)->0;
    decoded_text(buf.subrange(p + w, p + w + k * u), utf16)
}

/// The first word that keyword-index entry `t` declares.
pub open spec fn index_first(buf: Seq<u8>, t: int, v2: bool, utf16: bool) -> Seq<char> {
    let (first, n1, last, n2, sizes) = index_entry_layout(buf, index_pos(buf, t, v2, utf16), v2, utf16);
    decoded_text(buf.subrange(first, first + n1 * unit(utf16)), utf16)
}

/// The last word that keyword-index entry `t` declares.
pub open spec fn index_last(buf: Seq<u8>, t: int, v2: bool, utf16: bool) -> Seq<char> {
    let (first, n1, last, n2, sizes) = index_entry_layout(buf, index_pos(buf, t, v2, utf16), v2, utf16);
    decoded_text(buf.subrange(last, last + n2 * unit(utf16)), utf16)
}

/// Reads the keyword blocks and parses the headwords of each.
pub fn read_keyword_blocks(sc: &mut Scanner, kis: &Vec<KeywordIndex>, blocks_len: u64) -> (r: Result<Vec<Vec<Keyword>>, MdictError>)
    requires
        old(sc).wf(),
        forall|i: int| 0 <= i < kis@.len() ==> #[trigger] kis@[i].block_offset + kis@[i].comp_size <= blocks_len,
    ensures
        final(sc).wf(),
        final(sc).same_source(old(sc)),
        match r {
            Ok(bs) => {
                let region = old(sc).ahead(blocks_len as int);
                &&& old(sc).fits(blocks_len as int)
                &&& final(sc).pos == old(sc).pos + blocks_len
                &&& blocks_len <= usize::MAX
                &&& bs@.len() == kis@.len()
                &&& forall|i: int| 0 <= i < bs@.len() ==> bs@[i]@.len() == kis@[i].num_entries
                    && sizes_chained(#[trigger] bs@[i]@)
                    && block_holds(region, kis@[i], bs@[i]@, old(sc).v2, old(sc).utf16)
                &&& forall|i: int| 0 <= i < kis@.len() ==> keyword_block_ok(
                    region,
                    kis@[i].block_offset as int,
                    kis@[i].comp_size as int,
                    kis@[i].decomp_size as int,
                    #[trigger] kis@[i].num_entries as int,
                    kis@[i].first_word@,
                    kis@[i].last_word@,
                    old(sc).v2,
                    old(sc).utf16,
                )
            },
            Err(_) => !(blocks_len <= usize::MAX && old(sc).fits(blocks_len as int) && forall|i: int|
                0 <= i < kis@.len() ==> keyword_block_ok(
                    old(sc).ahead(blocks_len as int),
                    kis@[i].block_offset as int,
                    kis@[i].comp_size as int,
                    kis@[i].decomp_size as int,
                    #[trigger] kis@[i].num_entries as int,
                    kis@[i].first_word@,
                    kis@[i].last_word@,
                    old(sc).v2,
                    old(sc).utf16,
                )),
        },
{
    let len = to_usize(blocks_len)?;
    let region = sc.read(len)?;
    assert(region@ == old(sc).ahead(blocks_len as int));
    let ghost after = sc.pos;
    let rlen: usize = region.len();
    let mut out: Vec<Vec<Keyword>> = Vec::new();
    let mut i: usize = 0;
    while i < kis.len()
        invariant
            sc.wf(),
            sc.same_source(old(sc)),
            sc.pos == after,
            rlen == region@.len(),
            region@.len() == blocks_len,
            region@ == old(sc).ahead(blocks_len as int),
            blocks_len <= usize::MAX,
            old(sc).fits(blocks_len as int),
            forall|k: int| 0 <= k < i ==> keyword_block_ok(
                region@,
                kis@[k].block_offset as int,
                kis@[k].comp_size as int,
                kis@[k].decomp_size as int,
                #[trigger] kis@[k].num_entries as int,
                kis@[k].first_word@,
                kis@[k].last_word@,
                sc.v2,
                sc.utf16,
            ),
            forall|i: int| 0 <= i < kis@.len() ==> #[trigger] kis@[i].block_offset + kis@[i].comp_size <= blocks_len,
            i <= kis@.len(),
            out@.len() == i,
            forall|k: int| 0 <= k < i ==> out@[k]@.len() == kis@[k].num_entries
                && sizes_chained(#[trigger] out@[k]@) && block_holds(region@, kis@[k], out@[k]@, sc.v2, sc.utf16),
        decreases kis@.len() - i,
    {
        let ki = &kis[i];
        assert(ki.block_offset + ki.comp_size <= blocks_len);
        let start = ki.block_offset as usize;
        let end = start + ki.comp_size as usize;
        let raw = vstd::slice::slice_to_vec(vstd::slice::slice_subrange(region.as_slice(), start, end));
        assert(raw@ == region@.subrange(ki.block_offset as int, ki.block_offset + ki.comp_size));
        let dlen = match to_usize(ki.decomp_size) {
            Ok(x) => x,
            Err(e) => {
                proof {
                    reveal(keyword_block_ok);
                }
                assert(!keyword_block_ok(region@, ki.block_offset as int, ki.comp_size as int, ki.decomp_size as int, ki.num_entries as int, ki.first_word@, ki.last_word@, sc.v2, sc.utf16));
                return Err(e);
            },
        };
        let buf = match decode_block(&raw, dlen, 0) {
            Ok(x) => x,
            Err(e) => {
                proof {
                    reveal(keyword_block_ok);
                }
                assert(!keyword_block_ok(region@, ki.block_offset as int, ki.comp_size as int, ki.decomp_size as int, ki.num_entries as int, ki.first_word@, ki.last_word@, sc.v2, sc.utf16));
                return Err(e);
            },
        };
        if buf.len() > usize::MAX - 8 {
            proof {
                reveal(keyword_block_ok);
            }
            assert(!keyword_block_ok(region@, ki.block_offset as int, ki.comp_size as int, ki.decomp_size as int, ki.num_entries as int, ki.first_word@, ki.last_word@, sc.v2, sc.utf16));
            return Err(MdictError::CorruptBlock);
        }
        let ghost dec = buf@;
        let ks = match parse_keywords(buf, ki.num_entries, sc.v2, sc.utf16) {
            Ok(x) => x,
            Err(e) => {
                proof {
                    reveal(keyword_block_ok);
                }
                assert(!keyword_block_ok(region@, ki.block_offset as int, ki.comp_size as int, ki.decomp_size as int, ki.num_entries as int, ki.first_word@, ki.last_word@, sc.v2, sc.utf16));
                return Err(e);
            },
        };
        let nk = ks.len();
        if nk > 0 {
            proof {
                let w = width(sc.v2) as int;
                let u = unit(sc.utf16) as int;
                let p0 = entry_pos(dec, 0, sc.v2, sc.utf16)->0;
                let k0 = units_before_nul(dec, p0 + w, u)->0;
                lemma_decoded_text(dec.subrange(p0 + w, p0 + w + k0 * u), sc.utf16, ks@[0].key@);
                let pl = entry_pos(dec, nk - 1, sc.v2, sc.utf16)->0;
                let kl = units_before_nul(dec, pl + w, u)->0;
                assert(ks@[nk - 1] == ks@[nk - 1]);
                lemma_decoded_text(dec.subrange(pl + w, pl + w + kl * u), sc.utf16, ks@[nk - 1].key@);
            }
            if ks[0].key != ki.first_word || ks[nk - 1].key != ki.last_word {
                proof {
                    reveal(keyword_block_ok);
                }
                assert(!keyword_block_ok(region@, ki.block_offset as int, ki.comp_size as int, ki.decomp_size as int, ki.num_entries as int, ki.first_word@, ki.last_word@, sc.v2, sc.utf16));
                return Err(MdictError::CorruptIndex);
            }
        }
        assert(block_holds(region@, kis@[i as int], ks@, sc.v2, sc.utf16)) by {
            reveal(block_holds);
        }
        assert(keyword_block_ok(region@, ki.block_offset as int, ki.comp_size as int, ki.decomp_size as int, ki.num_entries as int, ki.first_word@, ki.last_word@, sc.v2, sc.utf16)) by {
            reveal(keyword_block_ok);
        }
        let ghost before = out@;
        out.push(ks);
        assert forall|k: int| 0 <= k < i + 1 implies out@[k]@.len() == kis@[k].num_entries
            && sizes_chained(#[trigger] out@[k]@) && block_holds(region@, kis@[k], out@[k]@, sc.v2, sc.utf16) by {
            if k < i {
                assert(out@[k] == before[k]);
            }
        }
        i += 1;
    }
    Ok(out)
}

/// Reads the record summary: block and entry counts, the record index's
/// length and the record blocks' length. The record blocks start right
/// after the record index.
pub fn read_record_summary(sc: &mut Scanner) -> (r: Result<RecordSummary, MdictError>)
    requires
        old(sc).wf(),
    ensures
        final(sc).wf(),
        final(sc).same_source(old(sc)),
        match r {
            Ok(rs) => {
                let b = old(sc).buf@;
                let p = old(sc).pos as int;
                let w = width(old(sc).v2) as int;
                &&& rs.num_blocks == num_at(b, p, w)
                &&& rs.num_entries == num_at(b, p + w, w)
                &&& rs.index_len == num_at(b, p + 2 * w, w)
                &&& rs.blocks_len == num_at(b, p + 3 * w, w)
                &&& final(sc).pos == p + 4 * w
                &&& rs.blocks_pos == final(sc).pos + rs.index_len
                &&& rs == record_summary_at(b, p, old(sc).v2)
                &&& old(sc).fits(4 * w)
            },
            Err(e) => if old(sc).fits(4 * width(old(sc).v2) as int) {
                e == MdictError::CorruptIndex && old(sc).pos + 4 * width(old(sc).v2) + num_at(
                    old(sc).buf@,
                    old(sc).pos + 2 * width(old(sc).v2),
                    width(old(sc).v2) as int,
                ) > u64::MAX
            } else {
                e == MdictError::TruncatedInput
            },
        },
{
    let ghost b = sc.buf@;
    let ghost p = sc.pos as int;
    let ghost w = width(sc.v2) as int;
    let num_blocks = sc.read_number()?;
    assert(num_blocks == num_at(b, p, w));
    let num_entries = sc.read_number()?;
    assert(num_entries == num_at(b, p + w, w));
    let index_len = sc.read_number()?;
    assert(index_len == num_at(b, p + 2 * w, w));
    let blocks_len = sc.read_number()?;
    assert(blocks_len == num_at(b, p + 3 * w, w));
    let pos = sc.pos as u64;
    if index_len > u64::MAX - pos {
        return Err(MdictError::CorruptIndex);
    }
    Ok(RecordSummary { num_blocks, num_entries, index_len, blocks_len, blocks_pos: pos + index_len })
}

/// The record index at `pos` can be read: it lies inside `b`, its size pairs
/// make a valid index, and its compressed sizes add up to the record blocks'
/// length.
pub open spec fn record_index_ok_at(b: Seq<u8>, pos: int, rs: RecordSummary, v2: bool) -> bool {
    let raw = b.subrange(pos, pos + rs.index_len);
    &&& rs.index_len <= usize::MAX
    &&& pos + rs.index_len <= b.len()
    &&& record_index_ok(raw, rs.num_blocks as int, rs.blocks_pos as int, v2)
    &&& delta_sum(raw, rs.num_blocks as int, 0, width(v2) as int) == rs.blocks_len
}

/// Reads the record index and checks that its compressed sizes add up to
/// the record blocks' length.
pub fn read_record_index(sc: &mut Scanner, rs: &RecordSummary) -> (r: Result<Vec<(u64, u64)>, MdictError>)
    requires
        old(sc).wf(),
    ensures
        final(sc).wf(),
        final(sc).same_source(old(sc)),
        match r {
            Err(e) => {
                &&& !record_index_ok_at(old(sc).buf@, old(sc).pos as int, *rs, old(sc).v2)
                &&& rs.index_len <= usize::MAX && old(sc).fits(rs.index_len as int) && 2 * rs.num_blocks
                    * width(old(sc).v2) <= rs.index_len ==> e == MdictError::CorruptIndex
            },
            Ok(ri) => {
                &&& old(sc).fits(rs.index_len as int)
                &&& record_index_from(old(sc).ahead(rs.index_len as int), ri@, rs.num_blocks as int, rs.blocks_pos, old(sc).v2)
                &&& ri@.last().0 == rs.blocks_pos + rs.blocks_len
                &&& final(sc).pos == old(sc).pos + rs.index_len
                &&& record_index_ok_at(old(sc).buf@, old(sc).pos as int, *rs, old(sc).v2)
            },
        },
{
    let len = to_usize(rs.index_len)?;
    let raw = sc.read(len)?;
    let ri = build_record_index(raw, rs.num_blocks, rs.blocks_pos, sc.v2)?;
    let last = ri[ri.len() - 1].0;
    assert(raw@ == old(sc).ahead(rs.index_len as int));
    if last - rs.blocks_pos != rs.blocks_len {
        return Err(MdictError::CorruptIndex);
    }
    Ok(ri)
}

} // verus!
