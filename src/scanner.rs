//! A cursor over bytes that reads numbers and texts in a file's widths and
//! encoding.
use vstd::prelude::*;
use crate::bytes::{be_value, be_to_u64};
use crate::error::MdictError;
use crate::text::{decode_text, text_decodes, text_valid};

verus! {

/// Bytes per number: 8 in version 2 files, 4 in version 1 files.
pub open spec fn width(v2: bool) -> nat {
    if v2 { 8 } else { 4 }
}

/// Bytes per short number (a text length): 2 in version 2, 1 in version 1.
pub open spec fn short_width(v2: bool) -> nat {
    if v2 { 2 } else { 1 }
}

/// Bytes per text code unit.
pub open spec fn unit(utf16: bool) -> nat {
    if utf16 { 2 } else { 1 }
}

/// Padding after a sized text: one code unit in version 2, none in version 1.
pub open spec fn tail_width(v2: bool, utf16: bool) -> nat {
    if v2 { unit(utf16) } else { 0 }
}

/// The code unit at `at` is all zero bytes.
pub open spec fn is_nul_unit(b: Seq<u8>, at: int, u: int) -> bool {
    forall|j: int| at <= j < at + u ==> b[j] == 0
}

/// Number of code units before the first NUL unit at or after `start`, or
/// `None` where no whole NUL unit follows.
pub open spec fn units_before_nul(b: Seq<u8>, start: int, u: int) -> Option<nat>
    decreases b.len() - start,
{
    if u <= 0 || start < 0 || start + u > b.len() {
        None
    } else if is_nul_unit(b, start, u) {
        Some(0)
    } else {
        match units_before_nul(b, start + u, u) {
            Some(k) => Some(k + 1),
            None => None,
        }
    }
}

/// A cursor over a byte buffer that reads the numbers and texts of an
/// MDX/MDD file in its version's widths and its text encoding.
pub struct Scanner {
    pub buf: Vec<u8>,
    pub pos: usize,
    pub v2: bool,
    pub utf16: bool,
    pub text_tail: usize,
}

impl Scanner {
    /// The buffer's length leaves room for the cursor, and the text tail
    /// matches the format.
    pub open spec fn wf(&self) -> bool {
        &&& self.buf@.len() + 8 <= usize::MAX
        &&& self.text_tail == tail_width(self.v2, self.utf16)
    }

    /// The next `n` bytes lie inside the buffer.
    pub open spec fn fits(&self, n: int) -> bool {
        self.pos + n <= self.buf@.len()
    }

    /// The next `n` bytes.
    pub open spec fn ahead(&self, n: int) -> Seq<u8> {
        self.buf@.subrange(self.pos as int, self.pos + n)
    }

    /// Same buffer and format; only the cursor may differ.
    pub open spec fn same_source(&self, o: &Scanner) -> bool {
        &&& self.buf@ == o.buf@
        &&& self.v2 == o.v2
        &&& self.utf16 == o.utf16
        &&& self.text_tail == o.text_tail
    }

    pub fn new(buf: Vec<u8>, v2: bool, utf16: bool) -> (r: Scanner)
        requires
            buf@.len() + 8 <= usize::MAX,
        ensures
            r.wf(),
            r.buf@ == buf@,
            r.pos == 0,
            r.v2 == v2,
            r.utf16 == utf16,
    {
        let mut text_tail: usize = 0;
        if v2 {
            if utf16 {
                text_tail = 2;
            } else {
                text_tail = 1;
            }
        }
        Scanner { buf, pos: 0, v2, utf16, text_tail }
    }

    pub fn seek(&mut self, pos: usize)
        ensures
            final(self).same_source(old(self)),
            final(self).pos == pos,
    {
        self.pos = pos;
    }

    pub fn forward(&mut self, n: usize)
        requires
            old(self).pos + n <= usize::MAX,
        ensures
            final(self).same_source(old(self)),
            final(self).pos == old(self).pos + n,
    {
        self.pos = self.pos + n;
    }

    /// Switches to the number widths and text encoding that a header
    /// declared.
    pub fn set_format(&mut self, v2: bool, utf16: bool)
        requires
            old(self).wf(),
        ensures
            final(self).wf(),
            final(self).buf@ == old(self).buf@,
            final(self).pos == old(self).pos,
            final(self).v2 == v2,
            final(self).utf16 == utf16,
    {
        self.v2 = v2;
        self.utf16 = utf16;
        self.text_tail = if v2 {
            if utf16 {
                2
            } else {
                1
            }
        } else {
            0
        };
    }

    /// Reads a big-endian 32-bit number, whatever the format's width.
    pub fn read_u32(&mut self) -> (r: Result<u32, MdictError>)
        requires
            old(self).wf(),
        ensures
            final(self).wf(),
            final(self).same_source(old(self)),
            match r {
                Ok(v) => old(self).fits(4) && v as nat == be_value(old(self).ahead(4))
                    && final(self).pos == old(self).pos + 4,
                Err(e) => !old(self).fits(4) && e == MdictError::TruncatedInput
                    && final(self).pos == old(self).pos,
            },
    {
        let b = self.read(4)?;
        proof {
            crate::bytes::lemma_be_value_bound(b@);
            reveal_with_fuel(crate::bytes::pow256, 5);
        }
        Ok(be_to_u64(&b) as u32)
    }

    /// Takes the next `n` bytes, or fails with `TruncatedInput` and leaves
    /// the cursor where it was.
    pub fn read(&mut self, n: usize) -> (r: Result<Vec<u8>, MdictError>)
        requires
            old(self).wf(),
        ensures
            final(self).wf(),
            final(self).same_source(old(self)),
            match r {
                Ok(v) => old(self).fits(n as int) && v@ == old(self).ahead(n as int)
                    && final(self).pos == old(self).pos + n,
                Err(e) => !old(self).fits(n as int) && e == MdictError::TruncatedInput
                    && final(self).pos == old(self).pos,
            },
    {
        let len = self.buf.len();
        if self.pos > len || n > len - self.pos {
            return Err(MdictError::TruncatedInput);
        }
        let part = vstd::slice::slice_subrange(self.buf.as_slice(), self.pos, self.pos + n);
        let r = vstd::slice::slice_to_vec(part);
        self.pos = self.pos + n;
        Ok(r)
    }

    /// Reads a big-endian number of the format's width.
    pub fn read_number(&mut self) -> (r: Result<u64, MdictError>)
        requires
            old(self).wf(),
        ensures
            final(self).wf(),
            final(self).same_source(old(self)),
            match r {
                Ok(v) => old(self).fits(width(old(self).v2) as int)
                    && v as nat == be_value(old(self).ahead(width(old(self).v2) as int))
                    && final(self).pos == old(self).pos + width(old(self).v2),
                Err(e) => !old(self).fits(width(old(self).v2) as int)
                    && e == MdictError::TruncatedInput && final(self).pos == old(self).pos,
            },
    {
        let w: usize = if self.v2 { 8 } else { 4 };
        let b = self.read(w)?;
        Ok(be_to_u64(&b))
    }

    /// Reads a big-endian text length: two bytes in version 2, one in
    /// version 1.
    pub fn read_short_number(&mut self) -> (r: Result<u16, MdictError>)
        requires
            old(self).wf(),
        ensures
            final(self).wf(),
            final(self).same_source(old(self)),
            match r {
                Ok(v) => old(self).fits(short_width(old(self).v2) as int)
                    && v as nat == be_value(old(self).ahead(short_width(old(self).v2) as int))
                    && final(self).pos == old(self).pos + short_width(old(self).v2),
                Err(e) => !old(self).fits(short_width(old(self).v2) as int)
                    && e == MdictError::TruncatedInput && final(self).pos == old(self).pos,
            },
    {
        let w: usize = if self.v2 { 2 } else { 1 };
        let b = self.read(w)?;
        proof {
            crate::bytes::lemma_be_value_bound(b@);
            reveal_with_fuel(crate::bytes::pow256, 3);
        }
        Ok(be_to_u64(&b) as u16)
    }

    /// Reads a text of `n` code units, then skips the format's text tail.
    pub fn read_text(&mut self, n: usize) -> (r: Result<String, MdictError>)
        requires
            old(self).wf(),
        ensures
            final(self).wf(),
            final(self).same_source(old(self)),
            ({
                let len = n * unit(old(self).utf16);
                let bytes = old(self).ahead(len as int);
                match r {
                    Ok(s) => old(self).fits(len as int) && text_decodes(bytes, old(self).utf16, s@)
                        && final(self).pos == old(self).pos + len + old(self).text_tail,
                    Err(e) => if old(self).fits(len as int) {
                        e == MdictError::DecodeError && !text_valid(bytes, old(self).utf16)
                            && final(self).pos == old(self).pos + len + old(self).text_tail
                    } else {
                        e == MdictError::TruncatedInput && final(self).pos == old(self).pos
                    },
                }
            }),
    {
        let len: usize = if self.utf16 {
            if n > usize::MAX / 2 {
                return Err(MdictError::TruncatedInput);
            }
            n * 2
        } else {
            n
        };
        let b = self.read(len)?;
        let tail = self.text_tail;
        self.forward(tail);
        decode_text(b, self.utf16)
    }
    /// Reads a NUL-terminated text and consumes the terminator: one zero
    /// byte in UTF-8, one zero code unit in UTF-16.
    pub fn read_text_unsized(&mut self) -> (r: Result<String, MdictError>)
        requires
            old(self).wf(),
        ensures
            final(self).wf(),
            final(self).same_source(old(self)),
            ({
                let u = unit(old(self).utf16) as int;
                match units_before_nul(old(self).buf@, old(self).pos as int, u) {
                    None => r == Err::<String, MdictError>(MdictError::TruncatedInput),
                    Some(k) => {
                        let bytes = old(self).ahead(k * u);
                        match r {
                            Ok(s) => text_decodes(bytes, old(self).utf16, s@)
                                && final(self).pos == old(self).pos + (k + 1) * u,
                            Err(e) => e == MdictError::DecodeError
                                && !text_valid(bytes, old(self).utf16),
                        }
                    },
                }
            }),
    {
        let u: usize = if self.utf16 { 2 } else { 1 };
        let len = self.buf.len();
        let start = self.pos;
        let mut p: usize = start;
        let ghost b = self.buf@;
        loop
            invariant
                self.wf(),
                b == self.buf@,
                len == b.len(),
                start == self.pos,
                u == unit(self.utf16),
                start <= p,
                (p - start) % (u as int) == 0,
                units_before_nul(b, start as int, u as int) == match units_before_nul(b, p as int, u as int) {
                    Some(j) => Some((j + (p - start) / (u as int)) as nat),
                    None => None::<nat>,
                },
            ensures
                self.wf(),
                b == self.buf@,
                start == self.pos,
                start <= p,
                p + u <= len,
                (p - start) % (u as int) == 0,
                units_before_nul(b, start as int, u as int) == Some(((p - start) / (u as int)) as nat),
            decreases len + u - p,
        {
            if p > len || u > len - p {
                return Err(MdictError::TruncatedInput);
            }
            let zero = if u == 2 { self.buf[p] == 0 && self.buf[p + 1] == 0 } else { self.buf[p] == 0 };
            if zero {
                assert(is_nul_unit(b, p as int, u as int));
                assert(units_before_nul(b, p as int, u as int) == Some(0nat));
                break;
            }
            assert(!is_nul_unit(b, p as int, u as int));
            p = p + u;
        }
        let k = (p - start) / u;
        assert(units_before_nul(b, start as int, u as int) == Some(k as nat));
        assert(k * u == p - start) by (nonlinear_arith)
            requires
                (p - start) % (u as int) == 0,
                u == 1 || u == 2,
                k == (p - start) / (u as int),
        ;
        let bytes = self.read(p - start)?;
        self.pos = p + u;
        decode_text(bytes, self.utf16)
    }
}

} // verus!
