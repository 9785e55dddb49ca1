//! The XML header and the attributes it declares.
use vstd::prelude::*;
use vstd::utf8::encode_utf8;
use crate::error::MdictError;
use quick_xml::events::{BytesStart, Event};
use crate::header::XmlEvent::{Invalid, Other};

verus! {

/// One attribute of the header element, as raw bytes.
pub struct Attr {
    pub key: Vec<u8>,
    pub value: Vec<u8>,
}

/// What the header of an MDX/MDD file declares.
#[derive(Debug, Clone, Copy, PartialEq, Eq, Structural)]
pub struct Header {
    /// Engine version 2.0 or later: numbers are 8 bytes wide, else 4.
    pub v2: bool,
    /// Encryption mode, 0 or 2.
    pub encryption: u8,
    /// Text is UTF-16LE; else UTF-8.
    pub utf16: bool,
    /// The declared encoding is neither UTF-16 nor UTF-8 and is read as UTF-8.
    pub unknown_encoding: bool,
}

/// The attributes as (key, value) byte strings.
pub open spec fn attr_views(attrs: Seq<Attr>) -> Seq<(Seq<u8>, Seq<u8>)> {
    Seq::new(attrs.len(), |i: int| (attrs[i].key@, attrs[i].value@))
}

/// The value of the last attribute named `key`.
pub open spec fn attr_value(attrs: Seq<(Seq<u8>, Seq<u8>)>, key: Seq<u8>) -> Option<Seq<u8>>
    decreases attrs.len(),
{
    if attrs.len() == 0 {
        None
    } else if attrs.last().0 == key {
        Some(attrs.last().1)
    } else {
        attr_value(attrs.drop_last(), key)
    }
}

pub open spec fn is_digit(b: u8) -> bool {
    0x30 <= b <= 0x39
}

pub open spec fn all_digits(s: Seq<u8>) -> bool {
    forall|i: int| 0 <= i < s.len() ==> is_digit(s[i])
}

/// Decimal value of a run of digits.
pub open spec fn digits_value(s: Seq<u8>) -> nat
    decreases s.len(),
{
    if s.len() == 0 {
        0
    } else {
        digits_value(s.drop_last()) * 10 + (s.last() - 0x30) as nat
    }
}

/// `v` starts with exactly `n` digits.
pub open spec fn digit_run(v: Seq<u8>, n: nat) -> bool {
    &&& n <= v.len()
    &&& all_digits(v.subrange(0, n as int))
    &&& (n == v.len() || !is_digit(v[n as int]))
}

/// Number of digits that `v` starts with.
pub open spec fn leading_digits(v: Seq<u8>) -> nat {
    choose|n: nat| digit_run(v, n)
}

/// Whether a version text `digits[.digits]` names version 2.0 or later, or
/// `None` where it is not such a text.
pub open spec fn version_flag(v: Seq<u8>) -> Option<bool> {
    let n = leading_digits(v);
    if n > 0 && (n == v.len() || (v[n as int] == 0x2E && all_digits(
        v.subrange(n + 1 as int, v.len() as int),
    ))) {
        Some(digits_value(v.subrange(0, n as int)) >= 2)
    } else {
        None
    }
}

/// `v` is "no" in any letter case.
pub open spec fn is_no(v: Seq<u8>) -> bool {
    v.len() == 2 && (v[0] == 0x6E || v[0] == 0x4E) && (v[1] == 0x6F || v[1] == 0x4F)
}

/// The encryption mode that an `Encrypted` value declares.
pub open spec fn encryption_mode(v: Option<Seq<u8>>) -> Result<u8, MdictError> {
    match v {
        None => Ok(0),
        Some(t) => if is_no(t) {
            Ok(0)
        } else if t.len() == 0 || !all_digits(t) || digits_value(t) > 255 {
            Err(MdictError::MalformedHeader)
        } else if digits_value(t) == 0 {
            Ok(0)
        } else if digits_value(t) == 2 {
            Ok(2)
        } else {
            Err(MdictError::UnsupportedEncryption)
        },
    }
}

pub open spec fn version_key() -> Seq<u8> {
    encode_utf8("GeneratedByEngineVersion"@)
}

pub open spec fn encrypted_key() -> Seq<u8> {
    encode_utf8("Encrypted"@)
}

pub open spec fn encoding_key() -> Seq<u8> {
    encode_utf8("Encoding"@)
}

/// An absent or empty `Encoding`, or "UTF-16", selects UTF-16LE.
pub open spec fn encoding_is_utf16(v: Option<Seq<u8>>) -> bool {
    match v {
        None => true,
        Some(t) => t.len() == 0 || t == encode_utf8("UTF-16"@),
    }
}

/// The header that an attribute bag declares.
pub open spec fn header_of(attrs: Seq<(Seq<u8>, Seq<u8>)>) -> Result<Header, MdictError> {
    match attr_value(attrs, version_key()) {
        None => Err(MdictError::MalformedHeader),
        Some(ver) => match version_flag(ver) {
            None => Err(MdictError::MalformedHeader),
            Some(v2) => match encryption_mode(attr_value(attrs, encrypted_key())) {
                Err(e) => Err(e),
                Ok(encryption) => {
                    let enc = attr_value(attrs, encoding_key());
                    let utf16 = encoding_is_utf16(enc);
                    Ok(Header {
                        v2,
                        encryption,
                        utf16,
                        unknown_encoding: !utf16 && enc != Some(encode_utf8("UTF-8"@)),
                    })
                },
            },
        },
    }
}

/// A run of leading digits has one length.
pub proof fn lemma_digit_run_unique(v: Seq<u8>, n: nat)
    requires
        digit_run(v, n),
    ensures
        leading_digits(v) == n,
{
    let m = leading_digits(v);
    assert(digit_run(v, m));
    if m < n {
        assert(v.subrange(0, n as int)[m as int] == v[m as int]);
    } else if n < m {
        assert(v.subrange(0, m as int)[n as int] == v[n as int]);
    }
}

/// Whether two byte strings are equal.
pub fn bytes_eq(a: &[u8], b: &[u8]) -> (r: bool)
    ensures
        r == (a@ == b@),
{
    if a.len() != b.len() {
        return false;
    }
    let mut i: usize = 0;
    while i < a.len()
        invariant
            a@.len() == b@.len(),
            i <= a@.len(),
            a@.subrange(0, i as int) == b@.subrange(0, i as int),
        decreases a@.len() - i,
    {
        if a[i] != b[i] {
            assert(a@[i as int] != b@[i as int]);
            return false;
        }
        assert(a@.subrange(0, i + 1) =~= a@.subrange(0, i as int).push(a@[i as int]));
        assert(b@.subrange(0, i + 1) =~= b@.subrange(0, i as int).push(b@[i as int]));
        i += 1;
    }
    assert(a@ =~= a@.subrange(0, i as int));
    assert(b@ =~= b@.subrange(0, i as int));
    true
}

/// The value of the last attribute named `key`.
pub fn find_attr<'a>(attrs: &'a Vec<Attr>, key: &[u8]) -> (r: Option<&'a Vec<u8>>)
    ensures
        match r {
            Some(v) => attr_value(attr_views(attrs@), key@) == Some(v@),
            None => attr_value(attr_views(attrs@), key@) is None,
        },
{
    let mut i: usize = attrs.len();
    assert(attrs@.subrange(0, i as int) =~= attrs@);
    while i > 0
        invariant
            i <= attrs@.len(),
            attr_value(attr_views(attrs@), key@) == attr_value(attr_views(attrs@.subrange(0, i as int)), key@),
        decreases i,
    {
        let ghost s = attr_views(attrs@.subrange(0, i as int));
        assert(s.drop_last() =~= attr_views(attrs@.subrange(0, i - 1)));
        if bytes_eq(attrs[i - 1].key.as_slice(), key) {
            return Some(&attrs[i - 1].value);
        }
        i -= 1;
    }
    assert(attr_views(attrs@.subrange(0, 0)) =~= Seq::<(Seq<u8>, Seq<u8>)>::empty());
    None
}

/// Number of leading digits of `v`.
pub fn count_leading_digits(v: &Vec<u8>) -> (r: usize)
    ensures
        r == leading_digits(v@),
        digit_run(v@, r as nat),
{
    let mut i: usize = 0;
    while i < v.len() && v[i] >= 0x30 && v[i] <= 0x39
        invariant
            i <= v@.len(),
            all_digits(v@.subrange(0, i as int)),
        decreases v@.len() - i,
    {
        assert(v@.subrange(0, i + 1) =~= v@.subrange(0, i as int).push(v@[i as int]));
        i += 1;
    }
    proof {
        lemma_digit_run_unique(v@, i as nat);
    }
    i
}

/// Decimal value of the digits `v[start..end]`, capped at `cap`.
pub fn capped_value(v: &Vec<u8>, start: usize, end: usize, cap: u64) -> (r: u64)
    requires
        start <= end <= v@.len(),
        all_digits(v@.subrange(start as int, end as int)),
        cap <= 1000,
    ensures
        r == if digits_value(v@.subrange(start as int, end as int)) < cap {
            digits_value(v@.subrange(start as int, end as int))
        } else {
            cap as nat
        },
{
    let mut acc: u64 = 0;
    let mut i: usize = start;
    while i < end
        invariant
            start <= i <= end <= v@.len(),
            all_digits(v@.subrange(start as int, end as int)),
            cap <= 1000,
            acc == if digits_value(v@.subrange(start as int, i as int)) < cap {
                digits_value(v@.subrange(start as int, i as int))
            } else {
                cap as nat
            },
        decreases end - i,
    {
        let ghost p = v@.subrange(start as int, i as int);
        let ghost q = v@.subrange(start as int, i + 1);
        assert(q.drop_last() =~= p);
        assert(v@.subrange(start as int, end as int)[i - start] == v@[i as int]);
        let d: u64 = (v[i] - 0x30) as u64;
        let next: u64 = acc * 10 + d;
        acc = if next < cap { next } else { cap };
        i += 1;
    }
    acc
}

/// The mode that an `Encrypted` value declares.
pub fn parse_encryption(v: Option<&Vec<u8>>) -> (r: Result<u8, MdictError>)
    ensures
        r == encryption_mode(
            match v {
                Some(t) => Some(t@),
                None => None,
            },
        ),
{
    match v {
        None => Ok(0),
        Some(t) => {
            let len = t.len();
            if len == 2 && (t[0] == 0x6E || t[0] == 0x4E) && (t[1] == 0x6F || t[1] == 0x4F) {
                return Ok(0);
            }
            let n = count_leading_digits(t);
            if len == 0 || n != len {
                if len > 0 {
                    assert(!is_digit(t@[n as int]));
                }
                return Err(MdictError::MalformedHeader);
            }
            assert(t@.subrange(0, len as int) =~= t@);
            let value = capped_value(t, 0, len, 256);
            if value > 255 {
                Err(MdictError::MalformedHeader)
            } else if value == 0 {
                Ok(0)
            } else if value == 2 {
                Ok(2)
            } else {
                Err(MdictError::UnsupportedEncryption)
            }
        },
    }
}

/// Whether a version text names version 2.0 or later.
pub fn parse_version(v: &Vec<u8>) -> (r: Option<bool>)
    ensures
        r == version_flag(v@),
{
    let len = v.len();
    let n = count_leading_digits(v);
    if n == 0 {
        return None;
    }
    if n < len {
        if v[n] != 0x2E {
            return None;
        }
        let m = count_leading_digits_from(v, n + 1);
        if m != len {
            return None;
        }
    }
    let value = capped_value(v, 0, n, 2);
    Some(value >= 2)
}

/// End of the run of digits that starts at `start`.
pub fn count_leading_digits_from(v: &Vec<u8>, start: usize) -> (r: usize)
    requires
        start <= v@.len(),
    ensures
        start <= r <= v@.len(),
        all_digits(v@.subrange(start as int, r as int)),
        r == v@.len() || !is_digit(v@[r as int]),
        (r == v@.len()) == all_digits(v@.subrange(start as int, v@.len() as int)),
{
    let mut i: usize = start;
    while i < v.len() && v[i] >= 0x30 && v[i] <= 0x39
        invariant
            start <= i <= v@.len(),
            all_digits(v@.subrange(start as int, i as int)),
        decreases v@.len() - i,
    {
        assert(v@.subrange(start as int, i + 1) =~= v@.subrange(start as int, i as int).push(v@[i as int]));
        i += 1;
    }
    if i < v.len() {
        assert(v@.subrange(start as int, v@.len() as int)[i - start] == v@[i as int]);
    }
    i
}

impl Header {
    /// Reads the version, the encryption mode and the text encoding from the
    /// header element's attributes.
    pub fn from_attributes(attrs: &Vec<Attr>) -> (r: Result<Header, MdictError>)
        ensures
            r == header_of(attr_views(attrs@)),
    {
        let ver = match find_attr(attrs, "GeneratedByEngineVersion".as_bytes()) {
            Some(v) => v,
            None => return Err(MdictError::MalformedHeader),
        };
        let v2 = match parse_version(ver) {
            Some(b) => b,
            None => return Err(MdictError::MalformedHeader),
        };
        let encryption = parse_encryption(find_attr(attrs, "Encrypted".as_bytes()))?;
        let (utf16, unknown_encoding) = match find_attr(attrs, "Encoding".as_bytes()) {
            None => (true, false),
            Some(t) => {
                let utf16 = t.len() == 0 || bytes_eq(t.as_slice(), "UTF-16".as_bytes());
                (utf16, !utf16 && !bytes_eq(t.as_slice(), "UTF-8".as_bytes()))
            },
        };
        Ok(Header { v2, encryption, utf16, unknown_encoding })
    }
}

#[verifier::external_type_specification]
#[verifier::external_body]
#[verifier::reject_recursive_types(R)]
pub struct ExXmlReader<R>(quick_xml::Reader<R>);

/// One event of an XML reader, as byte strings: an empty element or a start
/// tag with its raw name and raw attributes, the end of the text, any other
/// event, or a syntax error.
pub enum XmlItem {
    Empty(Seq<u8>, Seq<(Seq<u8>, Seq<u8>)>),
    Start(Seq<u8>, Seq<(Seq<u8>, Seq<u8>)>),
    Eof,
    Other,
    Invalid,
}

/// Event number `i` that an XML reader yields on `text`.
pub uninterp spec fn xml_event_at(text: Seq<char>, i: nat) -> XmlItem;

/// An event of an XML reader.
pub enum XmlEvent {
    Empty(Vec<u8>, Vec<Attr>),
    Start(Vec<u8>, Vec<Attr>),
    Eof,
    Other,
    Invalid,
}

impl XmlEvent {
    pub open spec fn item(&self) -> XmlItem {
        match self {
            XmlEvent::Empty(n, a) => XmlItem::Empty(n@, attr_views(a@)),
            XmlEvent::Start(n, a) => XmlItem::Start(n@, attr_views(a@)),
            XmlEvent::Eof => XmlItem::Eof,
            XmlEvent::Other => XmlItem::Other,
            XmlEvent::Invalid => XmlItem::Invalid,
        }
    }
}

/// An XML reader over a text, with the text and the number of events read.
pub struct XmlCursor<'a> {
    reader: quick_xml::Reader<&'a [u8]>,
    text: Ghost<Seq<char>>,
    steps: Ghost<nat>,
}

impl<'a> XmlCursor<'a> {
    pub closed spec fn text(&self) -> Seq<char> {
        self.text@
    }

    pub closed spec fn steps(&self) -> nat {
        self.steps@
    }

    /// A reader at the start of `content`.
    pub fn new(content: &'a str) -> (r: XmlCursor<'a>)
        ensures
            r.text() == content@,
            r.steps() == 0,
    {
        XmlCursor { reader: xml_reader(content), text: Ghost(content@), steps: Ghost(0) }
    }
}

/// Relies on `quick_xml::Reader::from_str`: a reader over the text.
#[verifier::external_body]
fn xml_reader<'a>(content: &'a str) -> quick_xml::Reader<&'a [u8]> {
    quick_xml::Reader::from_str(content)
}

/// Relies on `quick_xml::Reader::read_event` for the next event, and on
/// `BytesStart::name` and `BytesStart::attributes` for an element's raw name
/// and raw attributes: what comes back depends on the text and on how many
/// events were read before.
#[verifier::external_body]
fn xml_next(c: &mut XmlCursor) -> (r: XmlEvent)
    ensures
        final(c).text() == old(c).text(),
        final(c).steps() == old(c).steps() + 1,
        r.item() == xml_event_at(old(c).text(), old(c).steps()),
{
    let attrs = |e: &BytesStart| {
        e.attributes().map(|a| a.ok().map(|a| Attr { key: a.key.as_ref().to_vec(), value: a.value.to_vec() }))
            .collect::<Option<Vec<_>>>()
    };
    match c.reader.read_event() {
        Ok(Event::Empty(e)) => attrs(&e).map_or(Invalid, |v| XmlEvent::Empty(e.name().as_ref().to_vec(), v)),
        Ok(Event::Start(e)) => attrs(&e).map_or(Invalid, |v| XmlEvent::Start(e.name().as_ref().to_vec(), v)),
        Ok(Event::Eof) => XmlEvent::Eof,
        Ok(_) => Other,
        Err(_) => Invalid,
    }
}

/// The header element's name is `Dictionary` or `Library_Data`.
pub open spec fn is_header_name(n: Seq<u8>) -> bool {
    n == encode_utf8("Dictionary"@) || n == encode_utf8("Library_Data"@)
}

/// The attributes of the first header element among the events of `text`
/// from number `i` on, looking at `fuel` events at most.
pub open spec fn scan_header(text: Seq<char>, i: nat, fuel: nat) -> Result<Seq<(Seq<u8>, Seq<u8>)>, MdictError>
    decreases fuel,
{
    if fuel == 0 {
        Err(MdictError::MalformedHeader)
    } else {
        match xml_event_at(text, i) {
            XmlItem::Empty(n, a) => if is_header_name(n) {
                Ok(a)
            } else {
                scan_header(text, i + 1, (fuel - 1) as nat)
            },
            XmlItem::Start(n, a) => if is_header_name(n) {
                Ok(a)
            } else {
                scan_header(text, i + 1, (fuel - 1) as nat)
            },
            XmlItem::Other => scan_header(text, i + 1, (fuel - 1) as nat),
            _ => Err(MdictError::MalformedHeader),
        }
    }
}

/// The attributes of the first element named `Dictionary` or
/// `Library_Data` in the header text; each event takes at least one byte, so
/// as many events as the text has bytes (its length as a `usize`) are looked
/// at.
pub open spec fn first_header_attrs(text: Seq<char>) -> Result<Seq<(Seq<u8>, Seq<u8>)>, MdictError> {
    scan_header(text, 0, (encode_utf8(text).len() as usize) as nat)
}

/// The header that a header text declares.
pub open spec fn header_from_text(text: Seq<char>) -> Result<Header, MdictError> {
    match first_header_attrs(text) {
        Ok(a) => header_of(a),
        Err(e) => Err(e),
    }
}

/// The attributes of the first element named `Dictionary` or
/// `Library_Data` in the header text.
pub fn header_attributes(content: &str) -> (r: Result<Vec<Attr>, MdictError>)
    ensures
        match r {
            Ok(v) => first_header_attrs(content@) == Ok::<Seq<(Seq<u8>, Seq<u8>)>, MdictError>(attr_views(v@)),
            Err(e) => first_header_attrs(content@) == Err::<Seq<(Seq<u8>, Seq<u8>)>, MdictError>(e),
        },
{
    let mut cursor = XmlCursor::new(content);
    let steps: usize = content.len();
    let mut i: usize = 0;
    while i < steps
        invariant
            i <= steps,
            steps == encode_utf8(content@).len() as usize,
            cursor.text() == content@,
            cursor.steps() == i,
            first_header_attrs(content@) == scan_header(content@, i as nat, (steps - i) as nat),
        decreases steps - i,
    {
        match xml_next(&mut cursor) {
            XmlEvent::Empty(name, attrs) => {
                if bytes_eq(name.as_slice(), "Dictionary".as_bytes()) || bytes_eq(
                    name.as_slice(),
                    "Library_Data".as_bytes(),
                ) {
                    return Ok(attrs);
                }
            },
            XmlEvent::Start(name, attrs) => {
                if bytes_eq(name.as_slice(), "Dictionary".as_bytes()) || bytes_eq(
                    name.as_slice(),
                    "Library_Data".as_bytes(),
                ) {
                    return Ok(attrs);
                }
            },
            XmlEvent::Eof => {
                return Err(MdictError::MalformedHeader);
            },
            XmlEvent::Other => {},
            XmlEvent::Invalid => {
                return Err(MdictError::MalformedHeader);
            },
        }
        i += 1;
    }
    Err(MdictError::MalformedHeader)
}

} // verus!
