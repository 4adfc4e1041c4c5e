//! The header of an archive: a length-prefixed, checksummed declaration in
//! UTF-16 that carries a flat bag of attributes.

use crate::checksum::{adler32, adler32_of};
use crate::error::MDictError;
use crate::outside::{string_from_utf16, utf16_text};
use crate::source::ByteSource;
use crate::text::{le_units, units_from_le, TextEncoding};
use crate::wire::{be_u32_at, le_u32_at, read_be_u32, read_le_u32, Version};
use vstd::prelude::*;
use vstd::slice::slice_subrange;
use vstd::string::StrSliceExecFns;

verus! {

/// Which of the two file variants an archive is.
#[derive(Clone, Copy, PartialEq, Eq, Debug, Structural)]
pub enum MDictMode {
    /// Keyword to text entry.
    Mdx,
    /// Resource path to binary blob.
    Mdd,
}

/// One attribute of the declaration, with entities in the value resolved.
pub struct HeaderAttribute {
    pub name: String,
    pub value: String,
}

/// The decoded header of an archive.
pub struct MDictHeader {
    pub attrs: Vec<HeaderAttribute>,
    pub version: Version,
    pub encoding: TextEncoding,
    pub encrypted: u8,
}

/// The mathematical content of a header.
pub ghost struct HeaderModel {
    pub attrs: Seq<(Seq<char>, Seq<char>)>,
    pub version: Version,
    pub encoding: TextEncoding,
    pub encrypted: u8,
}

/// The name and value pairs of a list of attributes.
pub open spec fn attribute_pairs(attrs: Seq<HeaderAttribute>) -> Seq<(Seq<char>, Seq<char>)> {
    Seq::new(attrs.len(), |i: int| (attrs[i].name@, attrs[i].value@))
}

impl View for MDictHeader {
    type V = HeaderModel;

    open spec fn view(&self) -> HeaderModel {
        HeaderModel {
            attrs: attribute_pairs(self.attrs@),
            version: self.version,
            encoding: self.encoding,
            encrypted: self.encrypted,
        }
    }
}

/// Whether a code unit may stand in an attribute name: an ASCII letter, a
/// digit or an underscore.
pub open spec fn is_name_unit(u: u16) -> bool {
    (0x41 <= u <= 0x5A) || (0x61 <= u <= 0x7A) || (0x30 <= u <= 0x39) || u == 0x5F
}

/// The end of the run of name units that starts at `p`.
pub open spec fn name_end(s: Seq<u16>, p: int) -> int
    decreases s.len() - p,
{
    if 0 <= p < s.len() && is_name_unit(s[p]) {
        name_end(s, p + 1)
    } else {
        p
    }
}

/// The position of the first double quote at or after `p`, or the length of
/// `s` where there is none.
pub open spec fn quote_from(s: Seq<u16>, p: int) -> int
    decreases s.len() - p,
{
    if 0 <= p < s.len() && s[p] != 0x22 {
        quote_from(s, p + 1)
    } else {
        p
    }
}

/// The entity that starts at the ampersand at `p`: the unit it stands for and
/// its width. The five predefined entities of XML are known.
pub open spec fn entity_at(v: Seq<u16>, p: int) -> Option<(u16, int)> {
    let n = v.len() - p;
    if n >= 4 && v[p + 1] == 0x6C && v[p + 2] == 0x74 && v[p + 3] == 0x3B {
        Some((0x3Cu16, 4int))
    } else if n >= 4 && v[p + 1] == 0x67 && v[p + 2] == 0x74 && v[p + 3] == 0x3B {
        Some((0x3Eu16, 4int))
    } else if n >= 5 && v[p + 1] == 0x61 && v[p + 2] == 0x6D && v[p + 3] == 0x70 && v[p + 4]
        == 0x3B {
        Some((0x26u16, 5int))
    } else if n >= 6 && v[p + 1] == 0x71 && v[p + 2] == 0x75 && v[p + 3] == 0x6F && v[p + 4]
        == 0x74 && v[p + 5] == 0x3B {
        Some((0x22u16, 6int))
    } else if n >= 6 && v[p + 1] == 0x61 && v[p + 2] == 0x70 && v[p + 3] == 0x6F && v[p + 4]
        == 0x73 && v[p + 5] == 0x3B {
        Some((0x27u16, 6int))
    } else {
        None
    }
}

/// The units of `v` from `p` on with entities resolved, appended to `acc`.
/// An ampersand that starts no known entity stands for itself.
pub open spec fn unescaped_from(v: Seq<u16>, p: int, acc: Seq<u16>) -> Seq<u16>
    decreases v.len() - p,
{
    if p < 0 || p >= v.len() {
        acc
    } else if v[p] == 0x26 {
        match entity_at(v, p) {
            Some((unit, width)) => unescaped_from(v, p + width, acc.push(unit)),
            None => unescaped_from(v, p + 1, acc.push(v[p])),
        }
    } else {
        unescaped_from(v, p + 1, acc.push(v[p]))
    }
}

/// An attribute value with the entities `&lt;` `&gt;` `&amp;` `&quot;` `&apos;` resolved.
pub open spec fn unescaped(v: Seq<u16>) -> Seq<u16> {
    unescaped_from(v, 0, Seq::empty())
}

/// The attributes that the declaration holds from `p` on, appended to `acc`.
///
/// A name is a maximal run of name units. Where `="` follows it, the units up
/// to the next double quote are its value; any other name, and any unit that
/// cannot stand in a name, is passed over. `None` where a value lacks its
/// closing quote, or a name or value is not well-formed UTF-16.
pub open spec fn attributes_from(s: Seq<u16>, p: int, acc: Seq<(Seq<char>, Seq<char>)>) -> Option<
    Seq<(Seq<char>, Seq<char>)>,
>
    decreases s.len() - p,
{
    if p < 0 || p >= s.len() {
        Some(acc)
    } else if !is_name_unit(s[p]) {
        attributes_from(s, p + 1, acc)
    } else {
        let e = name_end(s, p);
        if e <= p || e > s.len() {
            None
        } else if e + 1 < s.len() && s[e] == 0x3D && s[e + 1] == 0x22 {
            let q = quote_from(s, e + 2);
            if q >= s.len() || q < e + 2 {
                None
            } else {
                match (utf16_text(s.subrange(p, e)), utf16_text(unescaped(s.subrange(e + 2, q)))) {
                    (Some(name), Some(value)) => attributes_from(
                        s,
                        q + 1,
                        acc.push((name, value)),
                    ),
                    _ => None,
                }
            }
        } else {
            attributes_from(s, e, acc)
        }
    }
}

/// A run of name units ends at or after its start and inside the sequence;
/// it is not empty where the first unit is a name unit.
pub proof fn lemma_name_end_bounds(s: Seq<u16>, p: int)
    requires
        0 <= p <= s.len(),
    ensures
        p <= name_end(s, p) <= s.len(),
        p < s.len() && is_name_unit(s[p]) ==> p < name_end(s, p),
    decreases s.len() - p,
{
    if p < s.len() && is_name_unit(s[p]) {
        lemma_name_end_bounds(s, p + 1);
    }
}

/// The attributes of a declaration.
pub open spec fn attributes_of(s: Seq<u16>) -> Option<Seq<(Seq<char>, Seq<char>)>> {
    attributes_from(s, 0, Seq::empty())
}

/// The value of the first attribute called `name`, if there is one.
pub open spec fn attribute_value(attrs: Seq<(Seq<char>, Seq<char>)>, name: Seq<char>) -> Option<
    Seq<char>,
>
    decreases attrs.len(),
{
    if attrs.len() == 0 {
        None
    } else if attrs[0].0 == name {
        Some(attrs[0].1)
    } else {
        attribute_value(attrs.drop_first(), name)
    }
}

/// Whether a character is an ASCII digit.
pub open spec fn is_digit(c: char) -> bool {
    '0' <= c <= '9'
}

/// The end of the run of digits that starts at `p`.
pub open spec fn digits_end(v: Seq<char>, p: int) -> int
    decreases v.len() - p,
{
    if 0 <= p < v.len() && is_digit(v[p]) {
        digits_end(v, p + 1)
    } else {
        p
    }
}

/// The decimal number that the digits of `v` in `[p, end)` spell after `acc`.
pub open spec fn decimal_from(v: Seq<char>, p: int, end: int, acc: nat) -> nat
    decreases end - p,
{
    if 0 <= p < end <= v.len() {
        decimal_from(v, p + 1, end, acc * 10 + ((v[p] as u32 - '0' as u32) as nat))
    } else {
        acc
    }
}

/// The number that the leading digits of `v` spell; zero where there are none.
pub open spec fn leading_number(v: Seq<char>) -> nat {
    decimal_from(v, 0, digits_end(v, 0), 0)
}

/// The layout that an engine version selects: the digits before the first
/// other character are the major version; below 2 the layout is `V1`, from 2
/// on it is `V2`. `None` where the value does not start with a digit.
pub open spec fn version_of(value: Seq<char>) -> Option<Version> {
    if digits_end(value, 0) == 0 {
        None
    } else if leading_number(value) < 2 {
        Some(Version::V1)
    } else {
        Some(Version::V2)
    }
}

/// The encryption flags that the `Encrypted` attribute gives: nothing, the
/// empty value and `No` are 0, `Yes` is 1, a decimal number below 256 is
/// itself. `None` for any other value.
pub open spec fn flags_of(value: Option<Seq<char>>) -> Option<u8> {
    match value {
        None => Some(0u8),
        Some(v) => if v.len() == 0 || v == "No"@ {
            Some(0u8)
        } else if v == "Yes"@ {
            Some(1u8)
        } else if digits_end(v, 0) == v.len() && leading_number(v) < 256 {
            Some(leading_number(v) as u8)
        } else {
            None
        },
    }
}

/// An ASCII capital letter as its small letter; any other character as itself.
pub open spec fn ascii_lower(c: char) -> char {
    if 'A' <= c <= 'Z' {
        ((c as u8 + 32) as u8) as char
    } else {
        c
    }
}

/// Whether two texts are equal up to the case of ASCII letters.
pub open spec fn same_ignoring_case(a: Seq<char>, b: Seq<char>) -> bool {
    a.len() == b.len() && forall|i: int|
        0 <= i < a.len() ==> ascii_lower(#[trigger] a[i]) == ascii_lower(b[i])
}

/// The encoding that the `Encoding` attribute names, ignoring case: `UTF-8`,
/// `UTF-16`, `GBK`, `BIG5` or `GB18030`. Nothing and the empty value mean
/// UTF-8. `None` for any other value.
pub open spec fn encoding_of(value: Option<Seq<char>>) -> Option<TextEncoding> {
    match value {
        None => Some(TextEncoding::Utf8),
        Some(v) => if v.len() == 0 || same_ignoring_case(v, "UTF-8"@) {
            Some(TextEncoding::Utf8)
        } else if same_ignoring_case(v, "UTF-16"@) {
            Some(TextEncoding::Utf16Le)
        } else if same_ignoring_case(v, "GBK"@) {
            Some(TextEncoding::Gbk)
        } else if same_ignoring_case(v, "BIG5"@) {
            Some(TextEncoding::Big5)
        } else if same_ignoring_case(v, "GB18030"@) {
            Some(TextEncoding::Gb18030)
        } else {
            None
        },
    }
}

/// The header that a bag of attributes describes.
///
/// `InvalidFormat` where `GeneratedByEngineVersion` is missing or does not
/// start with a digit, or `Encrypted` or `Encoding` holds an unknown value;
/// `Unsupported` where bit 1 of the encryption flags is set (encrypted
/// record data). An `.mdd` archive is UTF-16 whatever it declares.
pub open spec fn header_from_attributes(attrs: Seq<(Seq<char>, Seq<char>)>, mode: MDictMode)
    -> Result<HeaderModel, MDictError> {
    match attribute_value(attrs, "GeneratedByEngineVersion"@) {
        None => Err(MDictError::InvalidFormat),
        Some(v) => match version_of(v) {
            None => Err(MDictError::InvalidFormat),
            Some(version) => match flags_of(attribute_value(attrs, "Encrypted"@)) {
                None => Err(MDictError::InvalidFormat),
                Some(flags) => if flags & 2u8 != 0u8 {
                    Err(MDictError::Unsupported)
                } else {
                    match encoding_of(attribute_value(attrs, "Encoding"@)) {
                        None => Err(MDictError::InvalidFormat),
                        Some(declared) => Ok(
                            HeaderModel {
                                attrs,
                                version,
                                encoding: if mode == MDictMode::Mdd {
                                    TextEncoding::Utf16Le
                                } else {
                                    declared
                                },
                                encrypted: flags,
                            },
                        ),
                    }
                },
            },
        },
    }
}

/// The header that a declaration holds. The declaration is UTF-16LE and ends
/// in a NUL unit; anything else is `InvalidFormat`.
pub open spec fn header_of_declaration(declaration: Seq<u8>, mode: MDictMode) -> Result<
    HeaderModel,
    MDictError,
> {
    if declaration.len() % 2 != 0 || declaration.len() < 2 || le_units(declaration).last() != 0 {
        Err(MDictError::InvalidFormat)
    } else {
        match attributes_of(le_units(declaration).drop_last()) {
            None => Err(MDictError::InvalidFormat),
            Some(attrs) => header_from_attributes(attrs, mode),
        }
    }
}

/// The header at the start of an archive and the offset of the first byte
/// after it.
///
/// The archive starts with a big-endian length `L` in four bytes, then `L`
/// bytes of declaration, then the little-endian ADLER-32 of the declaration
/// in four bytes. `Io` where the archive ends before that; `InvalidFormat`
/// where the checksum differs.
pub open spec fn parsed_header(archive: Seq<u8>, mode: MDictMode) -> Result<
    (HeaderModel, nat),
    MDictError,
> {
    if archive.len() < 4 || 8 + be_u32_at(archive, 0) > archive.len() {
        Err(MDictError::Io)
    } else {
        let length = be_u32_at(archive, 0);
        let declaration = archive.subrange(4, 4 + length as int);
        if le_u32_at(archive, 4 + length as int) != adler32_of(declaration) {
            Err(MDictError::InvalidFormat)
        } else {
            match header_of_declaration(declaration, mode) {
                Ok(header) => Ok((header, 8 + length)),
                Err(e) => Err(e),
            }
        }
    }
}

/// Tells whether a code unit may stand in an attribute name.
pub fn name_unit(u: u16) -> (yes: bool)
    ensures
        yes == is_name_unit(u),
{
    (0x41 <= u && u <= 0x5A) || (0x61 <= u && u <= 0x7A) || (0x30 <= u && u <= 0x39) || u == 0x5F
}

/// Recognises the entity that starts at the ampersand at `p`.
pub fn read_entity(v: &[u16], p: usize) -> (r: Option<(u16, usize)>)
    ensures
        match entity_at(v@, p as int) {
            Some((unit, width)) => r == Some((unit, width as usize)) && p + width <= v@.len(),
            None => r.is_none(),
        },
{
    if p >= v.len() {
        return None;
    }
    let n: usize = v.len() - p;
    if n >= 4 && v[p + 1] == 0x6C && v[p + 2] == 0x74 && v[p + 3] == 0x3B {
        Some((0x3Cu16, 4usize))
    } else if n >= 4 && v[p + 1] == 0x67 && v[p + 2] == 0x74 && v[p + 3] == 0x3B {
        Some((0x3Eu16, 4usize))
    } else if n >= 5 && v[p + 1] == 0x61 && v[p + 2] == 0x6D && v[p + 3] == 0x70 && v[p + 4]
        == 0x3B {
        Some((0x26u16, 5usize))
    } else if n >= 6 && v[p + 1] == 0x71 && v[p + 2] == 0x75 && v[p + 3] == 0x6F && v[p + 4]
        == 0x74 && v[p + 5] == 0x3B {
        Some((0x22u16, 6usize))
    } else if n >= 6 && v[p + 1] == 0x61 && v[p + 2] == 0x70 && v[p + 3] == 0x6F && v[p + 4]
        == 0x73 && v[p + 5] == 0x3B {
        Some((0x27u16, 6usize))
    } else {
        None
    }
}

/// Resolves the entities in an attribute value.
pub fn unescape(v: &[u16]) -> (out: Vec<u16>)
    ensures
        out@ == unescaped(v@),
{
    let mut out: Vec<u16> = Vec::new();
    let mut p: usize = 0;
    while p < v.len()
        invariant
            p <= v@.len(),
            unescaped(v@) == unescaped_from(v@, p as int, out@),
        decreases v@.len() - p,
    {
        if v[p] == 0x26 {
            match read_entity(v, p) {
                Some((unit, width)) => {
                    out.push(unit);
                    p = p + width;
                },
                None => {
                    out.push(v[p]);
                    p = p + 1;
                },
            }
        } else {
            out.push(v[p]);
            p = p + 1;
        }
    }
    out
}

/// Finds the end of the run of name units that starts at `p`.
pub fn scan_name(s: &[u16], p: usize) -> (e: usize)
    ensures
        e == name_end(s@, p as int),
        p <= s@.len() ==> p <= e <= s@.len(),
{
    if p > s.len() {
        return p;
    }
    let mut e: usize = p;
    while e < s.len() && name_unit(s[e])
        invariant
            p <= e <= s@.len(),
            name_end(s@, p as int) == name_end(s@, e as int),
        decreases s@.len() - e,
    {
        e = e + 1;
    }
    e
}

/// Finds the first double quote at or after `p`.
pub fn scan_quote(s: &[u16], p: usize) -> (q: usize)
    ensures
        q == quote_from(s@, p as int),
        p <= s@.len() ==> p <= q <= s@.len(),
{
    if p > s.len() {
        return p;
    }
    let mut q: usize = p;
    while q < s.len() && s[q] != 0x22
        invariant
            p <= q <= s@.len(),
            quote_from(s@, p as int) == quote_from(s@, q as int),
        decreases s@.len() - q,
    {
        q = q + 1;
    }
    q
}

/// Splits a declaration into its attributes.
pub fn parse_attributes(s: &[u16]) -> (r: Option<Vec<HeaderAttribute>>)
    ensures
        match attributes_of(s@) {
            Some(attrs) => r matches Some(v) && attribute_pairs(v@) == attrs,
            None => r.is_none(),
        },
{
    let mut out: Vec<HeaderAttribute> = Vec::new();
    let mut p: usize = 0;
    proof {
        assert(attribute_pairs(out@) =~= Seq::empty());
    }
    while p < s.len()
        invariant
            p <= s@.len(),
            attributes_of(s@) == attributes_from(s@, p as int, attribute_pairs(out@)),
        decreases s@.len() - p,
    {
        if !name_unit(s[p]) {
            p = p + 1;
        } else {
            let e = scan_name(s, p);
            proof {
                lemma_name_end_bounds(s@, p as int);
            }
            if e < s.len() - 1 && s[e] == 0x3D && s[e + 1] == 0x22 {
                let q = scan_quote(s, e + 2);
                if q >= s.len() {
                    return None;
                }
                let name = string_from_utf16(slice_subrange(s, p, e));
                let raw = unescape(slice_subrange(s, e + 2, q));
                let value = string_from_utf16(raw.as_slice());
                match (name, value) {
                    (Some(name), Some(value)) => {
                        let ghost before = attribute_pairs(out@);
                        out.push(HeaderAttribute { name, value });
                        proof {
                            assert(attribute_pairs(out@) =~= before.push((name@, value@)));
                        }
                        p = q + 1;
                    },
                    _ => {
                        return None;
                    },
                }
            } else {
                p = e;
            }
        }
    }
    Some(out)
}

/// Finds the value of the first attribute called `name`.
pub fn find_attribute<'a>(attrs: &'a Vec<HeaderAttribute>, name: &str) -> (r: Option<&'a String>)
    ensures
        match attribute_value(attribute_pairs(attrs@), name@) {
            Some(value) => r matches Some(s) && s@ == value,
            None => r.is_none(),
        },
{
    let ghost pairs = attribute_pairs(attrs@);
    let wanted: String = name.to_owned();
    let mut i: usize = 0;
    proof {
        assert(pairs.skip(0) =~= pairs);
    }
    while i < attrs.len()
        invariant
            i <= attrs@.len(),
            pairs == attribute_pairs(attrs@),
            wanted@ == name@,
            attribute_value(pairs, name@) == attribute_value(pairs.skip(i as int), name@),
        decreases attrs@.len() - i,
    {
        proof {
            assert(pairs.skip(i as int).drop_first() =~= pairs.skip(i + 1));
            assert(pairs.skip(i as int)[0] == pairs[i as int]);
        }
        if attrs[i].name == wanted {
            return Some(&attrs[i].value);
        }
        i = i + 1;
    }
    None
}

/// Reads the digits at the start of `value`: where they end, and the number
/// they spell, capped at `cap`.
pub fn leading_decimal(value: &str, cap: u32) -> (r: (usize, u64))
    ensures
        r.0 == digits_end(value@, 0),
        r.1 == if leading_number(value@) < cap {
            leading_number(value@) as u64
        } else {
            cap as u64
        },
{
    let len: usize = value.unicode_len();
    let mut end: usize = 0;
    while end < len && is_digit_char(value.get_char(end))
        invariant
            len == value@.len(),
            end <= len,
            digits_end(value@, 0) == digits_end(value@, end as int),
            forall|k: int| 0 <= k < end ==> is_digit(value@[k]),
        decreases len - end,
    {
        end = end + 1;
    }
    let mut p: usize = 0;
    let mut capped: u64 = 0;
    let ghost mut acc: nat = 0;
    while p < end
        invariant
            len == value@.len(),
            p <= end <= len,
            forall|k: int| 0 <= k < end ==> is_digit(value@[k]),
            decimal_from(value@, 0, end as int, 0) == decimal_from(value@, p as int, end as int, acc),
            capped == if acc < cap {
                acc as u64
            } else {
                cap as u64
            },
        decreases end - p,
    {
        let c: char = value.get_char(p);
        let digit: u64 = (c as u32 - '0' as u32) as u64;
        proof {
            acc = acc * 10 + digit as nat;
        }
        let next: u64 = capped * 10 + digit;
        capped = if next < cap as u64 {
            next
        } else {
            cap as u64
        };
        p = p + 1;
    }
    (end, capped)
}

/// Tells whether a character is an ASCII digit.
pub fn is_digit_char(c: char) -> (yes: bool)
    ensures
        yes == is_digit(c),
{
    '0' <= c && c <= '9'
}

/// Selects the layout from the value of `GeneratedByEngineVersion`.
pub fn parse_version(value: &str) -> (r: Option<Version>)
    ensures
        r == version_of(value@),
{
    let (end, major) = leading_decimal(value, 2);
    if end == 0 {
        None
    } else if major < 2 {
        Some(Version::V1)
    } else {
        Some(Version::V2)
    }
}

/// Tells whether two strings hold the same characters.
pub fn same_text(a: &str, b: &str) -> (yes: bool)
    ensures
        yes == (a@ == b@),
{
    let left: String = a.to_owned();
    let right: String = b.to_owned();
    left == right
}

/// Reads the encryption flags from the value of `Encrypted`.
pub fn parse_flags(value: Option<&String>) -> (r: Option<u8>)
    ensures
        r == flags_of(
            match value {
                Some(s) => Some(s@),
                None => None,
            },
        ),
{
    match value {
        None => Some(0u8),
        Some(s) => {
            let v: &str = s.as_str();
            if v.unicode_len() == 0 || same_text(v, "No") {
                Some(0u8)
            } else if same_text(v, "Yes") {
                Some(1u8)
            } else {
                let (end, number) = leading_decimal(v, 256);
                if end == v.unicode_len() && number < 256 {
                    Some(number as u8)
                } else {
                    None
                }
            }
        },
    }
}

/// Turns an ASCII capital letter into its small letter.
pub fn lower_char(c: char) -> (l: char)
    ensures
        l == ascii_lower(c),
{
    if 'A' <= c && c <= 'Z' {
        ((c as u8 + 32u8) as u8) as char
    } else {
        c
    }
}

/// Tells whether two strings are equal up to the case of ASCII letters.
pub fn eq_ignoring_case(a: &str, b: &str) -> (yes: bool)
    ensures
        yes == same_ignoring_case(a@, b@),
{
    let n: usize = a.unicode_len();
    if n != b.unicode_len() {
        return false;
    }
    let mut i: usize = 0;
    while i < n
        invariant
            n == a@.len(),
            n == b@.len(),
            i <= n,
            forall|k: int| 0 <= k < i ==> ascii_lower(#[trigger] a@[k]) == ascii_lower(b@[k]),
        decreases n - i,
    {
        if lower_char(a.get_char(i)) != lower_char(b.get_char(i)) {
            return false;
        }
        i = i + 1;
    }
    true
}

/// Selects the text encoding from the value of `Encoding`.
pub fn parse_encoding(value: Option<&String>) -> (r: Option<TextEncoding>)
    ensures
        r == encoding_of(
            match value {
                Some(s) => Some(s@),
                None => None,
            },
        ),
{
    match value {
        None => Some(TextEncoding::Utf8),
        Some(s) => {
            let v: &str = s.as_str();
            if v.unicode_len() == 0 || eq_ignoring_case(v, "UTF-8") {
                Some(TextEncoding::Utf8)
            } else if eq_ignoring_case(v, "UTF-16") {
                Some(TextEncoding::Utf16Le)
            } else if eq_ignoring_case(v, "GBK") {
                Some(TextEncoding::Gbk)
            } else if eq_ignoring_case(v, "BIG5") {
                Some(TextEncoding::Big5)
            } else if eq_ignoring_case(v, "GB18030") {
                Some(TextEncoding::Gb18030)
            } else {
                None
            }
        },
    }
}

/// Interprets a bag of attributes as a header.
pub fn header_from(attrs: Vec<HeaderAttribute>, mode: MDictMode) -> (r: Result<
    MDictHeader,
    MDictError,
>)
    ensures
        match header_from_attributes(attribute_pairs(attrs@), mode) {
            Ok(model) => r matches Ok(h) && h@ == model,
            Err(e) => r matches Err(e2) && e2 == e,
        },
{
    let version = match find_attribute(&attrs, "GeneratedByEngineVersion") {
        None => {
            return Err(MDictError::InvalidFormat);
        },
        Some(v) => match parse_version(v.as_str()) {
            None => {
                return Err(MDictError::InvalidFormat);
            },
            Some(version) => version,
        },
    };
    let flags: u8 = match parse_flags(find_attribute(&attrs, "Encrypted")) {
        None => {
            return Err(MDictError::InvalidFormat);
        },
        Some(flags) => flags,
    };
    if flags & 2u8 != 0u8 {
        return Err(MDictError::Unsupported);
    }
    let declared = match parse_encoding(find_attribute(&attrs, "Encoding")) {
        None => {
            return Err(MDictError::InvalidFormat);
        },
        Some(declared) => declared,
    };
    let encoding = match mode {
        MDictMode::Mdd => TextEncoding::Utf16Le,
        MDictMode::Mdx => declared,
    };
    Ok(MDictHeader { attrs, version, encoding, encrypted: flags })
}

/// Decodes a declaration into a header.
pub fn decode_declaration(declaration: &[u8], mode: MDictMode) -> (r: Result<
    MDictHeader,
    MDictError,
>)
    ensures
        match header_of_declaration(declaration@, mode) {
            Ok(model) => r matches Ok(h) && h@ == model,
            Err(e) => r matches Err(e2) && e2 == e,
        },
{
    if declaration.len() % 2 != 0 || declaration.len() < 2 {
        return Err(MDictError::InvalidFormat);
    }
    let units = units_from_le(declaration);
    let count: usize = units.len();
    if units[count - 1] != 0 {
        return Err(MDictError::InvalidFormat);
    }
    let body = slice_subrange(units.as_slice(), 0, count - 1);
    proof {
        assert(body@ =~= le_units(declaration@).drop_last());
    }
    match parse_attributes(body) {
        None => Err(MDictError::InvalidFormat),
        Some(attrs) => header_from(attrs, mode),
    }
}

/// Reads and decodes the header at the start of an archive. Returns the
/// header and the offset of the first byte after it.
pub fn parse_header(source: &ByteSource, mode: MDictMode) -> (r: Result<
    (MDictHeader, u64),
    MDictError,
>)
    ensures
        match parsed_header(source@, mode) {
            Ok((model, end)) => r matches Ok((h, offset)) && h@ == model && offset == end,
            Err(e) => r matches Err(e2) && e2 == e,
        },
{
    let prefix = match source.read_exact_at(0, 4) {
        Ok(bytes) => bytes,
        Err(e) => {
            return Err(e);
        },
    };
    let length: u64 = match read_be_u32(prefix, 0) {
        Some(v) => v as u64,
        None => 0,
    };
    let declaration = match source.read_exact_at(4, length) {
        Ok(bytes) => bytes,
        Err(e) => {
            return Err(e);
        },
    };
    let trailer = match source.read_exact_at(4 + length, 4) {
        Ok(bytes) => bytes,
        Err(e) => {
            return Err(e);
        },
    };
    let stored: u32 = match read_le_u32(trailer, 0) {
        Some(v) => v,
        None => 0,
    };
    if stored != adler32(declaration) {
        return Err(MDictError::InvalidFormat);
    }
    match decode_declaration(declaration, mode) {
        Ok(header) => Ok((header, 8 + length)),
        Err(e) => Err(e),
    }
}

impl MDictHeader {
    /// The value of the first attribute called `name`, if the declaration
    /// holds one.
    pub fn attribute(&self, name: &str) -> (r: Option<&String>)
        ensures
            match attribute_value(self@.attrs, name@) {
                Some(value) => r matches Some(s) && s@ == value,
                None => r.is_none(),
            },
    {
        find_attribute(&self.attrs, name)
    }

    /// The display label of the dictionary: the `Title` attribute, carried
    /// through as written.
    pub fn title(&self) -> (r: Option<&String>)
        ensures
            match attribute_value(self@.attrs, "Title"@) {
                Some(value) => r matches Some(s) && s@ == value,
                None => r.is_none(),
            },
    {
        find_attribute(&self.attrs, "Title")
    }

    /// Whether the keyword-block index table is encrypted: bit 0 of the flags.
    pub fn index_encrypted(&self) -> (yes: bool)
        ensures
            yes == (self.encrypted & 1u8 != 0u8),
    {
        self.encrypted & 1u8 != 0u8
    }
}

} // verus!
