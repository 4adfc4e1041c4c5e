//! The calls that leave this crate. Nothing in this file is proved: each
//! contract states what the called function is documented to do, and the rest
//! of the library is verified against these statements.

use crate::archive::string_views;
use crate::present::matches_view;
use patricia_tree::GenericPatriciaMap;
use ripemd::Digest;
use std::io::Read;
use vstd::prelude::*;
use vstd::utf8::{decode_utf8, valid_utf8};

verus! {

/// The prefix tree of `patricia_tree`, opaque to the verifier.
#[verifier::external_type_specification]
#[verifier::external_body]
#[verifier::reject_recursive_types(K)]
#[verifier::reject_recursive_types(V)]
pub struct ExGenericPatriciaMap<K, V>(GenericPatriciaMap<K, V>);

/// What a zlib stream inflates to, or `None` where the stream is malformed.
pub uninterp spec fn zlib_inflated(data: Seq<u8>) -> Option<Seq<u8>>;

/// What an LZO1X stream expands to when exactly `size` bytes are expected, or
/// `None` where the stream is malformed or expands to another length.
pub uninterp spec fn lzo1x_expanded(data: Seq<u8>, size: nat) -> Option<Seq<u8>>;

/// The RIPEMD-128 digest of a message.
pub uninterp spec fn ripemd128_digest(message: Seq<u8>) -> Seq<u8>;

/// The text that UTF-16 code units stand for, or `None` where a surrogate is unpaired.
pub uninterp spec fn utf16_text(units: Seq<u16>) -> Option<Seq<char>>;

/// The text that GBK bytes stand for, or `None` where a sequence is malformed.
pub uninterp spec fn gbk_text(bytes: Seq<u8>) -> Option<Seq<char>>;

/// The text that Big5 bytes stand for, or `None` where a sequence is malformed.
pub uninterp spec fn big5_text(bytes: Seq<u8>) -> Option<Seq<char>>;

/// The text that GB18030 bytes stand for, or `None` where a sequence is malformed.
pub uninterp spec fn gb18030_text(bytes: Seq<u8>) -> Option<Seq<char>>;

/// The key-to-slot bindings that a prefix tree holds.
pub uninterp spec fn tree_entries(tree: GenericPatriciaMap<Vec<u8>, usize>) -> Map<Seq<u8>, usize>;

/// The parts of a text between the matches of a regular expression, in
/// order, or `None` where the pattern is no regular expression.
pub uninterp spec fn regex_gaps(pattern: Seq<char>, text: Seq<char>) -> Option<Seq<Seq<char>>>;

/// The matches of a regular expression in a text, in order, each with the
/// text of its groups (the whole match first; `None` for a group that took
/// no part), or `None` where the pattern is no regular expression.
pub uninterp spec fn regex_groups(pattern: Seq<char>, text: Seq<char>) -> Option<
    Seq<Seq<Option<Seq<char>>>>,
>;

/// The bytes of an optional buffer.
pub open spec fn bytes_of(buffer: Option<Vec<u8>>) -> Option<Seq<u8>> {
    match buffer {
        Some(v) => Some(v@),
        None => None,
    }
}

/// The characters of an optional string.
pub open spec fn chars_of(text: Option<String>) -> Option<Seq<char>> {
    match text {
        Some(s) => Some(s@),
        None => None,
    }
}

/// Whether `a` comes before `b` in the lexicographic order of byte strings.
pub open spec fn bytes_before(a: Seq<u8>, b: Seq<u8>) -> bool {
    exists|n: int|
        0 <= n <= a.len() && n <= b.len() && a.take(n) == b.take(n) && (if n == a.len() {
            n < b.len()
        } else {
            n < b.len() && a[n] < b[n]
        })
}

/// The byte strings of a list of buffers.
pub open spec fn key_list(keys: Vec<Vec<u8>>) -> Seq<Seq<u8>> {
    Seq::new(keys@.len(), |i: int| keys@[i]@)
}

/// `flate2::read::ZlibDecoder` read to its end: the inflated stream, or `None`
/// where the decoder reports an error.
#[verifier::external_body]
pub(crate) fn inflate_zlib(data: &[u8]) -> (out: Option<Vec<u8>>)
    ensures
        bytes_of(out) == zlib_inflated(data@),
{
    let mut decoder = flate2::read::ZlibDecoder::new(data);
    let mut out: Vec<u8> = Vec::new();
    match decoder.read_to_end(&mut out) {
        Ok(_) => Some(out),
        Err(_) => None,
    }
}

/// `lzo1x::decompress` into a buffer of `size` bytes: the filled buffer, or
/// `None` where the stream is invalid or does not fill the buffer exactly.
#[verifier::external_body]
pub(crate) fn expand_lzo1x(data: &[u8], size: usize) -> (out: Option<Vec<u8>>)
    requires
        size <= usize::MAX / 2,
    ensures
        bytes_of(out) == lzo1x_expanded(data@, size as nat),
        out matches Some(v) ==> v@.len() == size,
{
    let mut out: Vec<u8> = vec![0u8; size];
    match lzo1x::decompress(data, &mut out) {
        Ok(()) => Some(out),
        Err(_) => None,
    }
}

/// `ripemd::Ripemd128::digest`: the sixteen bytes of the digest.
#[verifier::external_body]
pub(crate) fn ripemd128(message: &[u8]) -> (digest: Vec<u8>)
    ensures
        digest@ == ripemd128_digest(message@),
        digest@.len() == 16,
{
    ripemd::Ripemd128::digest(message).to_vec()
}

/// `std::str::from_utf8`: the bytes as a string slice exactly where they are
/// valid UTF-8.
#[verifier::external_body]
pub(crate) fn str_from_utf8<'a>(bytes: &'a [u8]) -> (text: Option<&'a str>)
    ensures
        text.is_some() == valid_utf8(bytes@),
        text matches Some(s) ==> s@ == decode_utf8(bytes@),
{
    std::str::from_utf8(bytes).ok()
}

/// `String::from_utf16`: the decoded string, or `None` where the units hold an
/// unpaired surrogate.
#[verifier::external_body]
pub(crate) fn string_from_utf16(units: &[u16]) -> (text: Option<String>)
    ensures
        chars_of(text) == utf16_text(units@),
{
    String::from_utf16(units).ok()
}

/// `encoding_rs::GBK` decoding without BOM handling and without replacement.
/// The bound keeps the decoder's buffer size computation from overflowing.
#[verifier::external_body]
pub(crate) fn decode_gbk(bytes: &[u8]) -> (text: Option<String>)
    requires
        bytes@.len() <= usize::MAX / 8,
    ensures
        chars_of(text) == gbk_text(bytes@),
{
    match encoding_rs::GBK.decode_without_bom_handling_and_without_replacement(bytes) {
        Some(s) => Some(s.into_owned()),
        None => None,
    }
}

/// `encoding_rs::BIG5` decoding without BOM handling and without replacement.
/// The bound keeps the decoder's buffer size computation from overflowing.
#[verifier::external_body]
pub(crate) fn decode_big5(bytes: &[u8]) -> (text: Option<String>)
    requires
        bytes@.len() <= usize::MAX / 8,
    ensures
        chars_of(text) == big5_text(bytes@),
{
    match encoding_rs::BIG5.decode_without_bom_handling_and_without_replacement(bytes) {
        Some(s) => Some(s.into_owned()),
        None => None,
    }
}

/// `encoding_rs::GB18030` decoding without BOM handling and without replacement.
/// The bound keeps the decoder's buffer size computation from overflowing.
#[verifier::external_body]
pub(crate) fn decode_gb18030(bytes: &[u8]) -> (text: Option<String>)
    requires
        bytes@.len() <= usize::MAX / 8,
    ensures
        chars_of(text) == gb18030_text(bytes@),
{
    match encoding_rs::GB18030.decode_without_bom_handling_and_without_replacement(bytes) {
        Some(s) => Some(s.into_owned()),
        None => None,
    }
}

/// `GenericPatriciaMap::new`: a tree without bindings.
#[verifier::external_body]
pub(crate) fn tree_new() -> (tree: GenericPatriciaMap<Vec<u8>, usize>)
    ensures
        forall|k: Seq<u8>| !(#[trigger] tree_entries(tree).contains_key(k)),
{
    GenericPatriciaMap::new()
}

/// `GenericPatriciaMap::get`: the slot bound to `key`, if any.
#[verifier::external_body]
pub(crate) fn tree_get(tree: &GenericPatriciaMap<Vec<u8>, usize>, key: &[u8]) -> (slot: Option<
    usize,
>)
    ensures
        slot == (if tree_entries(*tree).contains_key(key@) {
            Some(tree_entries(*tree)[key@])
        } else {
            None
        }),
{
    match tree.get(key) {
        Some(slot) => Some(*slot),
        None => None,
    }
}

/// `GenericPatriciaMap::insert`: binds `key` to `slot`, replacing and returning
/// an earlier binding of the same key.
#[verifier::external_body]
pub(crate) fn tree_insert(
    tree: &mut GenericPatriciaMap<Vec<u8>, usize>,
    key: &[u8],
    slot: usize,
) -> (earlier: Option<usize>)
    ensures
        tree_entries(*final(tree)) == tree_entries(*old(tree)).insert(key@, slot),
        earlier == (if tree_entries(*old(tree)).contains_key(key@) {
            Some(tree_entries(*old(tree))[key@])
        } else {
            None
        }),
{
    tree.insert(key, slot)
}

/// `GenericPatriciaMap::keys`, collected: every bound key once, in ascending
/// lexicographic order.
#[verifier::external_body]
pub(crate) fn tree_keys(tree: &GenericPatriciaMap<Vec<u8>, usize>) -> (keys: Vec<Vec<u8>>)
    ensures
        forall|i: int|
            0 <= i < keys@.len() ==> tree_entries(*tree).contains_key(#[trigger] key_list(keys)[i]),
        forall|k: Seq<u8>| #[trigger]
            tree_entries(*tree).contains_key(k) ==> key_list(keys).contains(k),
        forall|i: int, j: int|
            0 <= i < j < keys@.len() ==> bytes_before(
                #[trigger] key_list(keys)[i],
                #[trigger] key_list(keys)[j],
            ),
{
    tree.keys().collect()
}

/// `regex::Regex::split`: the parts of the text between the matches of the
/// pattern, or `None` where `regex::Regex::new` refuses the pattern.
#[verifier::external_body]
pub(crate) fn regex_split(pattern: &str, text: &str) -> (gaps: Option<Vec<String>>)
    ensures
        match gaps {
            Some(v) => regex_gaps(pattern@, text@) == Some(string_views(v@)),
            None => regex_gaps(pattern@, text@).is_none(),
        },
{
    match regex::Regex::new(pattern) {
        Ok(expression) => Some(expression.split(text).map(|gap| gap.to_owned()).collect()),
        Err(_) => None,
    }
}

/// `regex::Regex::captures_iter`: the matches of the pattern in the text,
/// each as the text of its groups, or `None` where `regex::Regex::new`
/// refuses the pattern.
#[verifier::external_body]
pub(crate) fn regex_captures(pattern: &str, text: &str) -> (found: Option<
    Vec<Vec<Option<String>>>,
>)
    ensures
        match found {
            Some(v) => regex_groups(pattern@, text@) == Some(matches_view(v@)),
            None => regex_groups(pattern@, text@).is_none(),
        },
{
    match regex::Regex::new(pattern) {
        Ok(expression) => Some(
            expression
                .captures_iter(text)
                .map(|found| found.iter().map(|g| g.map(|m| m.as_str().to_owned())).collect())
                .collect(),
        ),
        Err(_) => None,
    }
}

} // verus!
