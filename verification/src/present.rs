//! What a host shows of an entry: links in entry bodies are led back to the
//! dictionary they belong to, and style sheets are confined to the entries
//! of their dictionary.

use crate::archive::string_views;
use crate::outside::{
    chars_of, regex_captures, regex_gaps, regex_groups, regex_split, str_from_utf8,
};
use crate::header::same_text;
use crate::paths::{decimal_string, decimal_text};
use vstd::prelude::*;
use vstd::slice::slice_to_vec;
use vstd::string::{StrSliceExecFns, StringExecFns};
use vstd::utf8::{
    decode_utf8, decode_utf8_encode_utf8, encode_utf8, is_leading_byte_width_1,
    partial_valid_utf8, partial_valid_utf8_extend_ascii_block, valid_utf8,
};

verus! {

/// A `src` or `href` attribute with its value: an optional scheme, an
/// optional slash, and the target.
pub const LINK_PATTERN: &'static str = r#"(src|href)\s*=\s*"(file://|sound:/|entry:/)?/?([^"]+)""#;

/// A reference to another entry.
pub const SEE_ALSO_PATTERN: &'static str = "@@@LINK=([^\\s]+)";

/// A comment of a style sheet.
pub const COMMENT_PATTERN: &'static str = r#"(/\*[^*]*\*+([^/*][^*]*\*+)*/)"#;

/// The head of a rule of a style sheet: its selectors up to the brace.
pub const RULE_PATTERN: &'static str = r#"\s*([^}/;]+?)\s*\{"#;

/// Whether `part` occurs in `text`.
pub open spec fn occurs_in(text: Seq<u8>, part: Seq<u8>) -> bool {
    exists|k: int| occurs_at(text, part, k)
}

/// Whether `part` stands in `text` at position `k`.
pub open spec fn occurs_at(text: Seq<u8>, part: Seq<u8>, k: int) -> bool {
    0 <= k && k + part.len() <= text.len() && text.subrange(k, k + part.len()) == part
}

/// Tells whether `part` occurs in `text`.
pub fn contains_bytes(text: &[u8], part: &[u8]) -> (yes: bool)
    ensures
        yes == occurs_in(text@, part@),
{
    let n: usize = text.len();
    let m: usize = part.len();
    if m > n {
        return false;
    }
    let mut k: usize = 0;
    while k <= n - m
        invariant
            m <= n,
            n == text@.len(),
            m == part@.len(),
            k <= n - m + 1,
            forall|q: int| 0 <= q < k ==> !occurs_at(text@, part@, q),
        decreases n - m + 1 - k,
    {
        let mut j: usize = 0;
        while j < m && text[k + j] == part[j]
            invariant
                m <= n,
                n == text@.len(),
                m == part@.len(),
                k <= n - m,
                j <= m,
                forall|q: int| 0 <= q < j ==> text@[k + q] == part@[q],
            decreases m - j,
        {
            j = j + 1;
        }
        if j == m {
            proof {
                assert(text@.subrange(k as int, k + m) =~= part@);
                assert(occurs_at(text@, part@, k as int));
            }
            return true;
        }
        proof {
            assert(text@.subrange(k as int, k + m)[j as int] == text@[k + j]);
        }
        k = k + 1;
    }
    false
}

/// The link that takes the place of a matched attribute in an entry of
/// dictionary `dict`. A target that holds `data:` is left as it stands.
/// A sound link keeps its scheme and names the dictionary; an entry link
/// leads to the entry; every other link leads into the dictionary.
pub open spec fn link_rewritten(
    whole: Seq<char>,
    attribute: Seq<char>,
    scheme: Option<Seq<char>>,
    target: Seq<char>,
    dict: nat,
) -> Seq<char> {
    if occurs_in(encode_utf8(target), encode_utf8("data:"@)) {
        whole
    } else if scheme == Some("sound:/"@) {
        attribute + "=\"sound://"@ + decimal_text(dict) + "/"@ + target + "\""@
    } else if scheme == Some("entry:/"@) {
        attribute + "=\"/"@ + target + "\""@
    } else {
        attribute + "=\"/"@ + decimal_text(dict) + "/"@ + target + "\""@
    }
}

/// Rewrites one matched attribute of an entry of dictionary `dict`.
pub fn rewritten_link(
    whole: &str,
    attribute: &str,
    scheme: Option<&str>,
    target: &str,
    dict: usize,
) -> (link: String)
    ensures
        link@ == link_rewritten(
            whole@,
            attribute@,
            match scheme {
                Some(s) => Some(s@),
                None => None,
            },
            target@,
            dict as nat,
        ),
{
    if contains_bytes(target.as_bytes(), "data:".as_bytes()) {
        return whole.to_owned();
    }
    let mut link: String = attribute.to_owned();
    let sound: bool = match scheme {
        Some(s) => same_text(s, "sound:/"),
        None => false,
    };
    let entry: bool = match scheme {
        Some(s) => same_text(s, "entry:/"),
        None => false,
    };
    if sound {
        link.append("=\"sound://");
        link.append(decimal_string(dict as u64).as_str());
        link.append("/");
    } else if entry {
        link.append("=\"/");
    } else {
        link.append("=\"/");
        link.append(decimal_string(dict as u64).as_str());
        link.append("/");
    }
    link.append(target);
    link.append("\"");
    link
}

/// Whether a byte passes percent-encoding as it is: an ASCII letter, a
/// digit, or one of `-`, `.`, `_`, `~`.
pub open spec fn is_unreserved(b: u8) -> bool {
    (0x30 <= b <= 0x39) || (0x41 <= b <= 0x5A) || (0x61 <= b <= 0x7A) || b == 0x2D || b == 0x2E
        || b == 0x5F || b == 0x7E
}

/// The hexadecimal digit of a value below sixteen, in capitals; a question
/// mark for a greater value.
pub open spec fn hex_digit(d: u8) -> u8 {
    if d < 10 {
        (0x30 + d) as u8
    } else if d < 16 {
        (0x37 + d) as u8
    } else {
        0x3Fu8
    }
}

/// The bytes percent-encoded: an unreserved byte stands for itself, every
/// other byte becomes `%` and its two hexadecimal digits.
pub open spec fn percent_encoded(bytes: Seq<u8>) -> Seq<u8>
    decreases bytes.len(),
{
    if bytes.len() == 0 {
        Seq::empty()
    } else {
        percent_encoded(bytes.drop_last()) + if is_unreserved(bytes.last()) {
            seq![bytes.last()]
        } else {
            seq![0x25u8, hex_digit(bytes.last() >> 4u8), hex_digit(bytes.last() & 15u8)]
        }
    }
}

/// Writes the hexadecimal digit of a value below sixteen, in capitals; a
/// question mark for a greater value.
pub fn hex_digit_of(d: u8) -> (digit: u8)
    ensures
        digit == hex_digit(d),
        digit < 128,
{
    if d < 10 {
        0x30 + d
    } else if d < 16 {
        0x37 + d
    } else {
        0x3F
    }
}

/// Tells whether a byte passes percent-encoding as it is.
pub fn unreserved(b: u8) -> (yes: bool)
    ensures
        yes == is_unreserved(b),
{
    (0x30 <= b && b <= 0x39) || (0x41 <= b && b <= 0x5A) || (0x61 <= b && b <= 0x7A) || b == 0x2D
        || b == 0x2E || b == 0x5F || b == 0x7E
}

/// Percent-encodes bytes. Every byte of the result is ASCII.
pub fn percent_encode(bytes: &[u8]) -> (out: Vec<u8>)
    ensures
        out@ == percent_encoded(bytes@),
        forall|i: int| 0 <= i < out@.len() ==> out@[i] < 128,
{
    let mut out: Vec<u8> = Vec::new();
    let mut i: usize = 0;
    proof {
        assert(bytes@.take(0) =~= Seq::empty());
    }
    while i < bytes.len()
        invariant
            i <= bytes@.len(),
            out@ == percent_encoded(bytes@.take(i as int)),
            forall|k: int| 0 <= k < out@.len() ==> out@[k] < 128,
        decreases bytes@.len() - i,
    {
        let b: u8 = bytes[i];
        proof {
            assert(bytes@.take(i + 1).drop_last() =~= bytes@.take(i as int));
            assert(bytes@.take(i + 1).last() == b);
        }
        let ghost before = out@;
        if unreserved(b) {
            out.push(b);
            proof {
                assert(out@ =~= before + seq![b]);
            }
        } else {
            out.push(0x25);
            out.push(hex_digit_of(b >> 4u8));
            out.push(hex_digit_of(b & 15u8));
            proof {
                assert(out@ =~= before + seq![0x25u8, hex_digit(b >> 4u8), hex_digit(b & 15u8)]);
            }
        }
        i = i + 1;
    }
    proof {
        assert(bytes@.take(i as int) =~= bytes@);
    }
    out
}

/// Percent-encodes a text: every byte of its UTF-8 except ASCII letters,
/// digits, `-`, `_`, `.` and `~` becomes `%` and two hexadecimal digits.
pub fn url_encode(text: &str) -> (encoded: String)
    ensures
        encode_utf8(encoded@) == percent_encoded(encode_utf8(text@)),
{
    let bytes = percent_encode(text.as_bytes());
    proof {
        assert forall|i: int| 0 <= i < bytes@.len() implies #[trigger] is_leading_byte_width_1(
            bytes@[i],
        ) by {
            let b = bytes@[i];
            assert(b < 128 ==> b & 0x80 == 0) by (bit_vector);
        }
        assert(bytes@.subrange(0, 0) =~= Seq::<u8>::empty());
        assert(partial_valid_utf8(bytes@, 0));
        partial_valid_utf8_extend_ascii_block(bytes@, 0, bytes@.len() as int);
        assert(bytes@.subrange(0, bytes@.len() as int) =~= bytes@);
        decode_utf8_encode_utf8(bytes@);
    }
    match str_from_utf8(bytes.as_slice()) {
        Some(encoded) => encoded.to_owned(),
        None => {
            assert(false);
            String::new()
        },
    }
}

/// The anchor that takes the place of a reference to another entry: it
/// leads to the percent-encoded target and shows the target.
pub open spec fn see_also_anchor(target: Seq<char>) -> Seq<char> {
    "<a href=\"/"@ + decode_utf8(percent_encoded(encode_utf8(target))) + "\" >See also: "@ + target
        + "</a>"@
}

/// Writes the anchor for a reference to the entry `target`.
pub fn see_also_link(target: &str) -> (anchor: String)
    ensures
        anchor@ == see_also_anchor(target@),
{
    let href = url_encode(target);
    proof {
        vstd::utf8::encode_utf8_decode_utf8(href@);
    }
    let mut anchor: String = "<a href=\"/".to_owned();
    anchor.append(href.as_str());
    anchor.append("\" >See also: ");
    anchor.append(target);
    anchor.append("</a>");
    anchor
}

/// Whether a character is white space.
pub open spec fn is_space(c: char) -> bool {
    c == ' ' || ('\u{9}' <= c <= '\u{d}') || c == '\u{85}' || c == '\u{a0}' || c == '\u{1680}' || (
    '\u{2000}' <= c <= '\u{200a}') || c == '\u{2028}' || c == '\u{2029}' || c == '\u{202f}' || c
        == '\u{205f}' || c == '\u{3000}'
}

/// Tells whether a character is white space.
pub fn space_char(c: char) -> (yes: bool)
    ensures
        yes == is_space(c),
{
    c == ' ' || ('\u{9}' <= c && c <= '\u{d}') || c == '\u{85}' || c == '\u{a0}' || c == '\u{1680}'
        || ('\u{2000}' <= c && c <= '\u{200a}') || c == '\u{2028}' || c == '\u{2029}' || c
        == '\u{202f}' || c == '\u{205f}' || c == '\u{3000}'
}

/// The position of the first comma at or after `p`, or the length of `s`
/// where there is none.
pub open spec fn comma_from(s: Seq<char>, p: int) -> int
    decreases s.len() - p,
{
    if 0 <= p < s.len() && s[p] != ',' {
        comma_from(s, p + 1)
    } else {
        p
    }
}

/// The first position in `[p, q)` that holds no white space, or `q`.
pub open spec fn content_start(s: Seq<char>, p: int, q: int) -> int
    decreases q - p,
{
    if 0 <= p < q <= s.len() && is_space(s[p]) {
        content_start(s, p + 1, q)
    } else {
        p
    }
}

/// The end of the last position in `[p, q)` that holds no white space, or `p`.
pub open spec fn content_end(s: Seq<char>, p: int, q: int) -> int
    decreases q - p,
{
    if 0 <= p < q <= s.len() && is_space(s[q - 1]) {
        content_end(s, p, q - 1)
    } else {
        q
    }
}

/// The part of `s` in `[p, q)` without white space at its ends.
pub open spec fn trimmed(s: Seq<char>, p: int, q: int) -> Seq<char> {
    let a = content_start(s, p, q);
    s.subrange(a, content_end(s, a, q))
}

/// The selectors of `s` from `p` on, each trimmed, led by `prefix` and
/// parted by commas, appended to `acc`.
pub open spec fn selectors_from(s: Seq<char>, p: int, prefix: Seq<char>, acc: Seq<char>) -> Seq<
    char,
>
    decreases s.len() - p,
{
    let q = comma_from(s, p);
    let more = acc + prefix + trimmed(s, p, q);
    if p < 0 || q < p || q >= s.len() {
        more
    } else {
        selectors_from(s, q + 1, prefix, more + ","@)
    }
}

/// What leads each selector of dictionary `dict`: the element that holds the
/// entries of that dictionary.
pub open spec fn scope_prefix(dict: nat) -> Seq<char> {
    "#mdict_rs_"@ + decimal_text(dict) + " "@
}

/// The rule head that takes the place of a matched one in a style sheet of
/// dictionary `dict`. An at-rule is left as it stands; else each selector is
/// confined to the entries of the dictionary.
pub open spec fn rule_scoped(whole: Seq<char>, selectors: Seq<char>, dict: nat) -> Seq<char> {
    if selectors.len() > 0 && selectors[0] == '@' {
        whole
    } else {
        selectors_from(selectors, 0, scope_prefix(dict), "\n"@) + "{"@
    }
}

/// Cuts the part of `s` in `[p, q)` without white space at its ends.
fn trim_part<'a>(s: &'a str, p: usize, q: usize) -> (part: &'a str)
    requires
        p <= q <= s@.len(),
    ensures
        part@ == trimmed(s@, p as int, q as int),
{
    let mut a: usize = p;
    while a < q && space_char(s.get_char(a))
        invariant
            p <= a <= q <= s@.len(),
            content_start(s@, p as int, q as int) == content_start(s@, a as int, q as int),
        decreases q - a,
    {
        a = a + 1;
    }
    let mut b: usize = q;
    while a < b && space_char(s.get_char(b - 1))
        invariant
            a <= b <= q <= s@.len(),
            content_end(s@, a as int, q as int) == content_end(s@, a as int, b as int),
        decreases b - a,
    {
        b = b - 1;
    }
    s.substring_char(a, b)
}

/// Rewrites one matched rule head of a style sheet of dictionary `dict`.
pub fn scoped_rule(whole: &str, selectors: &str, dict: usize) -> (rule: String)
    ensures
        rule@ == rule_scoped(whole@, selectors@, dict as nat),
{
    let n: usize = selectors.unicode_len();
    if n > 0 && selectors.get_char(0) == '@' {
        return whole.to_owned();
    }
    let mut prefix: String = "#mdict_rs_".to_owned();
    prefix.append(decimal_string(dict as u64).as_str());
    prefix.append(" ");
    let mut rule: String = "\n".to_owned();
    let mut p: usize = 0;
    loop
        invariant_except_break
            selectors_from(selectors@, 0, prefix@, "\n"@) == selectors_from(
                selectors@,
                p as int,
                prefix@,
                rule@,
            ),
        invariant
            n == selectors@.len(),
            p <= n,
            prefix@ == scope_prefix(dict as nat),
        ensures
            rule@ == selectors_from(selectors@, 0, prefix@, "\n"@),
        decreases n - p,
    {
        let mut q: usize = p;
        while q < n && selectors.get_char(q) != ','
            invariant
                n == selectors@.len(),
                p <= q <= n,
                comma_from(selectors@, p as int) == comma_from(selectors@, q as int),
            decreases n - q,
        {
            q = q + 1;
        }
        rule.append(prefix.as_str());
        rule.append(trim_part(selectors, p, q));
        if q >= n {
            break;
        }
        rule.append(",");
        p = q + 1;
    }
    rule.append("{");
    rule
}

/// The text of each group of one match.
pub open spec fn match_view(groups: Seq<Option<String>>) -> Seq<Option<Seq<char>>> {
    Seq::new(groups.len(), |i: int| chars_of(groups[i]))
}

/// The text of each group of each match.
pub open spec fn matches_view(matches: Seq<Vec<Option<String>>>) -> Seq<Seq<Option<Seq<char>>>> {
    Seq::new(matches.len(), |i: int| match_view(matches[i]@))
}

/// Group `i` of a match; `None` where the match has no such group or the
/// group took no part.
pub open spec fn group_of(groups: Seq<Option<Seq<char>>>, i: int) -> Option<Seq<char>> {
    if 0 <= i < groups.len() {
        groups[i]
    } else {
        None
    }
}

/// What is made of the matches of a text.
#[derive(Clone, Copy, PartialEq, Eq, Debug, Structural)]
pub enum Rewrite {
    /// A link of an entry of the dictionary with this number: group 1 is
    /// the attribute, group 2 the scheme, group 3 the target.
    Link(usize),
    /// A reference to another entry: group 1 is the target.
    SeeAlso,
    /// A rule head of a style sheet of the dictionary with this number:
    /// group 1 holds the selectors.
    Rule(usize),
}

/// What takes the place of one match. A match that lacks a group that the
/// rewriting needs stays as it stands.
pub open spec fn part_of(rewrite: Rewrite, groups: Seq<Option<Seq<char>>>) -> Seq<char> {
    match group_of(groups, 0) {
        None => Seq::empty(),
        Some(whole) => match rewrite {
            Rewrite::Link(dict) => match (group_of(groups, 1), group_of(groups, 3)) {
                (Some(attribute), Some(target)) => link_rewritten(
                    whole,
                    attribute,
                    group_of(groups, 2),
                    target,
                    dict as nat,
                ),
                _ => whole,
            },
            Rewrite::SeeAlso => match group_of(groups, 1) {
                Some(target) => see_also_anchor(target),
                None => whole,
            },
            Rewrite::Rule(dict) => match group_of(groups, 1) {
                Some(selectors) => rule_scoped(whole, selectors, dict as nat),
                None => whole,
            },
        },
    }
}

/// What takes the place of each match, in order.
pub open spec fn parts_of(rewrite: Rewrite, matches: Seq<Seq<Option<Seq<char>>>>) -> Seq<
    Seq<char>,
> {
    Seq::new(matches.len(), |i: int| part_of(rewrite, matches[i]))
}

/// The gaps from gap `i` on, each followed by the part at its place where
/// there is one, appended to `acc`.
pub open spec fn interleaved_from(
    gaps: Seq<Seq<char>>,
    parts: Seq<Seq<char>>,
    i: int,
    acc: Seq<char>,
) -> Seq<char>
    decreases gaps.len() - i,
{
    if i < 0 || i >= gaps.len() {
        acc
    } else if i < parts.len() {
        interleaved_from(gaps, parts, i + 1, acc + gaps[i] + parts[i])
    } else {
        interleaved_from(gaps, parts, i + 1, acc + gaps[i])
    }
}

/// The gaps and the parts in turn: gap, part, gap, part, and so on to the
/// last gap.
pub open spec fn interleaved(gaps: Seq<Seq<char>>, parts: Seq<Seq<char>>) -> Seq<char> {
    interleaved_from(gaps, parts, 0, Seq::empty())
}

/// A text put together again from the parts between its matches and what
/// takes the place of each match.
pub open spec fn rewritten(
    rewrite: Rewrite,
    gaps: Seq<Seq<char>>,
    matches: Seq<Seq<Option<Seq<char>>>>,
) -> Seq<char> {
    interleaved(gaps, parts_of(rewrite, matches))
}

/// A text with the matches of `pattern` rewritten; the text as it stands
/// where the pattern is no regular expression.
pub open spec fn pattern_rewritten(rewrite: Rewrite, pattern: Seq<char>, text: Seq<char>) -> Seq<
    char,
> {
    match (regex_gaps(pattern, text), regex_groups(pattern, text)) {
        (Some(gaps), Some(matches)) => rewritten(rewrite, gaps, matches),
        _ => text,
    }
}

/// A text without the matches of `pattern`; the text as it stands where the
/// pattern is no regular expression.
pub open spec fn pattern_removed(pattern: Seq<char>, text: Seq<char>) -> Seq<char> {
    match regex_gaps(pattern, text) {
        Some(gaps) => interleaved(gaps, Seq::empty()),
        None => text,
    }
}

/// Picks group `i` of a match.
pub fn pick_group(groups: &Vec<Option<String>>, i: usize) -> (group: Option<&String>)
    ensures
        match group_of(match_view(groups@), i as int) {
            Some(text) => group matches Some(s) && s@ == text,
            None => group.is_none(),
        },
{
    if i < groups.len() {
        match &groups[i] {
            Some(s) => Some(s),
            None => None,
        }
    } else {
        None
    }
}

/// Writes what takes the place of one match.
pub fn rewrite_match(rewrite: Rewrite, groups: &Vec<Option<String>>) -> (part: String)
    ensures
        part@ == part_of(rewrite, match_view(groups@)),
{
    let whole = match pick_group(groups, 0) {
        Some(whole) => whole,
        None => {
            return String::new();
        },
    };
    match rewrite {
        Rewrite::Link(dict) => match (pick_group(groups, 1), pick_group(groups, 3)) {
            (Some(attribute), Some(target)) => {
                let scheme: Option<&str> = match pick_group(groups, 2) {
                    Some(s) => Some(s.as_str()),
                    None => None,
                };
                rewritten_link(whole.as_str(), attribute.as_str(), scheme, target.as_str(), dict)
            },
            _ => whole.clone(),
        },
        Rewrite::SeeAlso => match pick_group(groups, 1) {
            Some(target) => see_also_link(target.as_str()),
            None => whole.clone(),
        },
        Rewrite::Rule(dict) => match pick_group(groups, 1) {
            Some(selectors) => scoped_rule(whole.as_str(), selectors.as_str(), dict),
            None => whole.clone(),
        },
    }
}

/// Writes the gaps and the parts in turn.
pub fn interleave(gaps: &Vec<String>, parts: &Vec<String>) -> (text: String)
    ensures
        text@ == interleaved(string_views(gaps@), string_views(parts@)),
{
    let ghost gap_texts = string_views(gaps@);
    let ghost part_texts = string_views(parts@);
    let mut text: String = String::new();
    let mut i: usize = 0;
    while i < gaps.len()
        invariant
            i <= gaps@.len(),
            gap_texts == string_views(gaps@),
            part_texts == string_views(parts@),
            interleaved(gap_texts, part_texts) == interleaved_from(
                gap_texts,
                part_texts,
                i as int,
                text@,
            ),
        decreases gaps@.len() - i,
    {
        proof {
            assert(gap_texts[i as int] == gaps@[i as int]@);
        }
        text.append(gaps[i].as_str());
        if i < parts.len() {
            proof {
                assert(part_texts[i as int] == parts@[i as int]@);
            }
            text.append(parts[i].as_str());
        }
        i = i + 1;
    }
    text
}

/// Writes what takes the place of each match.
pub fn rewrite_parts(rewrite: Rewrite, matches: &Vec<Vec<Option<String>>>) -> (parts: Vec<String>)
    ensures
        string_views(parts@) == parts_of(rewrite, matches_view(matches@)),
{
    let mut parts: Vec<String> = Vec::new();
    let mut i: usize = 0;
    while i < matches.len()
        invariant
            i <= matches@.len(),
            parts@.len() == i,
            forall|k: int|
                0 <= k < i ==> (#[trigger] parts@[k])@ == part_of(rewrite, match_view(matches@[k]@)),
        decreases matches@.len() - i,
    {
        let part = rewrite_match(rewrite, &matches[i]);
        parts.push(part);
        i = i + 1;
    }
    proof {
        assert(string_views(parts@) =~= parts_of(rewrite, matches_view(matches@)));
    }
    parts
}

/// Puts a text together again from the parts between its matches and what
/// takes the place of each match.
pub fn rewrite_matches(
    rewrite: Rewrite,
    gaps: &Vec<String>,
    matches: &Vec<Vec<Option<String>>>,
) -> (text: String)
    ensures
        text@ == rewritten(rewrite, string_views(gaps@), matches_view(matches@)),
{
    let parts = rewrite_parts(rewrite, matches);
    interleave(gaps, &parts)
}

/// Rewrites the matches of `pattern` in a text.
pub fn rewrite_pattern(rewrite: Rewrite, pattern: &str, text: &str) -> (out: String)
    ensures
        out@ == pattern_rewritten(rewrite, pattern@, text@),
{
    match (regex_split(pattern, text), regex_captures(pattern, text)) {
        (Some(gaps), Some(matches)) => rewrite_matches(rewrite, &gaps, &matches),
        _ => text.to_owned(),
    }
}

/// Removes the matches of `pattern` from a text.
pub fn remove_pattern(pattern: &str, text: &str) -> (out: String)
    ensures
        out@ == pattern_removed(pattern@, text@),
{
    match regex_split(pattern, text) {
        Some(gaps) => {
            let none: Vec<String> = Vec::new();
            proof {
                assert(string_views(none@) =~= Seq::empty());
            }
            interleave(&gaps, &none)
        },
        None => text.to_owned(),
    }
}

/// An entry body with its links led back to dictionary `dict` and, after
/// that, its references to other entries turned into anchors.
pub open spec fn content_fixed(content: Seq<char>, dict: usize) -> Seq<char> {
    pattern_rewritten(
        Rewrite::SeeAlso,
        SEE_ALSO_PATTERN@,
        pattern_rewritten(Rewrite::Link(dict), LINK_PATTERN@, content),
    )
}

/// A style sheet without its comments and, after that, with every rule
/// confined to the entries of dictionary `dict`.
pub open spec fn css_fixed(css: Seq<char>, dict: usize) -> Seq<char> {
    pattern_rewritten(Rewrite::Rule(dict), RULE_PATTERN@, pattern_removed(COMMENT_PATTERN@, css))
}

/// An entry body as a host shows it: links are led back to dictionary `i`,
/// then references to other entries become anchors.
pub fn fix_content(content: String, i: usize) -> (fixed: String)
    ensures
        fixed@ == content_fixed(content@, i),
{
    let linked = rewrite_pattern(Rewrite::Link(i), LINK_PATTERN, content.as_str());
    rewrite_pattern(Rewrite::SeeAlso, SEE_ALSO_PATTERN, linked.as_str())
}

/// A style sheet as a host serves it: comments are removed, then every rule
/// is confined to the entries of dictionary `id`. The style sheet is UTF-8.
pub fn fix_css(id: usize, css: &[u8]) -> (fixed: Vec<u8>)
    requires
        valid_utf8(css@),
    ensures
        fixed@ == encode_utf8(css_fixed(decode_utf8(css@), id)),
{
    match str_from_utf8(css) {
        Some(text) => {
            let bare = remove_pattern(COMMENT_PATTERN, text);
            let scoped = rewrite_pattern(Rewrite::Rule(id), RULE_PATTERN, bare.as_str());
            slice_to_vec(scoped.as_str().as_bytes())
        },
        None => {
            assert(false);
            Vec::new()
        },
    }
}

} // verus!
