//! The names of the files of an archive set: the main file ends in `.mdx`,
//! its companions are named after it with `.mdd`, `.1.mdd`, `.2.mdd`, and so on.

use crate::header::{ascii_lower, lower_char};
use vstd::prelude::*;
use vstd::string::{StrSliceExecFns, StringExecFns};

verus! {

/// The most companions an archive set can have: their number must fit the
/// one byte that tells the owner of a resource.
pub const MAX_COMPANIONS: usize = 256;

/// Whether a path names an `.mdx` file: it ends in `.mdx`, in any case of
/// the letters, and the dot does not start the file name.
pub open spec fn is_mdx_path(path: Seq<char>) -> bool {
    let n = path.len() as int;
    &&& n >= 5
    &&& path[n - 4] == '.'
    &&& ascii_lower(path[n - 3]) == 'm'
    &&& ascii_lower(path[n - 2]) == 'd'
    &&& ascii_lower(path[n - 1]) == 'x'
    &&& path[n - 5] != '/'
}

/// Tells whether a path names an `.mdx` file.
pub fn has_mdx_extension(path: &str) -> (yes: bool)
    ensures
        yes == is_mdx_path(path@),
{
    let n: usize = path.unicode_len();
    if n < 5 {
        return false;
    }
    path.get_char(n - 4) == '.' && lower_char(path.get_char(n - 3)) == 'm' && lower_char(
        path.get_char(n - 2),
    ) == 'd' && lower_char(path.get_char(n - 1)) == 'x' && path.get_char(n - 5) != '/'
}

/// The text of one decimal digit; of nine for a greater number.
pub open spec fn digit_text(d: nat) -> Seq<char> {
    if d == 0 {
        "0"@
    } else if d == 1 {
        "1"@
    } else if d == 2 {
        "2"@
    } else if d == 3 {
        "3"@
    } else if d == 4 {
        "4"@
    } else if d == 5 {
        "5"@
    } else if d == 6 {
        "6"@
    } else if d == 7 {
        "7"@
    } else if d == 8 {
        "8"@
    } else {
        "9"@
    }
}

/// The decimal text of a number, without leading zeros.
pub open spec fn decimal_text(n: nat) -> Seq<char>
    decreases n,
{
    if n < 10 {
        digit_text(n)
    } else {
        decimal_text(n / 10) + digit_text(n % 10)
    }
}

/// The path of companion `i` of the archive at `path`: the extension `mdx`
/// gives way to `mdd` for the first companion and to the number and `.mdd`
/// for the others.
pub open spec fn companion_path(path: Seq<char>, i: nat) -> Seq<char> {
    let stem = path.subrange(0, path.len() - 3);
    if i == 0 {
        stem + "mdd"@
    } else {
        stem + decimal_text(i) + ".mdd"@
    }
}

/// The text of one decimal digit; of nine for a greater number.
pub fn digit_str(d: u8) -> (text: &'static str)
    ensures
        text@ == digit_text(d as nat),
{
    if d == 0 {
        "0"
    } else if d == 1 {
        "1"
    } else if d == 2 {
        "2"
    } else if d == 3 {
        "3"
    } else if d == 4 {
        "4"
    } else if d == 5 {
        "5"
    } else if d == 6 {
        "6"
    } else if d == 7 {
        "7"
    } else if d == 8 {
        "8"
    } else {
        "9"
    }
}

/// Writes a number in decimal.
pub fn decimal_string(n: u64) -> (text: String)
    ensures
        text@ == decimal_text(n as nat),
    decreases n,
{
    if n < 10 {
        digit_str(n as u8).to_owned()
    } else {
        let mut text = decimal_string(n / 10);
        text.append(digit_str((n % 10) as u8));
        text
    }
}

/// Names companion `i` of the archive at `path`; `None` where `path` does
/// not name an `.mdx` file.
pub fn companion(path: &str, i: u8) -> (r: Option<String>)
    ensures
        r.is_some() == is_mdx_path(path@),
        r matches Some(name) ==> name@ == companion_path(path@, i as nat),
{
    if !has_mdx_extension(path) {
        return None;
    }
    let n: usize = path.unicode_len();
    let mut name: String = path.substring_char(0, n - 3).to_owned();
    if i == 0 {
        name.append("mdd");
    } else {
        let number = decimal_string(i as u64);
        name.append(number.as_str());
        name.append(".mdd");
    }
    Some(name)
}

} // verus!
