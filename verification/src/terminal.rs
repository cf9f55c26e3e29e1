//! The interactive menu: what a typed line selects.

use crate::encoding::{hex_decode_32, hex_decode_spec, string_of};
use crate::messages::FileId;
use crate::node_id::NodeId;
use crate::text::{chars_of, sub_chars, trim, trim_chars};
use vstd::prelude::*;
use vstd::utf8::encode_utf8;

verus! {

/// What the user asked for.
#[derive(Debug)]
pub enum Command {
    RequestFile(FileId),
    CreateFile(String),
    Exit,
}

/// An entry of the main menu.
#[derive(Clone, Copy, Debug, PartialEq, Eq, Structural)]
pub enum MenuChoice {
    RequestFile,
    CreateFile,
    Exit,
}

/// `d` is `c` put in lower case as `char::to_ascii_lowercase` does: an
/// ASCII capital letter becomes its small letter, any other character stays.
pub open spec fn lowers_to(c: char, d: char) -> bool {
    if 'A' <= c <= 'Z' {
        c as u32 + 32 == d as u32
    } else {
        c == d
    }
}

/// `t` is `s` put in lower case as `str::to_ascii_lowercase` does.
pub open spec fn lowercases_to(s: Seq<char>, t: Seq<char>) -> bool {
    s.len() == t.len() && forall|i: int| 0 <= i < s.len() ==> lowers_to(#[trigger] s[i], t[i])
}

/// Whether `s` in lower case spells `lit`.
fn lowercase_is(s: &Vec<char>, lit: &str) -> (r: bool)
    ensures
        r == lowercases_to(s@, lit@),
{
    let l = chars_of(lit);
    if s.len() != l.len() {
        return false;
    }
    let mut i: usize = 0;
    while i < s.len()
        invariant
            i <= s@.len(),
            s@.len() == l@.len(),
            l@ == lit@,
            forall|j: int| 0 <= j < i ==> lowers_to(s@[j], l@[j]),
        decreases s@.len() - i,
    {
        let c = s[i];
        let d = l[i];
        let same = if 'A' <= c && c <= 'Z' {
            (c as u32) + 32 == (d as u32)
        } else {
            c == d
        };
        if !same {
            assert(!lowers_to(s@[i as int], l@[i as int]));
            return false;
        }
        i = i + 1;
    }
    true
}

/// The menu entry a typed line selects: `1`, `request` or `request file`;
/// `2`, `create` or `create file`; `3`, `exit` or `quit`, ignoring
/// surrounding whitespace and the case of ASCII letters.
pub fn menu_choice(line: &str) -> (r: Option<MenuChoice>)
    ensures
        ({
            let s = trim(line@);
            r == if lowercases_to(s, "1"@) || lowercases_to(s, "request"@) || lowercases_to(
                s,
                "request file"@,
            ) {
                Some(MenuChoice::RequestFile)
            } else if lowercases_to(s, "2"@) || lowercases_to(s, "create"@) || lowercases_to(
                s,
                "create file"@,
            ) {
                Some(MenuChoice::CreateFile)
            } else if lowercases_to(s, "3"@) || lowercases_to(s, "exit"@) || lowercases_to(
                s,
                "quit"@,
            ) {
                Some(MenuChoice::Exit)
            } else {
                None
            }
        }),
{
    let chars = chars_of(line);
    let t = trim_chars(&chars);
    if lowercase_is(&t, "1") || lowercase_is(&t, "request") || lowercase_is(&t, "request file") {
        Some(MenuChoice::RequestFile)
    } else if lowercase_is(&t, "2") || lowercase_is(&t, "create") || lowercase_is(&t, "create file") {
        Some(MenuChoice::CreateFile)
    } else if lowercase_is(&t, "3") || lowercase_is(&t, "exit") || lowercase_is(&t, "quit") {
        Some(MenuChoice::Exit)
    } else {
        None
    }
}

/// Errors of reading a file identifier.
#[derive(Clone, Copy, Debug, PartialEq, Eq, Structural)]
pub enum FileIdError {
    /// The text is not 64 bytes long.
    WrongLength,
    /// The text is not hexadecimal.
    NotHex,
}

/// The hexadecimal digits of a typed file identifier: the trimmed text
/// without a leading `0x`.
pub open spec fn file_id_digits(raw: Seq<char>) -> Seq<char> {
    let t = trim(raw);
    if t.len() >= 2 && t[0] == '0' && t[1] == 'x' {
        t.skip(2)
    } else {
        t
    }
}

/// Reads a typed file identifier: 64 hexadecimal digits, optionally after
/// `0x`, which spell the identifier's 32 big-endian bytes.
pub fn parse_file_id(raw: &str) -> (r: Result<FileId, FileIdError>)
    ensures
        ({
            let h = file_id_digits(raw@);
            if encode_utf8(h).len() != 64 {
                r == Err::<FileId, FileIdError>(FileIdError::WrongLength)
            } else if h.len() == 64 && hex_decode_spec(h) is Some {
                r matches Ok(id) && hex_decode_spec(h) == Some(id@)
            } else {
                r == Err::<FileId, FileIdError>(FileIdError::NotHex)
            }
        }),
{
    let chars = chars_of(raw);
    let t = trim_chars(&chars);
    let digits = if t.len() >= 2 && t[0] == '0' && t[1] == 'x' {
        sub_chars(&t, 2, t.len())
    } else {
        sub_chars(&t, 0, t.len())
    };
    assert(digits@ == file_id_digits(raw@));
    let text = string_of(digits.as_slice());
    let s = text.as_str();
    assert(s@ == digits@);
    let byte_len = s.as_bytes().len();
    if byte_len != 64 {
        return Err(FileIdError::WrongLength);
    }
    match hex_decode_32(s) {
        Some(bytes) => Ok(NodeId::from_be_bytes(bytes)),
        None => Err(FileIdError::NotHex),
    }
}

/// The path typed for a file to publish: the trimmed text, unless it is
/// empty.
pub fn create_file_path(raw: &str) -> (r: Option<String>)
    ensures
        match r {
            Some(p) => trim(raw@).len() > 0 && p@ == trim(raw@),
            None => trim(raw@).len() == 0,
        },
{
    let chars = chars_of(raw);
    let t = trim_chars(&chars);
    if t.len() == 0 {
        None
    } else {
        Some(string_of(t.as_slice()))
    }
}

} // verus!
