//! The crate's error type.

use vstd::prelude::*;
use vstd::string::StringExecFns;

verus! {

/// Decode / encode error.
#[derive(Debug, Clone, PartialEq, Eq)]
pub enum Error {
    /// The input bytes did not parse against the wire format.
    InvalidData(String),
    /// The configuration is recognised but not supported.
    Unsupported(String),
    /// A bit source ran dry in the middle of a value.
    Eof,
}

impl Error {
    /// An [`Error::InvalidData`] with the given message.
    pub fn invalid(msg: &str) -> (e: Self)
        ensures
            e matches Error::InvalidData(m) && m@ == msg@,
    {
        Error::InvalidData(msg.to_owned())
    }

    /// An [`Error::Unsupported`] with the given message.
    pub fn unsupported(msg: &str) -> (e: Self)
        ensures
            e matches Error::Unsupported(m) && m@ == msg@,
    {
        Error::Unsupported(msg.to_owned())
    }

    /// The human-readable form of the error: a prefix that names the kind,
    /// followed by the message.
    pub fn describe(&self) -> (s: String)
        ensures
            s@ == self.spec_describe(),
    {
        match self {
            Error::InvalidData(m) => {
                let mut s = "huffyuv: invalid data: ".to_owned();
                s.append(m.as_str());
                s
            },
            Error::Unsupported(m) => {
                let mut s = "huffyuv: unsupported: ".to_owned();
                s.append(m.as_str());
                s
            },
            Error::Eof => "huffyuv: end of stream".to_owned(),
        }
    }

    /// What [`Error::describe`] returns.
    pub open spec fn spec_describe(self) -> Seq<char> {
        match self {
            Error::InvalidData(m) => "huffyuv: invalid data: "@ + m@,
            Error::Unsupported(m) => "huffyuv: unsupported: "@ + m@,
            Error::Eof => "huffyuv: end of stream"@,
        }
    }
}

/// A hexadecimal digit.
pub open spec fn hex_char(d: u8) -> Seq<char> {
    match d {
        0 => "0"@,
        1 => "1"@,
        2 => "2"@,
        3 => "3"@,
        4 => "4"@,
        5 => "5"@,
        6 => "6"@,
        7 => "7"@,
        8 => "8"@,
        9 => "9"@,
        10 => "a"@,
        11 => "b"@,
        12 => "c"@,
        13 => "d"@,
        14 => "e"@,
        _ => "f"@,
    }
}

/// A hexadecimal digit.
fn hex_digit(d: u8) -> (s: &'static str)
    ensures
        s@ == hex_char(d),
{
    match d {
        0 => "0",
        1 => "1",
        2 => "2",
        3 => "3",
        4 => "4",
        5 => "5",
        6 => "6",
        7 => "7",
        8 => "8",
        9 => "9",
        10 => "a",
        11 => "b",
        12 => "c",
        13 => "d",
        14 => "e",
        _ => "f",
    }
}

/// A text with a byte in it, as two hexadecimal digits.
pub open spec fn with_hex(before: Seq<char>, b: u8, after: Seq<char>) -> Seq<char> {
    before + hex_char(b / 16) + hex_char(b % 16) + after
}

/// A text with a byte in it, as two hexadecimal digits.
pub fn text_with_hex(before: &str, b: u8, after: &str) -> (s: String)
    ensures
        s@ == with_hex(before@, b, after@),
{
    let mut s = before.to_owned();
    s.append(hex_digit(b / 16));
    s.append(hex_digit(b % 16));
    s.append(after);
    s
}

/// Result alias used throughout the crate.
pub type Result<T> = core::result::Result<T, Error>;

/// A digit is one character: the decimal digits and then the letters from `a` on,
/// in their order.
pub proof fn law_hex_digits(d: u8)
    requires
        d < 16,
    ensures
        hex_char(d).len() == 1,
        hex_char(d)[0] as int == (if d < 10 {
            0x30 + d
        } else {
            0x61 + d - 10
        }),
{
    reveal_strlit("0");
    reveal_strlit("1");
    reveal_strlit("2");
    reveal_strlit("3");
    reveal_strlit("4");
    reveal_strlit("5");
    reveal_strlit("6");
    reveal_strlit("7");
    reveal_strlit("8");
    reveal_strlit("9");
    reveal_strlit("a");
    reveal_strlit("b");
    reveal_strlit("c");
    reveal_strlit("d");
    reveal_strlit("e");
    reveal_strlit("f");
}

} // verus!
