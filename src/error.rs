//! The ways in which decoding and encoding fail.
use vstd::prelude::*;
use vstd::string::StringExecFns;

verus! {

/// What went wrong while reading or writing a value.
#[derive(Clone, Debug, PartialEq, Eq)]
pub enum Error {
    /// A message from a caller of the library.
    Message(String),
    /// The input ended, or a container's region ended, before a value did.
    Eof,
    ExpectedBoolean,
    ExpectedInteger,
    ExpectedDouble,
    ExpectedString,
    ExpectedNull,
    ExpectedArray,
    ExpectedObject,
    /// An integer does not fit the requested narrower type.
    NumberTooLarge,
    /// The bytes of a string are not valid UTF-8.
    InvalidUtf8,
    /// A whole-input decode left this many bytes unread.
    TrailingBytes(usize),
    /// The type byte is not one of the supported ones.
    Unimplemented(u8),
    /// A container's length, count or compact header contradicts its layout.
    Malformed,
}

/// The lower-case hexadecimal digit of `d`.
fn hex_digit(d: u8) -> (r: &'static str)
    requires
        d < 16,
    ensures
        r@ == seq![(if d < 10 {
            48 + d
        } else {
            87 + d
        }) as char],
{
    proof {
        reveal_strlit("0");
        reveal_strlit("1");
        reveal_strlit("2");
        reveal_strlit("3");
        reveal_strlit("4");
        reveal_strlit("5");
        reveal_strlit("6");
        reveal_strlit("7");
        reveal_strlit("8");
        reveal_strlit("9");
        reveal_strlit("a");
        reveal_strlit("b");
        reveal_strlit("c");
        reveal_strlit("d");
        reveal_strlit("e");
        reveal_strlit("f");
    }
    match d {
        0 => "0",
        1 => "1",
        2 => "2",
        3 => "3",
        4 => "4",
        5 => "5",
        6 => "6",
        7 => "7",
        8 => "8",
        9 => "9",
        10 => "a",
        11 => "b",
        12 => "c",
        13 => "d",
        14 => "e",
        _ => "f",
    }
}

impl Error {
    /// A sentence that says what went wrong.
    pub fn message(&self) -> (r: String)
        ensures
            self matches Error::Message(m) ==> r@ == m@,
            self is Eof ==> r@ == "unexpected end of input"@,
            self is ExpectedBoolean ==> r@ == "expected boolean value in input"@,
            self is ExpectedInteger ==> r@ == "expected integer value in input"@,
            self is ExpectedDouble ==> r@ == "expected double value in input"@,
            self is ExpectedString ==> r@ == "expected string value in input"@,
            self is ExpectedNull ==> r@ == "expected null value in input"@,
            self is ExpectedArray ==> r@ == "expected array value in input"@,
            self is ExpectedObject ==> r@ == "expected object value in input"@,
            self is NumberTooLarge ==> r@ == "number was too large to parse into requested type"@,
            self is InvalidUtf8 ==> r@ == "invalid utf8 encountered when parsing string"@,
            self is Malformed ==> r@ == "container header contradicts its contents"@,
    {
        match self {
            Error::Message(m) => m.clone(),
            Error::Eof => String::from_str("unexpected end of input"),
            Error::ExpectedBoolean => String::from_str("expected boolean value in input"),
            Error::ExpectedInteger => String::from_str("expected integer value in input"),
            Error::ExpectedDouble => String::from_str("expected double value in input"),
            Error::ExpectedString => String::from_str("expected string value in input"),
            Error::ExpectedNull => String::from_str("expected null value in input"),
            Error::ExpectedArray => String::from_str("expected array value in input"),
            Error::ExpectedObject => String::from_str("expected object value in input"),
            Error::NumberTooLarge => String::from_str(
                "number was too large to parse into requested type",
            ),
            Error::InvalidUtf8 => String::from_str("invalid utf8 encountered when parsing string"),
            Error::TrailingBytes(n) => {
                let count = n.to_string();
                String::from_str("found ").concat(count.as_str()).concat(
                    " trailing bytes after parsing input",
                )
            },
            Error::Unimplemented(b) => String::from_str(
                "parsing for byte sequence starting 0x",
            ).concat(hex_digit(*b / 16)).concat(hex_digit(*b % 16)).concat(" is not implemented"),
            Error::Malformed => String::from_str("container header contradicts its contents"),
        }
    }
}

} // verus!
