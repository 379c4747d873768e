//! What a decoder reports when it cannot go on.

use vstd::prelude::*;
use vstd::string::*;

use crate::text::{decimal, push_decimal};

verus! {

/// An error encountered while decoding a TBON stream.
#[derive(Debug)]
pub struct Error {
    message: String,
}

impl View for Error {
    type V = Seq<char>;

    /// The text of the error.
    closed spec fn view(&self) -> Seq<char> {
        self.message@
    }
}

/// The text of an error about a value of the wrong type.
pub open spec fn invalid_type_text(found: Seq<char>, expected: Seq<char>) -> Seq<char> {
    "invalid type: "@ + found + ", expected "@ + expected
}

/// The text of an error about a value of the right type that is wrong otherwise.
pub open spec fn invalid_value_text(found: Seq<char>, expected: Seq<char>) -> Seq<char> {
    "invalid value: "@ + found + ", expected "@ + expected
}

/// The text of an error about `len` bytes where `expected` needs another number of them.
pub open spec fn invalid_length_text(len: nat, expected: Seq<char>) -> Seq<char> {
    "invalid length: "@ + decimal(len) + ", expected "@ + expected
}

/// The text of an error about a list or map inside more than `max` others.
pub open spec fn depth_text(max: nat) -> Seq<char> {
    "nesting depth limit exceeded (max "@ + decimal(max) + ")"@
}

/// The text of an error about a byte that is no type bit.
pub open spec fn type_bit_text(code: u8) -> Seq<char> {
    "invalid type bit: "@ + decimal(code as nat)
}

impl Error {
    /// An error with the given text.
    pub fn custom(message: String) -> (e: Error)
        ensures
            e@ == message@,
    {
        Error { message }
    }

    /// The text of the error.
    pub fn message(&self) -> (s: &str)
        ensures
            s@ == self@,
    {
        self.message.as_str()
    }

    /// The bytes of a string are not UTF-8; `info` says where they stop being so.
    pub fn invalid_utf8(info: &str) -> (e: Error)
        ensures
            e@ == "invalid UTF-8: "@ + info@,
    {
        let mut message = String::from_str("invalid UTF-8: ");
        message.append(info);
        Error { message }
    }

    /// The stream ended inside a value.
    pub fn unexpected_end() -> (e: Error)
        ensures
            e@ == "unexpected end of stream"@,
    {
        Error { message: String::from_str("unexpected end of stream") }
    }

    /// The stream goes on behind the value.
    pub fn trailing_bytes() -> (e: Error)
        ensures
            e@ == "expected end of stream, found trailing bytes"@,
    {
        Error { message: String::from_str("expected end of stream, found trailing bytes") }
    }

    /// A value of type `expected` was expected.
    pub fn invalid_type(found: &str, expected: &str) -> (e: Error)
        ensures
            e@ == invalid_type_text(found@, expected@),
    {
        let mut message = String::from_str("invalid type: ");
        message.append(found);
        message.append(", expected ");
        message.append(expected);
        Error { message }
    }

    /// The byte `found` is not what `expected` says.
    pub fn invalid_value(found: u8, expected: &str) -> (e: Error)
        ensures
            e@ == invalid_value_text(decimal(found as nat), expected@),
    {
        let mut message = String::from_str("invalid value: ");
        push_decimal(&mut message, found as usize);
        message.append(", expected ");
        message.append(expected);
        Error { message }
    }

    /// There are `len` bytes, which is not the number that `expected` needs.
    pub fn invalid_length(len: usize, expected: &str) -> (e: Error)
        ensures
            e@ == invalid_length_text(len as nat, expected@),
    {
        let mut message = String::from_str("invalid length: ");
        push_decimal(&mut message, len);
        message.append(", expected ");
        message.append(expected);
        Error { message }
    }

    /// A list or map is inside more than `max` others.
    pub fn too_deep(max: usize) -> (e: Error)
        ensures
            e@ == depth_text(max as nat),
    {
        let mut message = String::from_str("nesting depth limit exceeded (max ");
        push_decimal(&mut message, max);
        message.append(")");
        Error { message }
    }

    /// The byte `code` is no type bit.
    pub fn invalid_type_bit(code: u8) -> (e: Error)
        ensures
            e@ == type_bit_text(code),
    {
        let mut message = String::from_str("invalid type bit: ");
        push_decimal(&mut message, code as usize);
        Error { message }
    }
}

} // verus!
