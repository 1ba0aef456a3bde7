//! The error taxonomy: argument errors, filesystem errors, structural
//! container errors and pipeline errors, each carrying the offending value or
//! path for the user-facing message.

use vstd::prelude::*;
use vstd::string::StringExecFns;

verus! {

/// Everything that can go wrong, with the offending value or path.
#[derive(Debug)]
pub enum Error {
    ParseWidth(String),
    ParseHeight(String),
    ParseBuffer(String),
    ParseColorType(String),
    ParseBitDepth(String),
    WidthAndHeightDefined,
    ReadFail(String),
    WriteFail(String),
    InputDoesNotExist(String),
    InputNotAFile(String),
    ReadChunk(String),
    InvalidCRC(String),
    InvalidHeader(String),
    Encode(String),
    Decode(String),
    TrimError(String),
}

impl Error {
    /// The sentence shown to the user for this error.
    pub fn message(&self) -> (r: String)
        ensures
            r@ == self.spec_message(),
    {
        match self {
            Error::ParseWidth(s) => quoted("Invalid width of '", s, "'."),
            Error::ParseHeight(s) => quoted("Invalid height of '", s, "'."),
            Error::ParseBuffer(s) => quoted("Invalid buffer size of '", s, "'."),
            Error::ParseColorType(s) => quoted(
                "Invalid color type of '",
                s,
                "'. Color types of 0, 2, 4 & 6 are supported.",
            ),
            Error::ParseBitDepth(s) => quoted(
                "Invalid bit depth of '",
                s,
                "'. Bit depths of 8-bit and 16-bit are supported.",
            ),
            Error::WidthAndHeightDefined => "Cannot define both a width and height of the image."
                .to_owned(),
            Error::ReadFail(s) => quoted("Unable to open '", s, "' for reading."),
            Error::WriteFail(s) => quoted("Unable to open '", s, "' for writing."),
            Error::InputDoesNotExist(s) => quoted("Input file of '", s, "' does not exist."),
            Error::InputNotAFile(s) => quoted("Input of '", s, "' is not a file."),
            Error::ReadChunk(s) => quoted("Unable to read chunk from '", s, "'."),
            Error::InvalidCRC(s) => quoted("Unable to verify crc from '", s, "'."),
            Error::InvalidHeader(s) => quoted("Image of '", s, "' has invalid header."),
            Error::Encode(s) => quoted("Unable to encode '", s, "' as PNG."),
            Error::Decode(s) => quoted("Unable to decode '", s, "' from PNG."),
            Error::TrimError(s) => quoted("Unable to trim '", s, "'."),
        }
    }

    /// The characters of the user-facing message.
    pub open spec fn spec_message(&self) -> Seq<char> {
        match self {
            Error::ParseWidth(s) => "Invalid width of '"@ + s@ + "'."@,
            Error::ParseHeight(s) => "Invalid height of '"@ + s@ + "'."@,
            Error::ParseBuffer(s) => "Invalid buffer size of '"@ + s@ + "'."@,
            Error::ParseColorType(s) => "Invalid color type of '"@ + s@
                + "'. Color types of 0, 2, 4 & 6 are supported."@,
            Error::ParseBitDepth(s) => "Invalid bit depth of '"@ + s@
                + "'. Bit depths of 8-bit and 16-bit are supported."@,
            Error::WidthAndHeightDefined => "Cannot define both a width and height of the image."@,
            Error::ReadFail(s) => "Unable to open '"@ + s@ + "' for reading."@,
            Error::WriteFail(s) => "Unable to open '"@ + s@ + "' for writing."@,
            Error::InputDoesNotExist(s) => "Input file of '"@ + s@ + "' does not exist."@,
            Error::InputNotAFile(s) => "Input of '"@ + s@ + "' is not a file."@,
            Error::ReadChunk(s) => "Unable to read chunk from '"@ + s@ + "'."@,
            Error::InvalidCRC(s) => "Unable to verify crc from '"@ + s@ + "'."@,
            Error::InvalidHeader(s) => "Image of '"@ + s@ + "' has invalid header."@,
            Error::Encode(s) => "Unable to encode '"@ + s@ + "' as PNG."@,
            Error::Decode(s) => "Unable to decode '"@ + s@ + "' from PNG."@,
            Error::TrimError(s) => "Unable to trim '"@ + s@ + "'."@,
        }
    }
}

/// `before` + the quoted value + `after`.
fn quoted(before: &str, value: &String, after: &str) -> (r: String)
    ensures
        r@ == before@ + value@ + after@,
{
    let mut r = before.to_owned();
    r.append(value.as_str());
    r.append(after);
    r
}

} // verus!
