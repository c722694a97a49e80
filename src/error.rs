use vstd::prelude::*;

verus! {

/// The errors of the library, each with a human-readable message.
#[derive(Debug, Clone)]
pub enum ExcelError {
    /// A read ran past the end of a stream, or the archive layer failed.
    Io(String),
    /// The archive layer failed in a way other than plain I/O.
    Zip(String),
    /// The XML of a part is malformed.
    Xml(String),
    /// A numeric conversion failed.
    Parse(String),
    /// A UTF-8 or UTF-16 field could not be decoded.
    Encoding(String),
    /// An unexpected tag, a bad signature or a broken structural rule.
    Malformed(String),
}

pub type ExcelResult<T> = Result<T, ExcelError>;

pub fn malformed(msg: &str) -> (e: ExcelError)
    ensures
        e is Malformed,
        e->Malformed_0@ == msg@,
{
    ExcelError::Malformed(msg.to_owned())
}

pub fn eof() -> (e: ExcelError)
    ensures
        e is Io,
{
    ExcelError::Io("failed to fill whole buffer".to_owned())
}

pub fn bad_encoding(msg: &str) -> (e: ExcelError)
    ensures
        e is Encoding,
        e->Encoding_0@ == msg@,
{
    ExcelError::Encoding(msg.to_owned())
}

} // verus!
