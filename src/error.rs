use vstd::prelude::*;

verus! {

/// Every way an operation of this library can fail.
#[derive(Debug)]
pub enum Error {
    /// The descriptor could not be read.
    Io(String),
    /// Malformed bencode; the payload is the offset where decoding stopped.
    BencodeDecode(usize),
    /// A value with a repeated dictionary key, which cannot be encoded.
    BencodeEncode(String),
    /// Well-formed bencode that does not describe a torrent.
    InvalidMetainfo(String),
    /// A tracker response that does not follow the protocol.
    Tracker(String),
    /// The HTTP exchange with the tracker failed.
    Http(String),
    /// The announce URL is malformed.
    UrlParse(url::ParseError),
}

#[verifier::external_type_specification]
#[verifier::external_body]
pub struct ExParseError(url::ParseError);

} // verus!
