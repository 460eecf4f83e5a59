//! Transparent decoder: a raw buffer whose first two bytes are the gzip
//! magic number is gunzipped, any other buffer passes through unchanged,
//! and the resulting payload is decoded as UTF-8 text.
use vstd::prelude::*;
use vstd::utf8::{decode_utf8, valid_utf8};

verus! {

/// How a per-file scan fails: the file could not be read, or its
/// content could not be decoded (corrupt gzip data or invalid UTF-8).
#[derive(Clone, Copy, Debug, PartialEq, Eq, Structural)]
pub enum ErrorKind {
    Io,
    Decode,
}

/// The buffer begins with the two-byte gzip magic number 0x1F 0x8B.
pub open spec fn is_gzip(raw: Seq<u8>) -> bool {
    raw.len() >= 2 && raw[0] == 0x1f && raw[1] == 0x8b
}

/// What gunzipping a buffer yields when decompression succeeds.  The
/// result is a function of the input bytes alone; stating it in full
/// would take pages, so it only carries a name here.
pub uninterp spec fn gunzip_of(raw: Seq<u8>) -> Seq<u8>;

/// Relies on flate2's `read::GzDecoder` (read to end): decompresses the
/// gzip member or reports the corruption the read ran into.
#[verifier::external_body]
fn gunzip(raw: &Vec<u8>) -> (r: Result<Vec<u8>, ()>)
    ensures
        r is Ok ==> r->Ok_0@ == gunzip_of(raw@),
{
    let mut out: Vec<u8> = Vec::new();
    let mut dec = flate2::read::GzDecoder::new(raw.as_slice());
    match std::io::Read::read_to_end(&mut dec, &mut out) {
        Ok(_) => Ok(out),
        Err(_) => Err(()),
    }
}

/// Relies on `String::from_utf8`: succeeds exactly on valid UTF-8 and
/// returns the string holding those very bytes.
#[verifier::external_body]
fn utf8_to_string(bytes: Vec<u8>) -> (r: Result<String, ()>)
    ensures
        (r is Ok) == valid_utf8(bytes@),
        r is Ok ==> r->Ok_0@ == decode_utf8(bytes@),
{
    match String::from_utf8(bytes) {
        Ok(s) => Ok(s),
        Err(_) => Err(()),
    }
}

/// The decompressed payload of a raw buffer.
pub open spec fn payload_of(raw: Seq<u8>) -> Seq<u8> {
    if is_gzip(raw) {
        gunzip_of(raw)
    } else {
        raw
    }
}

/// The decoded text of a raw buffer.
pub open spec fn text_of(raw: Seq<u8>) -> Seq<char> {
    decode_utf8(payload_of(raw))
}

/// Decodes a raw buffer to text: buffers led by the gzip magic are
/// gunzipped first, then the payload is decoded as UTF-8.  A corrupt
/// gzip stream or invalid UTF-8 is the per-file decode error; a plain
/// buffer of valid UTF-8 always decodes.
pub fn decode_text(raw: &Vec<u8>) -> (r: Result<String, ErrorKind>)
    ensures
        r is Ok ==> valid_utf8(payload_of(raw@)) && r->Ok_0@ == text_of(raw@),
        r is Err ==> r->Err_0 == ErrorKind::Decode,
        !is_gzip(raw@) ==> ((r is Ok) == valid_utf8(raw@)),
{
    let gz = raw.len() >= 2 && raw[0] == 0x1f && raw[1] == 0x8b;
    let payload: Vec<u8> = if gz {
        match gunzip(raw) {
            Ok(b) => b,
            Err(_) => {
                return Err(ErrorKind::Decode);
            },
        }
    } else {
        raw.clone()
    };
    match utf8_to_string(payload) {
        Ok(s) => Ok(s),
        Err(_) => Err(ErrorKind::Decode),
    }
}

} // verus!
