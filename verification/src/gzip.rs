//! The gzip envelope, through libflate. The library only frames and checks
//! bytes; what inflate returns on given bytes is named, not restated.

use vstd::prelude::*;

verus! {

/// What gzip decoding returns on the given bytes: the inflated stream, or
/// nothing when the stream is not a well-formed gzip member. Inflation is a
/// function of the bytes alone.
pub uninterp spec fn gunzip_of(b: Seq<u8>) -> Option<Seq<u8>>;

/// Relies on libflate::gzip::Decoder and std::io::Read::read_to_end: reads
/// one gzip member and returns its inflated bytes, deterministically in the
/// input; any header, stream or checksum fault is an error.
#[verifier::external_body]
pub fn gzip_decompress(data: &Vec<u8>) -> (r: Option<Vec<u8>>)
    ensures
        match r {
            Some(v) => gunzip_of(data@) == Some(v@),
            None => gunzip_of(data@) is None,
        },
{
    let mut decoder = match libflate::gzip::Decoder::new(&data[..]) {
        Ok(d) => d,
        Err(_) => {
            return None;
        },
    };
    let mut out: Vec<u8> = Vec::new();
    match std::io::Read::read_to_end(&mut decoder, &mut out) {
        Ok(_) => Some(out),
        Err(_) => None,
    }
}

/// Relies on libflate::gzip::Encoder: writes the RFC 1952 header, whose
/// first three bytes are always 0x1f 0x8b 0x08, then a deflate stream and
/// trailer that libflate's own Decoder inflates back to the written input.
#[verifier::external_body]
pub fn gzip_compress(data: &Vec<u8>) -> (r: Option<Vec<u8>>)
    ensures
        match r {
            Some(v) => gunzip_of(v@) == Some(data@) && v@.len() >= 3 && v@[0] == 0x1f && v@[1]
                == 0x8b && v@[2] == 8,
            None => true,
        },
{
    let mut encoder = match libflate::gzip::Encoder::new(Vec::new()) {
        Ok(e) => e,
        Err(_) => {
            return None;
        },
    };
    if std::io::Write::write_all(&mut encoder, &data[..]).is_err() {
        return None;
    }
    encoder.finish().into_result().ok()
}

} // verus!
