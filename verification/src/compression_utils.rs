//! Compression of response bodies.

use vstd::prelude::*;

verus! {

/// The gzip stream that the encoder makes of `input` at its default level: a
/// gzip header without a time stamp, the deflated input, then its checksum and
/// length. It depends on the input alone.
pub uninterp spec fn gzip_bytes(input: Seq<u8>) -> Seq<u8>;

/// Compresses `input` into a gzip stream. This is `flate2`'s
/// `write::GzEncoder` at `Compression::default()`, writing into a `Vec`: the
/// contract gives its output a name and claims nothing more of it.
#[verifier::external_body]
pub fn gz_encoding(input: &Vec<u8>) -> (out: Vec<u8>)
    ensures
        out@ == gzip_bytes(input@),
{
    let mut encoder = flate2::write::GzEncoder::new(Vec::new(), flate2::Compression::default());
    std::io::Write::write_all(&mut encoder, input).unwrap();
    encoder.finish().unwrap()
}

} // verus!
