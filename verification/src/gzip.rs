//! Gzip compression, done by `flate2`.
use vstd::prelude::*;

verus! {

/// What `flate2`'s gzip encoder makes of `data` at compression level `level`.
pub uninterp spec fn gzip_bytes(data: Seq<u8>, level: u32) -> Seq<u8>;

/// What `flate2`'s gzip decoder makes of `data`: the bytes of the first member, or the text of
/// its error.
pub uninterp spec fn gunzip_result(data: Seq<u8>) -> Result<Seq<u8>, Seq<char>>;

/// `data` starts with the two bytes that mark a gzip file.
pub open spec fn has_gzip_magic(data: Seq<u8>) -> bool {
    data.len() >= 2 && data[0] == 0x1f && data[1] == 0x8b
}

/// Calls `flate2::write::GzEncoder` on a vector: `new`, one `write_all` of `data`, `finish`.
///
/// Trusted: the bytes depend on the data and the level alone, start with the gzip mark, and
/// `flate2`'s decoder gives back the data. Neither call fails, since a vector takes every
/// write. Levels above 9 are left out: `flate2` documents a scale of 0 to 9.
#[verifier::external_body]
pub(crate) fn gzip(data: &[u8], level: u32) -> (out: Vec<u8>)
    requires
        level <= 9,
    ensures
        out@ == gzip_bytes(data@, level),
        has_gzip_magic(out@),
        (gunzip_result(out@) == Ok::<Seq<u8>, Seq<char>>(data@)),
{
    let level = flate2::Compression::new(level);
    let mut encoder = flate2::write::GzEncoder::new(Vec::new(), level);
    std::io::Write::write_all(&mut encoder, data).expect("a vector takes every write");
    encoder.finish().expect("a vector takes every write")
}

/// Calls `flate2::read::GzDecoder` on `data`: `new`, then `read_to_end`.
///
/// Trusted: the outcome depends on the data alone. It is named, not described: the decoder
/// follows the gzip format.
#[verifier::external_body]
pub(crate) fn gunzip(data: &[u8]) -> (out: Result<Vec<u8>, String>)
    ensures
        match out {
            Ok(bytes) => gunzip_result(data@) == Ok::<Seq<u8>, Seq<char>>(bytes@),
            Err(text) => gunzip_result(data@) == Err::<Seq<u8>, Seq<char>>(text@),
        },
{
    let mut out = Vec::new();
    let mut decoder = flate2::read::GzDecoder::new(data);
    match std::io::Read::read_to_end(&mut decoder, &mut out) {
        Ok(_) => Ok(out),
        Err(e) => Err(e.to_string()),
    }
}

} // verus!
