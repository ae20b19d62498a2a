//! Compressed data.
use vstd::prelude::*;

use crate::wiztree_csv::WizTreeCsvRecord;

verus! {

/// What `flate2::bufread::MultiGzDecoder` reads from compressed data, `None` if the
/// data is not valid.
pub uninterp spec fn decompressed(data: Seq<u8>) -> Option<Seq<u8>>;

/// Reads everything from `flate2::bufread::MultiGzDecoder`. What is read, or that
/// there is an error, is a function of the data alone.
#[verifier::external_body]
fn gunzip(data: &[u8]) -> (bytes: Option<Vec<u8>>)
    ensures
        match bytes {
            Some(bytes) => decompressed(data@) == Some(bytes@),
            None => decompressed(data@) is None,
        },
{
    let mut bytes = Vec::new();
    match std::io::Read::read_to_end(
        &mut flate2::bufread::MultiGzDecoder::new(data),
        &mut bytes,
    ) {
        Ok(_) => Some(bytes),
        Err(_) => None,
    }
}

/// Writes bytes to `flate2::write::GzEncoder` with the best compression, which makes
/// data that those bytes can be read from again. Nothing is said about the compressed
/// bytes themselves, which differ between implementations of the format.
#[verifier::external_body]
fn gzip(bytes: &[u8]) -> (data: Vec<u8>)
    ensures
        decompressed(data@) == Some(bytes@),
{
    let mut encoder = flate2::write::GzEncoder::new(Vec::new(), flate2::Compression::best());
    std::io::Write::write_all(&mut encoder, bytes).expect("a vector can be written to");
    encoder.finish().expect("a vector can be written to")
}

impl WizTreeCsvRecord {
    /// The CSV text in compressed data. `None` if it cannot be decompressed.
    pub fn parse_compressed_csv(data: &[u8]) -> (csv: Option<Vec<u8>>)
        ensures
            match decompressed(data@) {
                Some(bytes) => csv matches Some(csv) && csv@ == bytes,
                None => csv is None,
            },
    {
        gunzip(data)
    }

    /// Compresses a CSV text as much as possible. It can be decompressed again.
    pub fn create_compressed_csv(csv: &[u8]) -> (data: Vec<u8>)
        ensures
            decompressed(data@) == Some(csv@),
    {
        gzip(csv)
    }
}

} // verus!
