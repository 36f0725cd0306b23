//! Dictionary files: the image of a dictionary, compressed with zstd.
use vstd::prelude::*;

use crate::dictionary::persist::{dict_fits, dict_valid, dict_view, image_bytes, image_view, lemma_image_roundtrip};
use crate::dictionary::{Dictionary, DictionaryInner};
use crate::errors::{Source, VibratoError};

verus! {

/// What zstd decompression gives for the bytes `compressed`: the bytes of
/// its frames, or `None` where they are not zstd data.
pub uninterp spec fn zstd_decoded(compressed: Seq<u8>) -> Option<Seq<u8>>;

/// The compression level of dictionary files.
pub const MODEL_LEVEL: i32 = 19;

/// Decompresses `compressed`.
///
/// Wraps `zstd::decode_all` on a byte slice. The contract claims that the
/// result is a function of the bytes alone: the decompressed bytes where
/// they are zstd data, and an error exactly where they are not.
#[verifier::external_body]
fn zstd_decode(compressed: &[u8]) -> (r: Option<Vec<u8>>)
    ensures
        match r {
            Some(v) => zstd_decoded(compressed@) == Some(v@),
            None => zstd_decoded(compressed@) is None,
        },
{
    match zstd::decode_all(compressed) {
        Ok(v) => Some(v),
        Err(_) => None,
    }
}

/// Compresses `raw` at the level `level`.
///
/// Wraps `zstd::encode_all` on a byte slice: one single-threaded stream
/// from the slice into a `Vec`, with no dictionary. The contract claims
/// that, at one of zstd's levels `1..=22`, it succeeds (zstd reports an
/// error there only when it cannot allocate memory, which this library, as
/// vstd does for std's allocations, does not model), and, since zstd is
/// lossless, that decompressing the result gives `raw` back. It does not
/// claim which bytes come out: zstd does not document its output as the
/// same on every machine.
#[verifier::external_body]
fn zstd_encode(raw: &[u8], level: i32) -> (r: Option<Vec<u8>>)
    ensures
        1 <= level <= 22 ==> r is Some,
        r matches Some(v) ==> zstd_decoded(v@) == Some(raw@),
{
    match zstd::encode_all(raw, level) {
        Ok(v) => Some(v),
        Err(_) => None,
    }
}

/// Reads a dictionary file: decompresses it and reads the image it holds.
///
/// Fails with `InvalidFormat(Model)` unless the bytes are zstd data whose
/// content is an image of consistent parts.
pub fn read_model(compressed: &[u8]) -> (r: Result<Dictionary, VibratoError>)
    ensures
        match r {
            Ok(d) => d.wf() && (zstd_decoded(compressed@) matches Some(b) && image_view(b) == Some(
                dict_view(*d.inner()),
            )),
            Err(e) => e == VibratoError::InvalidFormat(Source::Model) && !(zstd_decoded(
                compressed@,
            ) matches Some(b) && image_view(b) matches Some(v) && dict_valid(v)),
        },
{
    match zstd_decode(compressed) {
        Some(bytes) => Dictionary::from_bytes(&bytes),
        None => Err(VibratoError::InvalidFormat(Source::Model)),
    }
}

/// Writes a dictionary file: the image of the dictionary, compressed at
/// `MODEL_LEVEL`.
///
/// Fails with `InvalidArgument(Model)` exactly when a list of the
/// dictionary is too long for the image.
pub fn write_model(d: &DictionaryInner) -> (r: Result<Vec<u8>, VibratoError>)
    requires
        d.wf(),
    ensures
        match r {
            Ok(v) => {
                &&& dict_fits(dict_view(*d))
                &&& zstd_decoded(v@) == Some(image_bytes(dict_view(*d)))
            },
            Err(e) => e == VibratoError::InvalidArgument(Source::Model) && !dict_fits(dict_view(*d)),
        },
{
    let mut image: Vec<u8> = Vec::new();
    d.write(&mut image)?;
    proof {
        assert(image@ =~= image_bytes(dict_view(*d)));
    }
    match zstd_encode(image.as_slice(), MODEL_LEVEL) {
        Some(v) => Ok(v),
        None => Err(VibratoError::InvalidArgument(Source::Model)),
    }
}

/// Reading a dictionary file gives back the dictionary that was written to
/// it: the bytes of a file written from a consistent dictionary decompress
/// to its image, and reading that image gives back all its parts.
pub proof fn lemma_model_roundtrip(d: DictionaryInner, file: Seq<u8>)
    requires
        d.wf(),
        dict_fits(dict_view(d)),
        zstd_decoded(file) == Some(image_bytes(dict_view(d))),
    ensures
        (zstd_decoded(file) matches Some(b) && image_view(b) == Some(dict_view(d))),
        dict_valid(dict_view(d)),
{
    lemma_image_roundtrip(d);
}

} // verus!
