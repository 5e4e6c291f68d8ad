//! The zlib codec, taken from the `flate2` crate.  Compressed bytes are not
//! modelled; `deflate_of` and `inflate_prefix` name what the crate computes,
//! and contracts elsewhere speak of those names.

use crate::err::GitError;
use vstd::prelude::*;
use std::io::Read;

verus! {

/// The zlib stream that `flate2`'s encoder at compression level 0 produces
/// for the given bytes.  A function of the input bytes alone.
pub uninterp spec fn deflate_of(data: Seq<u8>) -> Seq<u8>;

/// What `flate2`'s decoder makes of a byte string that starts with a zlib
/// stream: the decompressed bytes and how many input bytes the stream
/// occupied, or `None` when no well-formed stream starts there.  A function
/// of the input bytes alone.
pub uninterp spec fn inflate_prefix(data: Seq<u8>) -> Option<(Seq<u8>, int)>;

/// Relies on `flate2::read::ZlibEncoder` with `Compression::none`: the
/// result is the zlib encoding of the input, and `flate2`'s own decoder
/// turns it back into exactly the input, consuming the whole stream.
/// Reading from an in-memory slice, the encoder has no failure path.
#[verifier::external_body]
pub fn zlib_deflate(data: &[u8]) -> (r: Vec<u8>)
    ensures
        r@ == deflate_of(data@),
        inflate_prefix(r@) == Some((data@, r@.len() as int)),
{
    let mut enc = flate2::read::ZlibEncoder::new(data, flate2::Compression::none());
    let mut buf = Vec::new();
    enc.read_to_end(&mut buf).expect("compressing an in-memory slice cannot fail");
    buf
}

/// Relies on `flate2::bufread::ZlibDecoder` over a cursor: decompresses the
/// zlib stream that starts at `from`, reporting the decompressed bytes and
/// how many compressed bytes the stream occupied; fails exactly when no
/// well-formed stream starts there.
#[verifier::external_body]
pub fn zlib_inflate_prefix(data: &[u8], from: usize) -> (r: Result<(Vec<u8>, usize), GitError>)
    requires
        from <= data@.len(),
    ensures
        r is Ok <==> inflate_prefix(data@.skip(from as int)) is Some,
        r is Ok ==> {
            let (out, used) = r->Ok_0;
            &&& Some((out@, used as int)) == inflate_prefix(data@.skip(from as int))
            &&& used <= data@.len() - from
        },
        r is Err ==> r->Err_0 == GitError::ProtocolError,
{
    let mut cursor = std::io::Cursor::new(&data[from..]);
    let mut dec = flate2::bufread::ZlibDecoder::new(&mut cursor);
    let mut buf = Vec::new();
    match dec.read_to_end(&mut buf) {
        Ok(_) => {
            let used = cursor.position() as usize;
            Ok((buf, used))
        },
        Err(_) => Err(GitError::ProtocolError),
    }
}

} // verus!
