use vstd::prelude::*;

use flate2::read::ZlibDecoder;
use std::io::Read;

verus! {

/// What one `read` call of a `flate2::read::ZlibDecoder` made over `input`
/// leaves in a buffer that held `buf` before the call, or `None` where the
/// call returns an error.
pub uninterp spec fn zlib_read(input: Seq<u8>, buf: Seq<u8>) -> Option<Seq<u8>>;

/// Creates a `flate2::read::ZlibDecoder` over `input` and makes one call of
/// its `read` into `buf`. The call depends on its input and buffer alone; what
/// it leaves in the buffer is named by [`zlib_read`]. A buffer keeps its
/// length.
#[verifier::external_body]
fn zlib_decoder_read(input: &[u8], buf: &mut [u8]) -> (r: bool)
    ensures
        r <==> zlib_read(input@, old(buf)@) is Some,
        r ==> final(buf)@ == zlib_read(input@, old(buf)@).unwrap(),
        final(buf)@.len() == old(buf)@.len(),
{
    let mut d = ZlibDecoder::new(input);
    match d.read(buf) {
        Ok(_) => true,
        Err(_) => false,
    }
}

/// The stream data could not be decompressed.
#[derive(Debug, PartialEq)]
pub enum FilterError {
    CorruptData,
}

/// Ten times as many zero bytes as the compressed data holds: the buffer that
/// [`flate_decode`] fills.
pub open spec fn decode_buffer(bytes: Seq<u8>) -> Seq<u8> {
    Seq::new((bytes.len() * 10) as nat, |i: int| 0u8)
}

/// Decompresses zlib data into a buffer ten times as long as `bytes`, with
/// one read, and returns the whole buffer.
pub fn flate_decode(bytes: &[u8]) -> (r: Result<Vec<u8>, FilterError>)
    requires
        bytes@.len() * 10 <= usize::MAX,
    ensures
        match zlib_read(bytes@, decode_buffer(bytes@)) {
            Some(out) => r is Ok && r.unwrap()@ == out,
            None => r is Err,
        },
{
    let n = bytes.len() * 10;
    let mut buf: Vec<u8> = Vec::new();
    while buf.len() < n
        invariant
            n == bytes@.len() * 10,
            buf@.len() <= n,
            forall|i: int| 0 <= i < buf@.len() ==> buf@[i] == 0u8,
        decreases n - buf@.len(),
    {
        buf.push(0);
    }
    assert(buf@ =~= decode_buffer(bytes@));
    if zlib_decoder_read(bytes, buf.as_mut_slice()) {
        Ok(buf)
    } else {
        Err(FilterError::CorruptData)
    }
}

} // verus!
