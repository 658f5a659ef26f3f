use vstd::prelude::*;

use crate::bytes::push_all;
use crate::chunk::RawGenericChunk;
use crate::error::DmiError;

verus! {

/// The type of the chunk that ends a PNG stream.
pub const IEND_TYPE: [u8; 4] = [73, 69, 78, 68];

/// The twelve bytes of the one IEND chunk there is: no data, and the CRC of "IEND".
pub open spec fn iend_bytes() -> Seq<u8> {
    seq![0u8, 0, 0, 0, 73, 69, 78, 68, 174, 66, 96, 130]
}

/// The chunk that ends a PNG stream. It has one shape only.
#[derive(Clone, PartialEq, Eq, Debug)]
pub struct RawIendChunk {
    pub data_length: [u8; 4],
    pub chunk_type: [u8; 4],
    pub crc: [u8; 4],
}

impl RawIendChunk {
    pub open spec fn encoded(&self) -> Seq<u8> {
        self.data_length@ + self.chunk_type@ + self.crc@
    }

    /// The chunk holds the one valid IEND framing.
    pub open spec fn wf(&self) -> bool {
        self.encoded() == iend_bytes()
    }

    pub fn new() -> (r: RawIendChunk)
        ensures
            r.wf(),
    {
        let r = RawIendChunk { data_length: [0, 0, 0, 0], chunk_type: IEND_TYPE, crc: [174, 66, 96, 130] };
        assert(r.encoded() =~= iend_bytes());
        r
    }

    /// The number of bytes the framed chunk takes.
    pub fn length(&self) -> (r: usize)
        ensures
            r == self.encoded().len(),
            r == 12,
    {
        self.data_length.len() + self.chunk_type.len() + self.crc.len()
    }

    /// Decodes an IEND chunk that spans the whole of `bytes`; anything but the
    /// twelve fixed bytes is refused.
    pub fn load(bytes: &[u8]) -> (r: Result<RawIendChunk, DmiError>)
        ensures
            r is Ok <==> bytes@ == iend_bytes(),
            r is Ok ==> r->Ok_0.wf(),
            r is Err ==> r == Err::<RawIendChunk, DmiError>(DmiError::UnexpectedChunk),
    {
        let expected = RawIendChunk::new();
        if bytes.len() != expected.length() {
            return Err(DmiError::UnexpectedChunk);
        }
        let fixed: [u8; 12] = [0, 0, 0, 0, 73, 69, 78, 68, 174, 66, 96, 130];
        assert(fixed@ =~= iend_bytes());
        let mut i: usize = 0;
        while i < 12
            invariant
                i <= 12,
                bytes@.len() == 12,
                fixed@ == iend_bytes(),
                forall|j: int| 0 <= j < i ==> bytes@[j] == #[trigger] iend_bytes()[j],
            decreases 12 - i,
        {
            let want = fixed[i];
            if bytes[i] != want {
                return Err(DmiError::UnexpectedChunk);
            }
            i = i + 1;
        }
        assert(bytes@ =~= iend_bytes());
        Ok(expected)
    }

    /// Appends the framed chunk to `out` and returns how many bytes that was.
    pub fn save(&self, out: &mut Vec<u8>) -> (r: usize)
        ensures
            final(out)@ == old(out)@ + self.encoded(),
            r == 12,
    {
        let before = out.len();
        push_all(out, &self.data_length);
        push_all(out, &self.chunk_type);
        push_all(out, &self.crc);
        assert(out@ =~= old(out)@ + self.encoded());
        out.len() - before
    }

    /// Takes a decoded chunk as the IEND chunk: it must have the type IEND, no
    /// data, and the CRC of an empty IEND chunk.
    pub fn from_generic(chunk: RawGenericChunk) -> (r: Result<RawIendChunk, DmiError>)
        ensures
            r is Ok <==> (chunk.data@.len() == 0 && chunk.chunk_type@ == iend_bytes().subrange(4, 8)
                && chunk.crc@ == iend_bytes().subrange(8, 12)),
            r is Ok ==> r->Ok_0.wf(),
            r is Err ==> r == Err::<RawIendChunk, DmiError>(DmiError::UnexpectedChunk),
    {
        let expected = RawIendChunk::new();
        assert(expected.chunk_type@ =~= iend_bytes().subrange(4, 8));
        assert(expected.crc@ =~= iend_bytes().subrange(8, 12));
        if chunk.data.len() != 0 {
            return Err(DmiError::UnexpectedChunk);
        }
        if chunk.chunk_type[0] != expected.chunk_type[0] || chunk.chunk_type[1] != expected.chunk_type[1]
            || chunk.chunk_type[2] != expected.chunk_type[2] || chunk.chunk_type[3] != expected.chunk_type[3]
        {
            return Err(DmiError::UnexpectedChunk);
        }
        if chunk.crc[0] != expected.crc[0] || chunk.crc[1] != expected.crc[1] || chunk.crc[2] != expected.crc[2]
            || chunk.crc[3] != expected.crc[3]
        {
            return Err(DmiError::UnexpectedChunk);
        }
        assert(chunk.chunk_type@ =~= expected.chunk_type@);
        assert(chunk.crc@ =~= expected.crc@);
        Ok(expected)
    }
}

impl Default for RawIendChunk {
    fn default() -> (r: RawIendChunk)
        ensures
            r.wf(),
    {
        RawIendChunk::new()
    }
}

} // verus!
