use vstd::prelude::*;

use crate::bytes::{be_bytes, be_value, push_all, read_be_u32, copy_range};
use crate::crc::{crc32, crc32_of};
use crate::error::DmiError;

verus! {

/// A byte that may stand in a chunk type: an ASCII letter.
pub open spec fn is_type_byte(c: u8) -> bool {
    (65 <= c <= 90) || (97 <= c <= 122)
}

/// Four bytes that form a chunk type.
pub open spec fn is_chunk_type(t: Seq<u8>) -> bool {
    t.len() == 4 && forall|i: int| 0 <= i < 4 ==> is_type_byte(#[trigger] t[i])
}

/// The CRC that a chunk of type `t` with data `d` must carry.
pub open spec fn chunk_crc(t: Seq<u8>, d: Seq<u8>) -> u32 {
    crc32_of(t + d)
}

/// The CRC field at the end of a framed chunk `b`.
pub open spec fn stated_crc(b: Seq<u8>) -> int {
    be_value(b.subrange(b.len() - 4, b.len() as int))
}

/// The data field of a framed chunk `b`: what lies between the type and the CRC.
pub open spec fn framed_data(b: Seq<u8>) -> Seq<u8> {
    b.subrange(8, b.len() - 4)
}

/// `b` decodes as one chunk: at least twelve bytes, a valid type, and a CRC that matches.
pub open spec fn chunk_decodes(b: Seq<u8>) -> bool {
    &&& b.len() >= 12
    &&& is_chunk_type(b.subrange(4, 8))
    &&& stated_crc(b) == chunk_crc(b.subrange(4, 8), framed_data(b)) as int
}

/// The length field of a framed chunk `b` counts the bytes of its data.
pub open spec fn length_ok(b: Seq<u8>) -> bool {
    b.len() >= 12 && be_value(b.subrange(0, 4)) == b.len() - 12
}

/// A chunk of a PNG stream, kept exactly as its four fields were framed.
#[derive(Clone, PartialEq, Eq, Debug, Default)]
pub struct RawGenericChunk {
    pub data_length: [u8; 4],
    pub chunk_type: [u8; 4],
    pub data: Vec<u8>,
    pub crc: [u8; 4],
}

impl RawGenericChunk {
    /// The bytes that frame this chunk: length, type, data and CRC in that order.
    pub open spec fn encoded(&self) -> Seq<u8> {
        self.data_length@ + self.chunk_type@ + self.data@ + self.crc@
    }

    /// The length field agrees with the data and the CRC field with type and data.
    pub open spec fn wf(&self) -> bool {
        &&& self.data@.len() <= u32::MAX
        &&& self.data_length@ == be_bytes(self.data@.len() as u32)
        &&& is_chunk_type(self.chunk_type@)
        &&& self.crc@ == be_bytes(chunk_crc(self.chunk_type@, self.data@))
    }

    /// Decodes one chunk that spans the whole of `bytes`.
    ///
    /// Fails with `Truncated` under twelve bytes, with `InvalidChunkType` when a
    /// type byte is not a letter, with `UnexpectedChunk` when the length field does
    /// not count the data, and with `CrcMismatch` when the stated CRC is not the
    /// CRC-32 of type and data. The data is what lies between type and CRC.
    pub fn load(bytes: &[u8]) -> (r: Result<RawGenericChunk, DmiError>)
        ensures
            r is Ok <==> chunk_decodes(bytes@) && length_ok(bytes@),
            r is Ok ==> r->Ok_0.encoded() == bytes@,
            bytes@.len() >= 12 && is_chunk_type(bytes@.subrange(4, 8)) && !length_ok(bytes@) ==> r
                == Err::<RawGenericChunk, DmiError>(DmiError::UnexpectedChunk),
            bytes@.len() < 12 ==> r == Err::<RawGenericChunk, DmiError>(DmiError::Truncated),
            bytes@.len() >= 12 && !is_chunk_type(bytes@.subrange(4, 8)) ==> (r matches Err(
                DmiError::InvalidChunkType { chunk_type },
            ) && chunk_type@ == bytes@.subrange(4, 8)),
            bytes@.len() >= 12 && is_chunk_type(bytes@.subrange(4, 8)) && length_ok(bytes@) && !chunk_decodes(
                bytes@,
            ) ==> r == Err::<RawGenericChunk, DmiError>(
                DmiError::CrcMismatch {
                    stated: stated_crc(bytes@) as u32,
                    calculated: chunk_crc(bytes@.subrange(4, 8), framed_data(bytes@)),
                },
            ),
    {
        let n = bytes.len();
        if n < 12 {
            return Err(DmiError::Truncated);
        }
        let data_length = [bytes[0], bytes[1], bytes[2], bytes[3]];
        let chunk_type = [bytes[4], bytes[5], bytes[6], bytes[7]];
        assert(chunk_type@ =~= bytes@.subrange(4, 8));
        let mut i: usize = 0;
        while i < 4
            invariant
                i <= 4,
                n == bytes@.len(),
                n >= 12,
                chunk_type@ == bytes@.subrange(4, 8),
                forall|j: int| 0 <= j < i ==> is_type_byte(#[trigger] chunk_type@[j]),
            decreases 4 - i,
        {
            let c = chunk_type[i];
            if !((65 <= c && c <= 90) || (97 <= c && c <= 122)) {
                return Err(DmiError::InvalidChunkType { chunk_type });
            }
            i = i + 1;
        }
        let stated_length = read_be_u32(bytes, 0);
        if stated_length as usize != n - 12 {
            return Err(DmiError::UnexpectedChunk);
        }
        let data = copy_range(bytes, 8, n - 4);
        let crc = [bytes[n - 4], bytes[n - 3], bytes[n - 2], bytes[n - 1]];
        let stated = read_be_u32(bytes, n - 4);
        let mut covered: Vec<u8> = Vec::new();
        push_all(&mut covered, &chunk_type);
        push_all(&mut covered, data.as_slice());
        let calculated = crc32(covered.as_slice());
        if stated != calculated {
            return Err(DmiError::CrcMismatch { stated, calculated });
        }
        let r = RawGenericChunk { data_length, chunk_type, data, crc };
        assert(r.encoded() =~= bytes@);
        Ok(r)
    }

    /// Appends the framed chunk to `out` and returns how many bytes that was.
    pub fn save(&self, out: &mut Vec<u8>) -> (r: usize)
        ensures
            final(out)@ == old(out)@ + self.encoded(),
            r == self.data@.len() + 12,
    {
        let before = out.len();
        push_all(out, &self.data_length);
        push_all(out, &self.chunk_type);
        push_all(out, self.data.as_slice());
        push_all(out, &self.crc);
        assert(out@ =~= old(out)@ + self.encoded());
        out.len() - before
    }
}

/// Decoding a chunk and framing it again gives back the same bytes: where `load`
/// accepts `bytes` it returns a chunk `c` whose encoding is `bytes`, and `save` of
/// `c` into an empty buffer leaves exactly `c`'s encoding there.
pub proof fn lemma_chunk_round_trip(bytes: Seq<u8>, c: RawGenericChunk, out: Seq<u8>)
    requires
        chunk_decodes(bytes),
        length_ok(bytes),
        c.encoded() == bytes,
        out == Seq::<u8>::empty() + c.encoded(),
    ensures
        out == bytes,
        c.data@ == framed_data(bytes),
        c.chunk_type@ == bytes.subrange(4, 8),
{
    assert(out =~= bytes);
    assert(c.data@ =~= bytes.subrange(8, bytes.len() - 4));
    assert(c.chunk_type@ =~= bytes.subrange(4, 8));
}

} // verus!
