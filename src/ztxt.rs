use vstd::prelude::*;

use crate::bytes::{be_bytes, be_value, copy_range, push_all, read_be_u32, write_be_u32};
use crate::chunk::{chunk_crc, framed_data, stated_crc, RawGenericChunk};
use crate::ztxt_data_loads;
use crate::crc::crc32;
use crate::error::DmiError;

verus! {

/// The type of a compressed text chunk.
pub const ZTXT_TYPE: [u8; 4] = [122, 84, 88, 116];

pub open spec fn ztxt_type() -> Seq<u8> {
    seq![122u8, 84, 88, 116]
}

/// The keyword this library writes: "Description".
pub open spec fn description_keyword() -> Seq<u8> {
    seq![68u8, 101, 115, 99, 114, 105, 112, 116, 105, 111, 110]
}

/// What zlib makes of `text`.
pub uninterp spec fn zlib_compressed(text: Seq<u8>) -> Seq<u8>;

/// What a zlib stream decompresses to, or `None` where it is no valid stream.
pub uninterp spec fn zlib_decompressed(stream: Seq<u8>) -> Option<Seq<u8>>;

/// Relies on `deflate::deflate_bytes_zlib`: a zlib stream of the input at the
/// default compression level, which depends on the input alone.
#[verifier::external_body]
pub fn encode(text_to_compress: &[u8]) -> (r: Vec<u8>)
    ensures
        r@ == zlib_compressed(text_to_compress@),
{
    deflate::deflate_bytes_zlib(text_to_compress)
}

/// Relies on `inflate::inflate_bytes_zlib`: the decompressed bytes of a zlib
/// stream, or an error message where the stream is not valid.
#[verifier::external_body]
fn inflate_zlib(stream: &[u8]) -> (r: Option<Vec<u8>>)
    ensures
        r is Some <==> zlib_decompressed(stream@) is Some,
        r is Some ==> r->Some_0@ == zlib_decompressed(stream@)->Some_0,
{
    inflate::inflate_bytes_zlib(stream).ok()
}

/// The position of the first NUL byte of `b`, if any.
pub open spec fn first_nul(b: Seq<u8>) -> Option<int> {
    if exists|k: int| 0 <= k < b.len() && b[k] == 0 {
        Some(choose|k: int| 0 <= k < b.len() && b[k] == 0 && forall|j: int| 0 <= j < k ==> b[j] != 0)
    } else {
        None
    }
}

/// `k` is where the first NUL of `b` stands.
pub open spec fn is_first_nul(b: Seq<u8>, k: int) -> bool {
    0 <= k < b.len() && b[k] == 0 && forall|j: int| 0 <= j < k ==> b[j] != 0
}

/// Bytes framed as a `zTXt` chunk: twelve bytes at least, a length field that
/// counts the data, and the type `zTXt`.
pub open spec fn zchunk_framed(b: Seq<u8>) -> bool {
    &&& b.len() >= 12
    &&& be_value(b.subrange(0, 4)) == b.len() - 12
    &&& b.subrange(4, 8) == ztxt_type()
}

/// The data of a `zTXt` chunk: keyword, NUL, compression method, compressed text.
#[derive(Clone, PartialEq, Eq, Debug)]
pub struct RawZtxtData {
    pub keyword: Vec<u8>,
    pub null_separator: u8,
    pub compression_method: u8,
    pub compressed_text: Vec<u8>,
}

impl RawZtxtData {
    pub open spec fn encoded(&self) -> Seq<u8> {
        self.keyword@ + seq![self.null_separator, self.compression_method] + self.compressed_text@
    }

    /// The keyword holds no NUL, the separator is one, and the method is zlib.
    pub open spec fn wf(&self) -> bool {
        &&& forall|j: int| 0 <= j < self.keyword@.len() ==> #[trigger] self.keyword@[j] != 0
        &&& self.null_separator == 0
        &&& self.compression_method == 0
    }

    /// Splits chunk data at its first NUL into keyword and the rest; the byte
    /// after the NUL is the compression method, and what follows it the
    /// compressed text.
    ///
    /// Fails with `Truncated` where there is no NUL or nothing after it, and with
    /// `UnsupportedCompression` where the method is not zlib (zero).
    pub fn load(bytes: &[u8]) -> (r: Result<RawZtxtData, DmiError>)
        ensures
            r is Ok ==> r->Ok_0.wf() && r->Ok_0.encoded() == bytes@,
            (forall|k: int| is_first_nul(bytes@, k) ==> k + 1 >= bytes@.len()) ==> r
                == Err::<RawZtxtData, DmiError>(DmiError::Truncated),
            forall|k: int|
                is_first_nul(bytes@, k) && k + 1 < bytes@.len() ==> (if bytes@[k + 1] == 0 {
                    r is Ok
                } else {
                    r == Err::<RawZtxtData, DmiError>(
                        DmiError::UnsupportedCompression { method: bytes@[k + 1] },
                    )
                }),
    {
        let n = bytes.len();
        let mut k: usize = 0;
        while k < n && bytes[k] != 0
            invariant
                k <= n,
                n == bytes@.len(),
                forall|j: int| 0 <= j < k ==> bytes@[j] != 0,
            decreases n - k,
        {
            k = k + 1;
        }
        if n - k <= 1 {
            assert forall|m: int| is_first_nul(bytes@, m) implies m + 1 >= bytes@.len() by {
                if m < k {
                } else if m > k {
                    assert(bytes@[k as int] == 0);
                }
            }
            return Err(DmiError::Truncated);
        }
        assert(is_first_nul(bytes@, k as int));
        assert forall|m: int| is_first_nul(bytes@, m) implies m == k by {
            if m < k {
            } else if m > k {
            }
        }
        let method = bytes[k + 1];
        if method != 0 {
            return Err(DmiError::UnsupportedCompression { method });
        }
        let keyword = copy_range(bytes, 0, k);
        let compressed_text = copy_range(bytes, k + 2, n);
        let r = RawZtxtData { keyword, null_separator: 0, compression_method: method, compressed_text };
        assert(r.encoded() =~= bytes@);
        Ok(r)
    }

    /// Appends the data to `out` and returns how many bytes that was.
    pub fn save(&self, out: &mut Vec<u8>) -> (r: usize)
        ensures
            final(out)@ == old(out)@ + self.encoded(),
            r == self.encoded().len(),
    {
        let before = out.len();
        push_all(out, self.keyword.as_slice());
        out.push(self.null_separator);
        out.push(self.compression_method);
        push_all(out, self.compressed_text.as_slice());
        assert(out@ =~= old(out)@ + self.encoded());
        out.len() - before
    }

    /// Decompresses the compressed text.
    pub fn decode(&self) -> (r: Result<Vec<u8>, DmiError>)
        ensures
            r is Ok <==> zlib_decompressed(self.compressed_text@) is Some,
            r is Ok ==> r->Ok_0@ == zlib_decompressed(self.compressed_text@)->Some_0,
            r is Err ==> r == Err::<Vec<u8>, DmiError>(DmiError::Inflate),
    {
        match inflate_zlib(self.compressed_text.as_slice()) {
            Some(text) => Ok(text),
            None => Err(DmiError::Inflate),
        }
    }

    /// The number of bytes the data takes.
    pub fn length(&self) -> (r: usize)
        requires
            self.encoded().len() <= usize::MAX,
        ensures
            r == self.encoded().len(),
    {
        self.keyword.len() + 2 + self.compressed_text.len()
    }

    /// The CRC of a `zTXt` chunk carrying this data.
    pub fn crc(&self) -> (r: u32)
        ensures
            r == chunk_crc(ztxt_type(), self.encoded()),
    {
        let mut covered: Vec<u8> = Vec::new();
        push_all(&mut covered, &ZTXT_TYPE);
        assert(ZTXT_TYPE@ =~= ztxt_type());
        self.save(&mut covered);
        crc32(covered.as_slice())
    }
}

impl Default for RawZtxtData {
    /// Keyword "Description", zlib, and no text.
    fn default() -> (r: RawZtxtData)
        ensures
            r.keyword@ == description_keyword(),
            r.null_separator == 0,
            r.compression_method == 0,
            r.compressed_text@.len() == 0,
    {
        let keyword = vec![68u8, 101, 115, 99, 114, 105, 112, 116, 105, 111, 110];
        assert(keyword@ =~= description_keyword());
        RawZtxtData { keyword, null_separator: 0, compression_method: 0, compressed_text: Vec::new() }
    }
}

/// A `zTXt` chunk, with its data split into fields.
#[derive(Clone, PartialEq, Eq, Debug)]
pub struct RawZtxtChunk {
    pub data_length: [u8; 4],
    pub chunk_type: [u8; 4],
    pub data: RawZtxtData,
    pub crc: [u8; 4],
}

impl RawZtxtChunk {
    pub open spec fn encoded(&self) -> Seq<u8> {
        self.data_length@ + self.chunk_type@ + self.data.encoded() + self.crc@
    }

    /// Length and CRC agree with the data, and the type is `zTXt`.
    pub open spec fn wf(&self) -> bool {
        &&& self.data.wf()
        &&& self.data.encoded().len() <= u32::MAX
        &&& self.data_length@ == be_bytes(self.data.encoded().len() as u32)
        &&& self.chunk_type@ == ztxt_type()
        &&& self.crc@ == be_bytes(chunk_crc(ztxt_type(), self.data.encoded()))
    }

    /// Decodes a `zTXt` chunk that spans the whole of `bytes`.
    ///
    /// Fails with `Truncated` under twelve bytes, with `UnexpectedChunk` where the
    /// length field is not the data's length or the type is not `zTXt`, as the data
    /// does in `RawZtxtData::load`, and with `CrcMismatch` where the CRC does not
    /// match.
    pub fn load(bytes: &[u8]) -> (r: Result<RawZtxtChunk, DmiError>)
        ensures
            r is Ok ==> r->Ok_0.wf() && r->Ok_0.encoded() == bytes@,
            bytes@.len() < 12 ==> r == Err::<RawZtxtChunk, DmiError>(DmiError::Truncated),
            bytes@.len() >= 12 && (be_value(bytes@.subrange(0, 4)) != bytes@.len() - 12
                || bytes@.subrange(4, 8) != ztxt_type()) ==> r == Err::<RawZtxtChunk, DmiError>(
                DmiError::UnexpectedChunk,
            ),
            zchunk_framed(bytes@) ==> (r is Ok <==> (ztxt_data_loads(framed_data(bytes@)) && stated_crc(bytes@)
                == chunk_crc(ztxt_type(), framed_data(bytes@)) as int)),
            zchunk_framed(bytes@) && (forall|k: int| is_first_nul(framed_data(bytes@), k) ==> k + 1 >= framed_data(
                bytes@,
            ).len()) ==> r == Err::<RawZtxtChunk, DmiError>(DmiError::Truncated),
            zchunk_framed(bytes@) ==> forall|k: int|
                is_first_nul(framed_data(bytes@), k) && k + 1 < framed_data(bytes@).len() && framed_data(bytes@)[k + 1]
                    != 0 ==> r == Err::<RawZtxtChunk, DmiError>(
                    DmiError::UnsupportedCompression { method: framed_data(bytes@)[k + 1] },
                ),
            zchunk_framed(bytes@) && ztxt_data_loads(framed_data(bytes@)) && stated_crc(bytes@) != chunk_crc(
                ztxt_type(),
                framed_data(bytes@),
            ) as int ==> r == Err::<RawZtxtChunk, DmiError>(
                DmiError::CrcMismatch {
                    stated: stated_crc(bytes@) as u32,
                    calculated: chunk_crc(ztxt_type(), framed_data(bytes@)),
                },
            ),
    {
        let n = bytes.len();
        if n < 12 {
            return Err(DmiError::Truncated);
        }
        let stated_length = read_be_u32(bytes, 0);
        if stated_length as usize != n - 12 {
            return Err(DmiError::UnexpectedChunk);
        }
        let chunk_type = [bytes[4], bytes[5], bytes[6], bytes[7]];
        assert(chunk_type@ =~= bytes@.subrange(4, 8));
        assert(ZTXT_TYPE@ =~= ztxt_type());
        if chunk_type[0] != ZTXT_TYPE[0] || chunk_type[1] != ZTXT_TYPE[1] || chunk_type[2] != ZTXT_TYPE[2]
            || chunk_type[3] != ZTXT_TYPE[3]
        {
            return Err(DmiError::UnexpectedChunk);
        }
        assert(chunk_type@ =~= ztxt_type());
        let data_bytes = copy_range(bytes, 8, n - 4);
        assert(data_bytes@ == framed_data(bytes@));
        let data = match RawZtxtData::load(data_bytes.as_slice()) {
            Ok(d) => d,
            Err(e) => {
                proof {
                    if ztxt_data_loads(data_bytes@) {
                        let k = choose|k: int| is_first_nul(data_bytes@, k) && k + 1 < data_bytes@.len()
                            && data_bytes@[k + 1] == 0;
                        assert(is_first_nul(data_bytes@, k));
                    }
                }
                return Err(e);
            },
        };
        proof {
            let d = data_bytes@;
            let kk = data.keyword@.len() as int;
            assert(d[kk] == 0);
            assert(is_first_nul(d, kk));
            assert(d[kk + 1] == 0);
            assert(ztxt_data_loads(d));
        }
        let stated = read_be_u32(bytes, n - 4);
        let calculated = data.crc();
        assert(stated as int == stated_crc(bytes@));
        if stated != calculated {
            return Err(DmiError::CrcMismatch { stated, calculated });
        }
        let data_length = [bytes[0], bytes[1], bytes[2], bytes[3]];
        let crc = [bytes[n - 4], bytes[n - 3], bytes[n - 2], bytes[n - 1]];
        proof {
            crate::bytes::lemma_be_value_of_bytes(stated_length);
            crate::bytes::lemma_be_value_of_bytes(stated);
            crate::bytes::lemma_be_bytes_unique(data_length@, be_bytes(stated_length));
            crate::bytes::lemma_be_bytes_unique(crc@, be_bytes(stated));
        }
        let r = RawZtxtChunk { data_length, chunk_type, data, crc };
        assert(r.encoded() =~= bytes@);
        Ok(r)
    }

    /// Appends the framed chunk to `out` and returns how many bytes that was.
    pub fn save(&self, out: &mut Vec<u8>) -> (r: usize)
        ensures
            final(out)@ == old(out)@ + self.encoded(),
            r == self.data.encoded().len() + 12,
    {
        let before = out.len();
        push_all(out, &self.data_length);
        push_all(out, &self.chunk_type);
        self.data.save(out);
        push_all(out, &self.crc);
        assert(out@ =~= old(out)@ + self.encoded());
        out.len() - before
    }

    /// A chunk that carries `data`, with length and CRC computed afresh.
    ///
    /// Fails with `Conversion` where the data does not fit a chunk's length field.
    pub fn set_data(&self, data: RawZtxtData) -> (r: Result<RawZtxtChunk, DmiError>)
        requires
            data.wf(),
        ensures
            r is Ok <==> data.encoded().len() <= u32::MAX,
            r is Ok ==> r->Ok_0.wf() && r->Ok_0.data == data,
            r is Err ==> r == Err::<RawZtxtChunk, DmiError>(DmiError::Conversion),
    {
        if data.keyword.len() > 4294967293 || data.compressed_text.len() > 4294967293 - data.keyword.len() {
            return Err(DmiError::Conversion);
        }
        let length = data.keyword.len() + 2 + data.compressed_text.len();
        let data_length = write_be_u32(length as u32);
        let crc = write_be_u32(data.crc());
        assert(ZTXT_TYPE@ =~= ztxt_type());
        Ok(RawZtxtChunk { data_length, chunk_type: ZTXT_TYPE, data, crc })
    }

    /// Takes a decoded chunk as a `zTXt` chunk, splitting its data into fields.
    /// Length and CRC are kept as they stand.
    pub fn from_generic(chunk: RawGenericChunk) -> (r: Result<RawZtxtChunk, DmiError>)
        ensures
            chunk.chunk_type@ != ztxt_type() ==> r == Err::<RawZtxtChunk, DmiError>(DmiError::UnexpectedChunk),
            r is Ok ==> r->Ok_0.encoded() == chunk.encoded() && r->Ok_0.data.wf(),
            r is Ok ==> (chunk.wf() ==> r->Ok_0.wf()),
            chunk.chunk_type@ == ztxt_type() && r is Err ==> (r matches Err(DmiError::Truncated)
                || r matches Err(DmiError::UnsupportedCompression { .. })),
            chunk.chunk_type@ == ztxt_type() ==> (r is Ok <==> (exists|k: int|
                is_first_nul(chunk.data@, k) && k + 1 < chunk.data@.len() && chunk.data@[k + 1] == 0)),
    {
        assert(ZTXT_TYPE@ =~= ztxt_type());
        if chunk.chunk_type[0] != ZTXT_TYPE[0] || chunk.chunk_type[1] != ZTXT_TYPE[1]
            || chunk.chunk_type[2] != ZTXT_TYPE[2] || chunk.chunk_type[3] != ZTXT_TYPE[3]
        {
            assert(chunk.chunk_type@ != ztxt_type());
            return Err(DmiError::UnexpectedChunk);
        }
        assert(chunk.chunk_type@ =~= ztxt_type());
        let data = RawZtxtData::load(chunk.data.as_slice())?;
        let r = RawZtxtChunk { data_length: chunk.data_length, chunk_type: chunk.chunk_type, data, crc: chunk.crc };
        assert(r.encoded() =~= chunk.encoded());
        Ok(r)
    }
}

impl Default for RawZtxtChunk {
    fn default() -> (r: RawZtxtChunk)
        ensures
            r.wf(),
            r.data.keyword@ == description_keyword(),
            r.data.compressed_text@.len() == 0,
    {
        let data = RawZtxtData::default();
        let data_length = write_be_u32(data.length() as u32);
        let crc = write_be_u32(data.crc());
        assert(ZTXT_TYPE@ =~= ztxt_type());
        RawZtxtChunk { data_length, chunk_type: ZTXT_TYPE, data, crc }
    }
}

/// Builds the `zTXt` chunk that carries `manifest`: keyword "Description", zlib,
/// and the compressed manifest, with length and CRC computed.
///
/// Fails with `Conversion` where the compressed text does not fit a chunk.
pub fn create_ztxt_chunk(manifest: &[u8]) -> (r: Result<RawZtxtChunk, DmiError>)
    ensures
        r is Ok <==> zlib_compressed(manifest@).len() + 13 <= u32::MAX,
        r is Ok ==> r->Ok_0.wf() && r->Ok_0.data.keyword@ == description_keyword()
            && r->Ok_0.data.compressed_text@ == zlib_compressed(manifest@),
        r is Err ==> r == Err::<RawZtxtChunk, DmiError>(DmiError::Conversion),
{
    let compressed_text = encode(manifest);
    let mut data = RawZtxtData::default();
    data.compressed_text = compressed_text;
    assert(data.wf());
    let empty = RawZtxtChunk::default();
    empty.set_data(data)
}

/// A well-formed `zTXt` chunk, as `create_ztxt_chunk` builds it and `save` writes
/// it, is read back by `RawZtxtChunk::load`: its bytes meet every condition under
/// which `load` succeeds, and any well-formed chunk with the same bytes has the same
/// keyword, method and compressed text.
pub proof fn lemma_ztxt_chunk_reloads(z: RawZtxtChunk, other: RawZtxtChunk)
    requires
        z.wf(),
    ensures
        zchunk_framed(z.encoded()),
        ztxt_data_loads(framed_data(z.encoded())),
        stated_crc(z.encoded()) == chunk_crc(ztxt_type(), framed_data(z.encoded())) as int,
        other.wf() && other.encoded() == z.encoded() ==> other.data.keyword@ == z.data.keyword@
            && other.data.compressed_text@ == z.data.compressed_text@ && other.data.compression_method
            == z.data.compression_method,
{
    let b = z.encoded();
    let d = z.data.encoded();
    crate::bytes::lemma_be_value_of_bytes(d.len() as u32);
    crate::bytes::lemma_be_value_of_bytes(chunk_crc(ztxt_type(), d));
    assert(b.subrange(0, 4) =~= z.data_length@);
    assert(b.subrange(4, 8) =~= z.chunk_type@);
    assert(framed_data(b) =~= d);
    assert(b.subrange(b.len() - 4, b.len() as int) =~= z.crc@);
    let k = z.data.keyword@.len() as int;
    assert(d[k] == 0 && d[k + 1] == 0);
    assert(is_first_nul(d, k));
    if other.wf() && other.encoded() == b {
        assert(other.data.encoded() =~= framed_data(b));
        let ko = other.data.keyword@.len() as int;
        if ko < k {
            assert(d[ko] == 0);
            assert(d[ko] == z.data.keyword@[ko]);
        } else if k < ko {
            assert(d[k] == other.data.keyword@[k]);
        }
        assert(other.data.keyword@ =~= d.subrange(0, k));
        assert(z.data.keyword@ =~= d.subrange(0, k));
        assert(other.data.compressed_text@ =~= d.subrange(k + 2, d.len() as int));
        assert(z.data.compressed_text@ =~= d.subrange(k + 2, d.len() as int));
        assert(other.data.compression_method == d[k + 1]);
    }
}

} // verus!
