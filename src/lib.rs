//! Reading and writing DMI files: PNG images whose `zTXt` chunk carries a
//! manifest of named icon states.

pub mod bytes;
pub mod chunk;
pub mod crc;
pub mod dirs;
pub mod emit;
pub mod error;
pub mod icon;
pub mod iend;
pub mod manifest;
pub mod raster;
pub mod laws;
pub mod line;
pub mod text;
pub mod ztxt;

use vstd::prelude::*;

use crate::bytes::{be_value, push_all, read_be_u32};
use crate::chunk::{chunk_crc, chunk_decodes, framed_data, is_chunk_type, stated_crc, RawGenericChunk};
use crate::error::DmiError;
use crate::iend::{iend_bytes, RawIendChunk};
use crate::ztxt::{is_first_nul, ztxt_type, RawZtxtChunk};

verus! {

/// The PNG signature.
pub const PNG_HEADER: [u8; 8] = [137, 80, 78, 71, 13, 10, 26, 10];

/// The first eight bytes of a valid IHDR chunk: length 13 and type "IHDR".
pub const IHDR_HEADER: [u8; 8] = [0, 0, 0, 13, 73, 72, 68, 82];

pub open spec fn png_signature() -> Seq<u8> {
    seq![137u8, 80, 78, 71, 13, 10, 26, 10]
}

pub open spec fn ihdr_header() -> Seq<u8> {
    seq![0u8, 0, 0, 13, 73, 72, 68, 82]
}

pub open spec fn ihdr_type() -> Seq<u8> {
    seq![73u8, 72, 68, 82]
}

pub open spec fn plte_type() -> Seq<u8> {
    seq![80u8, 76, 84, 69]
}

pub open spec fn idat_type() -> Seq<u8> {
    seq![73u8, 68, 65, 84]
}

pub open spec fn iend_type() -> Seq<u8> {
    seq![73u8, 69, 78, 68]
}

/// The type field of a framed chunk.
pub open spec fn type_of(c: Seq<u8>) -> Seq<u8> {
    c.subrange(4, 8)
}

/// The types that have a place of their own in a `RawDmi`.
pub open spec fn is_known_type(t: Seq<u8>) -> bool {
    t == ihdr_type() || t == ztxt_type() || t == plte_type() || t == idat_type() || t == iend_type()
}

/// The chunks of `cs` that have type `t`, in order.
pub open spec fn of_type(cs: Seq<Seq<u8>>, t: Seq<u8>) -> Seq<Seq<u8>>
    decreases cs.len(),
{
    if cs.len() == 0 {
        Seq::empty()
    } else if type_of(cs.last()) == t {
        of_type(cs.drop_last(), t).push(cs.last())
    } else {
        of_type(cs.drop_last(), t)
    }
}

/// The chunks of `cs` whose type has no place of its own, in order.
pub open spec fn other_of(cs: Seq<Seq<u8>>) -> Seq<Seq<u8>>
    decreases cs.len(),
{
    if cs.len() == 0 {
        Seq::empty()
    } else if !is_known_type(type_of(cs.last())) {
        other_of(cs.drop_last()).push(cs.last())
    } else {
        other_of(cs.drop_last())
    }
}

/// `walk` from one offset, given the chunks already read before it.
pub open spec fn after(cs: Seq<Seq<u8>>, w: Result<Seq<Seq<u8>>, WalkFault>) -> Result<Seq<Seq<u8>>, WalkFault> {
    match w {
        Ok(rest) => Ok(cs + rest),
        Err(e) => Err(e),
    }
}

/// What `RawDmi::load` returns on a stream with a valid signature, by how the walk
/// over its chunks ends.
pub open spec fn load_outcome(b: Seq<u8>, r: Result<RawDmi, DmiError>) -> bool {
    match walk(b, 8) {
        Err(WalkFault::NoIend) => r == Err::<RawDmi, DmiError>(DmiError::MissingIend),
        Err(WalkFault::Overrun) => r == Err::<RawDmi, DmiError>(DmiError::Truncated),
        Err(WalkFault::BadChunk(c)) => if !is_chunk_type(type_of(c)) {
            r matches Err(DmiError::InvalidChunkType { .. })
        } else {
            r == Err::<RawDmi, DmiError>(
                DmiError::CrcMismatch {
                    stated: stated_crc(c) as u32,
                    calculated: chunk_crc(type_of(c), framed_data(c)),
                },
            )
        },
        Err(WalkFault::BadZtxt(c)) => r matches Err(DmiError::Truncated) || r matches Err(
            DmiError::UnsupportedCompression { .. },
        ),
        Err(WalkFault::BadIend) => r == Err::<RawDmi, DmiError>(DmiError::UnexpectedChunk),
        Ok(cs) => if of_type(cs, ihdr_type()).len() == 0 {
            r == Err::<RawDmi, DmiError>(DmiError::MissingIhdr)
        } else if of_type(cs, idat_type()).len() == 0 {
            r == Err::<RawDmi, DmiError>(DmiError::MissingIdat)
        } else {
            r is Ok && r->Ok_0.holds_chunks(cs)
        },
    }
}

/// Where the search for the `zTXt` chunk stops short.
pub enum MetaFault {
    /// The bytes end inside a chunk header or a chunk.
    Short,
    /// An IDAT or IEND chunk comes before any `zTXt` chunk.
    NoZtxt,
}

/// The framed `zTXt` chunk found by reading chunk headers from offset `at`,
/// skipping other chunks without decoding them.
pub open spec fn meta_walk(b: Seq<u8>, at: int) -> Result<Seq<u8>, MetaFault>
    decreases b.len() - at,
{
    if at < 0 || at + 8 > b.len() {
        Err(MetaFault::Short)
    } else {
        let t = b.subrange(at + 4, at + 8);
        if t == idat_type() || t == iend_type() {
            Err(MetaFault::NoZtxt)
        } else if t != ztxt_type() {
            if at + 20 + length_at(b, at) > b.len() {
                Err(MetaFault::Short)
            } else {
                meta_walk(b, at + 12 + length_at(b, at))
            }
        } else if at + 12 + length_at(b, at) > b.len() {
            Err(MetaFault::Short)
        } else {
            Ok(b.subrange(at, at + 12 + length_at(b, at)))
        }
    }
}

/// What `RawDmi::load_meta` returns on a stream with a valid signature and IHDR header.
pub open spec fn meta_outcome(b: Seq<u8>, r: Result<RawDmiMetadata, DmiError>) -> bool {
    let ihdr = b.subrange(8, 33);
    if !chunk_decodes(ihdr) {
        r == Err::<RawDmiMetadata, DmiError>(
            DmiError::CrcMismatch { stated: stated_crc(ihdr) as u32, calculated: chunk_crc(type_of(ihdr), framed_data(ihdr)) },
        )
    } else {
        match meta_walk(b, 33) {
            Err(MetaFault::Short) => r == Err::<RawDmiMetadata, DmiError>(DmiError::Truncated),
            Err(MetaFault::NoZtxt) => r == Err::<RawDmiMetadata, DmiError>(DmiError::MissingZtxt),
            Ok(c) => if !chunk_decodes(c) {
                r == Err::<RawDmiMetadata, DmiError>(
                    DmiError::CrcMismatch { stated: stated_crc(c) as u32, calculated: chunk_crc(type_of(c), framed_data(c)) },
                )
            } else if !ztxt_data_loads(framed_data(c)) {
                r matches Err(DmiError::Truncated) || r matches Err(DmiError::UnsupportedCompression { .. })
            } else {
                &&& r is Ok
                &&& r->Ok_0.chunk_ihdr.encoded() == ihdr
                &&& r->Ok_0.chunk_ztxt.encoded() == c
                &&& r->Ok_0.chunk_ztxt.data.wf()
            },
        }
    }
}

/// Appends every chunk of `chunks` to `out`.
fn save_chunks(chunks: &Vec<RawGenericChunk>, out: &mut Vec<u8>)
    ensures
        final(out)@ == old(out)@ + concat_chunks(chunks@),
{
    let mut i: usize = 0;
    while i < chunks.len()
        invariant
            i <= chunks@.len(),
            out@ == old(out)@ + concat_chunks(chunks@.subrange(0, i as int)),
        decreases chunks@.len() - i,
    {
        let ghost prev = out@;
        chunks[i].save(out);
        proof {
            let s = chunks@.subrange(0, i + 1);
            assert(s.drop_last() =~= chunks@.subrange(0, i as int));
            assert(out@ =~= old(out)@ + concat_chunks(s));
        }
        i = i + 1;
    }
    assert(chunks@.subrange(0, i as int) =~= chunks@);
}

/// A prefix of a chunk list frames into no more bytes than the whole list.
proof fn lemma_concat_prefix_len(s: Seq<RawGenericChunk>, i: int)
    requires
        0 <= i <= s.len(),
    ensures
        concat_chunks(s.subrange(0, i)).len() <= concat_chunks(s).len(),
    decreases s.len() - i,
{
    if i < s.len() {
        lemma_concat_prefix_len(s, i + 1);
        let t = s.subrange(0, i + 1);
        assert(t.drop_last() =~= s.subrange(0, i));
    } else {
        assert(s.subrange(0, i) =~= s);
    }
}

/// The number of bytes that `chunks` frame into, added to `base`.
fn add_chunk_sizes(chunks: &Vec<RawGenericChunk>, base: usize) -> (r: usize)
    requires
        base + concat_chunks(chunks@).len() <= usize::MAX,
    ensures
        r == base + concat_chunks(chunks@).len(),
{
    let mut total = base;
    let mut i: usize = 0;
    while i < chunks.len()
        invariant
            i <= chunks@.len(),
            base + concat_chunks(chunks@).len() <= usize::MAX,
            total == base + concat_chunks(chunks@.subrange(0, i as int)).len(),
        decreases chunks@.len() - i,
    {
        proof {
            let s = chunks@.subrange(0, i + 1);
            assert(s.drop_last() =~= chunks@.subrange(0, i as int));
            lemma_concat_prefix_len(chunks@, i + 1);
        }
        total = total + chunks[i].data.len() + 12;
        i = i + 1;
    }
    assert(chunks@.subrange(0, i as int) =~= chunks@);
    total
}

/// How many bytes from the start of a stream the search for the `zTXt` chunk
/// reads, given the bytes `b` read so far, from the chunk header at `at` on: up to
/// the next header it lacks, through each chunk it skips and the header after it,
/// and through the `zTXt` chunk once it finds one.
pub open spec fn meta_need_from(b: Seq<u8>, at: int) -> int
    decreases b.len() - at,
{
    if at < 0 || at + 8 > b.len() {
        at + 8
    } else {
        let t = b.subrange(at + 4, at + 8);
        if t == idat_type() || t == iend_type() {
            at + 8
        } else if t != ztxt_type() {
            if at + 20 + length_at(b, at) > b.len() {
                at + 20 + length_at(b, at)
            } else {
                meta_need_from(b, at + 12 + length_at(b, at))
            }
        } else {
            at + 12 + length_at(b, at)
        }
    }
}

/// How many bytes of a stream `load_meta` needs, given the bytes `b` read so far.
pub open spec fn meta_need(b: Seq<u8>) -> int {
    meta_need_from(b, 33)
}

/// Whether the four bytes of `a` are `b0 b1 b2 b3`.
fn same4(a: &[u8; 4], b0: u8, b1: u8, b2: u8, b3: u8) -> (r: bool)
    ensures
        r == (a@ == seq![b0, b1, b2, b3]),
{
    let r = a[0] == b0 && a[1] == b1 && a[2] == b2 && a[3] == b3;
    if r {
        assert(a@ =~= seq![b0, b1, b2, b3]);
    } else {
        assert(a@ != seq![b0, b1, b2, b3] || a@[0] != b0);
    }
    r
}

/// Chunk data that splits into keyword, NUL, zlib method and text.
pub open spec fn ztxt_data_loads(d: Seq<u8>) -> bool {
    exists|k: int| is_first_nul(d, k) && k + 1 < d.len() && d[k + 1] == 0
}

/// Where a walk over the chunks of a PNG stream stops short.
pub enum WalkFault {
    /// The bytes end, at the boundary of a chunk, before an IEND chunk.
    NoIend,
    /// A chunk's header or its data runs past the end of the bytes.
    Overrun,
    /// This framed chunk does not decode.
    BadChunk(Seq<u8>),
    /// This framed `zTXt` chunk has data that does not split into fields.
    BadZtxt(Seq<u8>),
    /// An IEND chunk other than the one valid shape.
    BadIend,
}

/// The length field of the chunk framed at `at`.
pub open spec fn length_at(b: Seq<u8>, at: int) -> int {
    be_value(b.subrange(at, at + 4))
}

/// The chunks of `b` from offset `at` up to and including the first IEND chunk.
pub open spec fn walk(b: Seq<u8>, at: int) -> Result<Seq<Seq<u8>>, WalkFault>
    decreases b.len() - at,
{
    if at < 0 || at >= b.len() {
        Err(WalkFault::NoIend)
    } else if at + 12 > b.len() || at + 12 + length_at(b, at) > b.len() {
        Err(WalkFault::Overrun)
    } else {
        let c = b.subrange(at, at + 12 + length_at(b, at));
        if !chunk_decodes(c) {
            Err(WalkFault::BadChunk(c))
        } else if type_of(c) == ztxt_type() && !ztxt_data_loads(framed_data(c)) {
            Err(WalkFault::BadZtxt(c))
        } else if type_of(c) == iend_type() {
            if c == iend_bytes() {
                Ok(seq![c])
            } else {
                Err(WalkFault::BadIend)
            }
        } else {
            match walk(b, at + 12 + length_at(b, at)) {
                Ok(rest) => Ok(seq![c] + rest),
                Err(e) => Err(e),
            }
        }
    }
}

/// The encoding of each chunk of `s`, one after the other.
pub open spec fn concat_chunks(s: Seq<RawGenericChunk>) -> Seq<u8>
    decreases s.len(),
{
    if s.len() == 0 {
        Seq::empty()
    } else {
        concat_chunks(s.drop_last()) + s.last().encoded()
    }
}

/// The framed bytes of each chunk of `s`.
pub open spec fn framings(s: Seq<RawGenericChunk>) -> Seq<Seq<u8>> {
    s.map_values(|c: RawGenericChunk| c.encoded())
}

/// A PNG stream taken apart into its chunks, grouped by type.
#[derive(Clone, Eq, PartialEq, Debug)]
pub struct RawDmi {
    pub header: [u8; 8],
    pub chunk_ihdr: RawGenericChunk,
    pub chunk_ztxt: Option<RawZtxtChunk>,
    pub chunk_plte: Option<RawGenericChunk>,
    pub other_chunks: Option<Vec<RawGenericChunk>>,
    pub chunks_idat: Vec<RawGenericChunk>,
    pub chunk_iend: RawIendChunk,
}

/// The two chunks that the metadata of a DMI file needs.
#[derive(Clone, Eq, PartialEq, Debug)]
pub struct RawDmiMetadata {
    pub chunk_ihdr: RawGenericChunk,
    pub chunk_ztxt: RawZtxtChunk,
}

/// A decoded IEND chunk frames the one valid IEND chunk exactly when it converts.
proof fn lemma_iend_framing(c: Seq<u8>, raw: RawGenericChunk)
    requires
        raw.encoded() == c,
        c.len() >= 12,
        length_at(c, 0) == c.len() - 12,
        raw.data@.len() == 0,
        raw.chunk_type@ == iend_bytes().subrange(4, 8),
        raw.crc@ == iend_bytes().subrange(8, 12),
    ensures
        c == iend_bytes(),
{
    assert(raw.data_length@ =~= c.subrange(0, 4));
    crate::bytes::lemma_be_bytes_unique(c.subrange(0, 4), seq![0u8, 0, 0, 0]);
    assert(c =~= iend_bytes());
}

impl RawDmi {
    /// The other chunks as a sequence, empty where there are none.
    pub open spec fn others(&self) -> Seq<RawGenericChunk> {
        match self.other_chunks {
            Some(v) => v@,
            None => Seq::empty(),
        }
    }

    /// The bytes `save` writes: signature, IHDR, `zTXt` where asked for and present,
    /// PLTE where present, the other chunks, the IDAT chunks, and IEND.
    pub open spec fn encoded(&self, include_ztxt: bool) -> Seq<u8> {
        self.header@ + self.chunk_ihdr.encoded() + (match self.chunk_ztxt {
            Some(z) if include_ztxt => z.encoded(),
            _ => Seq::empty(),
        }) + (match self.chunk_plte {
            Some(p) => p.encoded(),
            None => Seq::empty(),
        }) + concat_chunks(self.others()) + concat_chunks(self.chunks_idat@) + self.chunk_iend.encoded()
    }

    /// `self` holds the chunks `cs` of a stream, grouped by type: the last IHDR,
    /// `zTXt` and PLTE, every IDAT and every other chunk in order, and IEND.
    pub open spec fn holds_chunks(&self, cs: Seq<Seq<u8>>) -> bool {
        &&& self.header@ == png_signature()
        &&& of_type(cs, ihdr_type()).len() > 0
        &&& self.chunk_ihdr.encoded() == of_type(cs, ihdr_type()).last()
        &&& (self.chunk_ztxt is Some <==> of_type(cs, ztxt_type()).len() > 0)
        &&& (self.chunk_ztxt is Some ==> self.chunk_ztxt->Some_0.encoded() == of_type(cs, ztxt_type()).last()
            && self.chunk_ztxt->Some_0.data.wf())
        &&& (self.chunk_plte is Some <==> of_type(cs, plte_type()).len() > 0)
        &&& (self.chunk_plte is Some ==> self.chunk_plte->Some_0.encoded() == of_type(cs, plte_type()).last())
        &&& (self.other_chunks is Some ==> self.other_chunks->Some_0@.len() > 0)
        &&& framings(self.others()) == other_of(cs)
        &&& framings(self.chunks_idat@) == of_type(cs, idat_type())
        &&& self.chunk_iend.wf()
    }

    /// Takes a PNG stream apart into its chunks, up to the first IEND chunk.
    ///
    /// Fails with `Truncated` under eight bytes, with `InvalidSignature` where the
    /// PNG signature is missing, and otherwise as the walk over the chunks ends: see
    /// `load_outcome`.
    pub fn load(bytes: &[u8]) -> (r: Result<RawDmi, DmiError>)
        ensures
            bytes@.len() < 8 ==> r == Err::<RawDmi, DmiError>(DmiError::Truncated),
            bytes@.len() >= 8 && bytes@.subrange(0, 8) != png_signature() ==> r == Err::<RawDmi, DmiError>(
                DmiError::InvalidSignature,
            ),
            bytes@.len() >= 8 && bytes@.subrange(0, 8) == png_signature() ==> load_outcome(bytes@, r),
    {
        let n = bytes.len();
        if n < 8 {
            return Err(DmiError::Truncated);
        }
        let header = [bytes[0], bytes[1], bytes[2], bytes[3], bytes[4], bytes[5], bytes[6], bytes[7]];
        assert(header@ =~= bytes@.subrange(0, 8));
        let mut i: usize = 0;
        while i < 8
            invariant
                i <= 8,
                n == bytes@.len(),
                n >= 8,
                header@ == bytes@.subrange(0, 8),
                forall|j: int| 0 <= j < i ==> header@[j] == #[trigger] png_signature()[j],
            decreases 8 - i,
        {
            let want: [u8; 8] = [137, 80, 78, 71, 13, 10, 26, 10];
            assert(want@ =~= png_signature());
            if header[i] != want[i] {
                return Err(DmiError::InvalidSignature);
            }
            i = i + 1;
        }
        assert(header@ =~= png_signature());
        let mut chunk_ihdr: Option<RawGenericChunk> = None;
        let mut chunk_ztxt: Option<RawZtxtChunk> = None;
        let mut chunk_plte: Option<RawGenericChunk> = None;
        let mut chunks_idat: Vec<RawGenericChunk> = Vec::new();
        let mut other_chunks: Vec<RawGenericChunk> = Vec::new();
        let ghost mut cs: Seq<Seq<u8>> = Seq::empty();
        let mut index: usize = 8;
        assert(after(cs, walk(bytes@, 8)) == walk(bytes@, 8)) by {
            match walk(bytes@, 8) {
                Ok(rest) => assert(cs + rest =~= rest),
                Err(e) => {},
            }
        }
        loop
            invariant
                8 <= index <= n,
                n == bytes@.len(),
                n >= 8,
                bytes@.subrange(0, 8) == png_signature(),
                header@ == png_signature(),
                walk(bytes@, 8) == after(cs, walk(bytes@, index as int)),
                chunk_ihdr is Some <==> of_type(cs, ihdr_type()).len() > 0,
                chunk_ihdr is Some ==> chunk_ihdr->Some_0.encoded() == of_type(cs, ihdr_type()).last(),
                chunk_ztxt is Some <==> of_type(cs, ztxt_type()).len() > 0,
                chunk_ztxt is Some ==> chunk_ztxt->Some_0.encoded() == of_type(cs, ztxt_type()).last()
                    && chunk_ztxt->Some_0.data.wf(),
                chunk_plte is Some <==> of_type(cs, plte_type()).len() > 0,
                chunk_plte is Some ==> chunk_plte->Some_0.encoded() == of_type(cs, plte_type()).last(),
                framings(other_chunks@) == other_of(cs),
                framings(chunks_idat@) == of_type(cs, idat_type()),
            decreases n - index,
        {
            if index == n {
                return Err(DmiError::MissingIend);
            }
            if n - index < 12 {
                return Err(DmiError::Truncated);
            }
            let length = read_be_u32(bytes, index) as usize;
            assert(length == length_at(bytes@, index as int));
            if length > n - index - 12 {
                return Err(DmiError::Truncated);
            }
            let end = index + 12 + length;
            let ghost c = bytes@.subrange(index as int, end as int);
            assert(c.subrange(0, 4) =~= bytes@.subrange(index as int, index + 4));
            assert(crate::chunk::length_ok(c));
            let raw = RawGenericChunk::load(&bytes[index..end])?;
            assert(raw.encoded() == c);
            assert(raw.chunk_type@ =~= type_of(c));
            assert(raw.data@ =~= framed_data(c));
            let ghost old_cs = cs;
            proof {
                cs = cs.push(c);
                assert(cs.drop_last() =~= old_cs);
            }
            index = end;
            if same4(&raw.chunk_type, 73, 72, 68, 82) {
                chunk_ihdr = Some(raw);
                assert(framings(other_chunks@) == other_of(cs));
            } else if same4(&raw.chunk_type, 122, 84, 88, 116) {
                let z = RawZtxtChunk::from_generic(raw)?;
                chunk_ztxt = Some(z);
            } else if same4(&raw.chunk_type, 80, 76, 84, 69) {
                chunk_plte = Some(raw);
            } else if same4(&raw.chunk_type, 73, 68, 65, 84) {
                let ghost before = chunks_idat@;
                chunks_idat.push(raw);
                assert(framings(chunks_idat@) =~= framings(before).push(c));
            } else if same4(&raw.chunk_type, 73, 69, 78, 68) {
                let ghost g = raw;
                let chunk_iend = match RawIendChunk::from_generic(raw) {
                    Ok(x) => x,
                    Err(e) => {
                        proof {
                            if c == iend_bytes() {
                                assert(g.data@ =~= c.subrange(8, 8));
                                assert(g.crc@ =~= c.subrange(8, 12));
                                assert(g.chunk_type@ =~= iend_bytes().subrange(4, 8));
                            }
                        }
                        return Err(e);
                    },
                };
                proof {
                    lemma_iend_framing(c, g);
                }
                let ghost after_iend = cs;
                assert(walk(bytes@, 8) == Ok::<Seq<Seq<u8>>, WalkFault>(cs)) by {
                    assert(old_cs + seq![c] =~= cs);
                }
                if chunk_ihdr.is_none() {
                    return Err(DmiError::MissingIhdr);
                }
                if chunks_idat.len() == 0 {
                    return Err(DmiError::MissingIdat);
                }
                let other_chunks = if other_chunks.len() == 0 {
                    None
                } else {
                    Some(other_chunks)
                };
                let r = RawDmi {
                    header,
                    chunk_ihdr: chunk_ihdr.unwrap(),
                    chunk_ztxt,
                    chunk_plte,
                    other_chunks,
                    chunks_idat,
                    chunk_iend,
                };
                assert(framings(r.others()) =~= other_of(cs));
                return Ok(r);
            } else {
                let ghost before = other_chunks@;
                other_chunks.push(raw);
                assert(framings(other_chunks@) =~= framings(before).push(c));
            }
            assert(walk(bytes@, 8) == after(cs, walk(bytes@, end as int))) by {
                assert(walk(bytes@, (end - 12 - length) as int) == after(seq![c], walk(bytes@, end as int)));
                match walk(bytes@, end as int) {
                    Ok(rest) => assert(old_cs + (seq![c] + rest) =~= cs + rest),
                    Err(e) => {},
                }
            }
        }
    }

    /// Reads only the IHDR chunk and the first `zTXt` chunk before any IDAT,
    /// reading the headers of the chunks between and skipping their data.
    ///
    /// Fails with `Truncated` under eight bytes, with `InvalidSignature` where the
    /// PNG signature is missing, with `Truncated` where the bytes end before the IHDR
    /// chunk does, with `MissingIhdr` where the first chunk is not an IHDR chunk of
    /// 13 bytes, and otherwise as `meta_outcome` says.
    pub fn load_meta(bytes: &[u8]) -> (r: Result<RawDmiMetadata, DmiError>)
        ensures
            bytes@.len() < 8 ==> r == Err::<RawDmiMetadata, DmiError>(DmiError::Truncated),
            bytes@.len() >= 8 && bytes@.subrange(0, 8) != png_signature() ==> r == Err::<RawDmiMetadata, DmiError>(
                DmiError::InvalidSignature,
            ),
            8 <= bytes@.len() < 33 && bytes@.subrange(0, 8) == png_signature() ==> r == Err::<
                RawDmiMetadata,
                DmiError,
            >(DmiError::Truncated),
            bytes@.len() >= 33 && bytes@.subrange(0, 8) == png_signature() && bytes@.subrange(8, 16)
                != ihdr_header() ==> r == Err::<RawDmiMetadata, DmiError>(DmiError::MissingIhdr),
            bytes@.len() >= 33 && bytes@.subrange(0, 8) == png_signature() && bytes@.subrange(8, 16)
                == ihdr_header() ==> meta_outcome(bytes@, r),
    {
        let n = bytes.len();
        if n < 8 {
            return Err(DmiError::Truncated);
        }
        let sig: [u8; 8] = [137, 80, 78, 71, 13, 10, 26, 10];
        let ihdr_head: [u8; 8] = [0, 0, 0, 13, 73, 72, 68, 82];
        assert(sig@ =~= png_signature());
        assert(ihdr_head@ =~= ihdr_header());
        let mut i: usize = 0;
        while i < 8
            invariant
                i <= 8,
                n == bytes@.len(),
                n >= 8,
                sig@ == png_signature(),
                forall|j: int| 0 <= j < i ==> bytes@[j] == #[trigger] png_signature()[j],
            decreases 8 - i,
        {
            if bytes[i] != sig[i] {
                assert(bytes@.subrange(0, 8)[i as int] != png_signature()[i as int]);
                return Err(DmiError::InvalidSignature);
            }
            i = i + 1;
        }
        assert(bytes@.subrange(0, 8) =~= png_signature());
        if n < 33 {
            return Err(DmiError::Truncated);
        }
        let mut i: usize = 0;
        while i < 8
            invariant
                i <= 8,
                n == bytes@.len(),
                n >= 33,
                bytes@.subrange(0, 8) == png_signature(),
                ihdr_head@ == ihdr_header(),
                forall|j: int| 0 <= j < i ==> bytes@[8 + j] == #[trigger] ihdr_header()[j],
            decreases 8 - i,
        {
            if bytes[8 + i] != ihdr_head[i] {
                assert(bytes@.subrange(8, 16)[i as int] != ihdr_header()[i as int]);
                return Err(DmiError::MissingIhdr);
            }
            i = i + 1;
        }
        assert(bytes@.subrange(8, 16) =~= ihdr_header());
        assert(bytes@.subrange(8, 33).subrange(0, 4) =~= seq![0u8, 0, 0, 13]) by {
            assert forall|j: int| 0 <= j < 4 implies bytes@.subrange(8, 33).subrange(0, 4)[j] == bytes@.subrange(8, 16)[j] by {}
        }
        assert(crate::chunk::length_ok(bytes@.subrange(8, 33)));
        let chunk_ihdr = match RawGenericChunk::load(&bytes[8..33]) {
            Ok(c) => c,
            Err(e) => {
                assert(bytes@.subrange(8, 33).subrange(4, 8) =~= ihdr_type());
                return Err(e);
            },
        };
        let mut at: usize = 33;
        loop
            invariant
                33 <= at <= n,
                n == bytes@.len(),
                n >= 33,
                bytes@.subrange(0, 8) == png_signature(),
                bytes@.subrange(8, 16) == ihdr_header(),
                chunk_decodes(bytes@.subrange(8, 33)),
                chunk_ihdr.encoded() == bytes@.subrange(8, 33),
                meta_walk(bytes@, 33) == meta_walk(bytes@, at as int),
            decreases n - at,
        {
            if n - at < 8 {
                return Err(DmiError::Truncated);
            }
            let length = read_be_u32(bytes, at) as usize;
            assert(length == length_at(bytes@, at as int));
            let t = [bytes[at + 4], bytes[at + 5], bytes[at + 6], bytes[at + 7]];
            assert(t@ =~= bytes@.subrange(at + 4, at + 8));
            if same4(&t, 73, 68, 65, 84) || same4(&t, 73, 69, 78, 68) {
                return Err(DmiError::MissingZtxt);
            }
            if !same4(&t, 122, 84, 88, 116) {
                if n - at < 20 || length > n - at - 20 {
                    return Err(DmiError::Truncated);
                }
                at = at + 12 + length;
            } else {
                if n - at < 12 || length > n - at - 12 {
                    return Err(DmiError::Truncated);
                }
                let end = at + 12 + length;
                let ghost c = bytes@.subrange(at as int, end as int);
                assert(meta_walk(bytes@, 33) == Ok::<Seq<u8>, MetaFault>(c));
                assert(c.subrange(0, 4) =~= bytes@.subrange(at as int, at + 4));
                assert(crate::chunk::length_ok(c));
                let raw = match RawGenericChunk::load(&bytes[at..end]) {
                    Ok(raw) => raw,
                    Err(e) => {
                        assert(type_of(c) =~= ztxt_type());
                        return Err(e);
                    },
                };
                assert(raw.chunk_type@ =~= type_of(c));
                assert(raw.data@ =~= framed_data(c));
                let ghost g = raw;
                let chunk_ztxt = match RawZtxtChunk::from_generic(raw) {
                    Ok(z) => z,
                    Err(e) => {
                        assert(g.chunk_type@ == ztxt_type());
                        assert(!ztxt_data_loads(framed_data(c)));
                        return Err(e);
                    },
                };
                return Ok(RawDmiMetadata { chunk_ihdr, chunk_ztxt });
            }
        }
    }

    /// The number of bytes from the start of a stream that `load_meta` reads, given
    /// the bytes read so far: a reader of a stream reads on until it holds that many
    /// (or the stream ends), then calls `load_meta` on what it holds.
    pub fn meta_bytes_needed(prefix: &[u8]) -> (r: u128)
        ensures
            r as int == meta_need(prefix@),
    {
        let n = prefix.len();
        let mut at: usize = 33;
        let mut need: u128 = 0;
        loop
            invariant
                33 <= at,
                at <= n || at == 33,
                n == prefix@.len(),
                meta_need_from(prefix@, 33) == meta_need_from(prefix@, at as int),
            ensures
                need as int == meta_need_from(prefix@, 33),
            decreases n - at,
        {
            if at > n || n - at < 8 {
                need = at as u128 + 8;
                break;
            }
            let length = read_be_u32(prefix, at);
            assert(length == length_at(prefix@, at as int));
            let t = [prefix[at + 4], prefix[at + 5], prefix[at + 6], prefix[at + 7]];
            assert(t@ =~= prefix@.subrange(at + 4, at + 8));
            if same4(&t, 73, 68, 65, 84) || same4(&t, 73, 69, 78, 68) {
                need = at as u128 + 8;
                break;
            }
            if !same4(&t, 122, 84, 88, 116) {
                if n - at < 20 || length as usize > n - at - 20 {
                    need = at as u128 + 20 + length as u128;
                    break;
                }
                at = at + 12 + length as usize;
            } else {
                need = at as u128 + 12 + length as u128;
                break;
            }
        }
        need
    }

    /// The number of bytes `save` writes with the same `include_ztxt`.
    pub fn output_buffer_size(&self, include_ztxt: bool) -> (r: usize)
        requires
            self.encoded(include_ztxt).len() <= usize::MAX,
        ensures
            r == self.encoded(include_ztxt).len(),
    {
        let mut total = 8 + self.chunk_ihdr.data.len() + 12 + 12;
        if include_ztxt {
            if let Some(chunk_ztxt) = &self.chunk_ztxt {
                total = total + chunk_ztxt.data.keyword.len() + chunk_ztxt.data.compressed_text.len() + 14;
            }
        }
        if let Some(chunk_plte) = &self.chunk_plte {
            total = total + chunk_plte.data.len() + 12;
        }
        if let Some(other_chunks) = &self.other_chunks {
            total = add_chunk_sizes(other_chunks, total);
        }
        add_chunk_sizes(&self.chunks_idat, total)
    }

    /// Writes the stream to `out`: signature, IHDR, `zTXt` where `include_ztxt`
    /// holds and there is one, PLTE, the other chunks, the IDAT chunks and IEND.
    /// Returns the number of bytes written.
    pub fn save(&self, out: &mut Vec<u8>, include_ztxt: bool) -> (r: usize)
        ensures
            final(out)@ == old(out)@ + self.encoded(include_ztxt),
            r == self.encoded(include_ztxt).len(),
    {
        let before = out.len();
        push_all(out, &self.header);
        self.chunk_ihdr.save(out);
        if include_ztxt {
            if let Some(chunk_ztxt) = &self.chunk_ztxt {
                chunk_ztxt.save(out);
            }
        }
        if let Some(chunk_plte) = &self.chunk_plte {
            chunk_plte.save(out);
        }
        if let Some(other_chunks) = &self.other_chunks {
            save_chunks(other_chunks, out);
        } else {
            assert(concat_chunks(self.others()) =~= Seq::<u8>::empty());
        }
        save_chunks(&self.chunks_idat, out);
        self.chunk_iend.save(out);
        assert(out@ =~= old(out)@ + self.encoded(include_ztxt));
        out.len() - before
    }

    pub fn new() -> (r: RawDmi)
        ensures
            r.header@ == png_signature(),
            r.chunk_ztxt is None,
            r.chunk_plte is None,
            r.other_chunks is None,
            r.chunks_idat@.len() == 0,
            r.chunk_iend.wf(),
    {
        let header = PNG_HEADER;
        assert(header@ =~= png_signature());
        RawDmi {
            header,
            chunk_ihdr: RawGenericChunk {
                data_length: [0, 0, 0, 0],
                chunk_type: [0, 0, 0, 0],
                data: Vec::new(),
                crc: [0, 0, 0, 0],
            },
            chunk_ztxt: None,
            chunk_plte: None,
            other_chunks: None,
            chunks_idat: Vec::new(),
            chunk_iend: RawIendChunk::new(),
        }
    }
}

} // verus!
