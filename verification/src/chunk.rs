//! One length-prefixed, CRC-protected binary record: a chunk type, a payload,
//! and the exact byte layout `length (4, big-endian) ++ type (4) ++ payload
//! ++ crc (4, big-endian)`, with the checksum taken over type and payload.

use vstd::prelude::*;

use crate::chunk_type::ChunkType;
use crate::codec::{
    copy_range, latin1_text, push_u32_be_bytes, read_u32_be_bytes, spec_latin1_chars,
    spec_u32_from_be_bytes, spec_u32_to_be_bytes,
};
use crate::crc32::{crc32_checksum, crc32_of};

verus! {

broadcast use crate::chunk_type::lemma_chunk_type_len;

/// Why a byte buffer failed to parse as a chunk.
#[derive(Debug, PartialEq, Eq)]
pub enum ParseChunkError {
    /// Fewer than four bytes remain where the length field should start.
    LengthNotFound,
    /// Fewer than four bytes remain where the type field should start.
    ChunkTypeNotFound,
    /// Fewer payload bytes remain than the length field announces.
    MessageNotFound,
    /// The four checksum bytes are not exactly the final bytes after the payload.
    CrcNotFound,
    /// The stored checksum differs from the one recomputed over type and payload.
    InvalidCrc,
}

/// What a chunk is mathematically: its four type bytes and its payload bytes.
#[verifier::ext_equal]
pub ghost struct ChunkModel {
    pub ty: Seq<u8>,
    pub data: Seq<u8>,
}

impl ChunkModel {
    /// A well-formed chunk: a four-byte type code and a payload whose length
    /// fits the 32-bit length field.
    pub open spec fn wf(self) -> bool {
        self.ty.len() == 4 && self.data.len() <= u32::MAX
    }

    /// The checksum the chunk carries: over its type bytes then its payload.
    pub open spec fn crc(self) -> u32 {
        crc32_of(self.ty + self.data)
    }

    /// The exact serialized layout of the chunk.
    pub open spec fn spec_bytes(self) -> Seq<u8> {
        spec_u32_to_be_bytes(self.data.len() as u32) + self.ty + self.data + spec_u32_to_be_bytes(
            self.crc(),
        )
    }
}

/// Parses the chunk that starts at `off` in `b`; bytes after the chunk are
/// left for the caller. Returns the chunk and the offset just past it.
pub open spec fn spec_parse_chunk_at(b: Seq<u8>, off: int) -> Result<
    (ChunkModel, int),
    ParseChunkError,
>
    recommends
        0 <= off <= b.len(),
{
    let n = b.len() - off;
    if n < 4 {
        Err(ParseChunkError::LengthNotFound)
    } else if n < 8 {
        Err(ParseChunkError::ChunkTypeNotFound)
    } else {
        let l = spec_u32_from_be_bytes(b.subrange(off, off + 4)) as int;
        if n - 8 < l {
            Err(ParseChunkError::MessageNotFound)
        } else if n - 8 - l < 4 {
            Err(ParseChunkError::CrcNotFound)
        } else {
            let m = ChunkModel {
                ty: b.subrange(off + 4, off + 8),
                data: b.subrange(off + 8, off + 8 + l),
            };
            if spec_u32_from_be_bytes(b.subrange(off + 8 + l, off + 12 + l)) != m.crc() {
                Err(ParseChunkError::InvalidCrc)
            } else {
                Ok((m, off + 12 + l))
            }
        }
    }
}

/// Parses a buffer that must hold exactly one chunk: the checksum field must
/// be the final four bytes of the buffer.
pub open spec fn spec_parse_chunk(b: Seq<u8>) -> Result<ChunkModel, ParseChunkError> {
    match spec_parse_chunk_at(b, 0) {
        Ok((m, end)) => if end == b.len() {
            Ok(m)
        } else {
            Err(ParseChunkError::CrcNotFound)
        },
        Err(e) => Err(e),
    }
}

/// A chunk: a type code and an exclusively owned payload. Its length and
/// checksum are derived from the live contents, never stored.
#[derive(Debug)]
pub struct Chunk {
    chunk_type: ChunkType,
    data: Vec<u8>,
}

impl View for Chunk {
    type V = ChunkModel;

    closed spec fn view(&self) -> ChunkModel {
        ChunkModel { ty: self.chunk_type@, data: self.data@ }
    }
}

impl Chunk {
    /// Holds of every chunk value: its model is well-formed.
    #[verifier::type_invariant]
    pub open spec fn type_wf(self) -> bool {
        self@.wf()
    }

    /// Builds a chunk from a type code and a payload; the checksum is derived,
    /// so construction always succeeds.
    pub fn new(chunk_type: ChunkType, data: Vec<u8>) -> (r: Chunk)
        requires
            data@.len() <= u32::MAX,
        ensures
            r@ == (ChunkModel { ty: chunk_type@, data: data@ }),
    {
        Chunk { chunk_type, data }
    }

    /// The payload byte count, read from the live payload.
    pub fn length(&self) -> (r: u32)
        ensures
            r == self@.data.len(),
    {
        proof {
            use_type_invariant(&*self);
        }
        self.data.len() as u32
    }

    /// The chunk's type code.
    pub fn chunk_type(&self) -> (r: &ChunkType)
        ensures
            r@ == self@.ty,
    {
        &self.chunk_type
    }

    /// The payload bytes.
    pub fn data(&self) -> (r: &Vec<u8>)
        ensures
            r@ == self@.data,
    {
        &self.data
    }

    /// The checksum, recomputed over the live type bytes and payload.
    pub fn crc(&self) -> (r: u32)
        ensures
            r == self@.crc(),
    {
        let tb = self.chunk_type.bytes();
        let mut td: Vec<u8> = Vec::new();
        td.push(tb[0]);
        td.push(tb[1]);
        td.push(tb[2]);
        td.push(tb[3]);
        let mut rest = copy_range(&self.data, 0, self.data.len());
        td.append(&mut rest);
        proof {
            assert(self@.data.subrange(0, self@.data.len() as int) =~= self@.data);
            assert(td@ =~= self@.ty + self@.data);
        }
        crc32_checksum(&td)
    }

    /// The payload read as text, one character per byte. It never fails for
    /// byte payloads; the `Result` is kept for stricter encodings.
    pub fn data_as_string(&self) -> (r: Result<String, ParseChunkError>)
        ensures
            r matches Ok(s) && s@ == spec_latin1_chars(self@.data),
    {
        Ok(latin1_text(&self.data))
    }

    /// Serializes the chunk to its exact byte layout.
    pub fn as_bytes(&self) -> (r: Vec<u8>)
        requires
            self@.data.len() + 12 <= usize::MAX,
        ensures
            r@ == self@.spec_bytes(),
    {
        proof {
            use_type_invariant(&*self);
        }
        let mut r: Vec<u8> = Vec::new();
        push_u32_be_bytes(&mut r, self.data.len() as u32);
        let tb = self.chunk_type.bytes();
        r.push(tb[0]);
        r.push(tb[1]);
        r.push(tb[2]);
        r.push(tb[3]);
        let mut payload = copy_range(&self.data, 0, self.data.len());
        r.append(&mut payload);
        let crc = self.crc();
        push_u32_be_bytes(&mut r, crc);
        proof {
            assert(self@.data.subrange(0, self@.data.len() as int) =~= self@.data);
            assert(r@ =~= self@.spec_bytes());
        }
        r
    }

    /// Parses a buffer holding exactly one chunk, validating its checksum.
    /// No chunk is returned on any failure.
    pub fn parse(bytes: &Vec<u8>) -> (r: Result<Chunk, ParseChunkError>)
        ensures
            match r {
                Ok(c) => spec_parse_chunk(bytes@) == Ok::<ChunkModel, ParseChunkError>(c@)
                    && c@.wf(),
                Err(e) => spec_parse_chunk(bytes@) == Err::<ChunkModel, ParseChunkError>(e),
            },
    {
        match parse_chunk_at(bytes, 0) {
            Ok((c, end)) => if end == bytes.len() {
                Ok(c)
            } else {
                Err(ParseChunkError::CrcNotFound)
            },
            Err(e) => Err(e),
        }
    }
}

/// Parses the chunk that starts at `off` in `b`, leaving any bytes after it
/// to the caller; used chunk by chunk when a container is parsed.
pub fn parse_chunk_at(b: &Vec<u8>, off: usize) -> (r: Result<(Chunk, usize), ParseChunkError>)
    requires
        off <= b@.len(),
    ensures
        match r {
            Ok((c, end)) => spec_parse_chunk_at(b@, off as int) == Ok::<
                (ChunkModel, int),
                ParseChunkError,
            >((c@, end as int)) && c@.wf() && off < end <= b@.len(),
            Err(e) => spec_parse_chunk_at(b@, off as int) == Err::<
                (ChunkModel, int),
                ParseChunkError,
            >(e),
        },
{
    let n = b.len();
    if n - off < 4 {
        return Err(ParseChunkError::LengthNotFound);
    }
    if n - off < 8 {
        return Err(ParseChunkError::ChunkTypeNotFound);
    }
    let l = read_u32_be_bytes(b, off) as usize;
    if n - off - 8 < l {
        return Err(ParseChunkError::MessageNotFound);
    }
    if n - off - 8 - l < 4 {
        return Err(ParseChunkError::CrcNotFound);
    }
    let chunk_type = ChunkType::from_bytes([b[off + 4], b[off + 5], b[off + 6], b[off + 7]]);
    let data = copy_range(b, off + 8, off + 8 + l);
    let td = copy_range(b, off + 4, off + 8 + l);
    let computed = crc32_checksum(&td);
    let stored = read_u32_be_bytes(b, off + 8 + l);
    proof {
        assert(chunk_type@ =~= b@.subrange(off as int + 4, off as int + 8));
        assert(b@.subrange(off as int + 4, off as int + 8) + b@.subrange(
            off as int + 8,
            off as int + 8 + l as int,
        ) =~= b@.subrange(off as int + 4, off as int + 8 + l as int));
    }
    if stored != computed {
        return Err(ParseChunkError::InvalidCrc);
    }
    let c = Chunk { chunk_type, data };
    Ok((c, off + 12 + l))
}

/// Parsing at an offset where the exact bytes of a well-formed chunk lie
/// yields that chunk and the offset just past it, whatever bytes follow.
pub proof fn lemma_parse_chunk_at_serialized(b: Seq<u8>, off: int, m: ChunkModel)
    requires
        m.wf(),
        0 <= off,
        off + m.spec_bytes().len() <= b.len(),
        b.subrange(off, off + m.spec_bytes().len()) == m.spec_bytes(),
    ensures
        spec_parse_chunk_at(b, off) == Ok::<(ChunkModel, int), ParseChunkError>(
            (m, off + m.spec_bytes().len()),
        ),
{
    let sb = m.spec_bytes();
    let l = m.data.len() as int;
    let lb = spec_u32_to_be_bytes(m.data.len() as u32);
    let cb = spec_u32_to_be_bytes(m.crc());
    assert(sb.len() == l + 12);
    assert(b.subrange(off, off + 4) =~= lb) by {
        assert forall|j: int| 0 <= j < 4 implies b.subrange(off, off + 4)[j] == lb[j] by {
            assert(b.subrange(off, off + sb.len())[j] == sb[j]);
            assert(sb[j] == (((lb + m.ty) + m.data) + cb)[j]);
            assert((lb + m.ty)[j] == lb[j]);
        }
    }
    crate::codec::lemma_u32_be_bytes_roundtrip(m.data.len() as u32);
    assert(spec_u32_from_be_bytes(b.subrange(off, off + 4)) as int == l);
    assert(b.subrange(off + 4, off + 8) =~= m.ty) by {
        assert forall|j: int| 0 <= j < 4 implies b.subrange(off + 4, off + 8)[j] == m.ty[j] by {
            assert(b.subrange(off + 4, off + 8)[j] == b[off + 4 + j]);
            assert(b.subrange(off, off + sb.len())[4 + j] == sb[4 + j]);
            assert(sb[4 + j] == (((lb + m.ty) + m.data) + cb)[4 + j]);
            assert((lb + m.ty)[4 + j] == m.ty[j]);
        }
    }
    assert(b.subrange(off + 8, off + 8 + l) =~= m.data) by {
        assert forall|j: int| 0 <= j < l implies b.subrange(off + 8, off + 8 + l)[j] == m.data[j]
        by {
            assert(b.subrange(off + 8, off + 8 + l)[j] == b[off + 8 + j]);
            assert(b.subrange(off, off + sb.len())[8 + j] == sb[8 + j]);
            assert(sb[8 + j] == (((lb + m.ty) + m.data) + cb)[8 + j]);
            assert(((lb + m.ty) + m.data)[8 + j] == m.data[j]);
        }
    }
    assert(b.subrange(off + 8 + l, off + 12 + l) =~= cb) by {
        assert forall|j: int| 0 <= j < 4 implies b.subrange(off + 8 + l, off + 12 + l)[j] == cb[j]
        by {
            assert(b.subrange(off + 8 + l, off + 12 + l)[j] == b[off + 8 + l + j]);
            assert(b.subrange(off, off + sb.len())[8 + l + j] == sb[8 + l + j]);
            assert(sb[8 + l + j] == (((lb + m.ty) + m.data) + cb)[8 + l + j]);
        }
    }
    crate::codec::lemma_u32_be_bytes_roundtrip(m.crc());
    let parsed = ChunkModel {
        ty: b.subrange(off + 4, off + 8),
        data: b.subrange(off + 8, off + 8 + l),
    };
    assert(parsed =~= m);
}

/// Round trip: serializing any well-formed chunk and parsing the bytes back
/// gives the same chunk, with the same type, payload and checksum.
pub proof fn lemma_chunk_round_trip(m: ChunkModel)
    requires
        m.wf(),
    ensures
        spec_parse_chunk(m.spec_bytes()) == Ok::<ChunkModel, ParseChunkError>(m),
{
    let sb = m.spec_bytes();
    assert(sb.subrange(0, sb.len() as int) =~= sb);
    lemma_parse_chunk_at_serialized(sb, 0, m);
}

/// Checksum sensitivity: altering one byte in the type or payload region of a
/// serialized chunk, with the stored checksum left in place, makes the parse
/// fail with `InvalidCrc` whenever the checksum of the altered region differs
/// from the stored one.
pub proof fn lemma_chunk_corruption_detected(m: ChunkModel, i: int, v: u8)
    requires
        m.wf(),
        4 <= i < 8 + m.data.len(),
        crc32_of((m.ty + m.data).update(i - 4, v)) != m.crc(),
    ensures
        spec_parse_chunk(m.spec_bytes().update(i, v)) == Err::<ChunkModel, ParseChunkError>(
            ParseChunkError::InvalidCrc,
        ),
{
    let sb = m.spec_bytes();
    let l = m.data.len() as int;
    let lb = spec_u32_to_be_bytes(m.data.len() as u32);
    let cb = spec_u32_to_be_bytes(m.crc());
    let b = sb.update(i, v);
    assert(b.len() == l + 12);
    assert(b.subrange(0, 4) =~= lb) by {
        assert forall|j: int| 0 <= j < 4 implies b.subrange(0, 4)[j] == lb[j] by {
            assert(b[j] == sb[j]);
            assert(sb[j] == (((lb + m.ty) + m.data) + cb)[j]);
            assert((lb + m.ty)[j] == lb[j]);
        }
    }
    crate::codec::lemma_u32_be_bytes_roundtrip(m.data.len() as u32);
    assert(spec_u32_from_be_bytes(b.subrange(0, 4)) as int == l);
    assert(b.subrange(8 + l, 12 + l) =~= cb) by {
        assert forall|j: int| 0 <= j < 4 implies b.subrange(8 + l, 12 + l)[j] == cb[j] by {
            assert(b.subrange(8 + l, 12 + l)[j] == b[8 + l + j]);
            assert(b[8 + l + j] == sb[8 + l + j]);
            assert(sb[8 + l + j] == (((lb + m.ty) + m.data) + cb)[8 + l + j]);
        }
    }
    crate::codec::lemma_u32_be_bytes_roundtrip(m.crc());
    assert(spec_u32_from_be_bytes(b.subrange(8 + l, 12 + l)) == m.crc());
    let region = (m.ty + m.data).update(i - 4, v);
    assert(b.subrange(4, 8) + b.subrange(8, 8 + l) =~= region) by {
        assert forall|k: int| 0 <= k < 4 + l implies (b.subrange(4, 8) + b.subrange(8, 8 + l))[k]
            == region[k] by {
            if k < 4 {
                assert((b.subrange(4, 8) + b.subrange(8, 8 + l))[k] == b.subrange(4, 8)[k]);
                assert(b.subrange(4, 8)[k] == b[4 + k]);
            } else {
                assert((b.subrange(4, 8) + b.subrange(8, 8 + l))[k] == b.subrange(8, 8 + l)[k - 4]);
                assert(b.subrange(8, 8 + l)[k - 4] == b[4 + k]);
            }
            assert(sb[4 + k] == (((lb + m.ty) + m.data) + cb)[4 + k]);
            if k < 4 {
                assert((lb + m.ty)[4 + k] == m.ty[k]);
                assert((m.ty + m.data)[k] == m.ty[k]);
            } else {
                assert(((lb + m.ty) + m.data)[4 + k] == m.data[k - 4]);
                assert((m.ty + m.data)[k] == m.data[k - 4]);
            }
            if 4 + k == i {
                assert(b[4 + k] == v);
                assert(region[k] == v);
            } else {
                assert(b[4 + k] == sb[4 + k]);
                assert(region[k] == (m.ty + m.data)[k]);
            }
        }
    }
    let parsed = ChunkModel { ty: b.subrange(4, 8), data: b.subrange(8, 8 + l) };
    assert(parsed.ty + parsed.data == region);
}

} // verus!
