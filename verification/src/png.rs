//! The container: a fixed eight-byte file signature followed by an ordered
//! sequence of chunks. Supports parsing a whole buffer, appending, lookup by
//! type, removal of every chunk of a type, and byte-exact serialization.

use vstd::prelude::*;

use crate::chunk::{
    lemma_parse_chunk_at_serialized, parse_chunk_at, spec_parse_chunk_at, Chunk, ChunkModel,
    ParseChunkError,
};
use crate::chunk_type::ChunkType;

verus! {

broadcast use vstd::prelude::Seq::lemma_filter_push;

/// Why a byte buffer failed to parse as a container.
#[derive(Debug, PartialEq, Eq)]
pub enum ParsePngError {
    /// The buffer does not begin with the eight fixed signature bytes.
    InvalidSignature,
    /// A chunk of the body failed to parse.
    InvalidChunk(ParseChunkError),
}

/// The fixed eight-byte file signature that precedes the chunks.
pub open spec fn spec_signature() -> Seq<u8> {
    seq![137u8, 80u8, 78u8, 71u8, 13u8, 10u8, 26u8, 10u8]
}

/// Parses every chunk from `off` to the end of the buffer: the chunks lie
/// back to back, and the last one ends exactly at the end of the buffer.
pub open spec fn spec_parse_chunks(b: Seq<u8>, off: int) -> Result<Seq<ChunkModel>, ParseChunkError>
    recommends
        0 <= off <= b.len(),
    decreases b.len() - off,
    when 0 <= off <= b.len()
{
    if off == b.len() {
        Ok(Seq::empty())
    } else {
        match spec_parse_chunk_at(b, off) {
            Err(e) => Err(e),
            Ok((m, end)) => match spec_parse_chunks(b, end) {
                Err(e) => Err(e),
                Ok(rest) => Ok(seq![m] + rest),
            },
        }
    }
}

/// Parses a whole container: the signature, then chunks to the end.
pub open spec fn spec_parse_png(b: Seq<u8>) -> Result<Seq<ChunkModel>, ParsePngError> {
    if b.len() < 8 || b.subrange(0, 8) != spec_signature() {
        Err(ParsePngError::InvalidSignature)
    } else {
        match spec_parse_chunks(b, 8) {
            Ok(ms) => Ok(ms),
            Err(e) => Err(ParsePngError::InvalidChunk(e)),
        }
    }
}

/// The concatenation of the serialized chunks, in order.
pub open spec fn spec_chunks_bytes(ms: Seq<ChunkModel>) -> Seq<u8>
    decreases ms.len(),
{
    if ms.len() == 0 {
        Seq::empty()
    } else {
        ms[0].spec_bytes() + spec_chunks_bytes(ms.drop_first())
    }
}

/// The exact byte layout of a container: signature, then the chunks in order.
pub open spec fn spec_png_bytes(ms: Seq<ChunkModel>) -> Seq<u8> {
    spec_signature() + spec_chunks_bytes(ms)
}

/// The chunks a container no longer holds once a type is removed: those whose
/// type differs from the given one, in their original order.
pub open spec fn spec_remove(ms: Seq<ChunkModel>, ty: Seq<u8>) -> Seq<ChunkModel> {
    ms.filter(|m: ChunkModel| m.ty != ty)
}

/// Serializing one more chunk appends its bytes.
proof fn lemma_chunks_bytes_push(ms: Seq<ChunkModel>, m: ChunkModel)
    ensures
        spec_chunks_bytes(ms.push(m)) == spec_chunks_bytes(ms) + m.spec_bytes(),
    decreases ms.len(),
{
    if ms.len() == 0 {
        assert(ms.push(m).drop_first() =~= Seq::<ChunkModel>::empty());
        assert(ms.push(m)[0] == m);
        assert(spec_chunks_bytes(Seq::<ChunkModel>::empty()) == Seq::<u8>::empty());
        assert(spec_chunks_bytes(ms.push(m)) =~= spec_chunks_bytes(ms) + m.spec_bytes());
    } else {
        assert(ms.push(m).drop_first() =~= ms.drop_first().push(m));
        assert(ms.push(m)[0] == ms[0]);
        lemma_chunks_bytes_push(ms.drop_first(), m);
        assert(spec_chunks_bytes(ms.push(m)) =~= spec_chunks_bytes(ms) + m.spec_bytes());
    }
}

/// Each chunk's serialized bytes are no longer than the whole body.
proof fn lemma_chunks_bytes_len_bound(ms: Seq<ChunkModel>, i: int)
    requires
        0 <= i < ms.len(),
    ensures
        ms[i].spec_bytes().len() <= spec_chunks_bytes(ms).len(),
    decreases ms.len(),
{
    if i > 0 {
        lemma_chunks_bytes_len_bound(ms.drop_first(), i - 1);
    }
}

/// A container that holds the fixed signature and exclusively owns its
/// ordered chunk sequence; insertion order determines output byte order.
#[derive(Debug)]
pub struct Png {
    chunks: Vec<Chunk>,
}

impl View for Png {
    type V = Seq<ChunkModel>;

    closed spec fn view(&self) -> Seq<ChunkModel> {
        Seq::new(self.chunks@.len(), |i: int| self.chunks@[i]@)
    }
}

/// While a container is parsed chunk by chunk, the chunks read so far (`acc`)
/// together with whatever the rest of the buffer parses to make up exactly
/// what the whole body parses to.
spec fn parse_continues(b: Seq<u8>, off: int, acc: Seq<ChunkModel>) -> bool {
    match spec_parse_chunks(b, off) {
        Ok(rest) => spec_parse_chunks(b, 8) == Ok::<Seq<ChunkModel>, ParseChunkError>(acc + rest),
        Err(e) => spec_parse_chunks(b, 8) == Err::<Seq<ChunkModel>, ParseChunkError>(e),
    }
}

impl Png {
    /// A container with the fixed signature and no chunks yet.
    pub fn new() -> (r: Png)
        ensures
            r@ == Seq::<ChunkModel>::empty(),
    {
        let r = Png { chunks: Vec::new() };
        proof {
            assert(r@ =~= Seq::<ChunkModel>::empty());
        }
        r
    }

    /// The held chunks, in order.
    pub fn chunks(&self) -> (r: &Vec<Chunk>)
        ensures
            r@.len() == self@.len(),
            forall|i: int| 0 <= i < r@.len() ==> (#[trigger] r@[i])@ == self@[i],
    {
        &self.chunks
    }

    /// Parses a whole buffer: the signature, then chunks until the buffer is
    /// exhausted. Any chunk failure abandons the parse; no partial container
    /// is ever returned.
    pub fn parse(bytes: &Vec<u8>) -> (r: Result<Png, ParsePngError>)
        ensures
            match r {
                Ok(p) => spec_parse_png(bytes@) == Ok::<Seq<ChunkModel>, ParsePngError>(p@),
                Err(e) => spec_parse_png(bytes@) == Err::<Seq<ChunkModel>, ParsePngError>(e),
            },
    {
        let n = bytes.len();
        if n < 8 {
            return Err(ParsePngError::InvalidSignature);
        }
        if !(bytes[0] == 137 && bytes[1] == 80 && bytes[2] == 78 && bytes[3] == 71 && bytes[4]
            == 13 && bytes[5] == 10 && bytes[6] == 26 && bytes[7] == 10) {
            proof {
                if bytes@.subrange(0, 8) == spec_signature() {
                    assert(forall|k: int|
                        0 <= k < 8 ==> bytes@[k] == #[trigger] bytes@.subrange(0, 8)[k]);
                }
            }
            return Err(ParsePngError::InvalidSignature);
        }
        proof {
            assert(bytes@.subrange(0, 8) =~= spec_signature());
        }
        let mut chunks: Vec<Chunk> = Vec::new();
        let mut off: usize = 8;
        proof {
            assert(Seq::new(chunks@.len(), |i: int| chunks@[i]@) =~= Seq::<ChunkModel>::empty());
        }
        while off < n
            invariant
                8 <= off <= n,
                n == bytes@.len(),
                bytes@.subrange(0, 8) == spec_signature(),
                parse_continues(bytes@, off as int, Seq::new(chunks@.len(), |i: int| chunks@[i]@)),
            decreases n - off,
        {
            let ghost acc = Seq::new(chunks@.len(), |i: int| chunks@[i]@);
            match parse_chunk_at(bytes, off) {
                Err(e) => {
                    proof {
                        assert(spec_parse_chunks(bytes@, off as int) == Err::<
                            Seq<ChunkModel>,
                            ParseChunkError,
                        >(e));
                    }
                    return Err(ParsePngError::InvalidChunk(e));
                },
                Ok((c, end)) => {
                    let ghost m = c@;
                    chunks.push(c);
                    off = end;
                    proof {
                        assert(Seq::new(chunks@.len(), |i: int| chunks@[i]@) =~= acc.push(m));
                        match spec_parse_chunks(bytes@, end as int) {
                            Ok(rest) => {
                                assert(acc + (seq![m] + rest) =~= acc.push(m) + rest);
                            },
                            Err(_) => {},
                        }
                    }
                },
            }
        }
        proof {
            assert(spec_parse_chunks(bytes@, n as int) == Ok::<Seq<ChunkModel>, ParseChunkError>(
                Seq::empty(),
            ));
        }
        let p = Png { chunks };
        proof {
            assert(Seq::new(p.chunks@.len(), |i: int| p.chunks@[i]@) + Seq::<ChunkModel>::empty()
                =~= p@);
        }
        Ok(p)
    }

    /// Appends a chunk at the end; order is preserved and duplicate types are
    /// allowed.
    pub fn append_chunk(&mut self, chunk: Chunk)
        ensures
            final(self)@ == old(self)@.push(chunk@),
    {
        let ghost m = chunk@;
        self.chunks.push(chunk);
        proof {
            assert(self@ =~= old(self)@.push(m));
        }
    }

    /// The first chunk, in stored order, whose type matches; nothing when no
    /// chunk of that type is held.
    pub fn chunk_by_type(&self, target: &ChunkType) -> (r: Option<&Chunk>)
        ensures
            match r {
                Some(c) => exists|i: int|
                    0 <= i < self@.len() && (#[trigger] self@[i]).ty == target@ && c@ == self@[i]
                        && (forall|j: int| 0 <= j < i ==> (#[trigger] self@[j]).ty != target@),
                None => forall|i: int| 0 <= i < self@.len() ==> (#[trigger] self@[i]).ty != target@,
            },
    {
        let n = self.chunks.len();
        let mut i: usize = 0;
        while i < n
            invariant
                i <= n,
                n == self.chunks@.len(),
                forall|j: int| 0 <= j < i ==> (#[trigger] self@[j]).ty != target@,
            decreases n - i,
        {
            let c = &self.chunks[i];
            if *c.chunk_type() == *target {
                proof {
                    assert(self@[i as int].ty == target@);
                }
                return Some(c);
            }
            i = i + 1;
        }
        None
    }

    /// Serializes the container: the signature bytes, then each chunk's
    /// bytes in stored order.
    pub fn as_bytes(&self) -> (r: Vec<u8>)
        requires
            spec_png_bytes(self@).len() <= usize::MAX,
        ensures
            r@ == spec_png_bytes(self@),
    {
        let mut out: Vec<u8> = Vec::new();
        out.push(137);
        out.push(80);
        out.push(78);
        out.push(71);
        out.push(13);
        out.push(10);
        out.push(26);
        out.push(10);
        proof {
            assert(out@ =~= spec_signature());
            assert(self@.take(0) =~= Seq::<ChunkModel>::empty());
            assert(spec_chunks_bytes(Seq::<ChunkModel>::empty()) == Seq::<u8>::empty());
            assert(out@ =~= spec_signature() + spec_chunks_bytes(self@.take(0)));
        }
        let n = self.chunks.len();
        let mut i: usize = 0;
        while i < n
            invariant
                i <= n,
                n == self.chunks@.len(),
                n == self@.len(),
                spec_png_bytes(self@).len() <= usize::MAX,
                out@ == spec_signature() + spec_chunks_bytes(self@.take(i as int)),
            decreases n - i,
        {
            let c = &self.chunks[i];
            proof {
                use_type_invariant(c);
                assert(c@ == self@[i as int]);
                lemma_chunks_bytes_len_bound(self@, i as int);
                assert(c@.spec_bytes().len() == c@.data.len() + 12);
            }
            let mut piece = c.as_bytes();
            out.append(&mut piece);
            proof {
                assert(self@.take(i as int + 1) =~= self@.take(i as int).push(self@[i as int]));
                lemma_chunks_bytes_push(self@.take(i as int), self@[i as int]);
            }
            i = i + 1;
        }
        proof {
            assert(self@.take(n as int) =~= self@);
        }
        out
    }

    /// Removes every chunk whose type matches; the order of the remaining
    /// chunks is preserved, and removing a type that is not held is a no-op.
    pub fn remove_chunks(&mut self, target: &ChunkType)
        ensures
            final(self)@ == spec_remove(old(self)@, target@),
    {
        let ghost mut j: int = 0;
        let mut i: usize = 0;
        proof {
            reveal(Seq::filter);
            assert(old(self)@.take(0) =~= Seq::<ChunkModel>::empty());
            assert(self@ =~= spec_remove(old(self)@.take(0), target@) + old(self)@.skip(0));
        }
        while i < self.chunks.len()
            invariant
                0 <= j <= old(self)@.len(),
                self@ == spec_remove(old(self)@.take(j), target@) + old(self)@.skip(j),
                i == spec_remove(old(self)@.take(j), target@).len(),
            decreases old(self)@.len() - j,
        {
            let ghost kept = spec_remove(old(self)@.take(j), target@);
            let ghost m = old(self)@[j];
            proof {
                assert(j < old(self)@.len());
                assert(self@[i as int] == old(self)@.skip(j)[0]);
                assert(old(self)@.take(j + 1) =~= old(self)@.take(j).push(m));
            }
            let matches_target = *self.chunks[i].chunk_type() == *target;
            if matches_target {
                let ghost before = self.chunks@;
                let ghost pre = self@;
                self.chunks.remove(i);
                proof {
                    assert(pre == kept + old(self)@.skip(j));
                    assert(kept.len() == i as int);
                    assert(self.chunks@ == before.remove(i as int));
                    assert(self@.len() == pre.len() - 1);
                    assert(self@ =~= kept + old(self)@.skip(j + 1)) by {
                        assert forall|k: int| 0 <= k < self@.len() implies self@[k] == (kept + old(
                            self,
                        )@.skip(j + 1))[k] by {
                            if k < i {
                                assert(before.remove(i as int)[k] == before[k]);
                                assert(self@[k] == before[k]@);
                                assert(pre[k] == before[k]@);
                                assert(pre[k] == kept[k]);
                                assert((kept + old(self)@.skip(j + 1))[k] == kept[k]);
                            } else {
                                assert(before.remove(i as int)[k] == before[k + 1]);
                                assert(self@[k] == before[k + 1]@);
                                assert(pre[k + 1] == before[k + 1]@);
                                assert(pre[k + 1] == old(self)@.skip(j)[k + 1 - i]);
                                assert(old(self)@.skip(j)[k + 1 - i] == old(self)@[j + (k + 1
                                    - i)]);
                                assert((kept + old(self)@.skip(j + 1))[k] == old(self)@.skip(j
                                    + 1)[k - i]);
                                assert(old(self)@.skip(j + 1)[k - i] == old(self)@[j + 1 + (k
                                    - i)]);
                            }
                        }
                    }
                }
            } else {
                i = i + 1;
                proof {
                    assert(self@ =~= spec_remove(old(self)@.take(j + 1), target@) + old(
                        self,
                    )@.skip(j + 1));
                }
            }
            proof {
                j = j + 1;
            }
        }
        proof {
            assert(old(self)@.take(j) =~= old(self)@);
            assert(old(self)@.skip(j) =~= Seq::<ChunkModel>::empty());
            assert(self@ =~= spec_remove(old(self)@, target@));
        }
    }
}

/// Parsing chunks at an offset where the exact serialized bytes of a sequence
/// of well-formed chunks run to the end of the buffer yields that sequence.
proof fn lemma_parse_chunks_serialized(b: Seq<u8>, off: int, ms: Seq<ChunkModel>)
    requires
        forall|i: int| 0 <= i < ms.len() ==> (#[trigger] ms[i]).wf(),
        0 <= off <= b.len(),
        b.subrange(off, b.len() as int) == spec_chunks_bytes(ms),
    ensures
        spec_parse_chunks(b, off) == Ok::<Seq<ChunkModel>, ParseChunkError>(ms),
    decreases ms.len(),
{
    if ms.len() == 0 {
        assert(spec_chunks_bytes(ms) == Seq::<u8>::empty());
        assert(b.subrange(off, b.len() as int).len() == 0);
        assert(off == b.len());
        assert(ms =~= Seq::<ChunkModel>::empty());
    } else {
        let m = ms[0];
        let k = m.spec_bytes().len() as int;
        assert(spec_chunks_bytes(ms) == m.spec_bytes() + spec_chunks_bytes(ms.drop_first()));
        assert(b.len() - off == spec_chunks_bytes(ms).len());
        assert(k >= 12);
        assert(b.subrange(off, off + k) =~= m.spec_bytes()) by {
            assert forall|j: int| 0 <= j < k implies b.subrange(off, off + k)[j]
                == m.spec_bytes()[j] by {
                assert(b.subrange(off, off + k)[j] == b[off + j]);
                assert(b.subrange(off, b.len() as int)[j] == b[off + j]);
                assert(spec_chunks_bytes(ms)[j] == (m.spec_bytes() + spec_chunks_bytes(
                    ms.drop_first(),
                ))[j]);
            }
        }
        lemma_parse_chunk_at_serialized(b, off, m);
        assert(b.subrange(off + k, b.len() as int) =~= spec_chunks_bytes(ms.drop_first())) by {
            assert forall|j: int| 0 <= j < b.len() - off - k implies b.subrange(
                off + k,
                b.len() as int,
            )[j] == spec_chunks_bytes(ms.drop_first())[j] by {
                assert(b.subrange(off + k, b.len() as int)[j] == b[off + k + j]);
                assert(b.subrange(off, b.len() as int)[k + j] == b[off + k + j]);
                assert(spec_chunks_bytes(ms)[k + j] == (m.spec_bytes() + spec_chunks_bytes(
                    ms.drop_first(),
                ))[k + j]);
            }
        }
        lemma_parse_chunks_serialized(b, off + k, ms.drop_first());
        assert(seq![m] + ms.drop_first() =~= ms);
        assert(spec_parse_chunk_at(b, off) == Ok::<(ChunkModel, int), ParseChunkError>(
            (m, off + k),
        ));
        assert(spec_parse_chunks(b, off) == Ok::<Seq<ChunkModel>, ParseChunkError>(
            seq![m] + ms.drop_first(),
        ));
    }
}

/// Round trip: serializing any container of well-formed chunks and parsing
/// the bytes back gives the same signature and the same ordered chunks.
pub proof fn lemma_png_round_trip(ms: Seq<ChunkModel>)
    requires
        forall|i: int| 0 <= i < ms.len() ==> (#[trigger] ms[i]).wf(),
    ensures
        spec_parse_png(spec_png_bytes(ms)) == Ok::<Seq<ChunkModel>, ParsePngError>(ms),
{
    let b = spec_png_bytes(ms);
    assert(b.subrange(0, 8) =~= spec_signature()) by {
        assert forall|j: int| 0 <= j < 8 implies b.subrange(0, 8)[j] == spec_signature()[j] by {
            assert(b[j] == (spec_signature() + spec_chunks_bytes(ms))[j]);
        }
    }
    assert(b.subrange(8, b.len() as int) =~= spec_chunks_bytes(ms)) by {
        assert forall|j: int| 0 <= j < b.len() - 8 implies b.subrange(8, b.len() as int)[j]
            == spec_chunks_bytes(ms)[j] by {
            assert(b.subrange(8, b.len() as int)[j] == b[8 + j]);
            assert(b[8 + j] == (spec_signature() + spec_chunks_bytes(ms))[8 + j]);
        }
    }
    lemma_parse_chunks_serialized(b, 8, ms);
}

} // verus!
