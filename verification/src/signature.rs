use vstd::prelude::*;

use crate::chunker::{
    chunk_cuts, chunk_params_valid, cuts_of, cuts_partition, lemma_cut_end_bound,
};
use crate::codec::{
    be32_bytes, be32_val, be64_bytes, be64_val, lemma_be32_roundtrip, lemma_be64_roundtrip,
    push_be32, push_be64, push_bytes, bytes_eq, read_be32, read_be64,
};
use crate::errors::DeltaError;
use crate::hasher::{digest, hash_of};
use crate::VERSION;

verus! {

pub const DEFAULT_MIN_SIZE: u32 = 4096;

pub const DEFAULT_AVG_SIZE: u32 = 16384;

pub const DEFAULT_MAX_SIZE: u32 = 65535;

/// Mathematical image of a [`Chunk`].
#[verifier::ext_equal]
pub ghost struct ChunkModel {
    pub hash: Seq<u8>,
    pub offset: u64,
    pub length: u64,
}

/// Mathematical image of a [`Signature`].
#[verifier::ext_equal]
pub ghost struct SigModel {
    pub version: u8,
    pub min_size: u32,
    pub avg_size: u32,
    pub max_size: u32,
    pub chunks: Seq<ChunkModel>,
}

/// One contiguous byte range of a file, identified by the cryptographic hash
/// of its contents.
#[derive(Debug, Clone)]
pub struct Chunk {
    pub hash: Vec<u8>,
    pub offset: u64,
    pub length: u64,
}

impl View for Chunk {
    type V = ChunkModel;

    open spec fn view(&self) -> ChunkModel {
        ChunkModel { hash: self.hash@, offset: self.offset, length: self.length }
    }
}

impl PartialEq for Chunk {
    /// Chunks are equal when hash and length agree; the offset is not part of
    /// chunk identity.
    fn eq(&self, other: &Self) -> (r: bool) {
        bytes_eq(&self.hash, &other.hash) && self.length == other.length
    }
}

impl Eq for Chunk {

}

impl vstd::std_specs::cmp::PartialEqSpecImpl for Chunk {
    open spec fn obeys_eq_spec() -> bool {
        true
    }

    open spec fn eq_spec(&self, other: &Self) -> bool {
        self.hash@ == other.hash@ && self.length == other.length
    }
}

/// The ordered chunk list summarizing one file, together with the
/// content-defined-chunking parameters that produced it.
#[derive(Debug)]
pub struct Signature {
    pub version: u8,
    pub min_size: u32,
    pub avg_size: u32,
    pub max_size: u32,
    pub chunks: Vec<Chunk>,
}

impl View for Signature {
    type V = SigModel;

    open spec fn view(&self) -> SigModel {
        SigModel {
            version: self.version,
            min_size: self.min_size,
            avg_size: self.avg_size,
            max_size: self.max_size,
            chunks: self.chunks@.map_values(|c: Chunk| c@),
        }
    }
}

impl PartialEq for Signature {
    fn eq(&self, other: &Self) -> (r: bool) {
        if self.version != other.version || self.min_size != other.min_size || self.avg_size
            != other.avg_size || self.max_size != other.max_size || self.chunks.len()
            != other.chunks.len() {
            return false;
        }
        let n = self.chunks.len();
        let mut i: usize = 0;
        while i < n
            invariant
                i <= n,
                n == self.chunks@.len(),
                n == other.chunks@.len(),
                forall|j: int|
                    0 <= j < i ==> (#[trigger] self.chunks@[j])@.hash == other.chunks@[j]@.hash
                        && self.chunks@[j]@.length == other.chunks@[j]@.length,
            decreases n - i,
        {
            if !(self.chunks[i] == other.chunks[i]) {
                return false;
            }
            i = i + 1;
        }
        true
    }
}

impl Eq for Signature {

}

impl vstd::std_specs::cmp::PartialEqSpecImpl for Signature {
    open spec fn obeys_eq_spec() -> bool {
        true
    }

    open spec fn eq_spec(&self, other: &Self) -> bool {
        &&& self.version == other.version
        &&& self.min_size == other.min_size
        &&& self.avg_size == other.avg_size
        &&& self.max_size == other.max_size
        &&& self.chunks@.len() == other.chunks@.len()
        &&& forall|j: int|
            0 <= j < self.chunks@.len() ==> (#[trigger] self.chunks@[j])@.hash
                == other.chunks@[j]@.hash && self.chunks@[j]@.length == other.chunks@[j]@.length
    }
}

// ---------------------------------------------------------------------------
// Serialized form
// ---------------------------------------------------------------------------
/// The 48 serialized bytes of one chunk record: hash, then offset and length
/// big-endian.
pub open spec fn chunk_rec(c: ChunkModel) -> Seq<u8> {
    c.hash + be64_bytes(c.offset) + be64_bytes(c.length)
}

/// The concatenated chunk records of `cs`, in order.
pub open spec fn chunks_ser(cs: Seq<ChunkModel>) -> Seq<u8>
    decreases cs.len(),
{
    if cs.len() == 0 {
        Seq::empty()
    } else {
        chunk_rec(cs[0]) + chunks_ser(cs.skip(1))
    }
}

/// The 21-byte signature header: version, the three size parameters
/// big-endian, and the chunk count as eight big-endian bytes.
pub open spec fn sig_header(m: SigModel) -> Seq<u8> {
    seq![m.version] + be32_bytes(m.min_size) + be32_bytes(m.avg_size) + be32_bytes(m.max_size)
        + be64_bytes(m.chunks.len() as u64)
}

/// The full serialized signature: header followed by the chunk records.
pub open spec fn sig_ser(m: SigModel) -> Seq<u8> {
    sig_header(m) + chunks_ser(m.chunks)
}

/// Appending a chunk appends its record.
pub proof fn lemma_chunks_ser_push(cs: Seq<ChunkModel>, c: ChunkModel)
    ensures
        chunks_ser(cs.push(c)) == chunks_ser(cs) + chunk_rec(c),
    decreases cs.len(),
{
    if cs.len() == 0 {
        assert(cs.push(c)[0] == c);
        assert(cs.push(c).skip(1) =~= Seq::<ChunkModel>::empty());
        assert(chunks_ser(cs.push(c)) == chunk_rec(c) + chunks_ser(Seq::<ChunkModel>::empty()));
        assert(chunk_rec(c) + Seq::<u8>::empty() =~= Seq::<u8>::empty() + chunk_rec(c));
    } else {
        assert(cs.push(c).skip(1) =~= cs.skip(1).push(c));
        lemma_chunks_ser_push(cs.skip(1), c);
        assert(cs.push(c)[0] == cs[0]);
        assert(chunks_ser(cs.push(c)) == chunk_rec(cs[0]) + (chunks_ser(cs.skip(1)) + chunk_rec(
            c,
        )));
        assert(chunks_ser(cs) == chunk_rec(cs[0]) + chunks_ser(cs.skip(1)));
        assert(chunk_rec(cs[0]) + (chunks_ser(cs.skip(1)) + chunk_rec(c)) =~= (chunk_rec(cs[0])
            + chunks_ser(cs.skip(1))) + chunk_rec(c));
    }
}

/// With 32-byte hashes every record is 48 bytes long.
pub proof fn lemma_chunks_ser_len(cs: Seq<ChunkModel>)
    requires
        forall|i: int| 0 <= i < cs.len() ==> (#[trigger] cs[i]).hash.len() == 32,
    ensures
        chunks_ser(cs).len() == 48 * cs.len(),
    decreases cs.len(),
{
    if cs.len() == 0 {
    } else {
        lemma_chunks_ser_len(cs.skip(1));
    }
}

/// The chunk record parsed from bytes `21 + 48*i .. 21 + 48*(i+1)` of a
/// serialized signature.
pub open spec fn parsed_chunk(d: Seq<u8>, i: int) -> ChunkModel {
    ChunkModel {
        hash: d.subrange(21 + 48 * i, 21 + 48 * i + 32),
        offset: be64_val(d.subrange(21 + 48 * i + 32, 21 + 48 * i + 40)),
        length: be64_val(d.subrange(21 + 48 * i + 40, 21 + 48 * i + 48)),
    }
}

/// Whether chunk record `i` violates the chunk invariants: longer than
/// `max_size`, or an offset below its predecessor's.
pub open spec fn chunk_rejected(d: Seq<u8>, i: int, max_size: u32) -> bool {
    ||| parsed_chunk(d, i).length > max_size
    ||| (i > 0 && parsed_chunk(d, i).offset < parsed_chunk(d, i - 1).offset)
}

/// What loading a serialized signature yields: the parsed signature, or the
/// first reason the bytes are rejected. An unknown version is reported before
/// anything else is read; too few bytes for the header or for the advertised
/// chunk count is a framing error; a chunk breaking the chunk invariants is
/// rejected.
pub open spec fn sig_parse(d: Seq<u8>) -> Result<SigModel, DeltaError> {
    if d.len() < 1 {
        Err(DeltaError::Framing)
    } else if d[0] != VERSION {
        Err(DeltaError::VersionMismatch { got: d[0], want: VERSION })
    } else if d.len() < 21 {
        Err(DeltaError::Framing)
    } else {
        let count = be64_val(d.subrange(13, 21)) as int;
        if d.len() < 21 + 48 * count {
            Err(DeltaError::Framing)
        } else if exists|i: int|
            0 <= i < count && chunk_rejected(d, i, be32_val(d.subrange(9, 13))) {
            Err(DeltaError::ChunkParamInvariant)
        } else {
            Ok(
                SigModel {
                    version: d[0],
                    min_size: be32_val(d.subrange(1, 5)),
                    avg_size: be32_val(d.subrange(5, 9)),
                    max_size: be32_val(d.subrange(9, 13)),
                    chunks: Seq::new(count as nat, |i: int| parsed_chunk(d, i)),
                },
            )
        }
    }
}

/// The bytes of record `i` inside the concatenation are the record of
/// chunk `i`.
pub proof fn lemma_chunks_ser_index(cs: Seq<ChunkModel>, i: int)
    requires
        forall|k: int| 0 <= k < cs.len() ==> (#[trigger] cs[k]).hash.len() == 32,
        0 <= i < cs.len(),
    ensures
        chunks_ser(cs).subrange(48 * i, 48 * i + 48) == chunk_rec(cs[i]),
    decreases i,
{
    lemma_chunks_ser_len(cs);
    lemma_chunks_ser_len(cs.skip(1));
    if i == 0 {
        assert(chunks_ser(cs).subrange(0, 48) =~= chunk_rec(cs[0]));
    } else {
        lemma_chunks_ser_index(cs.skip(1), i - 1);
        assert(cs.skip(1)[i - 1] == cs[i]);
        assert(chunks_ser(cs).subrange(48 * i, 48 * i + 48) =~= chunks_ser(cs.skip(1)).subrange(
            48 * (i - 1),
            48 * (i - 1) + 48,
        ));
    }
}

// ---------------------------------------------------------------------------
// Building a signature from bytes
// ---------------------------------------------------------------------------
/// Chunk `i` starts where chunk `i - 1` ends.
pub open spec fn chunk_adjacent(cs: Seq<ChunkModel>, i: int) -> bool {
    cs[i].offset == cs[i - 1].offset + cs[i - 1].length
}

/// The chunk list tiles `[0, total)`: the first chunk starts at zero, each
/// chunk starts where the previous one ended, the last chunk ends at `total`,
/// and no chunk is empty.
pub open spec fn chunks_cover(cs: Seq<ChunkModel>, total: int) -> bool {
    &&& (cs.len() == 0 <==> total == 0)
    &&& (cs.len() > 0 ==> cs[0].offset == 0)
    &&& (forall|i: int| 0 < i < cs.len() ==> #[trigger] chunk_adjacent(cs, i))
    &&& (cs.len() > 0 ==> cs.last().offset + cs.last().length == total)
    &&& (forall|i: int| 0 <= i < cs.len() ==> (#[trigger] cs[i]).length >= 1)
}

/// Every chunk of a covering list ends at or before `total`.
pub proof fn lemma_chunk_end_bound(cs: Seq<ChunkModel>, total: int, i: int)
    requires
        chunks_cover(cs, total),
        0 <= i < cs.len(),
    ensures
        cs[i].offset + cs[i].length <= total,
    decreases cs.len() - i,
{
    if i == cs.len() - 1 {
    } else {
        assert(chunk_adjacent(cs, i + 1));
        lemma_chunk_end_bound(cs, total, i + 1);
    }
}

/// The chunks a file's bytes produce: the content-defined cut list, each cut
/// paired with the digest of the bytes it spans.
pub open spec fn spec_chunks_of(data: Seq<u8>, min_size: u32, avg_size: u32, max_size: u32) -> Seq<
    ChunkModel,
> {
    let cuts = cuts_of(data, min_size, avg_size, max_size);
    Seq::new(
        cuts.len(),
        |i: int|
            ChunkModel {
                hash: hash_of(data.subrange(cuts[i].0 as int, cuts[i].0 + cuts[i].1)),
                offset: cuts[i].0,
                length: cuts[i].1,
            },
    )
}

/// The signature a file's bytes produce for the given parameters.
pub open spec fn spec_signature(data: Seq<u8>, min_size: u32, avg_size: u32, max_size: u32)
    -> SigModel {
    SigModel {
        version: VERSION,
        min_size,
        avg_size,
        max_size,
        chunks: spec_chunks_of(data, min_size, avg_size, max_size),
    }
}

/// A partitioning cut list yields a covering chunk list with lengths within
/// `max_size`.
pub proof fn lemma_chunks_of_cover(data: Seq<u8>, min_size: u32, avg_size: u32, max_size: u32)
    requires
        cuts_partition(cuts_of(data, min_size, avg_size, max_size), data.len() as int, max_size),
    ensures
        chunks_cover(spec_chunks_of(data, min_size, avg_size, max_size), data.len() as int),
        forall|i: int|
            0 <= i < spec_chunks_of(data, min_size, avg_size, max_size).len() ==> (
            #[trigger] spec_chunks_of(data, min_size, avg_size, max_size)[i]).length <= max_size,
{
    let cuts = cuts_of(data, min_size, avg_size, max_size);
    let cs = spec_chunks_of(data, min_size, avg_size, max_size);
    assert(cs.len() == cuts.len());
    assert forall|i: int| 0 <= i < cs.len() implies (#[trigger] cs[i]).offset == cuts[i].0 && cs[i].length
        == cuts[i].1 by {}
    assert forall|i: int| 0 < i < cs.len() implies #[trigger] chunk_adjacent(cs, i) by {
        assert(cuts[i].0 == cuts[i - 1].0 + cuts[i - 1].1);
        assert(cs[i].offset == cuts[i].0 && cs[i - 1].offset == cuts[i - 1].0 && cs[i - 1].length
            == cuts[i - 1].1);
    }
    if cs.len() > 0 {
        assert(cs.last().offset + cs.last().length == cuts.last().0 + cuts.last().1);
    }
}

/// A signature value whose serialized form loads back unchanged: current
/// version, 32-byte hashes, a chunk count that fits the count field, chunk
/// lengths within `max_size`, offsets non-decreasing.
pub open spec fn sig_serializable(m: SigModel) -> bool {
    &&& m.version == VERSION
    &&& m.chunks.len() <= u64::MAX
    &&& forall|i: int| 0 <= i < m.chunks.len() ==> (#[trigger] m.chunks[i]).hash.len() == 32
    &&& forall|i: int| 0 <= i < m.chunks.len() ==> (#[trigger] m.chunks[i]).length <= m.max_size
    &&& forall|i: int|
        0 < i < m.chunks.len() ==> (#[trigger] m.chunks[i]).offset >= m.chunks[i - 1].offset
}

/// Loading a written signature gives the signature back.
pub proof fn lemma_sig_roundtrip(m: SigModel)
    requires
        sig_serializable(m),
    ensures
        sig_parse(sig_ser(m)) == Ok::<SigModel, DeltaError>(m),
{
    let d = sig_ser(m);
    let n = m.chunks.len() as int;
    lemma_chunks_ser_len(m.chunks);
    assert(sig_header(m).len() == 21);
    assert(d.len() == 21 + 48 * n);
    assert(d[0] == m.version);
    lemma_be32_roundtrip(m.min_size);
    lemma_be32_roundtrip(m.avg_size);
    lemma_be32_roundtrip(m.max_size);
    lemma_be64_roundtrip(m.chunks.len() as u64);
    assert(d.subrange(1, 5) =~= be32_bytes(m.min_size));
    assert(d.subrange(5, 9) =~= be32_bytes(m.avg_size));
    assert(d.subrange(9, 13) =~= be32_bytes(m.max_size));
    assert(d.subrange(13, 21) =~= be64_bytes(m.chunks.len() as u64));
    assert(be64_val(d.subrange(13, 21)) as int == n);
    assert forall|i: int| 0 <= i < n implies parsed_chunk(d, i) == m.chunks[i] by {
        lemma_chunks_ser_index(m.chunks, i);
        let rec = chunk_rec(m.chunks[i]);
        assert(d.subrange(21 + 48 * i, 21 + 48 * i + 48) =~= chunks_ser(m.chunks).subrange(
            48 * i,
            48 * i + 48,
        ));
        assert(rec.len() == 48);
        assert(d.subrange(21 + 48 * i, 21 + 48 * i + 32) =~= rec.subrange(0, 32));
        assert(d.subrange(21 + 48 * i + 32, 21 + 48 * i + 40) =~= rec.subrange(32, 40));
        assert(d.subrange(21 + 48 * i + 40, 21 + 48 * i + 48) =~= rec.subrange(40, 48));
        assert(rec.subrange(0, 32) =~= m.chunks[i].hash);
        assert(rec.subrange(32, 40) =~= be64_bytes(m.chunks[i].offset));
        assert(rec.subrange(40, 48) =~= be64_bytes(m.chunks[i].length));
        lemma_be64_roundtrip(m.chunks[i].offset);
        lemma_be64_roundtrip(m.chunks[i].length);
        assert(parsed_chunk(d, i) =~= m.chunks[i]);
    }
    assert(!(exists|i: int| 0 <= i < n && chunk_rejected(d, i, be32_val(d.subrange(9, 13)))));
    match sig_parse(d) {
        Ok(x) => {
            assert(x.chunks =~= m.chunks);
            assert(x =~= m);
        },
        Err(_) => {
            assert(false);
        },
    }
}

impl Signature {
    /// Builds the signature of `source`: content-defined chunks, each with
    /// the digest of its bytes.
    #[verifier::rlimit(60)]
    pub fn calculate(source: &[u8], min_size: u32, avg_size: u32, max_size: u32) -> (sig:
        Signature)
        requires
            chunk_params_valid(min_size, avg_size, max_size),
        ensures
            sig@ == spec_signature(source@, min_size, avg_size, max_size),
            chunks_cover(sig@.chunks, source@.len() as int),
            forall|i: int|
                0 <= i < sig@.chunks.len() ==> (#[trigger] sig@.chunks[i]).length <= max_size,
            forall|i: int|
                0 <= i < sig@.chunks.len() ==> (#[trigger] sig@.chunks[i]).hash.len() == 32,
            source@.len() > 0 && source@.len() <= min_size ==> sig@.chunks.len() == 1,
    {
        let cuts = chunk_cuts(source, min_size, avg_size, max_size);
        let mut chunks: Vec<Chunk> = Vec::new();
        let src_len = source.len();
        let n = cuts.len();
        let mut i: usize = 0;
        while i < n
            invariant
                i <= n,
                n == cuts@.len(),
                chunks@.len() == i,
                src_len == source@.len(),
                cuts_partition(cuts@, source@.len() as int, max_size),
                forall|j: int| 0 <= j < i ==> (#[trigger] chunks@[j]).offset == cuts@[j].0,
                forall|j: int| 0 <= j < i ==> (#[trigger] chunks@[j]).length == cuts@[j].1,
                forall|j: int|
                    0 <= j < i ==> (#[trigger] chunks@[j]).hash@ == hash_of(
                        source@.subrange(cuts@[j].0 as int, cuts@[j].0 + cuts@[j].1),
                    ),
                forall|j: int| 0 <= j < i ==> (#[trigger] chunks@[j]).hash@.len() == 32,
            decreases n - i,
        {
            let c = cuts[i];
            proof {
                lemma_cut_end_bound(cuts@, source@.len() as int, max_size, i as int);
                assert(c.0 + c.1 <= source@.len());
            }
            let off = c.0 as usize;
            let end = (c.0 + c.1) as usize;
            let h = digest(vstd::slice::slice_subrange(source, off, end));
            chunks.push(Chunk { hash: h, offset: c.0, length: c.1 });
            i = i + 1;
        }
        let sig = Signature { version: VERSION, min_size, avg_size, max_size, chunks };
        proof {
            let model = spec_chunks_of(source@, min_size, avg_size, max_size);
            assert forall|j: int| 0 <= j < n implies sig@.chunks[j] == model[j] by {
                let cuts_s = cuts_of(source@, min_size, avg_size, max_size);
                assert(chunks@[j].offset == cuts_s[j].0);
                assert(sig@.chunks[j] =~= model[j]);
            }
            assert(sig@.chunks =~= model);
            assert(sig@ =~= spec_signature(source@, min_size, avg_size, max_size));
            lemma_chunks_of_cover(source@, min_size, avg_size, max_size);
        }
        sig
    }

    /// Serializes the signature: the 21-byte header, then one 48-byte record
    /// per chunk.
    #[verifier::loop_isolation(false)]
    pub fn write(&self) -> (out: Vec<u8>)
        ensures
            out@ == sig_ser(self@),
    {
        let mut out: Vec<u8> = Vec::new();
        out.push(self.version);
        push_be32(&mut out, self.min_size);
        push_be32(&mut out, self.avg_size);
        push_be32(&mut out, self.max_size);
        push_be64(&mut out, self.chunks.len() as u64);
        proof {
            assert(out@ =~= sig_header(self@));
            assert(self@.chunks.take(0) =~= Seq::<ChunkModel>::empty());
        }
        let n = self.chunks.len();
        let mut i: usize = 0;
        while i < n
            invariant
                i <= n,
                out@ == sig_header(self@) + chunks_ser(self@.chunks.take(i as int)),
            decreases n - i,
        {
            let c = &self.chunks[i];
            push_bytes(&mut out, &c.hash);
            push_be64(&mut out, c.offset);
            push_be64(&mut out, c.length);
            proof {
                lemma_chunks_ser_push(self@.chunks.take(i as int), self@.chunks[i as int]);
                assert(self@.chunks.take(i as int + 1) =~= self@.chunks.take(i as int).push(
                    self@.chunks[i as int],
                ));
                assert(out@ =~= sig_header(self@) + chunks_ser(self@.chunks.take(i as int + 1)));
            }
            i = i + 1;
        }
        proof {
            assert(self@.chunks.take(n as int) =~= self@.chunks);
        }
        out
    }

    /// Parses a serialized signature, rejecting unknown versions, truncated
    /// input, and chunk tables that break the chunk invariants.
    #[verifier::loop_isolation(false)]
    pub fn load(data: &[u8]) -> (r: Result<Signature, DeltaError>)
        ensures
            r matches Ok(sig) ==> sig_parse(data@) == Ok::<SigModel, DeltaError>(sig@),
            r matches Err(e) ==> sig_parse(data@) == Err::<SigModel, DeltaError>(e),
    {
        if data.len() < 1 {
            return Err(DeltaError::Framing);
        }
        if data[0] != VERSION {
            return Err(DeltaError::VersionMismatch { got: data[0], want: VERSION });
        }
        if data.len() < 21 {
            return Err(DeltaError::Framing);
        }
        let min_size = read_be32(data, 1);
        let avg_size = read_be32(data, 5);
        let max_size = read_be32(data, 9);
        let count64 = read_be64(data, 13);
        let len21 = data.len() - 21;
        let avail = (len21 as u64) / 48;
        if count64 > avail {
            proof {
                let l = len21 as int;
                let c = count64 as int;
                assert(l < 48 * c) by (nonlinear_arith)
                    requires
                        l >= 0,
                        c >= 0,
                        l / 48 < c,
                ;
            }
            return Err(DeltaError::Framing);
        }
        proof {
            let l = len21 as int;
            let c = count64 as int;
            assert(48 * c <= l) by (nonlinear_arith)
                requires
                    l >= 0,
                    c >= 0,
                    c <= l / 48,
            ;
        }
        let count = count64 as usize;
        let mut chunks: Vec<Chunk> = Vec::new();
        let mut prev_offset: u64 = 0;
        let mut i: usize = 0;
        while i < count
            invariant
                i <= count,
                chunks@.len() == i,
                forall|j: int| 0 <= j < i ==> (#[trigger] chunks@[j])@ == parsed_chunk(data@, j),
                forall|j: int| 0 <= j < i ==> !chunk_rejected(data@, j, max_size),
                i > 0 ==> prev_offset == parsed_chunk(data@, i - 1).offset,
            decreases count - i,
        {
            proof {
                assert(48 * (i as int) + 48 <= 48 * (count as int)) by (nonlinear_arith)
                    requires
                        0 <= i < count,
                ;
            }
            let base = 21 + 48 * i;
            let hash = vstd::slice::slice_to_vec(
                vstd::slice::slice_subrange(data, base, base + 32),
            );
            let offset = read_be64(data, base + 32);
            let length = read_be64(data, base + 40);
            if length > max_size as u64 {
                proof {
                    assert(chunk_rejected(data@, i as int, be32_val(data@.subrange(9, 13))));
                }
                return Err(DeltaError::ChunkParamInvariant);
            }
            if i > 0 && offset < prev_offset {
                proof {
                    assert(chunk_rejected(data@, i as int, be32_val(data@.subrange(9, 13))));
                }
                return Err(DeltaError::ChunkParamInvariant);
            }
            chunks.push(Chunk { hash, offset, length });
            prev_offset = offset;
            i = i + 1;
        }
        let sig = Signature { version: VERSION, min_size, avg_size, max_size, chunks };
        proof {
            assert(sig@.chunks =~= Seq::new(count64 as nat, |k: int| parsed_chunk(data@, k)));
            assert(sig_parse(data@) matches Ok(m) && m =~= sig@);
        }
        Ok(sig)
    }
}

} // verus!
