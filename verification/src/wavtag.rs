//! The generic RIFF container walker: decodes a WAV byte stream into an
//! ordered sequence of typed byte-range chunks, with no knowledge of marker
//! semantics, and the sampler-chunk sub-decoder.

use vstd::prelude::*;
use vstd::bytes::{spec_u32_from_le_bytes, u32_from_le_bytes};
use vstd::slice::{slice_subrange, slice_to_vec};
use crate::ParseError;

verus! {

/// The closed set of chunk tags this library gives a meaning to. Every
/// other tag is retained as [`ChunkType::Other`] so that the rewriter can
/// round-trip it byte for byte.
#[derive(Debug, Clone, Copy, PartialEq, Eq, Structural)]
pub enum ChunkType {
    /// The format chunk, carrying the sample rate
    Format,
    /// The cue-point table
    Cue,
    /// A standalone label chunk
    Label,
    /// The sampler chunk, carrying loop end offsets
    Sampler,
    /// A list of associated data, the fallback carrier for labels
    List,
    /// The bulk audio payload
    Data,
    /// Any tag this library does not recognize
    Other,
}

/// One chunk of a RIFF container: a 4-byte tag plus its raw payload. The
/// payload's declared (unpadded) length is authoritative for decoding.
pub struct RiffChunk {
    /// The chunk's 4-byte ASCII tag, exactly as encountered
    pub tag: [u8; 4],
    /// The chunk's payload, without the trailing pad byte
    pub data: Vec<u8>,
}

/// The mathematical value of a [`RiffChunk`]: its tag and payload as byte
/// sequences.
pub ghost struct ChunkView {
    pub tag: Seq<u8>,
    pub data: Seq<u8>,
}

impl View for RiffChunk {
    type V = ChunkView;

    open spec fn view(&self) -> ChunkView {
        ChunkView { tag: self.tag@, data: self.data@ }
    }
}

/// The 32-bit little-endian integer at offset `pos` of `b`.
pub open spec fn le32_at(b: Seq<u8>, pos: int) -> u32 {
    spec_u32_from_le_bytes(b.subrange(pos, pos + 4))
}

/// Reads the 32-bit little-endian integer at offset `pos` of `data`.
pub fn read_u32_le(data: &Vec<u8>, pos: usize) -> (x: u32)
    requires
        pos + 4 <= data@.len(),
    ensures
        x == le32_at(data@, pos as int),
{
    let n = data.len();
    assert(pos + 4 <= n);
    u32_from_le_bytes(slice_subrange(data.as_slice(), pos, pos + 4))
}

/// Which [`ChunkType`] a 4-byte tag denotes.
pub open spec fn spec_chunk_type(tag: Seq<u8>) -> ChunkType {
    if tag_matches(tag, 0x66, 0x6d, 0x74, 0x20) {
        ChunkType::Format
    } else if tag_matches(tag, 0x63, 0x75, 0x65, 0x20) {
        ChunkType::Cue
    } else if tag_matches(tag, 0x6c, 0x61, 0x62, 0x6c) {
        ChunkType::Label
    } else if tag_matches(tag, 0x73, 0x6d, 0x70, 0x6c) {
        ChunkType::Sampler
    } else if tag_matches(tag, 0x4c, 0x49, 0x53, 0x54) {
        ChunkType::List
    } else if tag_matches(tag, 0x64, 0x61, 0x74, 0x61) {
        ChunkType::Data
    } else {
        ChunkType::Other
    }
}

/// Whether a 4-byte tag equals the four given bytes.
pub open spec fn tag_matches(tag: Seq<u8>, b0: u8, b1: u8, b2: u8, b3: u8) -> bool {
    tag.len() == 4 && tag[0] == b0 && tag[1] == b1 && tag[2] == b2 && tag[3] == b3
}

fn tag_eq(tag: &[u8; 4], b0: u8, b1: u8, b2: u8, b3: u8) -> (r: bool)
    ensures
        r == tag_matches(tag@, b0, b1, b2, b3),
{
    tag[0] == b0 && tag[1] == b1 && tag[2] == b2 && tag[3] == b3
}

impl RiffChunk {
    /// The meaning of this chunk's tag.
    pub fn chunk_type(&self) -> (t: ChunkType)
        ensures
            t == spec_chunk_type(self@.tag),
    {
        if tag_eq(&self.tag, 0x66, 0x6d, 0x74, 0x20) {
            ChunkType::Format
        } else if tag_eq(&self.tag, 0x63, 0x75, 0x65, 0x20) {
            ChunkType::Cue
        } else if tag_eq(&self.tag, 0x6c, 0x61, 0x62, 0x6c) {
            ChunkType::Label
        } else if tag_eq(&self.tag, 0x73, 0x6d, 0x70, 0x6c) {
            ChunkType::Sampler
        } else if tag_eq(&self.tag, 0x4c, 0x49, 0x53, 0x54) {
            ChunkType::List
        } else if tag_eq(&self.tag, 0x64, 0x61, 0x74, 0x61) {
            ChunkType::Data
        } else {
            ChunkType::Other
        }
    }
}

/// Whether `b` opens with the 4-byte RIFF group tag.
pub open spec fn has_riff_tag(b: Seq<u8>) -> bool {
    b.len() >= 4 && b[0] == 0x52 && b[1] == 0x49 && b[2] == 0x46 && b[3] == 0x46
}

/// Whether `b` carries the WAVE form tag at offset 8, after the RIFF tag
/// and the advisory declared total size.
pub open spec fn has_wave_tag(b: Seq<u8>) -> bool {
    b.len() >= 12 && b[8] == 0x57 && b[9] == 0x41 && b[10] == 0x56 && b[11] == 0x45
}

/// Walks the chunk sequence of `b` starting at offset `pos`: a 4-byte tag,
/// a 32-bit little-endian declared size, that many payload bytes, and one
/// pad byte after an odd-sized payload (tolerated missing at the very end).
/// `None` means a chunk's declared size would read past the available
/// bytes, which is a fatal decode error rather than a skip.
pub open spec fn spec_walk(b: Seq<u8>, pos: int) -> Option<Seq<ChunkView>>
    decreases b.len() - pos,
{
    if pos < 0 || pos > b.len() {
        None
    } else if pos == b.len() {
        Some(Seq::empty())
    } else if pos + 8 > b.len() {
        None
    } else {
        let size = le32_at(b, pos + 4) as int;
        if pos + 8 + size > b.len() {
            None
        } else {
            let body_end = pos + 8 + size;
            let next = if size % 2 == 1 && body_end < b.len() {
                body_end + 1
            } else {
                body_end
            };
            match spec_walk(b, next) {
                None => None,
                Some(rest) => Some(
                    seq![
                        ChunkView {
                            tag: b.subrange(pos, pos + 4),
                            data: b.subrange(pos + 8, body_end),
                        },
                    ] + rest,
                ),
            }
        }
    }
}

/// The mathematical values of a sequence of chunks.
pub open spec fn chunks_view(s: Seq<RiffChunk>) -> Seq<ChunkView> {
    s.map_values(|c: RiffChunk| c@)
}

/// Prepends `s` to the chunk sequence inside `o`, if any.
pub open spec fn opt_prepend(s: Seq<ChunkView>, o: Option<Seq<ChunkView>>) -> Option<
    Seq<ChunkView>,
> {
    match o {
        None => None,
        Some(rest) => Some(s + rest),
    }
}

/// The ordered chunk list recovered from one WAV container.
pub struct RiffFile {
    /// Every chunk, in the order encountered
    pub chunks: Vec<RiffChunk>,
}

impl View for RiffFile {
    type V = Seq<ChunkView>;

    open spec fn view(&self) -> Seq<ChunkView> {
        chunks_view(self.chunks@)
    }
}

/// The first chunk of `cs` whose tag denotes `t`, if any.
pub open spec fn spec_find_chunk(cs: Seq<ChunkView>, t: ChunkType) -> Option<ChunkView>
    decreases cs.len(),
{
    if cs.len() == 0 {
        None
    } else if spec_chunk_type(cs[0].tag) == t {
        Some(cs[0])
    } else {
        spec_find_chunk(cs.drop_first(), t)
    }
}

proof fn lemma_find_chunk_skip(cs: Seq<ChunkView>, t: ChunkType, i: int)
    requires
        0 <= i <= cs.len(),
        forall|j: int| 0 <= j < i ==> spec_chunk_type(cs[j].tag) != t,
    ensures
        spec_find_chunk(cs, t) == spec_find_chunk(cs.skip(i), t),
    decreases i,
{
    if i > 0 {
        lemma_find_chunk_skip(cs, t, i - 1);
        let s = cs.skip(i - 1);
        assert(s[0] == cs[i - 1]);
        assert(s.drop_first() =~= cs.skip(i));
    } else {
        assert(cs.skip(0) =~= cs);
    }
}

impl RiffFile {
    /// Decodes a byte stream into the ordered chunk list. The leading RIFF
    /// and WAVE tags are verified; the declared total size between them is
    /// advisory and ignored. Unknown chunk tags are retained rather than
    /// dropped.
    pub fn parse(data: &Vec<u8>) -> (r: Result<RiffFile, ParseError>)
        ensures
            ({
                let b = data@;
                match r {
                    Ok(f) => has_riff_tag(b) && has_wave_tag(b) && spec_walk(b, 12) == Some(f@),
                    Err(e) => {
                        &&& !(has_riff_tag(b) && has_wave_tag(b) && spec_walk(b, 12) is Some)
                        &&& (e is NoRiffTag <==> !has_riff_tag(b))
                        &&& (e is NoWaveTag <==> has_riff_tag(b) && !has_wave_tag(b))
                        &&& (e is Other <==> has_riff_tag(b) && has_wave_tag(b) && spec_walk(
                            b,
                            12,
                        ) is None)
                    },
                }
            }),
    {
        let n = data.len();
        if n < 4 || data[0] != 0x52 || data[1] != 0x49 || data[2] != 0x46 || data[3] != 0x46 {
            return Err(ParseError::NoRiffTag);
        }
        if n < 12 || data[8] != 0x57 || data[9] != 0x41 || data[10] != 0x56 || data[11] != 0x45 {
            return Err(ParseError::NoWaveTag);
        }
        let mut pos: usize = 12;
        let mut chunks: Vec<RiffChunk> = Vec::new();
        proof {
            assert(chunks_view(chunks@) + spec_walk(data@, 12)->Some_0 =~= spec_walk(
                data@,
                12,
            )->Some_0) by {
                assert(chunks_view(chunks@) =~= Seq::<ChunkView>::empty());
            }
        }
        while pos < n
            invariant
                12 <= pos <= n,
                n == data@.len(),
                has_riff_tag(data@),
                has_wave_tag(data@),
                spec_walk(data@, 12) == opt_prepend(chunks_view(chunks@), spec_walk(
                    data@,
                    pos as int,
                )),
            decreases n - pos,
        {
            let ghost b = data@;
            let ghost pos0 = pos as int;
            if n - pos < 8 {
                assert(spec_walk(b, pos0) is None);
                return Err(ParseError::Other("chunk header extends past end of data".to_owned()));
            }
            let tag: [u8; 4] = [data[pos], data[pos + 1], data[pos + 2], data[pos + 3]];
            let size32 = read_u32_le(data, pos + 4);
            if size32 as u64 > (n - pos - 8) as u64 {
                assert(spec_walk(b, pos0) is None);
                return Err(ParseError::Other("chunk payload extends past end of data".to_owned()));
            }
            let size = size32 as usize;
            let body_end = pos + 8 + size;
            let payload: Vec<u8> = slice_to_vec(slice_subrange(data.as_slice(), pos + 8, body_end));
            let chunk = RiffChunk { tag, data: payload };
            proof {
                assert(chunk@.tag =~= b.subrange(pos0, pos0 + 4));
                assert(chunk@.data =~= b.subrange(pos0 + 8, pos0 + 8 + size as int));
            }
            let ghost old_chunks = chunks@;
            chunks.push(chunk);
            let next = if size % 2 == 1 && body_end < n {
                body_end + 1
            } else {
                body_end
            };
            proof {
                let cv = chunk@;
                let rest = spec_walk(b, next as int);
                assert(spec_walk(b, pos0) == opt_prepend(seq![cv], rest));
                assert(chunks_view(chunks@) =~= chunks_view(old_chunks).push(cv));
                match rest {
                    None => {},
                    Some(r) => {
                        assert(chunks_view(old_chunks) + (seq![cv] + r) =~= chunks_view(chunks@)
                            + r);
                    },
                }
            }
            pos = next;
        }
        proof {
            assert(spec_walk(data@, pos as int) == Some(Seq::<ChunkView>::empty()));
            assert(chunks_view(chunks@) + Seq::<ChunkView>::empty() =~= chunks_view(chunks@));
        }
        Ok(RiffFile { chunks })
    }

    /// The first chunk whose tag denotes `t`, if any.
    pub fn find_chunk_by_type(&self, t: ChunkType) -> (r: Option<&RiffChunk>)
        ensures
            match r {
                Some(c) => spec_find_chunk(self@, t) == Some(c@),
                None => spec_find_chunk(self@, t) is None,
            },
    {
        let n = self.chunks.len();
        for i in 0..n
            invariant
                n == self.chunks@.len(),
                forall|j: int| 0 <= j < i ==> spec_chunk_type(self@[j].tag) != t,
        {
            if self.chunks[i].chunk_type() == t {
                proof {
                    lemma_find_chunk_skip(self@, t, i as int);
                    assert(self@.skip(i as int)[0] == self@[i as int]);
                }
                return Some(&self.chunks[i]);
            }
        }
        proof {
            lemma_find_chunk_skip(self@, t, n as int);
            assert(self@.skip(n as int).len() == 0);
        }
        None
    }
}

/// One loop record from the sampler chunk. Only the identifier and the end
/// sample offset are semantically used; the other loop fields (type,
/// fraction, play count) are out of scope.
#[derive(Debug, Clone, Copy, PartialEq, Eq, Structural)]
pub struct SampleLoop {
    /// Identifier shared with the cue point and label of the same marker
    pub id: u32,
    /// End sample offset of the loop
    pub end: u32,
}

/// The decoded sampler chunk: its sequence of loop records.
pub struct SamplerChunk {
    /// Every loop record recovered from the loop table, in table order
    pub sample_loops: Vec<SampleLoop>,
}

/// The loop records of a sampler chunk payload, from record `i` up to the
/// declared count: records of 24 bytes each at offset 36 + 24·i, with the
/// identifier at record offset 0 and the end sample offset at record offset
/// 12. Enumeration stops at the first record that would read past the
/// payload (best-effort truncated-table recovery).
pub open spec fn spec_sample_loops(data: Seq<u8>, i: int, count: int) -> Seq<SampleLoop>
    decreases count - i,
{
    if i < 0 || i >= count {
        Seq::empty()
    } else {
        let off = 36 + 24 * i;
        if off + 24 <= data.len() {
            seq![
                SampleLoop { id: le32_at(data, off), end: le32_at(data, off + 12) },
            ] + spec_sample_loops(data, i + 1, count)
        } else {
            Seq::empty()
        }
    }
}

/// The declared loop count of a sampler chunk payload: the 32-bit
/// little-endian value at byte offset 28.
pub open spec fn spec_loop_count(data: Seq<u8>) -> u32 {
    le32_at(data, 28)
}

impl SamplerChunk {
    /// Decodes the sampler chunk's loop table. A payload too short to hold
    /// the declared loop count at byte offset 28 is a fatal decode error;
    /// loop records past the end of the payload are recovered best-effort
    /// by stopping enumeration.
    pub fn from_chunk(chunk: &RiffChunk) -> (r: Result<SamplerChunk, ParseError>)
        ensures
            ({
                let d = chunk@.data;
                match r {
                    Ok(s) => d.len() >= 32 && s.sample_loops@ == spec_sample_loops(
                        d,
                        0,
                        spec_loop_count(d) as int,
                    ),
                    Err(e) => d.len() < 32 && e is BytesToLe,
                }
            }),
    {
        let data = &chunk.data;
        let n = data.len();
        if n < 32 {
            return Err(ParseError::BytesToLe("number of sample loops".to_owned()));
        }
        let count = read_u32_le(data, 28);
        let ghost d = data@;
        let ghost total = count as int;
        let mut loops: Vec<SampleLoop> = Vec::new();
        let mut i: u32 = 0;
        proof {
            assert(loops@ + spec_sample_loops(d, 0, total) =~= spec_sample_loops(d, 0, total));
        }
        while i < count
            invariant
                0 <= i <= count,
                total == count as int,
                count == spec_loop_count(d),
                n >= 32,
                n == d.len(),
                d == data@,
                d == chunk@.data,
                spec_sample_loops(d, 0, total) == loops@ + spec_sample_loops(d, i as int, total),
            decreases count - i,
        {
            let off64: u64 = 36 + 24 * (i as u64);
            if off64 + 24 > n as u64 {
                proof {
                    assert(spec_sample_loops(d, i as int, total) =~= Seq::<SampleLoop>::empty());
                    assert(loops@ + Seq::<SampleLoop>::empty() =~= loops@);
                }
                return Ok(SamplerChunk { sample_loops: loops });
            }
            let off = off64 as usize;
            let id = read_u32_le(data, off);
            let end = read_u32_le(data, off + 12);
            let lp = SampleLoop { id, end };
            let ghost old_loops = loops@;
            loops.push(lp);
            proof {
                let rest = spec_sample_loops(d, i as int + 1, total);
                assert(spec_sample_loops(d, i as int, total) == seq![lp] + rest);
                assert(old_loops + (seq![lp] + rest) =~= loops@ + rest);
            }
            i = i + 1;
        }
        proof {
            assert(spec_sample_loops(d, i as int, total) =~= Seq::<SampleLoop>::empty());
            assert(loops@ + Seq::<SampleLoop>::empty() =~= loops@);
        }
        Ok(SamplerChunk { sample_loops: loops })
    }
}

} // verus!
