//! The container rewriter: re-serializes a walked chunk sequence with the
//! bulk audio payload chunk truncated to empty, preserving every other
//! chunk byte for byte.

use vstd::prelude::*;
use vstd::bytes::{spec_u32_to_le_bytes, u32_to_le_bytes};
use crate::ParseError;
use crate::wavtag::{
    ChunkType, ChunkView, RiffChunk, RiffFile, chunks_view, has_riff_tag, has_wave_tag,
    spec_chunk_type, spec_walk,
};

verus! {

/// The 4-byte RIFF group tag.
pub open spec fn riff_bytes() -> Seq<u8> {
    seq![0x52u8, 0x49u8, 0x46u8, 0x46u8]
}

/// The 4-byte WAVE form tag.
pub open spec fn wave_bytes() -> Seq<u8> {
    seq![0x57u8, 0x41u8, 0x56u8, 0x45u8]
}

/// The payload a chunk is re-emitted with: empty for the audio payload
/// chunk, the original payload byte for byte for every other chunk.
pub open spec fn spec_chunk_payload(c: ChunkView) -> Seq<u8> {
    if spec_chunk_type(c.tag) == ChunkType::Data {
        Seq::empty()
    } else {
        c.data
    }
}

/// One re-emitted chunk: its original tag, the declared size of the
/// re-emitted payload, and that payload.
pub open spec fn spec_emit_chunk(c: ChunkView) -> Seq<u8> {
    c.tag + spec_u32_to_le_bytes(spec_chunk_payload(c).len() as u32) + spec_chunk_payload(c)
}

/// The concatenation of every re-emitted chunk, in original order.
pub open spec fn spec_emit_chunks(cs: Seq<ChunkView>) -> Seq<u8>
    decreases cs.len(),
{
    if cs.len() == 0 {
        Seq::empty()
    } else {
        spec_emit_chunk(cs[0]) + spec_emit_chunks(cs.drop_first())
    }
}

/// The byte length of the re-emitted chunk sequence: 8 header bytes plus
/// the re-emitted payload per chunk.
pub open spec fn spec_body_len(cs: Seq<ChunkView>) -> int
    decreases cs.len(),
{
    if cs.len() == 0 {
        0
    } else {
        8 + spec_chunk_payload(cs[0]).len() + spec_body_len(cs.drop_first())
    }
}

/// The rewritten container: the RIFF group tag, the recomputed declared
/// total size (total emitted byte length minus 8), the WAVE form tag, and
/// every chunk re-emitted in original order.
pub open spec fn spec_strip(cs: Seq<ChunkView>) -> Seq<u8> {
    let body = wave_bytes() + spec_emit_chunks(cs);
    riff_bytes() + spec_u32_to_le_bytes(body.len() as u32) + body
}

/// Re-emitting distributes over concatenation of chunk sequences.
proof fn lemma_emit_chunks_app(s1: Seq<ChunkView>, s2: Seq<ChunkView>)
    ensures
        spec_emit_chunks(s1 + s2) == spec_emit_chunks(s1) + spec_emit_chunks(s2),
    decreases s1.len(),
{
    if s1.len() == 0 {
        assert(s1 + s2 =~= s2);
        assert(spec_emit_chunks(s1) + spec_emit_chunks(s2) =~= spec_emit_chunks(s2));
    } else {
        lemma_emit_chunks_app(s1.drop_first(), s2);
        assert((s1 + s2).drop_first() =~= s1.drop_first() + s2);
        assert((s1 + s2)[0] == s1[0]);
        assert(spec_emit_chunk(s1[0]) + (spec_emit_chunks(s1.drop_first()) + spec_emit_chunks(s2))
            =~= (spec_emit_chunk(s1[0]) + spec_emit_chunks(s1.drop_first())) + spec_emit_chunks(
            s2,
        ));
    }
}

/// Re-emitting one more chunk appends its emission.
proof fn lemma_emit_take_succ(cs: Seq<ChunkView>, i: int)
    requires
        0 <= i < cs.len(),
    ensures
        spec_emit_chunks(cs.take(i + 1)) == spec_emit_chunks(cs.take(i)) + spec_emit_chunk(cs[i]),
    decreases cs.len(),
{
    lemma_emit_chunks_app(cs.take(i), seq![cs[i]]);
    assert(cs.take(i + 1) =~= cs.take(i) + seq![cs[i]]);
    let one = seq![cs[i]];
    assert(spec_emit_chunks(one) == spec_emit_chunk(cs[i]) + spec_emit_chunks(one.drop_first()));
    assert(one.drop_first() =~= Seq::<ChunkView>::empty());
    assert(spec_emit_chunk(cs[i]) + Seq::<u8>::empty() =~= spec_emit_chunk(cs[i]));
}

/// The declared body length is never negative.
proof fn lemma_body_len_nonneg(cs: Seq<ChunkView>)
    ensures
        spec_body_len(cs) >= 0,
    decreases cs.len(),
{
    if cs.len() > 0 {
        lemma_body_len_nonneg(cs.drop_first());
    }
}

/// The emitted byte sequence of chunks with 4-byte tags has exactly the
/// declared body length.
proof fn lemma_emit_chunks_len(cs: Seq<ChunkView>)
    requires
        forall|j: int| 0 <= j < cs.len() ==> (#[trigger] cs[j].tag).len() == 4,
    ensures
        spec_emit_chunks(cs).len() == spec_body_len(cs),
        spec_body_len(cs) >= 0,
    decreases cs.len(),
{
    vstd::bytes::lemma_auto_spec_u32_to_from_le_bytes();
    if cs.len() > 0 {
        assert(forall|j: int|
            0 <= j < cs.drop_first().len() ==> (#[trigger] cs.drop_first()[j].tag).len() == 4);
        lemma_emit_chunks_len(cs.drop_first());
    }
}

/// Every chunk's re-emitted payload fits inside the whole body.
proof fn lemma_body_len_parts(cs: Seq<ChunkView>, i: int)
    requires
        0 <= i < cs.len(),
    ensures
        spec_body_len(cs) >= 8 + spec_chunk_payload(cs[i]).len(),
    decreases i,
{
    lemma_body_len_nonneg(cs.drop_first());
    if i > 0 {
        lemma_body_len_parts(cs.drop_first(), i - 1);
        assert(cs.drop_first()[i - 1] == cs[i]);
    }
}

fn append_bytes(dst: &mut Vec<u8>, src: &Vec<u8>)
    ensures
        final(dst)@ == old(dst)@ + src@,
{
    let n = src.len();
    for i in 0..n
        invariant
            n == src@.len(),
            dst@ == old(dst)@ + src@.take(i as int),
    {
        dst.push(src[i]);
        proof {
            assert((old(dst)@ + src@.take(i as int)).push(src@[i as int]) =~= old(dst)@
                + src@.take(i as int + 1));
        }
    }
    proof {
        assert(old(dst)@ + src@.take(n as int) =~= old(dst)@ + src@);
    }
}

/// Re-emits every chunk in original order, with the audio payload chunk
/// truncated to a declared size of zero and no payload bytes, behind a
/// RIFF/WAVE header whose declared total size is recomputed as the total
/// emitted byte length minus 8.
pub fn strip_audio_data(chunks: &Vec<RiffChunk>) -> (out: Vec<u8>)
    requires
        4 + spec_body_len(chunks_view(chunks@)) <= u32::MAX,
    ensures
        out@ == spec_strip(chunks_view(chunks@)),
{
    let ghost cv = chunks_view(chunks@);
    proof {
        assert forall|j: int| 0 <= j < cv.len() implies (#[trigger] cv[j].tag).len() == 4 by {
            assert(cv[j] == chunks@[j]@);
        }
    }
    let mut body: Vec<u8> = Vec::new();
    body.push(0x57);
    body.push(0x41);
    body.push(0x56);
    body.push(0x45);
    proof {
        assert(cv.take(0) =~= Seq::<ChunkView>::empty());
        assert(body@ =~= wave_bytes() + spec_emit_chunks(cv.take(0)));
    }
    let n = chunks.len();
    for i in 0..n
        invariant
            n == chunks@.len(),
            cv == chunks_view(chunks@),
            4 + spec_body_len(cv) <= u32::MAX,
            forall|j: int| 0 <= j < cv.len() ==> (#[trigger] cv[j].tag).len() == 4,
            body@ == wave_bytes() + spec_emit_chunks(cv.take(i as int)),
    {
        let c = &chunks[i];
        proof {
            lemma_body_len_parts(cv, i as int);
            lemma_emit_chunks_len(cv);
        }
        body.push(c.tag[0]);
        body.push(c.tag[1]);
        body.push(c.tag[2]);
        body.push(c.tag[3]);
        if c.chunk_type() == ChunkType::Data {
            let size_bytes = u32_to_le_bytes(0);
            append_bytes(&mut body, &size_bytes);
        } else {
            let size_bytes = u32_to_le_bytes(c.data.len() as u32);
            append_bytes(&mut body, &size_bytes);
            append_bytes(&mut body, &c.data);
        }
        proof {
            lemma_emit_take_succ(cv, i as int);
            assert(cv[i as int] == c@);
            assert(cv[i as int].tag =~= seq![c.tag@[0], c.tag@[1], c.tag@[2], c.tag@[3]]);
            assert(body@ =~= wave_bytes() + spec_emit_chunks(cv.take(i as int + 1)));
        }
    }
    proof {
        assert(cv.take(n as int) =~= cv);
        lemma_emit_chunks_len(cv);
    }
    let mut out: Vec<u8> = Vec::new();
    out.push(0x52);
    out.push(0x49);
    out.push(0x46);
    out.push(0x46);
    let riff_size = body.len() as u32;
    let size_bytes = u32_to_le_bytes(riff_size);
    append_bytes(&mut out, &size_bytes);
    append_bytes(&mut out, &body);
    proof {
        assert(out@ =~= spec_strip(cv));
    }
    out
}

/// A chunk sequence successfully walked out of `b` starting at `pos`
/// re-emits into no more bytes than were walked.
pub proof fn lemma_walk_body_len(b: Seq<u8>, pos: int)
    requires
        spec_walk(b, pos) is Some,
    ensures
        spec_body_len(spec_walk(b, pos)->Some_0) <= b.len() - pos,
    decreases b.len() - pos,
{
    if pos == b.len() {
    } else {
        let size = crate::wavtag::le32_at(b, pos + 4) as int;
        let body_end = pos + 8 + size;
        let next = if size % 2 == 1 && body_end < b.len() {
            body_end + 1
        } else {
            body_end
        };
        lemma_walk_body_len(b, next);
        let cs = spec_walk(b, pos)->Some_0;
        assert(cs.drop_first() == spec_walk(b, next)->Some_0);
        assert(spec_chunk_payload(cs[0]).len() <= size);
    }
}

/// The chunk sequence with the audio payload chunk's payload dropped and
/// every other chunk unchanged.
pub open spec fn spec_truncate_payloads(cs: Seq<ChunkView>) -> Seq<ChunkView> {
    cs.map_values(|c: ChunkView| ChunkView { tag: c.tag, data: spec_chunk_payload(c) })
}

/// Walking a buffer whose tail from `p` on holds exactly the re-emitted
/// chunks recovers them: each tag and payload byte for byte, with the audio
/// payload chunk empty.
proof fn lemma_walk_emitted(s: Seq<u8>, p: int, cs: Seq<ChunkView>)
    requires
        0 <= p <= s.len(),
        s.subrange(p, s.len() as int) == spec_emit_chunks(cs),
        forall|j: int| 0 <= j < cs.len() ==> (#[trigger] cs[j].tag).len() == 4,
        forall|j: int| 0 <= j < cs.len() ==> spec_chunk_payload(#[trigger] cs[j]).len() % 2 == 0,
        forall|j: int| 0 <= j < cs.len() ==> spec_chunk_payload(#[trigger] cs[j]).len()
            <= u32::MAX,
    ensures
        spec_walk(s, p) == Some(spec_truncate_payloads(cs)),
    decreases cs.len(),
{
    vstd::bytes::lemma_auto_spec_u32_to_from_le_bytes();
    let tail = s.subrange(p, s.len() as int);
    if cs.len() == 0 {
        assert(tail.len() == 0);
        assert(p == s.len());
        assert(spec_truncate_payloads(cs) =~= Seq::<ChunkView>::empty());
    } else {
        let c0 = cs[0];
        let payload = spec_chunk_payload(c0);
        let plen = payload.len() as int;
        let rest = cs.drop_first();
        let emitted0 = spec_emit_chunk(c0);
        assert(emitted0.len() == 8 + plen);
        lemma_emit_chunks_len(rest);
        assert(tail.len() == emitted0.len() + spec_emit_chunks(rest).len());
        assert(p + 8 + plen <= s.len());
        // the tag and declared size the walker reads are the emitted ones
        let size_field = spec_u32_to_le_bytes(plen as u32);
        assert(emitted0 == (c0.tag + size_field) + payload);
        assert forall|k: int| 0 <= k < 4 implies s[p + k] == c0.tag[k] by {
            assert(tail[k] == s[p + k]);
            assert(emitted0[k] == tail[k]);
            assert(emitted0[k] == c0.tag[k]);
        }
        assert forall|k: int| 0 <= k < 4 implies s[p + 4 + k] == size_field[k] by {
            assert(tail[4 + k] == s[p + 4 + k]);
            assert(emitted0[4 + k] == tail[4 + k]);
            assert(emitted0[4 + k] == size_field[k]);
        }
        assert forall|k: int| 0 <= k < plen implies s[p + 8 + k] == payload[k] by {
            assert(tail[8 + k] == s[p + 8 + k]);
            assert(emitted0[8 + k] == tail[8 + k]);
            assert(emitted0[8 + k] == payload[k]);
        }
        assert(s.subrange(p, p + 4) =~= c0.tag);
        assert(s.subrange(p + 4, p + 8) =~= size_field);
        let size = crate::wavtag::le32_at(s, p + 4) as int;
        assert(size == plen);
        assert(s.subrange(p + 8, p + 8 + plen) =~= payload);
        let next = p + 8 + plen;
        assert forall|k: int| 0 <= k < spec_emit_chunks(rest).len() implies s[next + k]
            == spec_emit_chunks(rest)[k] by {
            assert(tail[8 + plen + k] == s[next + k]);
            assert(tail[8 + plen + k] == spec_emit_chunks(rest)[k]);
        }
        assert(s.subrange(next, s.len() as int) =~= spec_emit_chunks(rest));
        assert(forall|j: int| 0 <= j < rest.len() ==> rest[j] == cs[j + 1]);
        lemma_walk_emitted(s, next, rest);
        let cv = ChunkView { tag: s.subrange(p, p + 4), data: s.subrange(p + 8, p + 8 + size) };
        assert(spec_walk(s, p) == Some(seq![cv] + spec_truncate_payloads(rest)));
        assert(cv == ChunkView { tag: c0.tag, data: payload });
        assert(seq![cv] + spec_truncate_payloads(rest) =~= spec_truncate_payloads(cs));
    }
}

/// Walking the rewritten container recovers every chunk: each non-payload
/// chunk byte for byte as it went in, and the audio payload chunk with a
/// declared size of zero and no payload bytes. Holds for chunk sequences
/// whose re-emitted payloads are of even length, since the rewriter never
/// writes pad bytes.
pub proof fn lemma_strip_reparse(cs: Seq<ChunkView>)
    requires
        4 + spec_body_len(cs) <= u32::MAX,
        forall|j: int| 0 <= j < cs.len() ==> (#[trigger] cs[j].tag).len() == 4,
        forall|j: int| 0 <= j < cs.len() ==> spec_chunk_payload(#[trigger] cs[j]).len() % 2 == 0,
    ensures
        has_riff_tag(spec_strip(cs)),
        has_wave_tag(spec_strip(cs)),
        spec_walk(spec_strip(cs), 12) == Some(spec_truncate_payloads(cs)),
{
    vstd::bytes::lemma_auto_spec_u32_to_from_le_bytes();
    lemma_emit_chunks_len(cs);
    let s = spec_strip(cs);
    let body = wave_bytes() + spec_emit_chunks(cs);
    assert(s == riff_bytes() + spec_u32_to_le_bytes(body.len() as u32) + body);
    assert(s.len() == 12 + spec_emit_chunks(cs).len());
    assert(has_riff_tag(s));
    assert(has_wave_tag(s));
    assert forall|j: int| 0 <= j < cs.len() implies spec_chunk_payload(#[trigger] cs[j]).len()
        <= u32::MAX by {
        lemma_body_len_parts(cs, j);
    }
    assert(s.subrange(12, s.len() as int) =~= spec_emit_chunks(cs));
    lemma_walk_emitted(s, 12, cs);
}

/// Re-emitting the chunks walked out of a buffer reproduces the buffer's
/// own bytes from the walk position on, provided every payload is of even
/// length and the audio payload chunk is already empty.
proof fn lemma_emit_inverse(b: Seq<u8>, pos: int)
    requires
        spec_walk(b, pos) is Some,
        forall|j: int|
            0 <= j < spec_walk(b, pos)->Some_0.len() ==> (#[trigger] spec_walk(
                b,
                pos,
            )->Some_0[j]).data.len() % 2 == 0,
        forall|j: int|
            0 <= j < spec_walk(b, pos)->Some_0.len() ==> spec_chunk_type(
                (#[trigger] spec_walk(b, pos)->Some_0[j]).tag,
            ) == ChunkType::Data ==> spec_walk(b, pos)->Some_0[j].data.len() == 0,
    ensures
        spec_emit_chunks(spec_walk(b, pos)->Some_0) == b.subrange(pos, b.len() as int),
    decreases b.len() - pos,
{
    vstd::bytes::lemma_auto_spec_u32_to_from_le_bytes();
    let cs = spec_walk(b, pos)->Some_0;
    if pos == b.len() {
        assert(spec_emit_chunks(cs) =~= b.subrange(pos, b.len() as int));
    } else {
        let size = crate::wavtag::le32_at(b, pos + 4) as int;
        let c0 = cs[0];
        assert(c0.data.len() == size);
        assert(size % 2 == 0);
        let next = pos + 8 + size;
        let rest = spec_walk(b, next)->Some_0;
        assert(cs == seq![c0] + rest);
        assert(forall|j: int| 0 <= j < rest.len() ==> rest[j] == cs[j + 1]);
        lemma_emit_inverse(b, next);
        assert(spec_chunk_payload(c0) =~= c0.data);
        assert(spec_u32_to_le_bytes(c0.data.len() as u32) =~= b.subrange(pos + 4, pos + 8));
        assert(spec_emit_chunk(c0) =~= b.subrange(pos, next));
        assert(cs.drop_first() =~= rest);
        assert(spec_emit_chunks(cs) == spec_emit_chunk(c0) + spec_emit_chunks(rest));
        assert(spec_emit_chunk(c0) + b.subrange(next, b.len() as int) =~= b.subrange(
            pos,
            b.len() as int,
        ));
    }
}

/// The degenerate round trip: rewriting a container whose audio payload
/// chunk is already empty, whose payloads are of even length, and whose
/// declared total size field is accurate reproduces the container byte for
/// byte.
pub proof fn lemma_strip_degenerate(b: Seq<u8>)
    requires
        has_riff_tag(b),
        has_wave_tag(b),
        spec_walk(b, 12) is Some,
        crate::wavtag::le32_at(b, 4) == b.len() - 8,
        forall|j: int|
            0 <= j < spec_walk(b, 12)->Some_0.len() ==> (#[trigger] spec_walk(
                b,
                12,
            )->Some_0[j]).data.len() % 2 == 0,
        forall|j: int|
            0 <= j < spec_walk(b, 12)->Some_0.len() ==> spec_chunk_type(
                (#[trigger] spec_walk(b, 12)->Some_0[j]).tag,
            ) == ChunkType::Data ==> spec_walk(b, 12)->Some_0[j].data.len() == 0,
    ensures
        spec_strip(spec_walk(b, 12)->Some_0) == b,
{
    vstd::bytes::lemma_auto_spec_u32_to_from_le_bytes();
    let cs = spec_walk(b, 12)->Some_0;
    lemma_emit_inverse(b, 12);
    let body = wave_bytes() + spec_emit_chunks(cs);
    assert(body =~= b.subrange(8, b.len() as int));
    assert(body.len() == b.len() - 8);
    assert(spec_u32_to_le_bytes(body.len() as u32) =~= b.subrange(4, 8));
    assert(riff_bytes() + spec_u32_to_le_bytes(body.len() as u32) + body =~= b);
}

/// Rewrites a whole container: walks its chunks, then re-emits them with
/// the audio payload chunk truncated to empty. Fails exactly where the
/// walker fails, and on a container too large for its declared total size
/// field to be recomputed.
pub fn process_file(data: &Vec<u8>) -> (r: Result<Vec<u8>, ParseError>)
    ensures
        ({
            let b = data@;
            let fits = b.len() <= u32::MAX + 4;
            match r {
                Ok(out) => has_riff_tag(b) && has_wave_tag(b) && spec_walk(b, 12) is Some && fits
                    && out@ == spec_strip(spec_walk(b, 12)->Some_0),
                Err(e) => {
                    &&& !(has_riff_tag(b) && has_wave_tag(b) && spec_walk(b, 12) is Some && fits)
                    &&& (e is NoRiffTag <==> !has_riff_tag(b))
                    &&& (e is NoWaveTag <==> has_riff_tag(b) && !has_wave_tag(b))
                    &&& (e is Other <==> has_riff_tag(b) && has_wave_tag(b) && (spec_walk(
                        b,
                        12,
                    ) is None || (spec_walk(b, 12) is Some && !fits)))
                },
            }
        }),
{
    let riff_file = match RiffFile::parse(data) {
        Ok(f) => f,
        Err(e) => {
            return Err(e);
        },
    };
    if (data.len() as u64) > (u32::MAX as u64) + 4 {
        return Err(ParseError::Other("container too large to rewrite".to_owned()));
    }
    proof {
        lemma_walk_body_len(data@, 12);
    }
    Ok(strip_audio_data(&riff_file.chunks))
}

} // verus!
