//! The metadata extractors: three independent decoders, one per chunk kind
//! — the format chunk's sample rate, the cue-point table, the label text
//! table in its two alternate encodings, and the sampler loop table.

use vstd::prelude::*;
use vstd::slice::{slice_subrange, slice_to_vec};
use crate::ParseError;
use crate::wavtag::{
    ChunkType, ChunkView, RiffChunk, RiffFile, SampleLoop, SamplerChunk, le32_at, read_u32_le,
    spec_chunk_type, spec_find_chunk, spec_loop_count, spec_sample_loops,
};

verus! {

/// What `String::from_utf8_lossy` returns for the given bytes.
pub uninterp spec fn utf8_lossy(b: Seq<u8>) -> Seq<char>;

/// Relies on String::from_utf8_lossy: the decoding is a function of the
/// bytes alone, and bytes below 128 are valid UTF-8 that decodes to the
/// characters of the same values.
#[verifier::external_body]
fn decode_utf8_lossy(bytes: &Vec<u8>) -> (r: String)
    ensures
        r@ == utf8_lossy(bytes@),
        (forall|i: int| 0 <= i < bytes@.len() ==> bytes@[i] < 128) ==> r@ == bytes@.map_values(
            |x: u8| x as char,
        ),
{
    String::from_utf8_lossy(bytes.as_slice()).into_owned()
}

/// `b` without its trailing null bytes.
pub open spec fn trim_nulls(b: Seq<u8>) -> Seq<u8>
    decreases b.len(),
{
    if b.len() > 0 && b[b.len() - 1] == 0 {
        trim_nulls(b.drop_last())
    } else {
        b
    }
}

/// The name text encoded by the raw bytes of a label: trailing null bytes
/// trimmed, the rest decoded as UTF-8, lossily.
pub open spec fn label_name(raw: Seq<u8>) -> Seq<char> {
    utf8_lossy(trim_nulls(raw))
}

/// Copies `data[start..end]` without its trailing null bytes.
fn trimmed_bytes(data: &Vec<u8>, start: usize, end: usize) -> (out: Vec<u8>)
    requires
        start <= end <= data@.len(),
    ensures
        out@ == trim_nulls(data@.subrange(start as int, end as int)),
{
    let mut e = end;
    while e > start && data[e - 1] == 0
        invariant
            start <= e <= end <= data@.len(),
            trim_nulls(data@.subrange(start as int, end as int)) == trim_nulls(
                data@.subrange(start as int, e as int),
            ),
        decreases e,
    {
        proof {
            let s = data@.subrange(start as int, e as int);
            assert(s[s.len() - 1] == data@[e - 1]);
            assert(s.drop_last() =~= data@.subrange(start as int, e as int - 1));
        }
        e = e - 1;
    }
    proof {
        let s = data@.subrange(start as int, e as int);
        if e > start {
            assert(s[s.len() - 1] == data@[e - 1]);
        }
        assert(trim_nulls(s) == s);
    }
    slice_to_vec(slice_subrange(data.as_slice(), start, e))
}

/// The sample rate declared by a format chunk payload: the 32-bit
/// little-endian value at byte offset 4.
pub open spec fn spec_sample_rate(data: Seq<u8>) -> u32 {
    le32_at(data, 4)
}

/// Parses the sample rate from the single format chunk: fatal if the chunk
/// is absent or its payload is under 8 bytes, since the sample rate is then
/// undeterminable.
pub fn get_sample_rate(riff_file: &RiffFile) -> (r: Result<u32, ParseError>)
    ensures
        ({
            let found = spec_find_chunk(riff_file@, ChunkType::Format);
            match r {
                Ok(rate) => found matches Some(c) && c.data.len() >= 8 && rate == spec_sample_rate(
                    c.data,
                ),
                Err(e) => match found {
                    None => e is MissingFormatChunk,
                    Some(c) => c.data.len() < 8 && (e matches ParseError::InvalidFormatChunk(l)
                        && l == c.data.len()),
                },
            }
        }),
{
    let format_chunk = match riff_file.find_chunk_by_type(ChunkType::Format) {
        Some(c) => c,
        None => {
            return Err(ParseError::MissingFormatChunk);
        },
    };
    let len = format_chunk.data.len();
    if len < 8 {
        return Err(ParseError::InvalidFormatChunk(len));
    }
    Ok(read_u32_le(&format_chunk.data, 4))
}

/// Looks a key up in an association list where the last entry bearing the
/// key wins, mirroring insertion into a keyed map.
pub open spec fn assoc_last(s: Seq<(u32, u32)>, key: u32) -> Option<u32>
    decreases s.len(),
{
    if s.len() == 0 {
        None
    } else if s.last().0 == key {
        Some(s.last().1)
    } else {
        assoc_last(s.drop_last(), key)
    }
}

/// The extracted cue-point table: identifier/start-offset entries in table
/// order, looked up with last-writer-wins on duplicate identifiers, since
/// the source format does not define a collision policy.
pub struct CueTable {
    /// One entry per well-formed record, in table order
    pub entries: Vec<(u32, u32)>,
}

impl CueTable {
    /// The start sample offset recorded for `key`, from the last record
    /// bearing that identifier.
    pub fn lookup(&self, key: u32) -> (r: Option<u32>)
        ensures
            r == assoc_last(self.entries@, key),
    {
        let mut r: Option<u32> = None;
        let n = self.entries.len();
        for i in 0..n
            invariant
                n == self.entries@.len(),
                r == assoc_last(self.entries@.take(i as int), key),
        {
            let e = self.entries[i];
            if e.0 == key {
                r = Some(e.1);
            }
            proof {
                let s = self.entries@.take(i as int + 1);
                assert(s.last() == self.entries@[i as int]);
                assert(s.drop_last() =~= self.entries@.take(i as int));
            }
        }
        proof {
            assert(self.entries@.take(n as int) =~= self.entries@);
        }
        r
    }
}

/// The declared record count of a cue chunk payload: the 32-bit
/// little-endian value at byte offset 0.
pub open spec fn spec_cue_count(data: Seq<u8>) -> u32 {
    le32_at(data, 0)
}

/// The cue records of a cue chunk payload from record `i` up to the
/// declared count: fixed 24-byte records at offset 4 + 24·i, contributing
/// the identifier at record offset 0 and the start sample offset at record
/// offset 20. A record whose byte range would exceed the payload is
/// silently omitted (best-effort truncated-table recovery).
pub open spec fn spec_cue_records(data: Seq<u8>, i: int, count: int) -> Seq<(u32, u32)>
    decreases count - i,
{
    if i < 0 || i >= count {
        Seq::empty()
    } else {
        let start = 4 + 24 * i;
        let rest = spec_cue_records(data, i + 1, count);
        if start + 24 <= data.len() {
            seq![(le32_at(data, start), le32_at(data, start + 20))] + rest
        } else {
            rest
        }
    }
}

/// The cue-point table extracted from a chunk sequence: `None` when the
/// cue chunk is absent or its payload cannot hold a record count.
pub open spec fn spec_cue_table(cs: Seq<ChunkView>) -> Option<Seq<(u32, u32)>> {
    match spec_find_chunk(cs, ChunkType::Cue) {
        None => None,
        Some(c) => if c.data.len() < 4 {
            None
        } else {
            Some(spec_cue_records(c.data, 0, spec_cue_count(c.data) as int))
        },
    }
}

/// Once a record overruns the payload, every later record does too, so the
/// remaining records contribute nothing.
proof fn lemma_cue_records_tail_empty(data: Seq<u8>, i: int, count: int)
    requires
        i >= 0,
        4 + 24 * i + 24 > data.len(),
    ensures
        spec_cue_records(data, i, count) =~= Seq::<(u32, u32)>::empty(),
    decreases count - i,
{
    if 0 <= i < count {
        lemma_cue_records_tail_empty(data, i + 1, count);
    }
}

/// Parses the cue chunk to get cue point start positions. An absent cue
/// chunk, or one too short to hold its record count, is signalled by
/// `None` rather than treated as fatal.
pub fn parse_cue_points(riff_file: &RiffFile) -> (r: Result<Option<CueTable>, ParseError>)
    ensures
        ({
            match r {
                Ok(Some(t)) => spec_cue_table(riff_file@) == Some(t.entries@),
                Ok(None) => spec_cue_table(riff_file@) is None,
                Err(_) => false,
            }
        }),
{
    let cue_chunk = match riff_file.find_chunk_by_type(ChunkType::Cue) {
        Some(c) => c,
        None => {
            return Ok(None);
        },
    };
    let data = &cue_chunk.data;
    let n = data.len();
    if n < 4 {
        return Ok(None);
    }
    let count = read_u32_le(data, 0);
    let ghost d = data@;
    let ghost total = count as int;
    let mut entries: Vec<(u32, u32)> = Vec::new();
    let mut i: u32 = 0;
    proof {
        assert(entries@ + spec_cue_records(d, 0, total) =~= spec_cue_records(d, 0, total));
    }
    while i < count
        invariant
            0 <= i <= count,
            total == count as int,
            count == spec_cue_count(d),
            n >= 4,
            n == d.len(),
            d == data@,
            d == cue_chunk@.data,
            spec_cue_table(riff_file@) == Some(spec_cue_records(d, 0, total)),
            spec_cue_records(d, 0, total) == entries@ + spec_cue_records(d, i as int, total),
        decreases count - i,
    {
        let start64: u64 = 4 + 24 * (i as u64);
        if start64 + 24 > n as u64 {
            proof {
                lemma_cue_records_tail_empty(d, i as int, total);
                assert(entries@ + Seq::<(u32, u32)>::empty() =~= entries@);
            }
            return Ok(Some(CueTable { entries }));
        }
        let start = start64 as usize;
        let id = read_u32_le(data, start);
        let offset = read_u32_le(data, start + 20);
        let ghost old_entries = entries@;
        entries.push((id, offset));
        proof {
            let rest = spec_cue_records(d, i as int + 1, total);
            assert(spec_cue_records(d, i as int, total) == seq![(id, offset)] + rest);
            assert(old_entries + (seq![(id, offset)] + rest) =~= entries@ + rest);
        }
        i = i + 1;
    }
    proof {
        assert(spec_cue_records(d, i as int, total) =~= Seq::<(u32, u32)>::empty());
        assert(entries@ + Seq::<(u32, u32)>::empty() =~= entries@);
    }
    Ok(Some(CueTable { entries }))
}

/// The sampler loop table extracted from a chunk sequence, as the sampler
/// sub-decoder recovers it.
pub open spec fn spec_sampler_loops(cs: Seq<ChunkView>) -> Option<Seq<SampleLoop>> {
    match spec_find_chunk(cs, ChunkType::Sampler) {
        None => None,
        Some(c) => Some(spec_sample_loops(c.data, 0, spec_loop_count(c.data) as int)),
    }
}

/// Parses the sampler chunk into its sample loops. An absent sampler chunk
/// is signalled by `None` rather than treated as fatal; a sampler chunk
/// too short to hold its loop count is a fatal decode error.
pub fn parse_sampler_data(riff_file: &RiffFile) -> (r: Result<Option<Vec<SampleLoop>>, ParseError>)
    ensures
        ({
            let found = spec_find_chunk(riff_file@, ChunkType::Sampler);
            match r {
                Ok(None) => found is None,
                Ok(Some(v)) => found matches Some(c) && c.data.len() >= 32 && Some(v@)
                    == spec_sampler_loops(riff_file@),
                Err(e) => e is BytesToLe && (found matches Some(c) && c.data.len() < 32),
            }
        }),
{
    let smpl_chunk = match riff_file.find_chunk_by_type(ChunkType::Sampler) {
        Some(c) => c,
        None => {
            return Ok(None);
        },
    };
    let sampler_data = match SamplerChunk::from_chunk(smpl_chunk) {
        Ok(s) => s,
        Err(e) => {
            return Err(e);
        },
    };
    Ok(Some(sampler_data.sample_loops))
}

/// One recovered label: the identifier it shares with a cue point or
/// sampler loop, and its name text.
#[derive(Debug, Clone, PartialEq)]
pub struct Label {
    /// Identifier matching a cue-point or sampler-loop identifier
    pub cue_id: u32,
    /// Name text, lossily decoded and trimmed of trailing nulls
    pub name: String,
}

/// The mathematical value of a [`Label`].
pub ghost struct LabelView {
    pub cue_id: u32,
    pub name: Seq<char>,
}

impl View for Label {
    type V = LabelView;

    open spec fn view(&self) -> LabelView {
        LabelView { cue_id: self.cue_id, name: self.name@ }
    }
}

/// The mathematical values of a sequence of labels.
pub open spec fn labels_view(s: Seq<Label>) -> Seq<LabelView> {
    s.map_values(|l: Label| l@)
}

/// Whether a chunk is a standalone label chunk.
pub open spec fn is_label_chunk(c: ChunkView) -> bool {
    spec_chunk_type(c.tag) == ChunkType::Label
}

/// The predicate that keeps exactly the standalone label chunks.
pub open spec fn label_chunk_pred() -> spec_fn(ChunkView) -> bool {
    |c: ChunkView| is_label_chunk(c)
}

/// The standalone label chunks of a chunk sequence, in order.
pub open spec fn label_chunks(cs: Seq<ChunkView>) -> Seq<ChunkView> {
    cs.filter(label_chunk_pred())
}

/// Whether any standalone label chunk exists anywhere in the file.
pub open spec fn has_standalone_labels(cs: Seq<ChunkView>) -> bool {
    exists|i: int| 0 <= i < cs.len() && is_label_chunk(#[trigger] cs[i])
}

/// The label encoded by a standalone label chunk's payload: identifier in
/// the first 4 bytes, name text in the rest.
pub open spec fn standalone_label(c: ChunkView) -> LabelView {
    LabelView {
        cue_id: le32_at(c.data, 0),
        name: label_name(c.data.subrange(4, c.data.len() as int)),
    }
}

/// What one standalone label chunk contributes: one label if its payload
/// can hold an identifier, nothing otherwise.
pub open spec fn chunk_label_contrib(c: ChunkView) -> Seq<LabelView> {
    if c.data.len() >= 4 {
        seq![standalone_label(c)]
    } else {
        Seq::empty()
    }
}

/// The labels contributed by a sequence of standalone label chunks.
pub open spec fn labels_from_chunks(cs: Seq<ChunkView>) -> Seq<LabelView>
    decreases cs.len(),
{
    if cs.len() == 0 {
        Seq::empty()
    } else {
        chunk_label_contrib(cs[0]) + labels_from_chunks(cs.drop_first())
    }
}

/// Whether the 4 bytes at `pos` of `data` spell the tag of a list-packed
/// label sub-record.
pub open spec fn is_labl_tag(data: Seq<u8>, pos: int) -> bool {
    data[pos] == 0x6c && data[pos + 1] == 0x61 && data[pos + 2] == 0x62 && data[pos + 3] == 0x6c
}

/// The labels packed as sub-records from offset `pos` of a list chunk
/// payload: each sub-record has a 4-byte tag, a 32-bit little-endian
/// declared size that includes the 4-byte identifier field, then that many
/// payload bytes padded to even length for advancing. A sub-record whose
/// declared size overruns the remaining bytes terminates the walk early.
pub open spec fn spec_sub_labels(data: Seq<u8>, pos: int) -> Seq<LabelView>
    decreases data.len() + 1 - pos,
{
    if pos < 0 || pos + 8 > data.len() {
        Seq::empty()
    } else {
        let size = le32_at(data, pos + 4) as int;
        if pos + 8 + size > data.len() {
            Seq::empty()
        } else {
            let padded = size + (if size % 2 == 1 {
                1int
            } else {
                0int
            });
            let rest = spec_sub_labels(data, pos + 8 + padded);
            if is_labl_tag(data, pos) && size >= 4 {
                seq![
                    LabelView {
                        cue_id: le32_at(data, pos + 8),
                        name: label_name(data.subrange(pos + 12, pos + 8 + size)),
                    },
                ] + rest
            } else {
                rest
            }
        }
    }
}

/// The labels of a list chunk payload: none unless the payload begins with
/// the 4-byte associated-data tag, else the packed sub-records from
/// offset 4 on.
pub open spec fn spec_list_labels(data: Seq<u8>) -> Seq<LabelView> {
    if data.len() >= 4 && data[0] == 0x61 && data[1] == 0x64 && data[2] == 0x74 && data[3] == 0x6c {
        spec_sub_labels(data, 4)
    } else {
        Seq::empty()
    }
}

/// The labels of a chunk sequence: from the standalone label chunks when
/// any exist, else from the first list chunk's sub-records. The two
/// encodings are never merged.
pub open spec fn spec_labels(cs: Seq<ChunkView>) -> Seq<LabelView> {
    if has_standalone_labels(cs) {
        labels_from_chunks(label_chunks(cs))
    } else {
        match spec_find_chunk(cs, ChunkType::List) {
            Some(c) => spec_list_labels(c.data),
            None => Seq::empty(),
        }
    }
}

/// Label contributions distribute over concatenation of chunk sequences.
proof fn lemma_labels_from_chunks_app(s1: Seq<ChunkView>, s2: Seq<ChunkView>)
    ensures
        labels_from_chunks(s1 + s2) == labels_from_chunks(s1) + labels_from_chunks(s2),
    decreases s1.len(),
{
    if s1.len() == 0 {
        assert(s1 + s2 =~= s2);
        assert(labels_from_chunks(s1) + labels_from_chunks(s2) =~= labels_from_chunks(s2));
    } else {
        lemma_labels_from_chunks_app(s1.drop_first(), s2);
        assert((s1 + s2).drop_first() =~= s1.drop_first() + s2);
        assert((s1 + s2)[0] == s1[0]);
        assert(chunk_label_contrib(s1[0]) + (labels_from_chunks(s1.drop_first())
            + labels_from_chunks(s2)) =~= (chunk_label_contrib(s1[0]) + labels_from_chunks(
            s1.drop_first(),
        )) + labels_from_chunks(s2));
    }
}

/// A sequence without standalone label chunks filters to nothing.
proof fn lemma_no_label_chunks(cs: Seq<ChunkView>)
    requires
        !has_standalone_labels(cs),
    ensures
        label_chunks(cs).len() == 0,
    decreases cs.len(),
{
    reveal(Seq::filter);
    if cs.len() > 0 {
        assert(!is_label_chunk(cs[cs.len() - 1]));
        assert(forall|i: int|
            0 <= i < cs.drop_last().len() ==> cs.drop_last()[i] == #[trigger] cs[i]);
        lemma_no_label_chunks(cs.drop_last());
    }
}

/// A sequence has a standalone label chunk exactly when it filters to a
/// non-empty sequence of them.
proof fn lemma_has_standalone_filter(cs: Seq<ChunkView>)
    ensures
        has_standalone_labels(cs) <==> label_chunks(cs).len() != 0,
{
    if has_standalone_labels(cs) {
        let i = choose|i: int| 0 <= i < cs.len() && is_label_chunk(#[trigger] cs[i]);
        cs.lemma_filter_contains(label_chunk_pred(), i);
        assert(label_chunks(cs).contains(cs[i]));
    } else {
        lemma_no_label_chunks(cs);
    }
}

/// One chunk filters to itself or to nothing.
proof fn lemma_filter_one(c: ChunkView)
    ensures
        is_label_chunk(c) ==> label_chunks(seq![c]) == seq![c],
        !is_label_chunk(c) ==> label_chunks(seq![c]).len() == 0,
{
    reveal(Seq::filter);
    let one = seq![c];
    let e = Seq::<ChunkView>::empty();
    assert(one.drop_last() =~= e);
    assert(e.filter(label_chunk_pred()).len() == 0);
    assert(one.last() == c);
    if is_label_chunk(c) {
        assert(label_chunks(one) =~= seq![c]);
    } else {
        assert(label_chunks(one) =~= e);
    }
}

/// A label present in the list-style sub-record encoding is ignored
/// entirely when any standalone label chunk exists anywhere in the file:
/// two chunk sequences with the same standalone label chunks yield the same
/// labels, whatever their list chunks hold, as long as at least one
/// standalone label chunk exists.
pub proof fn lemma_standalone_masks_list(cs1: Seq<ChunkView>, cs2: Seq<ChunkView>)
    requires
        has_standalone_labels(cs1),
        label_chunks(cs1) == label_chunks(cs2),
    ensures
        spec_labels(cs1) == spec_labels(cs2),
{
    lemma_has_standalone_filter(cs1);
    lemma_has_standalone_filter(cs2);
}

/// Parses all labels from the file. Standalone label chunks are looked for
/// first; only when none exists at all does the decoder fall back to the
/// sub-records of the list chunk.
#[verifier::rlimit(30)]
pub fn parse_labels(riff_file: &RiffFile) -> (r: Vec<Label>)
    ensures
        labels_view(r@) == spec_labels(riff_file@),
{
    let ghost cs = riff_file@;
    let mut labels: Vec<Label> = Vec::new();
    let mut found_standalone_labels = false;
    let n = riff_file.chunks.len();
    proof {
        assert(cs.take(0) =~= Seq::<ChunkView>::empty());
        reveal(Seq::filter);
        assert(labels_view(labels@) =~= labels_from_chunks(label_chunks(cs.take(0))));
    }
    for i in 0..n
        invariant
            n == riff_file.chunks@.len(),
            cs == riff_file@,
            found_standalone_labels == has_standalone_labels(cs.take(i as int)),
            labels_view(labels@) == labels_from_chunks(label_chunks(cs.take(i as int))),
    {
        let chunk = &riff_file.chunks[i];
        let ghost cv = chunk@;
        let ghost prefix = cs.take(i as int);
        let ghost prefix1 = cs.take(i as int + 1);
        proof {
            assert(cv == cs[i as int]);
            assert(prefix1 =~= prefix + seq![cv]);
            Seq::filter_distributes_over_add(prefix, seq![cv], label_chunk_pred());
            lemma_filter_one(cv);
            lemma_labels_from_chunks_app(label_chunks(prefix), label_chunks(seq![cv]));
        }
        if chunk.chunk_type() == ChunkType::Label {
            found_standalone_labels = true;
            proof {
                assert(is_label_chunk(prefix1[i as int]));
                assert(label_chunks(prefix1) == label_chunks(prefix) + seq![cv]);
                assert(seq![cv].drop_first() =~= Seq::<ChunkView>::empty());
                assert(labels_from_chunks(seq![cv]) == chunk_label_contrib(cv)
                    + labels_from_chunks(Seq::<ChunkView>::empty()));
                assert(chunk_label_contrib(cv) + Seq::<LabelView>::empty() =~= chunk_label_contrib(
                    cv,
                ));
            }
            if chunk.data.len() >= 4 {
                let cue_id = read_u32_le(&chunk.data, 0);
                let name_bytes = trimmed_bytes(&chunk.data, 4, chunk.data.len());
                let name = decode_utf8_lossy(&name_bytes);
                let ghost old_labels = labels@;
                labels.push(Label { cue_id, name });
                proof {
                    assert(labels@ =~= old_labels.push(labels@[labels@.len() - 1]));
                    assert(labels@[labels@.len() - 1]@ == standalone_label(cv));
                    assert(labels_view(labels@) =~= labels_view(old_labels).push(
                        standalone_label(cv),
                    ));
                    assert(labels_view(old_labels) + chunk_label_contrib(cv) =~= labels_view(
                        old_labels,
                    ).push(standalone_label(cv)));
                }
            } else {
                proof {
                    assert(chunk_label_contrib(cv) =~= Seq::<LabelView>::empty());
                    assert(labels_view(labels@) + Seq::<LabelView>::empty() =~= labels_view(
                        labels@,
                    ));
                }
            }
        } else {
            proof {
                assert(!is_label_chunk(cv));
                assert(label_chunks(seq![cv]).len() == 0);
                assert(label_chunks(prefix) + label_chunks(seq![cv]) =~= label_chunks(prefix));
                assert(labels_from_chunks(label_chunks(seq![cv])) =~= Seq::<LabelView>::empty());
                assert(labels_view(labels@) + Seq::<LabelView>::empty() =~= labels_view(labels@));
                if has_standalone_labels(prefix1) {
                    let j = choose|j: int|
                        0 <= j < prefix1.len() && is_label_chunk(#[trigger] prefix1[j]);
                    if j < i as int {
                        assert(is_label_chunk(prefix[j]));
                    }
                }
                if has_standalone_labels(prefix) {
                    let j = choose|j: int|
                        0 <= j < prefix.len() && is_label_chunk(#[trigger] prefix[j]);
                    assert(is_label_chunk(prefix1[j]));
                }
            }
        }
    }
    proof {
        assert(cs.take(n as int) =~= cs);
    }
    if !found_standalone_labels {
        proof {
            lemma_no_label_chunks(cs);
            assert(labels_view(labels@) =~= Seq::<LabelView>::empty());
        }
        if let Some(list_chunk) = riff_file.find_chunk_by_type(ChunkType::List) {
            return parse_list_chunk_for_labels(list_chunk);
        }
    }
    labels
}

/// Parses label sub-records from a list chunk's payload. Malformed
/// sub-records terminate the walk early rather than failing the whole
/// parse.
pub fn parse_list_chunk_for_labels(list_chunk: &RiffChunk) -> (r: Vec<Label>)
    ensures
        labels_view(r@) == spec_list_labels(list_chunk@.data),
{
    let data = &list_chunk.data;
    let ghost d = data@;
    let n = data.len();
    let mut labels: Vec<Label> = Vec::new();
    if n < 4 || data[0] != 0x61 || data[1] != 0x64 || data[2] != 0x74 || data[3] != 0x6c {
        proof {
            assert(labels_view(labels@) =~= Seq::<LabelView>::empty());
        }
        return labels;
    }
    let mut pos: usize = 4;
    proof {
        assert(labels_view(labels@) + spec_sub_labels(d, 4) =~= spec_sub_labels(d, 4));
    }
    while n - pos >= 8
        invariant
            4 <= pos <= n,
            n == d.len(),
            d == data@,
            d == list_chunk@.data,
            spec_list_labels(d) == spec_sub_labels(d, 4),
            spec_sub_labels(d, 4) == labels_view(labels@) + spec_sub_labels(d, pos as int),
        decreases n - pos,
    {
        let ghost pos0 = pos as int;
        let sub_size32 = read_u32_le(data, pos + 4);
        if sub_size32 as u64 > (n - pos - 8) as u64 {
            proof {
                assert(spec_sub_labels(d, pos0) =~= Seq::<LabelView>::empty());
                assert(labels_view(labels@) + Seq::<LabelView>::empty() =~= labels_view(labels@));
            }
            return labels;
        }
        let sub_size = sub_size32 as usize;
        let body_end = pos + 8 + sub_size;
        let is_labl = data[pos] == 0x6c && data[pos + 1] == 0x61 && data[pos + 2] == 0x62 && data[pos
            + 3] == 0x6c;
        let ghost old_labels = labels@;
        let ghost sub_entry = if is_labl_tag(d, pos0) && sub_size as int >= 4 {
            seq![
                LabelView {
                    cue_id: le32_at(d, pos0 + 8),
                    name: label_name(d.subrange(pos0 + 12, pos0 + 8 + sub_size as int)),
                },
            ]
        } else {
            Seq::<LabelView>::empty()
        };
        if is_labl && sub_size >= 4 {
            let cue_id = read_u32_le(data, pos + 8);
            let name_bytes = trimmed_bytes(data, pos + 12, body_end);
            let name = decode_utf8_lossy(&name_bytes);
            labels.push(Label { cue_id, name });
            proof {
                assert(labels@ =~= old_labels.push(labels@[labels@.len() - 1]));
                assert(labels@[labels@.len() - 1]@ == sub_entry[0]);
                assert(labels_view(labels@) =~= labels_view(old_labels) + sub_entry);
            }
        } else {
            proof {
                assert(labels_view(labels@) =~= labels_view(old_labels) + sub_entry);
            }
        }
        let ghost padded = sub_size as int + (if sub_size as int % 2 == 1 {
            1int
        } else {
            0int
        });
        proof {
            assert(spec_sub_labels(d, pos0) == sub_entry + spec_sub_labels(d, pos0 + 8 + padded));
            assert((labels_view(old_labels) + sub_entry) + spec_sub_labels(d, pos0 + 8 + padded)
                =~= labels_view(old_labels) + (sub_entry + spec_sub_labels(d, pos0 + 8 + padded)));
        }
        if sub_size % 2 == 1 {
            if body_end < n {
                pos = body_end + 1;
            } else {
                proof {
                    assert(spec_sub_labels(d, pos0 + 8 + padded) =~= Seq::<LabelView>::empty());
                    assert(labels_view(labels@) + Seq::<LabelView>::empty() =~= labels_view(
                        labels@,
                    ));
                }
                return labels;
            }
        } else {
            pos = body_end;
        }
    }
    proof {
        assert(spec_sub_labels(d, pos as int) =~= Seq::<LabelView>::empty());
        assert(labels_view(labels@) + Seq::<LabelView>::empty() =~= labels_view(labels@));
    }
    labels
}

/// For a cue-table payload all of whose declared records lie within the
/// payload, extraction yields exactly one entry per record, carrying the
/// record's identifier and start sample offset.
pub proof fn lemma_cue_table_complete(data: Seq<u8>, i: int, count: int)
    requires
        0 <= i <= count,
        4 + 24 * count <= data.len(),
    ensures
        spec_cue_records(data, i, count).len() == count - i,
        forall|j: int|
            i <= j < count ==> #[trigger] spec_cue_records(data, i, count)[j - i] == (
            le32_at(data, 4 + 24 * j),
            le32_at(data, 4 + 24 * j + 20),
            ),
    decreases count - i,
{
    if i < count {
        lemma_cue_table_complete(data, i + 1, count);
        let rest = spec_cue_records(data, i + 1, count);
        let here = seq![(le32_at(data, 4 + 24 * i), le32_at(data, 4 + 24 * i + 20))];
        assert(spec_cue_records(data, i, count) == here + rest);
        assert forall|j: int| i <= j < count implies #[trigger] spec_cue_records(
            data,
            i,
            count,
        )[j - i] == (le32_at(data, 4 + 24 * j), le32_at(data, 4 + 24 * j + 20)) by {
            if j == i {
                assert((here + rest)[0] == here[0]);
            } else {
                assert((here + rest)[j - i] == rest[j - i - 1]);
                assert(rest[j - (i + 1)] == (le32_at(data, 4 + 24 * j), le32_at(
                    data,
                    4 + 24 * j + 20,
                )));
            }
        }
    }
}

/// Looking an identifier up in the extracted entries returns the value of
/// the last record bearing it: duplicates collapse to the last occurrence.
pub proof fn lemma_assoc_last_wins(s: Seq<(u32, u32)>, i: int)
    requires
        0 <= i < s.len(),
        forall|j: int| i < j < s.len() ==> (#[trigger] s[j]).0 != s[i].0,
    ensures
        assoc_last(s, s[i].0) == Some(s[i].1),
    decreases s.len(),
{
    if i == s.len() - 1 {
    } else {
        assert(s.last().0 != s[i].0);
        assert(s.drop_last()[i] == s[i]);
        assert(forall|j: int|
            i < j < s.drop_last().len() ==> (#[trigger] s.drop_last()[j]).0 != s.drop_last()[i].0);
        lemma_assoc_last_wins(s.drop_last(), i);
    }
}

/// An identifier no record bears looks up to nothing.
pub proof fn lemma_assoc_last_missing(s: Seq<(u32, u32)>, key: u32)
    requires
        forall|j: int| 0 <= j < s.len() ==> (#[trigger] s[j]).0 != key,
    ensures
        assoc_last(s, key) is None,
    decreases s.len(),
{
    if s.len() > 0 {
        assert(forall|j: int|
            0 <= j < s.drop_last().len() ==> (#[trigger] s.drop_last()[j]).0 != key);
        lemma_assoc_last_missing(s.drop_last(), key);
    }
}

} // verus!
