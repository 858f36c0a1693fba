use reaper_regions::extract::{parse_cue_points, parse_labels, parse_sampler_data};
use reaper_regions::reconcile::match_markers;
use reaper_regions::wavtag::{ChunkType, RiffFile};
use reaper_regions::{
    parse_markers_from_bytes, Marker, MarkerType, ParseError, Reason, WavData,
};

fn chunk(tag: &[u8; 4], payload: &[u8]) -> Vec<u8> {
    let mut out = Vec::new();
    out.extend_from_slice(tag);
    out.extend_from_slice(&(payload.len() as u32).to_le_bytes());
    out.extend_from_slice(payload);
    if payload.len() % 2 == 1 {
        out.push(0);
    }
    out
}

fn container(chunks: &[Vec<u8>]) -> Vec<u8> {
    let mut body = Vec::new();
    body.extend_from_slice(b"WAVE");
    for c in chunks {
        body.extend_from_slice(c);
    }
    let mut out = Vec::new();
    out.extend_from_slice(b"RIFF");
    out.extend_from_slice(&(body.len() as u32).to_le_bytes());
    out.extend_from_slice(&body);
    out
}

fn fmt_chunk(sample_rate: u32) -> Vec<u8> {
    let mut payload = Vec::new();
    payload.extend_from_slice(&1u16.to_le_bytes()); // audio format
    payload.extend_from_slice(&2u16.to_le_bytes()); // channels
    payload.extend_from_slice(&sample_rate.to_le_bytes());
    payload.extend_from_slice(&(sample_rate * 4).to_le_bytes()); // byte rate
    payload.extend_from_slice(&4u16.to_le_bytes()); // block align
    payload.extend_from_slice(&16u16.to_le_bytes()); // bits per sample
    chunk(b"fmt ", &payload)
}

fn cue_chunk(records: &[(u32, u32)]) -> Vec<u8> {
    let mut payload = Vec::new();
    payload.extend_from_slice(&(records.len() as u32).to_le_bytes());
    for (id, offset) in records {
        payload.extend_from_slice(&id.to_le_bytes());
        payload.extend_from_slice(&0u32.to_le_bytes()); // position
        payload.extend_from_slice(b"data"); // containing chunk
        payload.extend_from_slice(&0u32.to_le_bytes()); // chunk start
        payload.extend_from_slice(&0u32.to_le_bytes()); // block start
        payload.extend_from_slice(&offset.to_le_bytes());
    }
    chunk(b"cue ", &payload)
}

fn smpl_chunk(loops: &[(u32, u32)]) -> Vec<u8> {
    let mut payload = vec![0u8; 28];
    payload.extend_from_slice(&(loops.len() as u32).to_le_bytes());
    payload.extend_from_slice(&0u32.to_le_bytes()); // sampler data size
    for (id, end) in loops {
        payload.extend_from_slice(&id.to_le_bytes());
        payload.extend_from_slice(&0u32.to_le_bytes()); // loop type
        payload.extend_from_slice(&0u32.to_le_bytes()); // loop start
        payload.extend_from_slice(&end.to_le_bytes());
        payload.extend_from_slice(&0u32.to_le_bytes()); // fraction
        payload.extend_from_slice(&0u32.to_le_bytes()); // play count
    }
    chunk(b"smpl", &payload)
}

fn labl_chunk(id: u32, name: &[u8]) -> Vec<u8> {
    let mut payload = Vec::new();
    payload.extend_from_slice(&id.to_le_bytes());
    payload.extend_from_slice(name);
    chunk(b"labl", &payload)
}

fn list_chunk(labels: &[(u32, &[u8])]) -> Vec<u8> {
    let mut payload = Vec::new();
    payload.extend_from_slice(b"adtl");
    for (id, name) in labels {
        payload.extend_from_slice(b"labl");
        payload.extend_from_slice(&((4 + name.len()) as u32).to_le_bytes());
        payload.extend_from_slice(&id.to_le_bytes());
        payload.extend_from_slice(name);
        if (4 + name.len()) % 2 == 1 {
            payload.push(0);
        }
    }
    chunk(b"LIST", &payload)
}

#[test]
fn test_one_region_recovered() {
    // one cue record, one sampler loop and one standalone label, all for
    // identifier 1
    let bytes = container(&[
        fmt_chunk(44100),
        cue_chunk(&[(1, 44100)]),
        smpl_chunk(&[(1, 88200)]),
        labl_chunk(1, b"Chorus\0"),
    ]);
    let data = parse_markers_from_bytes("one-region.wav", &bytes).unwrap();
    assert_eq!(data.path, "one-region.wav");
    assert_eq!(data.sample_rate, 44100);
    assert_eq!(data.reason, None);
    assert_eq!(data.reason_text, None);
    assert_eq!(data.markers.len(), 1);
    let m = &data.markers[0];
    assert_eq!(m.id, 1);
    assert_eq!(m.name, "Chorus");
    assert_eq!(m.kind, MarkerType::Region);
    assert_eq!(m.start, 44100);
    assert_eq!(m.end, Some(88200));
}

#[test]
fn test_sampler_absent_short_circuits() {
    // the same file without the sampler chunk: zero markers and the
    // missing-sampler diagnostic
    let bytes = container(&[
        fmt_chunk(44100),
        cue_chunk(&[(1, 44100)]),
        labl_chunk(1, b"Chorus\0"),
    ]);
    let data = parse_markers_from_bytes("no-sampler.wav", &bytes).unwrap();
    assert_eq!(data.markers.len(), 0);
    assert_eq!(data.reason, Some(Reason::NoSamplerData));
    assert_eq!(
        data.reason_text.as_deref(),
        Some("No 'smpl' (sampler) chunk was found in the file")
    );
}

#[test]
fn test_label_without_cue_defaults_start() {
    // a label for identifier 7 with no cue record for it: the marker is
    // emitted with the default start of 0, not an error
    let bytes = container(&[
        fmt_chunk(48000),
        cue_chunk(&[(1, 100)]),
        smpl_chunk(&[]),
        labl_chunk(7, b"Seven"),
    ]);
    let data = parse_markers_from_bytes("no-cue-for-label.wav", &bytes).unwrap();
    assert_eq!(data.markers.len(), 1);
    let m = &data.markers[0];
    assert_eq!(m.id, 7);
    assert_eq!(m.name, "Seven");
    assert_eq!(m.kind, MarkerType::Marker);
    assert_eq!(m.start, 0);
    assert_eq!(m.end, None);
}

#[test]
fn test_cue_absent_sets_reason() {
    let bytes = container(&[fmt_chunk(48000), smpl_chunk(&[(1, 500)]), labl_chunk(1, b"A")]);
    let data = parse_markers_from_bytes("no-cue.wav", &bytes).unwrap();
    assert_eq!(data.markers.len(), 0);
    assert_eq!(data.reason, Some(Reason::NoCuePoints));
    assert_eq!(
        data.reason_text.as_deref(),
        Some("Labels and/or sampler data found but no 'cue ' chunk")
    );
}

#[test]
fn test_no_riff_tag() {
    let bytes = b"JUNKdataJUNKdata".to_vec();
    let err = parse_markers_from_bytes("x.wav", &bytes).unwrap_err();
    assert!(matches!(err, ParseError::NoRiffTag));
}

#[test]
fn test_no_wave_tag() {
    let mut bytes = Vec::new();
    bytes.extend_from_slice(b"RIFF");
    bytes.extend_from_slice(&4u32.to_le_bytes());
    bytes.extend_from_slice(b"AVI ");
    let err = parse_markers_from_bytes("x.avi", &bytes).unwrap_err();
    assert!(matches!(err, ParseError::NoWaveTag));
}

#[test]
fn test_truncated_chunk_is_fatal() {
    // a chunk declaring more payload than the file holds
    let mut bytes = Vec::new();
    bytes.extend_from_slice(b"RIFF");
    bytes.extend_from_slice(&100u32.to_le_bytes());
    bytes.extend_from_slice(b"WAVE");
    bytes.extend_from_slice(b"fmt ");
    bytes.extend_from_slice(&1000u32.to_le_bytes());
    bytes.extend_from_slice(&[0u8; 16]);
    let err = parse_markers_from_bytes("truncated.wav", &bytes).unwrap_err();
    assert!(matches!(err, ParseError::Other(_)));
}

#[test]
fn test_missing_format_chunk() {
    let bytes = container(&[cue_chunk(&[(1, 100)])]);
    let err = parse_markers_from_bytes("no-fmt.wav", &bytes).unwrap_err();
    assert!(matches!(err, ParseError::MissingFormatChunk));
}

#[test]
fn test_invalid_format_chunk() {
    let bytes = container(&[chunk(b"fmt ", &[1, 0, 2, 0])]);
    let err = parse_markers_from_bytes("short-fmt.wav", &bytes).unwrap_err();
    assert!(matches!(err, ParseError::InvalidFormatChunk(4)));
}

#[test]
fn test_sampler_chunk_too_short() {
    let bytes = container(&[fmt_chunk(48000), chunk(b"smpl", &[0u8; 16])]);
    let err = parse_markers_from_bytes("short-smpl.wav", &bytes).unwrap_err();
    assert!(matches!(err, ParseError::BytesToLe(_)));
}

#[test]
fn test_cue_extraction_keeps_every_record() {
    // three well-formed records give three entries; the duplicate
    // identifier collapses to the last occurrence on lookup
    let bytes = container(&[fmt_chunk(48000), cue_chunk(&[(5, 100), (6, 200), (5, 300)])]);
    let riff = RiffFile::parse(&bytes).unwrap();
    let table = parse_cue_points(&riff).unwrap().unwrap();
    assert_eq!(table.entries.len(), 3);
    assert_eq!(table.entries, vec![(5, 100), (6, 200), (5, 300)]);
    assert_eq!(table.lookup(5), Some(300));
    assert_eq!(table.lookup(6), Some(200));
    assert_eq!(table.lookup(7), None);
}

#[test]
fn test_cue_truncated_table_recovered() {
    // the payload declares three records but holds only one: the rest are
    // silently omitted
    let mut payload = Vec::new();
    payload.extend_from_slice(&3u32.to_le_bytes());
    payload.extend_from_slice(&9u32.to_le_bytes());
    payload.extend_from_slice(&[0u8; 16]);
    payload.extend_from_slice(&777u32.to_le_bytes());
    let bytes = container(&[chunk(b"cue ", &payload)]);
    let riff = RiffFile::parse(&bytes).unwrap();
    let table = parse_cue_points(&riff).unwrap().unwrap();
    assert_eq!(table.entries, vec![(9, 777)]);
}

#[test]
fn test_standalone_labels_mask_list_labels() {
    // a list-packed label is ignored entirely because a standalone label
    // chunk exists, even though its identifier is unrelated
    let bytes = container(&[
        fmt_chunk(48000),
        cue_chunk(&[(1, 10), (2, 20)]),
        smpl_chunk(&[]),
        labl_chunk(1, b"Solo"),
        list_chunk(&[(2, b"Packed")]),
    ]);
    let data = parse_markers_from_bytes("masked.wav", &bytes).unwrap();
    assert_eq!(data.markers.len(), 1);
    assert_eq!(data.markers[0].id, 1);
    assert_eq!(data.markers[0].name, "Solo");
}

#[test]
fn test_list_labels_used_when_no_standalone() {
    let bytes = container(&[
        fmt_chunk(48000),
        cue_chunk(&[(1, 10), (2, 20)]),
        smpl_chunk(&[]),
        list_chunk(&[(1, b"One"), (2, b"Two\0")]),
    ]);
    let data = parse_markers_from_bytes("list.wav", &bytes).unwrap();
    assert_eq!(data.markers.len(), 2);
    assert_eq!(data.markers[0].name, "One");
    assert_eq!(data.markers[1].name, "Two");
}

#[test]
fn test_list_walk_stops_at_malformed_sub_record() {
    // the second sub-record declares a size overrunning the payload: the
    // walk stops after the first label instead of failing the parse
    let mut payload = Vec::new();
    payload.extend_from_slice(b"adtl");
    payload.extend_from_slice(b"labl");
    payload.extend_from_slice(&8u32.to_le_bytes());
    payload.extend_from_slice(&1u32.to_le_bytes());
    payload.extend_from_slice(b"Good");
    payload.extend_from_slice(b"labl");
    payload.extend_from_slice(&1000u32.to_le_bytes());
    payload.extend_from_slice(&2u32.to_le_bytes());
    let bytes = container(&[
        fmt_chunk(48000),
        cue_chunk(&[(1, 10)]),
        smpl_chunk(&[]),
        chunk(b"LIST", &payload),
    ]);
    let data = parse_markers_from_bytes("bad-sub.wav", &bytes).unwrap();
    assert_eq!(data.markers.len(), 1);
    assert_eq!(data.markers[0].name, "Good");
}

#[test]
fn test_list_without_adtl_tag_is_empty() {
    let mut payload = Vec::new();
    payload.extend_from_slice(b"info");
    payload.extend_from_slice(b"labl");
    payload.extend_from_slice(&8u32.to_le_bytes());
    payload.extend_from_slice(&1u32.to_le_bytes());
    payload.extend_from_slice(b"Nope");
    let bytes = container(&[
        fmt_chunk(48000),
        cue_chunk(&[(1, 10)]),
        smpl_chunk(&[]),
        chunk(b"LIST", &payload),
    ]);
    let data = parse_markers_from_bytes("not-adtl.wav", &bytes).unwrap();
    assert_eq!(data.markers.len(), 0);
    assert_eq!(data.reason, None);
}

#[test]
fn test_trailing_nulls_trimmed() {
    let bytes = container(&[
        fmt_chunk(48000),
        cue_chunk(&[(1, 10)]),
        smpl_chunk(&[]),
        labl_chunk(1, b"Hi\0\0\0"),
    ]);
    let data = parse_markers_from_bytes("nulls.wav", &bytes).unwrap();
    assert_eq!(data.markers[0].name, "Hi");
}

#[test]
fn test_invalid_utf8_replaced() {
    // invalid UTF-8 in a label decodes lossily instead of failing
    let bytes = container(&[
        fmt_chunk(48000),
        cue_chunk(&[(1, 10)]),
        smpl_chunk(&[]),
        labl_chunk(1, &[0x41, 0xff, 0xfe, 0x42]),
    ]);
    let data = parse_markers_from_bytes("bad-utf8.wav", &bytes).unwrap();
    assert_eq!(data.markers[0].name, "A\u{fffd}\u{fffd}B");
}

#[test]
fn test_label_duplicate_ids_last_name_wins() {
    let bytes = container(&[
        fmt_chunk(48000),
        cue_chunk(&[(1, 10)]),
        smpl_chunk(&[]),
        labl_chunk(1, b"First"),
        labl_chunk(1, b"Second"),
    ]);
    let data = parse_markers_from_bytes("dup-labels.wav", &bytes).unwrap();
    assert_eq!(data.markers.len(), 1);
    assert_eq!(data.markers[0].name, "Second");
}

#[test]
fn test_loop_duplicate_ids_last_end_wins() {
    let bytes = container(&[
        fmt_chunk(48000),
        cue_chunk(&[(1, 10)]),
        smpl_chunk(&[(1, 100), (1, 200)]),
        labl_chunk(1, b"L"),
    ]);
    let data = parse_markers_from_bytes("dup-loops.wav", &bytes).unwrap();
    assert_eq!(data.markers[0].end, Some(200));
}

#[test]
fn test_sampler_loop_table_truncated() {
    // the header declares two loops but the payload holds only one record
    let mut payload = vec![0u8; 28];
    payload.extend_from_slice(&2u32.to_le_bytes());
    payload.extend_from_slice(&0u32.to_le_bytes());
    payload.extend_from_slice(&1u32.to_le_bytes());
    payload.extend_from_slice(&0u32.to_le_bytes());
    payload.extend_from_slice(&0u32.to_le_bytes());
    payload.extend_from_slice(&999u32.to_le_bytes());
    payload.extend_from_slice(&0u32.to_le_bytes());
    payload.extend_from_slice(&0u32.to_le_bytes());
    let bytes = container(&[fmt_chunk(48000), chunk(b"smpl", &payload)]);
    let riff = RiffFile::parse(&bytes).unwrap();
    let loops = parse_sampler_data(&riff).unwrap().unwrap();
    assert_eq!(loops.len(), 1);
    assert_eq!(loops[0].id, 1);
    assert_eq!(loops[0].end, 999);
}

#[test]
fn test_markers_sorted_by_start_then_id() {
    let bytes = container(&[
        fmt_chunk(48000),
        cue_chunk(&[(3, 500), (1, 100), (2, 100)]),
        smpl_chunk(&[]),
        labl_chunk(3, b"C"),
        labl_chunk(1, b"A"),
        labl_chunk(2, b"B"),
    ]);
    let data = parse_markers_from_bytes("sorted.wav", &bytes).unwrap();
    let order: Vec<(u32, u32)> = data.markers.iter().map(|m| (m.start, m.id)).collect();
    assert_eq!(order, vec![(100, 1), (100, 2), (500, 3)]);
}

#[test]
fn test_reconciliation_deterministic() {
    // re-running reconciliation on the same three extracted tables gives
    // an identical ordered marker list
    let bytes = container(&[
        fmt_chunk(48000),
        cue_chunk(&[(2, 20), (1, 10)]),
        smpl_chunk(&[(1, 30)]),
        labl_chunk(1, b"One"),
        labl_chunk(2, b"Two"),
    ]);
    let riff = RiffFile::parse(&bytes).unwrap();
    let labels = parse_labels(&riff);
    let loops = parse_sampler_data(&riff).unwrap();
    let cues = parse_cue_points(&riff).unwrap().unwrap();
    let first = match_markers(&labels, &loops, &cues);
    let second = match_markers(&labels, &loops, &cues);
    assert_eq!(first, second);
    assert_eq!(first.len(), 2);
}

#[test]
fn test_unlabelled_identifiers_dropped() {
    // identifiers present only in the cue and sampler tables are dropped:
    // a label is the minimum requirement for emission
    let bytes = container(&[
        fmt_chunk(48000),
        cue_chunk(&[(1, 10), (9, 90)]),
        smpl_chunk(&[(9, 99)]),
        labl_chunk(1, b"Only"),
    ]);
    let data = parse_markers_from_bytes("unlabelled.wav", &bytes).unwrap();
    assert_eq!(data.markers.len(), 1);
    assert_eq!(data.markers[0].id, 1);
}

#[test]
fn test_marker_new_kind_follows_end() {
    let marker = Marker::new(1, "Verse".to_string(), 44100, None);
    assert_eq!(marker.kind, MarkerType::Marker);
    assert_eq!(marker.end, None);
    let region = Marker::new(2, "Chorus".to_string(), 44100, Some(88200));
    assert_eq!(region.kind, MarkerType::Region);
    assert_eq!(region.end, Some(88200));
}

#[test]
fn test_set_and_clear_reason() {
    let mut data = WavData {
        path: String::new(),
        sample_rate: 0,
        markers: Vec::new(),
        reason: None,
        reason_text: None,
    };
    data.set_reason(Reason::NoLabels);
    assert_eq!(data.reason, Some(Reason::NoLabels));
    assert_eq!(
        data.reason_text.as_deref(),
        Some("No label chunks were found in the file")
    );
    data.clear_reason();
    assert_eq!(data.reason, None);
    assert_eq!(data.reason_text, None);
}

#[test]
fn test_reason_documentation_strings() {
    assert_eq!(
        Reason::NoLabels.documentation(),
        "No label chunks were found in the file"
    );
    assert_eq!(
        Reason::NoSamplerData.documentation(),
        "No 'smpl' (sampler) chunk was found in the file"
    );
    assert_eq!(
        Reason::NoCuePoints.documentation(),
        "Labels and/or sampler data found but no 'cue ' chunk"
    );
    assert_eq!(
        Reason::NoMarkersMatched.documentation(),
        "Metadata exists but couldn't be matched into markers"
    );
}

#[test]
fn test_walker_retains_unknown_chunks() {
    let bytes = container(&[fmt_chunk(48000), chunk(b"junk", &[1, 2, 3, 4])]);
    let riff = RiffFile::parse(&bytes).unwrap();
    assert_eq!(riff.chunks.len(), 2);
    assert_eq!(&riff.chunks[1].tag, b"junk");
    assert_eq!(riff.chunks[1].chunk_type(), ChunkType::Other);
    assert_eq!(riff.chunks[1].data, vec![1, 2, 3, 4]);
}

#[test]
fn test_riff_declared_size_is_advisory() {
    // the declared total size does not match the actual bytes; parsing
    // still succeeds
    let mut bytes = container(&[fmt_chunk(44100)]);
    bytes[4] = 0xff;
    bytes[5] = 0x00;
    bytes[6] = 0x00;
    bytes[7] = 0x00;
    let data = parse_markers_from_bytes("advisory.wav", &bytes).unwrap();
    assert_eq!(data.sample_rate, 44100);
}

#[test]
fn test_trailing_odd_chunk_without_pad() {
    // a final odd-sized chunk whose pad byte is missing at end-of-stream
    let mut bytes = container(&[fmt_chunk(22050)]);
    bytes.extend_from_slice(b"oddz");
    bytes.extend_from_slice(&3u32.to_le_bytes());
    bytes.extend_from_slice(&[1, 2, 3]);
    let riff = RiffFile::parse(&bytes).unwrap();
    assert_eq!(riff.chunks.len(), 2);
    assert_eq!(riff.chunks[1].data, vec![1, 2, 3]);
}

#[test]
fn test_walker_skips_pad_byte() {
    // an odd-sized chunk is followed by a pad byte; the chunk after it is
    // still recovered
    let bytes = container(&[chunk(b"oddz", &[7, 8, 9]), fmt_chunk(22050)]);
    let riff = RiffFile::parse(&bytes).unwrap();
    assert_eq!(riff.chunks.len(), 2);
    assert_eq!(riff.chunks[0].data, vec![7, 8, 9]);
    assert_eq!(riff.chunks[1].chunk_type(), ChunkType::Format);
}
