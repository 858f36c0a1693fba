use reaper_regions::rewrite::process_file;
use reaper_regions::wavtag::RiffFile;

fn chunk(tag: &[u8; 4], payload: &[u8]) -> Vec<u8> {
    let mut out = Vec::new();
    out.extend_from_slice(tag);
    out.extend_from_slice(&(payload.len() as u32).to_le_bytes());
    out.extend_from_slice(payload);
    if payload.len() % 2 == 1 {
        out.push(0);
    }
    out
}

fn container(chunks: &[Vec<u8>]) -> Vec<u8> {
    let mut body = Vec::new();
    body.extend_from_slice(b"WAVE");
    for c in chunks {
        body.extend_from_slice(c);
    }
    let mut out = Vec::new();
    out.extend_from_slice(b"RIFF");
    out.extend_from_slice(&(body.len() as u32).to_le_bytes());
    out.extend_from_slice(&body);
    out
}

#[test]
fn test_rewrite_degenerate_round_trip() {
    // a container whose payload chunk is already empty rewrites to a
    // byte-identical container
    let bytes = container(&[
        chunk(b"fmt ", &[1, 0, 2, 0, 0x44, 0xac, 0, 0, 0, 0, 0, 0, 4, 0, 16, 0]),
        chunk(b"cue ", &[0, 0, 0, 0]),
        chunk(b"data", &[]),
    ]);
    let out = process_file(&bytes).unwrap();
    assert_eq!(out, bytes);
}

#[test]
fn test_rewrite_empties_payload_chunk() {
    let fmt = chunk(b"fmt ", &[1, 0, 2, 0, 0x44, 0xac, 0, 0, 0, 0, 0, 0, 4, 0, 16, 0]);
    let cue = chunk(b"cue ", &[0, 0, 0, 0]);
    let bytes = container(&[
        fmt.clone(),
        chunk(b"data", &[9; 1000]),
        cue.clone(),
    ]);
    let out = process_file(&bytes).unwrap();
    let expected = container(&[fmt, chunk(b"data", &[]), cue]);
    assert_eq!(out, expected);
}

#[test]
fn test_rewrite_preserves_unknown_chunks() {
    // every chunk the rewriter does not recognize is still copied verbatim
    let junk = chunk(b"junk", &[0xde, 0xad, 0xbe, 0xef]);
    let bext = chunk(b"bext", &[7; 32]);
    let bytes = container(&[
        junk.clone(),
        chunk(b"data", &[1, 2, 3, 4, 5, 6]),
        bext.clone(),
    ]);
    let out = process_file(&bytes).unwrap();
    let expected = container(&[junk, chunk(b"data", &[]), bext]);
    assert_eq!(out, expected);
}

#[test]
fn test_rewrite_recomputes_riff_size() {
    let bytes = container(&[chunk(b"data", &[5; 100])]);
    let out = process_file(&bytes).unwrap();
    // RIFF tag, declared size, WAVE tag, then the emptied payload chunk
    let declared = u32::from_le_bytes([out[4], out[5], out[6], out[7]]);
    assert_eq!(declared as usize, out.len() - 8);
    assert_eq!(out.len(), 12 + 8);
}

#[test]
fn test_rewritten_container_still_parses() {
    let bytes = container(&[
        chunk(b"fmt ", &[1, 0, 2, 0, 0x44, 0xac, 0, 0, 0, 0, 0, 0, 4, 0, 16, 0]),
        chunk(b"data", &[3; 64]),
        chunk(b"labl", &[1, 0, 0, 0, b'A', 0]),
    ]);
    let out = process_file(&bytes).unwrap();
    let original = RiffFile::parse(&bytes).unwrap();
    let rewritten = RiffFile::parse(&out).unwrap();
    assert_eq!(rewritten.chunks.len(), original.chunks.len());
    for (orig, new) in original.chunks.iter().zip(rewritten.chunks.iter()) {
        assert_eq!(orig.tag, new.tag);
        if &orig.tag == b"data" {
            assert_eq!(new.data.len(), 0);
        } else {
            assert_eq!(orig.data, new.data);
        }
    }
}

#[test]
fn test_rewrite_fails_where_walk_fails() {
    let err = process_file(&b"not a wav".to_vec()).unwrap_err();
    assert!(matches!(err, reaper_regions::ParseError::NoRiffTag));
}
