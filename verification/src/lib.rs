//! Recovers marker and region metadata that a digital-audio workstation
//! embeds inside a WAV container, and can rewrite such a container with the
//! bulk audio payload removed while keeping every metadata chunk.
//!
//! The container is walked into an ordered chunk list (`wavtag`), three
//! independent extractors decode the cue-point, label and sampler-loop
//! tables (`extract`), and a reconciliation pass joins them on their shared
//! numeric identifier into one ordered list of named intervals
//! (`reconcile`).

use vstd::prelude::*;

pub mod wavtag;
pub mod rewrite;
pub mod extract;
pub mod reconcile;

use crate::extract::{spec_cue_table, spec_labels, spec_sample_rate, spec_sampler_loops};
use crate::reconcile::spec_reconcile;
use crate::wavtag::{
    has_riff_tag, has_wave_tag, spec_find_chunk, spec_walk, ChunkType, ChunkView, RiffFile,
};

verus! {

/// Error type for parsing operations: I/O failures belong to the caller
/// that reads the file, all other variants to the decoders here.
#[derive(Debug, PartialEq)]
pub enum ParseError {
    /// I/O error when reading the file, carried as its message
    Io(String),
    /// File doesn't contain a WAVE tag
    NoWaveTag,
    /// File doesn't contain a RIFF tag
    NoRiffTag,
    /// Format chunk is missing
    MissingFormatChunk,
    /// Format chunk has invalid length
    InvalidFormatChunk(usize),
    /// Failed to convert bytes to a little-endian integer, with the name of
    /// the field being decoded
    BytesToLe(String),
    /// Other parsing errors
    Other(String),
}

/// Result type for parsing operations.
pub type ParseResult = Result<WavData, ParseError>;

/// Reason for missing or incomplete markers in a WAV file.
#[derive(Debug, Clone, Copy, PartialEq, Eq, Structural)]
pub enum Reason {
    /// No label chunks were found in the file
    NoLabels,
    /// No sampler chunk was found in the file
    NoSamplerData,
    /// Labels and/or sampler data found but no cue chunk
    NoCuePoints,
    /// Metadata exists but couldn't be matched into markers
    NoMarkersMatched,
}

/// The fixed explanatory text attached to each [`Reason`] variant.
pub open spec fn spec_reason_documentation(r: Reason) -> Seq<char> {
    match r {
        Reason::NoLabels => "No label chunks were found in the file"@,
        Reason::NoSamplerData => "No 'smpl' (sampler) chunk was found in the file"@,
        Reason::NoCuePoints => "Labels and/or sampler data found but no 'cue ' chunk"@,
        Reason::NoMarkersMatched => "Metadata exists but couldn't be matched into markers"@,
    }
}

impl Reason {
    /// The human-readable explanation for this reason, fixed at its
    /// definition rather than composed at a call site.
    pub fn documentation(&self) -> (r: &'static str)
        ensures
            r@ == spec_reason_documentation(*self),
    {
        match self {
            Reason::NoLabels => "No label chunks were found in the file",
            Reason::NoSamplerData => "No 'smpl' (sampler) chunk was found in the file",
            Reason::NoCuePoints => "Labels and/or sampler data found but no 'cue ' chunk",
            Reason::NoMarkersMatched => "Metadata exists but couldn't be matched into markers",
        }
    }
}

/// Type of marker in the WAV file: a single point or a range.
#[derive(Debug, Clone, Copy, PartialEq, Eq, Structural)]
pub enum MarkerType {
    /// A simple marker representing a single point in time
    Marker,
    /// A region with both start and end points defining a range
    Region,
}

/// A labeled marker or region recovered from a WAV file: its identifier,
/// name, and sample-accurate start and optional end offsets. Time-domain
/// fields in seconds are derived by the consumer at the formatting
/// boundary, by dividing sample offsets by the sample rate.
#[derive(Debug, Clone, PartialEq)]
pub struct Marker {
    /// Identifier matching the cue point in the WAV file
    pub id: u32,
    /// Name of the marker, from its label
    pub name: String,
    /// Whether this is a point marker or a region
    pub kind: MarkerType,
    /// Start position in samples
    pub start: u32,
    /// End position in samples, absent for point markers
    pub end: Option<u32>,
}

/// The mathematical value of a [`Marker`].
pub ghost struct MarkerView {
    pub id: u32,
    pub name: Seq<char>,
    pub kind: MarkerType,
    pub start: u32,
    pub end: Option<u32>,
}

impl View for Marker {
    type V = MarkerView;

    open spec fn view(&self) -> MarkerView {
        MarkerView {
            id: self.id,
            name: self.name@,
            kind: self.kind,
            start: self.start,
            end: self.end,
        }
    }
}

/// The mathematical values of a sequence of markers.
pub open spec fn markers_view(s: Seq<Marker>) -> Seq<MarkerView> {
    s.map_values(|m: Marker| m@)
}

/// The marker built from one identifier, name and pair of offsets: a
/// region exactly when an end offset was recovered, a point marker
/// otherwise.
pub open spec fn spec_marker(id: u32, name: Seq<char>, start: u32, end: Option<u32>) -> MarkerView {
    MarkerView {
        id,
        name,
        kind: if end is Some {
            MarkerType::Region
        } else {
            MarkerType::Marker
        },
        start,
        end,
    }
}

impl Marker {
    /// Creates a new marker or region: a region exactly when an end offset
    /// is given.
    pub fn new(id: u32, name: String, start: u32, end: Option<u32>) -> (m: Marker)
        ensures
            m@ == spec_marker(id, name@, start, end),
    {
        let kind = if end.is_some() {
            MarkerType::Region
        } else {
            MarkerType::Marker
        };
        Marker { id, name, kind, start, end }
    }
}

/// The complete result of parsing a WAV file for markers: the markers with
/// file metadata and any diagnostic reason.
#[derive(Debug)]
pub struct WavData {
    /// Path to the source WAV file
    pub path: String,
    /// Sample rate in Hz
    pub sample_rate: u32,
    /// Parsed markers and regions, sorted ascending by start offset
    pub markers: Vec<Marker>,
    /// Reason for incomplete parsing, if any
    pub reason: Option<Reason>,
    /// Human-readable description of the parsing reason
    pub reason_text: Option<String>,
}

impl WavData {
    /// Sets a reason for incomplete parsing, together with its fixed
    /// human-readable explanation.
    pub fn set_reason(&mut self, reason: Reason)
        ensures
            final(self).reason == Some(reason),
            final(self).reason_text matches Some(t) && t@ == spec_reason_documentation(reason),
            final(self).path == old(self).path,
            final(self).sample_rate == old(self).sample_rate,
            final(self).markers == old(self).markers,
    {
        self.reason = Some(reason);
        self.reason_text = Some(reason.documentation().to_owned());
    }

    /// Clears any previously set parsing reason.
    pub fn clear_reason(&mut self)
        ensures
            final(self).reason is None,
            final(self).reason_text is None,
            final(self).path == old(self).path,
            final(self).sample_rate == old(self).sample_rate,
            final(self).markers == old(self).markers,
    {
        self.reason = None;
        self.reason_text = None;
    }
}

/// Whether a chunk sequence carries a format chunk long enough to declare
/// the sample rate.
pub open spec fn spec_format_ok(cs: Seq<ChunkView>) -> bool {
    match spec_find_chunk(cs, ChunkType::Format) {
        Some(c) => c.data.len() >= 8,
        None => false,
    }
}

/// The inputs on which parsing succeeds: a walkable RIFF/WAVE container
/// with a well-formed format chunk, whose sampler chunk, if present, can
/// hold its loop count.
pub open spec fn spec_parse_succeeds(b: Seq<u8>) -> bool {
    &&& has_riff_tag(b)
    &&& has_wave_tag(b)
    &&& spec_walk(b, 12) matches Some(cs) && spec_format_ok(cs) && (spec_find_chunk(
        cs,
        ChunkType::Sampler,
    ) matches Some(c) ==> c.data.len() >= 32)
}

/// What a successful parse holds: the source path and sample rate, and —
/// in priority order — the diagnostic for a missing sampler chunk, the
/// diagnostic for a missing cue chunk, or the reconciled marker list.
pub open spec fn spec_parse_outcome(cs: Seq<ChunkView>, w: WavData, path: Seq<char>) -> bool {
    &&& w.path@ == path
    &&& match spec_find_chunk(cs, ChunkType::Format) {
        Some(c) => c.data.len() >= 8 && w.sample_rate == spec_sample_rate(c.data),
        None => false,
    }
    &&& match spec_sampler_loops(cs) {
        None => {
            &&& w.reason == Some(Reason::NoSamplerData)
            &&& w.reason_text matches Some(t) && t@ == spec_reason_documentation(
                Reason::NoSamplerData,
            )
            &&& w.markers@.len() == 0
        },
        Some(loops) => match spec_cue_table(cs) {
            None => {
                &&& w.reason == Some(Reason::NoCuePoints)
                &&& w.reason_text matches Some(t) && t@ == spec_reason_documentation(
                    Reason::NoCuePoints,
                )
                &&& w.markers@.len() == 0
            },
            Some(cues) => {
                &&& w.reason is None
                &&& w.reason_text is None
                &&& markers_view(w.markers@) == spec_reconcile(spec_labels(cs), Some(loops), cues)
            },
        },
    }
}

/// Which error a failed parse reports, for each way the container can be
/// malformed.
pub open spec fn spec_parse_error(b: Seq<u8>, e: ParseError) -> bool {
    &&& (e is NoRiffTag <==> !has_riff_tag(b))
    &&& (e is NoWaveTag <==> has_riff_tag(b) && !has_wave_tag(b))
    &&& (e is Other <==> has_riff_tag(b) && has_wave_tag(b) && spec_walk(b, 12) is None)
    &&& (has_riff_tag(b) && has_wave_tag(b)) ==> match spec_walk(b, 12) {
        None => true,
        Some(cs) => {
            &&& (e is MissingFormatChunk <==> spec_find_chunk(cs, ChunkType::Format) is None)
            &&& (e is InvalidFormatChunk <==> (spec_find_chunk(cs, ChunkType::Format) matches Some(
                c,
            ) && c.data.len() < 8))
            &&& (e matches ParseError::InvalidFormatChunk(l) ==> (spec_find_chunk(
                cs,
                ChunkType::Format,
            ) matches Some(c) && l == c.data.len()))
            &&& (e is BytesToLe <==> (spec_format_ok(cs) && (spec_find_chunk(
                cs,
                ChunkType::Sampler,
            ) matches Some(c) && c.data.len() < 32)))
        },
    }
}

/// Parses all markers from the bytes of one WAV container. The caller
/// reads the file; everything after that read is pure: the chunk walk, the
/// three extractions, and the reconciliation into the ordered marker list.
pub fn parse_markers_from_bytes(file_path: &str, data: &Vec<u8>) -> (r: Result<WavData, ParseError>)
    ensures
        r is Ok <==> spec_parse_succeeds(data@),
        r matches Ok(w) ==> spec_parse_outcome(spec_walk(data@, 12)->Some_0, w, file_path@),
        r matches Err(e) ==> spec_parse_error(data@, e),
{
    let riff_file = match RiffFile::parse(data) {
        Ok(f) => f,
        Err(e) => {
            return Err(e);
        },
    };
    let sample_rate = match extract::get_sample_rate(&riff_file) {
        Ok(sr) => sr,
        Err(e) => {
            return Err(e);
        },
    };
    let labels = extract::parse_labels(&riff_file);
    let sampler_data = match extract::parse_sampler_data(&riff_file) {
        Ok(s) => s,
        Err(e) => {
            return Err(e);
        },
    };
    let mut result = WavData {
        path: file_path.to_owned(),
        sample_rate,
        markers: Vec::new(),
        reason: None,
        reason_text: None,
    };
    let sampler_loops = match sampler_data {
        Some(loops) => loops,
        None => {
            result.set_reason(Reason::NoSamplerData);
            return Ok(result);
        },
    };
    let cue_points = match extract::parse_cue_points(&riff_file) {
        Ok(Some(t)) => t,
        Ok(None) => {
            result.set_reason(Reason::NoCuePoints);
            return Ok(result);
        },
        Err(e) => {
            return Err(e);
        },
    };
    result.markers = reconcile::match_markers(&labels, &Some(sampler_loops), &cue_points);
    Ok(result)
}

} // verus!
