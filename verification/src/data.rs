//! Inter-stage message shapes.
//!
//! Every inter-stage channel carries exactly two shapes: a data variant with a
//! payload, and a `Stop` variant used only by the shutdown protocol. The data
//! payloads themselves trace one unit of audio from its decoded fragment form
//! through session assembly, sample slicing and inference to the stored
//! result.

use vstd::prelude::*;

verus! {

/// A message on an inter-stage channel: either one payload, or the `Stop`
/// sentinel that drives the ordered shutdown cascade.
pub enum Msg<T> {
    Data(T),
    Stop,
}

/// Where a fragment sits inside its session.
#[derive(Clone, Copy, PartialEq, Eq, Structural, Debug)]
pub enum Boundary {
    Start,
    Continue,
    End,
}

/// One decoded unit of the upstream framing protocol.
pub struct FragmentData {
    /// Identifier of the peer endpoint the fragment arrived from.
    pub source: u64,
    /// Session identifier; together with `source` it keys the assembly table.
    pub key: u64,
    /// Position of this fragment inside its session; the start fragment
    /// carries sequence 0 and each later fragment the next integer.
    pub seq: u64,
    /// Session-boundary marker.
    pub boundary: Boundary,
    /// Raw payload bytes.
    pub bytes: Vec<u8>,
    /// Receipt timestamp, in milliseconds.
    pub received_at: u64,
}

/// Spec-level image of one fragment.
#[verifier::ext_equal]
pub struct FragmentV {
    pub source: u64,
    pub key: u64,
    pub seq: u64,
    pub boundary: Boundary,
    pub bytes: Seq<u8>,
    pub received_at: u64,
}

impl View for FragmentData {
    type V = FragmentV;

    open spec fn view(&self) -> FragmentV {
        FragmentV {
            source: self.source,
            key: self.key,
            seq: self.seq,
            boundary: self.boundary,
            bytes: self.bytes@,
            received_at: self.received_at,
        }
    }
}

/// One payload segment of a reconstructed session, kept with the sequence
/// marker of the fragment it came from.
pub struct Segment {
    pub seq: u64,
    pub bytes: Vec<u8>,
}

/// Spec-level image of one segment.
#[verifier::ext_equal]
pub struct SegmentV {
    pub seq: u64,
    pub bytes: Seq<u8>,
}

impl View for Segment {
    type V = SegmentV;

    open spec fn view(&self) -> SegmentV {
        SegmentV { seq: self.seq, bytes: self.bytes@ }
    }
}

/// Why a session left the assembly table.
#[derive(Clone, Copy, PartialEq, Eq, Structural, Debug)]
pub enum CompletionReason {
    /// The end-boundary fragment arrived and every position before it was
    /// filled: the session is gap-free.
    Natural,
    /// No fragment arrived within the configured idle period; the session is
    /// emitted with whatever was collected.
    Timeout,
    /// A fragment ran further ahead than the reordering window allows; the
    /// session is emitted with a gap rather than silently dropped.
    Gap,
}

/// A reconstructed (fully or partially) audio session from one source.
pub struct SessionData {
    pub source: u64,
    pub key: u64,
    /// Payload segments in strictly increasing sequence order.
    pub segments: Vec<Segment>,
    /// Receipt timestamp of the start fragment.
    pub started_at: u64,
    /// Timestamp at which the session was finalized.
    pub ended_at: u64,
    pub reason: CompletionReason,
}

/// Spec-level image of one session.
#[verifier::ext_equal]
pub struct SessionV {
    pub source: u64,
    pub key: u64,
    pub segments: Seq<SegmentV>,
    pub started_at: u64,
    pub ended_at: u64,
    pub reason: CompletionReason,
}

impl View for SessionData {
    type V = SessionV;

    open spec fn view(&self) -> SessionV {
        SessionV {
            source: self.source,
            key: self.key,
            segments: self.segments@.map_values(|g: Segment| g@),
            started_at: self.started_at,
            ended_at: self.ended_at,
            reason: self.reason,
        }
    }
}

/// A session is well formed when its segments are strictly increasing in
/// sequence order, and a naturally completed session is additionally
/// gap-free: segment `i` carries sequence marker `i` exactly.
pub open spec fn session_wf(s: SessionV) -> bool {
    &&& forall|i: int, j: int|
        0 <= i < j < s.segments.len() ==> s.segments[i].seq < s.segments[j].seq
    &&& s.reason == CompletionReason::Natural ==> forall|i: int|
        0 <= i < s.segments.len() ==> s.segments[i].seq == i
}

/// Law: within one emitted session, the payload segments sit in
/// non-decreasing sequence order, and no sequence position appears twice.
pub proof fn lemma_session_segments_ordered(s: SessionV)
    requires
        session_wf(s),
    ensures
        forall|i: int, j: int|
            0 <= i <= j < s.segments.len() ==> s.segments[i].seq <= s.segments[j].seq,
        forall|i: int, j: int|
            0 <= i < j < s.segments.len() ==> s.segments[i].seq != s.segments[j].seq,
{
}

/// A normalized, inference-ready audio sample cut out of one session.
pub struct FinalSampleData {
    /// Source endpoint of the originating session.
    pub source: u64,
    /// Key of the originating session, kept for diagnostics.
    pub key: u64,
    /// Position of this sample within its session.
    pub index: usize,
    /// The normalized sample bytes.
    pub buffer: Vec<u8>,
    /// Derived duration metadata, in payload units.
    pub duration: u64,
}

/// Whether inference (or a sink write) succeeded for one sample.
#[derive(Clone, Copy, PartialEq, Eq, Structural, Debug)]
pub enum ResultStatus {
    Success,
    Failure,
}

/// The computed output for one sample, headed for the persistence sink.
pub struct StoredResultData {
    /// Source endpoint of the originating session.
    pub source: u64,
    /// Key of the originating session, kept for diagnostics.
    pub key: u64,
    /// Position of the originating sample within its session.
    pub index: usize,
    /// The inference engine's output, empty on failure.
    pub payload: Vec<u8>,
    pub status: ResultStatus,
}

} // verus!
