//! Session assembly: the pipeline's only stateful, keyed algorithm.
//!
//! The collector holds one assembly per active (source, key) pair. A start
//! fragment opens an assembly; each in-order fragment extends it; fragments
//! that run ahead are buffered in a bounded reordering window; an end
//! fragment completes the session naturally; a fragment beyond the window
//! forces a gap finalization; an idle sweep force-finalizes assemblies that
//! have seen no fragment for longer than the configured idle period. Either
//! way the session is emitted, tagged with its completion reason — never
//! silently dropped.

use vstd::prelude::*;

use crate::data::Boundary;
use crate::data::CompletionReason;
use crate::data::FragmentData;
use crate::data::FragmentV;
use crate::data::Segment;
use crate::data::SegmentV;
use crate::data::SessionData;
use crate::data::SessionV;
use crate::data::session_wf;

verus! {

/// One fragment buffered for reordering: it arrived ahead of the expected
/// sequence position.
pub struct Pending {
    pub seq: u64,
    pub end: bool,
    pub bytes: Vec<u8>,
}

/// Spec-level image of one buffered fragment.
#[verifier::ext_equal]
pub struct PendingV {
    pub seq: u64,
    pub end: bool,
    pub bytes: Seq<u8>,
}

impl View for Pending {
    type V = PendingV;

    open spec fn view(&self) -> PendingV {
        PendingV { seq: self.seq, end: self.end, bytes: self.bytes@ }
    }
}

/// The assembly state of one active session.
pub struct Assembly {
    pub source: u64,
    pub key: u64,
    /// Accepted segments; segment `i` came from the fragment with sequence
    /// marker `i`, so the collected prefix is gap-free.
    pub segments: Vec<Segment>,
    /// Fragments that ran ahead, sorted by strictly increasing sequence.
    pub pending: Vec<Pending>,
    /// Receipt timestamp of the start fragment.
    pub started_at: u64,
    /// Timestamp of the last accepted or buffered fragment.
    pub last_at: u64,
}

/// Spec-level image of one assembly.
#[verifier::ext_equal]
pub struct AssemblyV {
    pub source: u64,
    pub key: u64,
    pub segments: Seq<SegmentV>,
    pub pending: Seq<PendingV>,
    pub started_at: u64,
    pub last_at: u64,
}

impl View for Assembly {
    type V = AssemblyV;

    open spec fn view(&self) -> AssemblyV {
        AssemblyV {
            source: self.source,
            key: self.key,
            segments: self.segments@.map_values(|g: Segment| g@),
            pending: self.pending@.map_values(|p: Pending| p@),
            started_at: self.started_at,
            last_at: self.last_at,
        }
    }
}

/// Well-formedness of one assembly against the reordering window `window`.
pub open spec fn assembly_wf(a: AssemblyV, window: u64) -> bool {
    &&& a.segments.len() >= 1
    &&& a.segments.len() <= u64::MAX
    &&& forall|i: int| 0 <= i < a.segments.len() ==> a.segments[i].seq == i
    &&& forall|i: int, j: int|
        0 <= i < j < a.pending.len() ==> a.pending[i].seq < a.pending[j].seq
    &&& forall|i: int| 0 <= i < a.pending.len() ==> a.pending[i].seq > a.segments.len()
    &&& forall|i: int|
        0 <= i < a.pending.len() ==> a.pending[i].seq <= a.segments.len() + window
    &&& forall|i: int| 0 <= i < a.pending.len() ==> a.pending[i].seq < u64::MAX
}

/// The buffered fragments as session segments, in their stored order.
pub open spec fn pend_to_segs(pend: Seq<PendingV>) -> Seq<SegmentV> {
    pend.map_values(|p: PendingV| SegmentV { seq: p.seq, bytes: p.bytes })
}

/// Whether some buffered fragment already carries sequence marker `s`.
pub open spec fn pend_has(pend: Seq<PendingV>, s: u64) -> bool {
    exists|i: int| 0 <= i < pend.len() && pend[i].seq == s
}

/// Insertion of a buffered fragment at its sorted position.
pub open spec fn insert_pend(pend: Seq<PendingV>, p: PendingV) -> Seq<PendingV>
    decreases pend.len(),
{
    if pend.len() == 0 {
        seq![p]
    } else if p.seq < pend[0].seq {
        seq![p] + pend
    } else {
        seq![pend[0]] + insert_pend(pend.skip(1), p)
    }
}

/// Result of draining the reordering buffer after an in-order acceptance.
#[verifier::ext_equal]
pub struct DrainV {
    pub segments: Seq<SegmentV>,
    pub pending: Seq<PendingV>,
    pub ended: bool,
}

/// Moves buffered fragments into the segment list for as long as the next
/// expected sequence position is present; stops either at the first hole or
/// right after consuming a buffered end fragment.
pub open spec fn drain(segments: Seq<SegmentV>, pending: Seq<PendingV>) -> DrainV
    decreases pending.len(),
{
    if pending.len() > 0 && pending[0].seq == segments.len() {
        let g = SegmentV { seq: pending[0].seq, bytes: pending[0].bytes };
        if pending[0].end {
            DrainV { segments: segments.push(g), pending: pending.skip(1), ended: true }
        } else {
            drain(segments.push(g), pending.skip(1))
        }
    } else {
        DrainV { segments, pending, ended: false }
    }
}

/// The session emitted on natural completion: the gap-free segment list.
pub open spec fn natural_session(a: AssemblyV, segs: Seq<SegmentV>, now: u64) -> SessionV {
    SessionV {
        source: a.source,
        key: a.key,
        segments: segs,
        started_at: a.started_at,
        ended_at: now,
        reason: CompletionReason::Natural,
    }
}

/// The session emitted on a forced finalization: everything the assembly
/// holds — accepted segments first, then the buffered fragments in sequence
/// order — so no collected payload is lost.
pub open spec fn forced_session(
    a: AssemblyV,
    now: u64,
    reason: CompletionReason,
) -> SessionV {
    SessionV {
        source: a.source,
        key: a.key,
        segments: a.segments + pend_to_segs(a.pending),
        started_at: a.started_at,
        ended_at: now,
        reason,
    }
}

/// The session emitted when a fragment runs beyond the reordering window:
/// the forced contents plus that fragment itself, which carries the highest
/// sequence marker of all.
pub open spec fn gap_session(a: AssemblyV, f: FragmentV, now: u64) -> SessionV {
    SessionV {
        source: a.source,
        key: a.key,
        segments: a.segments + pend_to_segs(a.pending)
            + seq![SegmentV { seq: f.seq, bytes: f.bytes }],
        started_at: a.started_at,
        ended_at: now,
        reason: CompletionReason::Gap,
    }
}

/// The assembly opened by a start fragment.
pub open spec fn fresh_assembly(f: FragmentV, now: u64) -> AssemblyV {
    AssemblyV {
        source: f.source,
        key: f.key,
        segments: seq![SegmentV { seq: 0, bytes: f.bytes }],
        pending: Seq::empty(),
        started_at: f.received_at,
        last_at: now,
    }
}

/// Outcome of feeding one fragment to the assembly that owns its key: the
/// surviving state (`None` after eviction) and the emitted session, if any.
#[verifier::ext_equal]
pub struct StepV {
    pub state: Option<AssemblyV>,
    pub emitted: Option<SessionV>,
}

/// The fragment is left where it is and nothing is emitted.
pub open spec fn step_keep(a: AssemblyV) -> StepV {
    StepV { state: Some(a), emitted: None }
}

/// The complete transition of one assembly under one fragment of its key.
///
/// Discarded without effect, as malformed protocol units: a repeated start
/// boundary, any duplicate of an already accepted or already buffered
/// position, and a fragment carrying the unusable sequence marker `u64::MAX`
/// at or inside the window (the numbering is exhausted there; beyond the
/// window that marker forces a gap finalization like any other, so its
/// payload is still emitted, not lost). An in-order fragment is accepted and
/// the buffer drained behind it; an end boundary (arriving in order or
/// consumed from the buffer) completes the session naturally — buffered
/// fragments positioned past that end contradict the end boundary and are
/// dropped with the eviction as malformed units; a fragment within the
/// window is buffered; one beyond the window forces a gap finalization
/// carrying everything held.
pub open spec fn apply_frag(a: AssemblyV, f: FragmentV, now: u64, window: u64) -> StepV {
    let next = a.segments.len() as int;
    if f.boundary == Boundary::Start {
        step_keep(a)
    } else if f.seq < next || pend_has(a.pending, f.seq) {
        step_keep(a)
    } else if f.seq > next + window {
        StepV { state: None, emitted: Some(gap_session(a, f, now)) }
    } else if f.seq == u64::MAX {
        step_keep(a)
    } else if f.seq == next {
        let segs1 = a.segments.push(SegmentV { seq: f.seq, bytes: f.bytes });
        if f.boundary == Boundary::End {
            StepV { state: None, emitted: Some(natural_session(a, segs1, now)) }
        } else {
            let d = drain(segs1, a.pending);
            if d.ended {
                StepV { state: None, emitted: Some(natural_session(a, d.segments, now)) }
            } else {
                StepV {
                    state: Some(
                        AssemblyV {
                            segments: d.segments,
                            pending: d.pending,
                            last_at: now,
                            ..a
                        },
                    ),
                    emitted: None,
                }
            }
        }
    } else {
        StepV {
            state: Some(
                AssemblyV {
                    pending: insert_pend(
                        a.pending,
                        PendingV {
                            seq: f.seq,
                            end: f.boundary == Boundary::End,
                            bytes: f.bytes,
                        },
                    ),
                    last_at: now,
                    ..a
                },
            ),
            emitted: None,
        }
    }
}

/// Properties of a buffer drain: the segment list stays gap-free, the old
/// segments stay in place, and what remains buffered is a suffix of the old
/// buffer, still sorted and strictly ahead of the new segment list.
pub proof fn lemma_drain_props(segments: Seq<SegmentV>, pending: Seq<PendingV>, bound: int)
    requires
        segments.len() <= u64::MAX,
        forall|i: int| 0 <= i < segments.len() ==> segments[i].seq == i,
        forall|i: int, j: int|
            0 <= i < j < pending.len() ==> pending[i].seq < pending[j].seq,
        forall|i: int| 0 <= i < pending.len() ==> pending[i].seq >= segments.len(),
        forall|i: int| 0 <= i < pending.len() ==> pending[i].seq < u64::MAX,
        forall|i: int| 0 <= i < pending.len() ==> pending[i].seq <= bound,
    ensures
        ({
            let d = drain(segments, pending);
            &&& d.segments.len() >= segments.len()
            &&& d.segments.len() <= u64::MAX
            &&& forall|i: int| 0 <= i < segments.len() ==> d.segments[i] == segments[i]
            &&& forall|i: int| 0 <= i < d.segments.len() ==> d.segments[i].seq == i
            &&& forall|i: int, j: int|
                0 <= i < j < d.pending.len() ==> d.pending[i].seq < d.pending[j].seq
            &&& !d.ended ==> forall|i: int|
                0 <= i < d.pending.len() ==> d.pending[i].seq > d.segments.len()
            &&& forall|i: int| 0 <= i < d.pending.len() ==> d.pending[i].seq < u64::MAX
            &&& forall|i: int| 0 <= i < d.pending.len() ==> d.pending[i].seq <= bound
        }),
    decreases pending.len(),
{
    if pending.len() > 0 && pending[0].seq == segments.len() {
        let g = SegmentV { seq: pending[0].seq, bytes: pending[0].bytes };
        let segs1 = segments.push(g);
        assert(forall|i: int| 0 <= i < pending.skip(1).len()
            ==> pending.skip(1)[i] == pending[i + 1]);
        if !pending[0].end {
            lemma_drain_props(segs1, pending.skip(1), bound);
            let d = drain(segments, pending);
            assert(d == drain(segs1, pending.skip(1)));
            assert forall|i: int| 0 <= i < segments.len() implies d.segments[i]
                == segments[i] by {
                assert(d.segments[i] == segs1[i]);
            }
        }
    }
}

/// Properties of a sorted insertion into the reordering buffer: the result
/// is the old buffer with the new fragment at its sorted position.
#[verifier::rlimit(50)]
pub proof fn lemma_insert_pend_props(pend: Seq<PendingV>, p: PendingV)
    requires
        forall|i: int, j: int| 0 <= i < j < pend.len() ==> pend[i].seq < pend[j].seq,
        forall|i: int| 0 <= i < pend.len() ==> pend[i].seq != p.seq,
    ensures
        ({
            let r = insert_pend(pend, p);
            &&& r.len() == pend.len() + 1
            &&& forall|i: int, j: int| 0 <= i < j < r.len() ==> r[i].seq < r[j].seq
            &&& forall|i: int|
                0 <= i < r.len() ==> (r[i] == p || exists|j: int|
                    0 <= j < pend.len() && r[i] == pend[j])
            &&& exists|k: int|
                0 <= k <= pend.len() && r =~= pend.take(k) + seq![p] + pend.skip(k)
        }),
    decreases pend.len(),
{
    let r = insert_pend(pend, p);
    if pend.len() == 0 {
        assert(r =~= pend.take(0) + seq![p] + pend.skip(0));
    } else if p.seq < pend[0].seq {
        assert(r =~= pend.take(0) + seq![p] + pend.skip(0));
    } else {
        assert(forall|i: int| 0 <= i < pend.skip(1).len() ==> pend.skip(1)[i] == pend[i + 1]);
        lemma_insert_pend_props(pend.skip(1), p);
        let rr = insert_pend(pend.skip(1), p);
        assert(r == seq![pend[0]] + rr);
        assert(forall|i: int| 0 <= i < rr.len() ==> r[i + 1] == rr[i]);
        assert(p.seq > pend[0].seq);
        assert forall|i: int, j: int| 0 <= i < j < r.len() implies r[i].seq < r[j].seq by {
            if i > 0 {
                assert(r[i] == rr[i - 1] && r[j] == rr[j - 1]);
            } else {
                assert(r[j] == rr[j - 1]);
                if rr[j - 1] != p {
                    let jj = choose|jj: int|
                        0 <= jj < pend.skip(1).len() && rr[j - 1] == pend.skip(1)[jj];
                    assert(r[j] == pend[jj + 1]);
                }
            }
        }
        assert forall|i: int| 0 <= i < r.len() implies (r[i] == p || exists|j: int|
            0 <= j < pend.len() && r[i] == pend[j]) by {
            if i > 0 && r[i] != p {
                let jj = choose|jj: int|
                    0 <= jj < pend.skip(1).len() && rr[i - 1] == pend.skip(1)[jj];
                assert(r[i] == pend[jj + 1]);
            }
        }
        let k0 = choose|k0: int|
            0 <= k0 <= pend.skip(1).len()
                && rr =~= pend.skip(1).take(k0) + seq![p] + pend.skip(1).skip(k0);
        assert(r =~= pend.take(k0 + 1) + seq![p] + pend.skip(k0 + 1));
    }
}

/// The segments of a forced or gap session are strictly increasing in
/// sequence: accepted segments first (markers `0..n`), then the buffered
/// fragments (sorted, all beyond `n`), then — for a gap — the offending
/// fragment, whose marker lies beyond them all.
pub proof fn lemma_forced_session_wf(a: AssemblyV, now: u64, reason: CompletionReason, window: u64)
    requires
        assembly_wf(a, window),
        reason != CompletionReason::Natural,
    ensures
        session_wf(forced_session(a, now, reason)),
{
    let s = forced_session(a, now, reason);
    let n = a.segments.len() as int;
    assert forall|i: int, j: int|
        0 <= i < j < s.segments.len() implies s.segments[i].seq < s.segments[j].seq by {
        if j >= n {
            assert(s.segments[j] == pend_to_segs(a.pending)[j - n]);
            assert(s.segments[j].seq == a.pending[j - n].seq);
        }
        if i >= n {
            assert(s.segments[i].seq == a.pending[i - n].seq);
        }
    }
}

/// Law: a forced finalization loses nothing. The emitted session carries
/// every payload the assembly holds — each accepted segment at its position,
/// then every buffered fragment with its sequence marker and bytes — so
/// fragments folded into a timed-out or gapped session are all accounted
/// for; none vanish.
pub proof fn lemma_forced_session_accounts_all(a: AssemblyV, now: u64, reason: CompletionReason)
    ensures
        ({
            let s = forced_session(a, now, reason);
            &&& s.segments.len() == a.segments.len() + a.pending.len()
            &&& forall|i: int| 0 <= i < a.segments.len() ==> s.segments[i] == a.segments[i]
            &&& forall|j: int|
                0 <= j < a.pending.len() ==> s.segments[a.segments.len() + j].seq
                    == a.pending[j].seq && s.segments[a.segments.len() + j].bytes
                    == a.pending[j].bytes
        }),
{
    let s = forced_session(a, now, reason);
    assert forall|j: int| 0 <= j < a.pending.len() implies s.segments[a.segments.len() + j].seq
        == a.pending[j].seq && s.segments[a.segments.len() + j].bytes == a.pending[j].bytes by {
        assert(s.segments[a.segments.len() + j] == pend_to_segs(a.pending)[j]);
    }
}

/// One fragment step preserves assembly well-formedness, keeps the
/// assembly's identity, and only emits well-formed sessions of that same
/// identity.
pub proof fn lemma_apply_frag_wf(a: AssemblyV, f: FragmentV, now: u64, window: u64)
    requires
        assembly_wf(a, window),
    ensures
        ({
            let st = apply_frag(a, f, now, window);
            &&& st.state matches Some(a2) ==> assembly_wf(a2, window) && a2.source == a.source
                && a2.key == a.key && a2.started_at == a.started_at
            &&& st.emitted matches Some(s) ==> session_wf(s) && s.source == a.source
                && s.key == a.key
        }),
{
    let st = apply_frag(a, f, now, window);
    let next = a.segments.len() as int;
    if f.boundary == Boundary::Start || f.seq < next || pend_has(a.pending, f.seq) {
    } else if f.seq > next + window {
        lemma_gap_session_wf(a, f, now, window);
    } else if f.seq == u64::MAX {
    } else if f.seq == next {
        let segs1 = a.segments.push(SegmentV { seq: f.seq, bytes: f.bytes });
        assert(forall|i: int| 0 <= i < segs1.len() ==> segs1[i].seq == i);
        if f.boundary != Boundary::End {
            lemma_drain_props(segs1, a.pending, a.segments.len() + window);
        }
    } else {
        let p = PendingV { seq: f.seq, end: f.boundary == Boundary::End, bytes: f.bytes };
        lemma_insert_pend_props(a.pending, p);
        let r = insert_pend(a.pending, p);
        assert forall|i: int| 0 <= i < r.len() implies r[i].seq > a.segments.len()
            && r[i].seq <= a.segments.len() + window && r[i].seq < u64::MAX by {
            if r[i] != p {
                let j = choose|j: int| 0 <= j < a.pending.len() && r[i] == a.pending[j];
                assert(a.pending[j].seq > a.segments.len());
            }
        }
    }
}

/// The gap session is well formed: its segment markers are strictly
/// increasing even across the three parts it is assembled from.
pub proof fn lemma_gap_session_wf(a: AssemblyV, f: FragmentV, now: u64, window: u64)
    requires
        assembly_wf(a, window),
        f.seq > a.segments.len() + window,
    ensures
        session_wf(gap_session(a, f, now)),
{
    let s = gap_session(a, f, now);
    let n = a.segments.len() as int;
    let m = a.pending.len() as int;
    assert forall|i: int, j: int|
        0 <= i < j < s.segments.len() implies s.segments[i].seq < s.segments[j].seq by {
        if n <= i < n + m {
            assert(s.segments[i] == pend_to_segs(a.pending)[i - n]);
            assert(s.segments[i].seq == a.pending[i - n].seq);
        }
        if n <= j < n + m {
            assert(s.segments[j] == pend_to_segs(a.pending)[j - n]);
            assert(s.segments[j].seq == a.pending[j - n].seq);
        }
        if j == n + m {
            assert(s.segments[j].seq == f.seq);
        }
    }
}

/// View of a segment vector.
pub open spec fn vsegs(s: Seq<Segment>) -> Seq<SegmentV> {
    s.map_values(|g: Segment| g@)
}

/// View of a reordering buffer.
pub open spec fn vpend(p: Seq<Pending>) -> Seq<PendingV> {
    p.map_values(|q: Pending| q@)
}

/// View of an emitted-session option.
pub open spec fn opt_session_view(o: Option<SessionData>) -> Option<SessionV> {
    match o {
        Some(s) => Some(s@),
        None => None,
    }
}

/// View of a surviving-assembly option.
pub open spec fn opt_assembly_view(o: Option<Assembly>) -> Option<AssemblyV> {
    match o {
        Some(a) => Some(a@),
        None => None,
    }
}

/// Dropping the front of a reordering buffer drops the front of its view.
pub proof fn lemma_vpend_skip_front(before: Seq<Pending>)
    requires
        before.len() > 0,
    ensures
        vpend(before.remove(0)) =~= vpend(before).skip(1),
        vpend(before)[0] == before[0]@,
{
    assert forall|i: int| 0 <= i < before.remove(0).len() implies vpend(before.remove(0))[i]
        == vpend(before).skip(1)[i] by {
        assert(before.remove(0)[i] == before[i + 1]);
    }
}

/// Appending one segment appends its view.
pub proof fn lemma_vsegs_push(before: Seq<Segment>, g: Segment)
    ensures
        vsegs(before.push(g)) =~= vsegs(before).push(g@),
{
    assert forall|i: int| 0 <= i < before.push(g).len() implies vsegs(before.push(g))[i]
        == vsegs(before).push(g@)[i] by {
        if i < before.len() {
            assert(before.push(g)[i] == before[i]);
        }
    }
}

/// `insert_pend` places the new fragment exactly at the index below which
/// every buffered sequence marker is smaller.
pub proof fn lemma_insert_pend_at(pend: Seq<PendingV>, p: PendingV, k: int)
    requires
        0 <= k <= pend.len(),
        forall|i: int| 0 <= i < k ==> pend[i].seq < p.seq,
        k < pend.len() ==> pend[k].seq > p.seq,
    ensures
        insert_pend(pend, p) =~= pend.take(k) + seq![p] + pend.skip(k),
    decreases k,
{
    if k == 0 {
    } else {
        assert(forall|i: int| 0 <= i < pend.skip(1).len() ==> pend.skip(1)[i] == pend[i + 1]);
        lemma_insert_pend_at(pend.skip(1), p, k - 1);
        assert(insert_pend(pend, p) == seq![pend[0]] + insert_pend(pend.skip(1), p));
        assert(pend.skip(1).take(k - 1) =~= pend.take(k).skip(1));
        assert(pend.skip(1).skip(k - 1) =~= pend.skip(k));
    }
}

/// Forced finalization of one assembly: a session carrying the accepted
/// segments followed by every buffered fragment, in sequence order.
pub fn emit_with_pending(a: Assembly, now: u64, reason: CompletionReason) -> (s: SessionData)
    ensures
        s@ =~= forced_session(a@, now, reason),
{
    let ghost segs0 = vsegs(a.segments@);
    let ghost pend0 = vpend(a.pending@);
    let mut segments = a.segments;
    let mut pending = a.pending;
    while pending.len() > 0
        invariant
            pending@.len() <= pend0.len(),
            vpend(pending@) =~= pend0.skip(pend0.len() - pending@.len()),
            vsegs(segments@) =~= segs0 + pend_to_segs(
                pend0.take(pend0.len() - pending@.len()),
            ),
        decreases pending.len(),
    {
        let ghost k = pend0.len() - pending@.len();
        let ghost before = pending@;
        let p = pending.remove(0);
        proof {
            lemma_vpend_skip_front(before);
            assert(vpend(before) =~= pend0.skip(k));
            assert(p@ == pend0[k]);
            assert(vpend(pending@) =~= pend0.skip(k + 1));
        }
        let g = Segment { seq: p.seq, bytes: p.bytes };
        let ghost segs_before = segments@;
        segments.push(g);
        proof {
            lemma_vsegs_push(segs_before, g);
            assert(pend0.take(k + 1) =~= pend0.take(k).push(pend0[k]));
            assert(pend_to_segs(pend0.take(k + 1)) =~= pend_to_segs(pend0.take(k)).push(
                SegmentV { seq: pend0[k].seq, bytes: pend0[k].bytes },
            ));
            assert(vsegs(segments@) =~= segs0 + pend_to_segs(pend0.take(k + 1)));
        }
    }
    proof {
        assert(pend0.take(pend0.len() as int) =~= pend0);
    }
    SessionData {
        source: a.source,
        key: a.key,
        segments,
        started_at: a.started_at,
        ended_at: now,
        reason,
    }
}

/// Feeds one fragment of this assembly's key to the assembly.
///
/// Returns the surviving state (`None` once the session left the table) and
/// the emitted session, if this fragment completed or force-finalized one.
/// The outcome is exactly the `apply_frag` transition of the views.
pub fn assembly_step(a: Assembly, f: FragmentData, now: u64, window: u64) -> (r: (
    Option<Assembly>,
    Option<SessionData>,
))
    requires
        assembly_wf(a@, window),
    ensures
        ({
            let st = apply_frag(a@, f@, now, window);
            &&& opt_assembly_view(r.0) == st.state
            &&& opt_session_view(r.1) == st.emitted
        }),
{
    let ghost a0 = a@;
    let mut a = a;
    if f.boundary == Boundary::Start {
        return (Some(a), None);
    }
    let next: u64 = a.segments.len() as u64;
    if f.seq < next {
        return (Some(a), None);
    }
    // Locate the sorted position of `f.seq` in the reordering buffer and
    // detect a duplicate on the way.
    let mut idx: usize = 0;
    while idx < a.pending.len() && a.pending[idx].seq < f.seq
        invariant
            0 <= idx <= a.pending.len(),
            a@ == a0,
            forall|i: int| 0 <= i < idx ==> a0.pending[i].seq < f.seq,
        decreases a.pending.len() - idx,
    {
        idx = idx + 1;
    }
    let dup = idx < a.pending.len() && a.pending[idx].seq == f.seq;
    proof {
        if dup {
            assert(a0.pending[idx as int].seq == f.seq);
            assert(pend_has(a0.pending, f.seq));
        } else {
            assert forall|i: int| 0 <= i < a0.pending.len() implies a0.pending[i].seq
                != f.seq by {
                if i >= idx && idx < a0.pending.len() && i > idx {
                    assert(a0.pending[idx as int].seq < a0.pending[i].seq);
                }
            }
            assert(!pend_has(a0.pending, f.seq));
        }
    }
    if dup {
        return (Some(a), None);
    }
    if f.seq - next > window {
        // The gap can never be filled inside the window: force-finalize.
        let mut s = emit_with_pending(a, now, CompletionReason::Gap);
        s.segments.push(Segment { seq: f.seq, bytes: f.bytes });
        proof {
            assert(s@ =~= gap_session(a0, f@, now));
        }
        return (None, Some(s));
    }
    if f.seq == u64::MAX {
        return (Some(a), None);
    }
    if f.seq == next {
        a.segments.push(Segment { seq: f.seq, bytes: f.bytes });
        let ghost segs1 = a0.segments.push(SegmentV { seq: f@.seq, bytes: f@.bytes });
        proof {
            assert(vsegs(a.segments@) =~= segs1);
        }
        if f.boundary == Boundary::End {
            let s = SessionData {
                source: a.source,
                key: a.key,
                segments: a.segments,
                started_at: a.started_at,
                ended_at: now,
                reason: CompletionReason::Natural,
            };
            proof {
                assert(s@ =~= natural_session(a0, segs1, now));
            }
            return (None, Some(s));
        }
        // Drain the buffer for as long as the next expected position is
        // present; stop right after a buffered end fragment.
        let mut ended = false;
        while !ended && a.pending.len() > 0 && a.pending[0].seq == a.segments.len() as u64
            invariant
                a@.source == a0.source,
                a@.key == a0.key,
                a@.started_at == a0.started_at,
                a@.last_at == a0.last_at,
                a@.segments.len() <= u64::MAX,
                forall|i: int| 0 <= i < a@.segments.len() ==> a@.segments[i].seq == i,
                forall|i: int| 0 <= i < a@.pending.len() ==> a@.pending[i].seq < u64::MAX,
                !ended ==> drain(a@.segments, a@.pending) == drain(segs1, a0.pending),
                ended ==> drain(segs1, a0.pending).ended && drain(segs1, a0.pending).segments
                    =~= a@.segments,
            decreases a.pending.len(),
        {
            let ghost segs_c = a@.segments;
            let ghost pend_c = a@.pending;
            let ghost before = a.pending@;
            let p = a.pending.remove(0);
            proof {
                lemma_vpend_skip_front(before);
                assert(p@ == pend_c[0]);
                assert(vpend(a.pending@) =~= pend_c.skip(1));
            }
            let isend = p.end;
            a.segments.push(Segment { seq: p.seq, bytes: p.bytes });
            proof {
                assert(vsegs(a.segments@) =~= segs_c.push(
                    SegmentV { seq: pend_c[0].seq, bytes: pend_c[0].bytes },
                ));
                assert(pend_c[0].seq == segs_c.len());
            }
            if isend {
                ended = true;
            }
        }
        if ended {
            let s = SessionData {
                source: a.source,
                key: a.key,
                segments: a.segments,
                started_at: a.started_at,
                ended_at: now,
                reason: CompletionReason::Natural,
            };
            proof {
                let d = drain(segs1, a0.pending);
                assert(s@ =~= natural_session(a0, d.segments, now));
            }
            return (None, Some(s));
        }
        proof {
            let d = drain(segs1, a0.pending);
            assert(d == drain(a@.segments, a@.pending));
            assert(d.segments =~= a@.segments && d.pending =~= a@.pending);
        }
        a.last_at = now;
        proof {
            let d = drain(segs1, a0.pending);
            let st = apply_frag(a0, f@, now, window);
            assert(a@ =~= AssemblyV { segments: d.segments, pending: d.pending, last_at: now, ..a0 });
        }
        return (Some(a), None);
    }
    // f.seq is strictly ahead of the expected position here, inside the
    // window: buffer the fragment at its sorted position.
    let p = Pending { seq: f.seq, end: f.boundary == Boundary::End, bytes: f.bytes };
    let ghost pv = p@;
    a.pending.insert(idx, p);
    a.last_at = now;
    proof {
        lemma_insert_pend_at(a0.pending, pv, idx as int);
        assert(vpend(a.pending@) =~= a0.pending.take(idx as int) + seq![pv] + a0.pending.skip(
            idx as int,
        ));
        assert(a@ =~= AssemblyV { pending: insert_pend(a0.pending, pv), last_at: now, ..a0 });
    }
    (Some(a), None)
}

/// View of a session vector.
pub open spec fn vsess(s: Seq<SessionData>) -> Seq<SessionV> {
    s.map_values(|x: SessionData| x@)
}

/// View of the assembly table.
pub open spec fn vtable(t: Seq<Assembly>) -> Seq<AssemblyV> {
    t.map_values(|a: Assembly| a@)
}

/// Spec-level image of the collector.
#[verifier::ext_equal]
pub struct CollectorV {
    pub table: Seq<AssemblyV>,
    pub window: u64,
    pub idle_timeout_ms: u64,
}

/// The collector stage state: one assembly per active (source, key) pair.
pub struct Collector {
    pub table: Vec<Assembly>,
    /// How far ahead of the expected position a fragment may run and still
    /// be buffered.
    pub window: u64,
    /// Idle period, in milliseconds, after which an assembly is
    /// force-finalized by the sweep.
    pub idle_timeout_ms: u64,
}

impl View for Collector {
    type V = CollectorV;

    open spec fn view(&self) -> CollectorV {
        CollectorV {
            table: vtable(self.table@),
            window: self.window,
            idle_timeout_ms: self.idle_timeout_ms,
        }
    }
}

/// Whether some assembly in the table owns the given (source, key) pair.
pub open spec fn has_key(t: Seq<AssemblyV>, source: u64, key: u64) -> bool {
    exists|i: int| 0 <= i < t.len() && t[i].source == source && t[i].key == key
}

/// Every assembly is well formed and at most one assembly exists per
/// (source, key) pair.
pub open spec fn table_wf(t: Seq<AssemblyV>, window: u64) -> bool {
    &&& forall|i: int| 0 <= i < t.len() ==> assembly_wf(#[trigger] t[i], window)
    &&& forall|i: int, j: int|
        0 <= i < j < t.len() ==> !(#[trigger] t[i].source == #[trigger] t[j].source
            && t[i].key == t[j].key)
}

/// Collector invariant.
pub open spec fn collector_wf(c: CollectorV) -> bool {
    table_wf(c.table, c.window)
}

/// How the table and emission relate to the single-assembly transition when
/// the fragment's key already had an assembly at index `i`.
pub open spec fn on_frag_frame(
    oldc: CollectorV,
    newc: CollectorV,
    i: int,
    f: FragmentV,
    now: u64,
    emitted: Option<SessionV>,
) -> bool {
    let st = apply_frag(oldc.table[i], f, now, oldc.window);
    &&& emitted == st.emitted
    &&& match st.state {
        Some(av) => newc.table =~= oldc.table.remove(i).push(av),
        None => newc.table =~= oldc.table.remove(i),
    }
}

/// Index of the assembly owning the pair; meaningful only under `has_key`.
pub open spec fn key_index(t: Seq<AssemblyV>, source: u64, key: u64) -> int {
    choose|i: int| 0 <= i < t.len() && t[i].source == source && t[i].key == key
}

/// Outcome of feeding one fragment to the collector: the new collector state
/// and the emitted session, if any.
#[verifier::ext_equal]
pub struct CollectorStepV {
    pub state: CollectorV,
    pub emitted: Option<SessionV>,
}

/// The collector's complete transition under one fragment.
///
/// A known key drives its assembly's `apply_frag` transition; the assembly is
/// taken out of the table and the surviving state, if any, re-enters at the
/// end. An unknown key is opened only by a start fragment with sequence 0;
/// any other fragment of an unknown key — in particular a late fragment of
/// an already finalized session — changes nothing and emits nothing.
pub open spec fn collector_step(c: CollectorV, f: FragmentV, now: u64) -> CollectorStepV {
    if has_key(c.table, f.source, f.key) {
        let i = key_index(c.table, f.source, f.key);
        let st = apply_frag(c.table[i], f, now, c.window);
        let t2 = match st.state {
            Some(av) => c.table.remove(i).push(av),
            None => c.table.remove(i),
        };
        CollectorStepV { state: CollectorV { table: t2, ..c }, emitted: st.emitted }
    } else if f.boundary == Boundary::Start && f.seq == 0 {
        CollectorStepV {
            state: CollectorV { table: c.table.push(fresh_assembly(f, now)), ..c },
            emitted: None,
        }
    } else {
        CollectorStepV { state: c, emitted: None }
    }
}

/// Result of folding a run of fragments through the collector: the final
/// collector state and every emitted session, in emission order.
#[verifier::ext_equal]
pub struct CollectorRunV {
    pub state: CollectorV,
    pub emitted: Seq<SessionV>,
}

/// Folds a run of fragments through the collector, fragment by fragment in
/// arrival order, each at its own receipt time.
pub open spec fn collector_run(c: CollectorV, frags: Seq<FragmentV>) -> CollectorRunV
    decreases frags.len(),
{
    if frags.len() == 0 {
        CollectorRunV { state: c, emitted: Seq::empty() }
    } else {
        let st = collector_step(c, frags[0], frags[0].received_at);
        let rest = collector_run(st.state, frags.skip(1));
        CollectorRunV {
            state: rest.state,
            emitted: (match st.emitted {
                Some(s) => seq![s],
                None => Seq::empty(),
            }) + rest.emitted,
        }
    }
}

impl Collector {
    /// An empty collector with the given reordering window and idle period.
    pub fn new(window: u64, idle_timeout_ms: u64) -> (c: Collector)
        ensures
            c@.table.len() == 0,
            c@.window == window,
            c@.idle_timeout_ms == idle_timeout_ms,
            collector_wf(c@),
    {
        Collector { table: Vec::new(), window, idle_timeout_ms }
    }

    /// An empty collector configured from a settings snapshot.
    pub fn from_config(cfg: &crate::config::Config) -> (c: Collector)
        ensures
            c@.table.len() == 0,
            c@.window == cfg.reorder_window,
            c@.idle_timeout_ms == cfg.idle_timeout_ms,
            collector_wf(c@),
    {
        Collector { table: Vec::new(), window: cfg.reorder_window, idle_timeout_ms: cfg.idle_timeout_ms }
    }

    /// How many sessions are currently being assembled.
    pub fn active_sessions(&self) -> (n: usize)
        ensures
            n == self@.table.len(),
    {
        self.table.len()
    }

    /// Index of the assembly owning the pair, if one exists.
    fn find(&self, source: u64, key: u64) -> (r: Option<usize>)
        ensures
            match r {
                Some(i) => i < self@.table.len() && self@.table[i as int].source == source
                    && self@.table[i as int].key == key,
                None => !has_key(self@.table, source, key),
            },
    {
        let mut i: usize = 0;
        while i < self.table.len()
            invariant
                0 <= i <= self@.table.len(),
                forall|k: int|
                    0 <= k < i ==> !(#[trigger] self@.table[k].source == source
                        && self@.table[k].key == key),
            decreases self@.table.len() - i,
        {
            if self.table[i].source == source && self.table[i].key == key {
                return Some(i);
            }
            i = i + 1;
        }
        None
    }

    /// Consumes one fragment.
    ///
    /// An unknown key is opened only by a start fragment with sequence 0;
    /// any other fragment of an unknown key is discarded (in particular, a
    /// late fragment of an already finalized session causes no duplicate
    /// emission). A fragment of a known key drives that assembly's
    /// `apply_frag` transition, and the emitted session — natural completion
    /// or forced gap finalization — is returned.
    pub fn on_fragment(&mut self, f: FragmentData, now: u64) -> (emitted: Option<SessionData>)
        requires
            collector_wf(old(self)@),
        ensures
            collector_wf(final(self)@),
            final(self)@.window == old(self)@.window,
            final(self)@.idle_timeout_ms == old(self)@.idle_timeout_ms,
            emitted matches Some(s) ==> session_wf(s@) && s.source == f.source && s.key == f.key,
            !has_key(old(self)@.table, f.source, f.key) && f.boundary == Boundary::Start
                && f.seq == 0 ==> final(self)@.table =~= old(self)@.table.push(
                fresh_assembly(f@, now),
            ) && emitted is None,
            !has_key(old(self)@.table, f.source, f.key) && !(f.boundary == Boundary::Start
                && f.seq == 0) ==> final(self)@.table == old(self)@.table && emitted is None,
            forall|i: int|
                0 <= i < old(self)@.table.len() && #[trigger] old(self)@.table[i].source
                    == f.source && old(self)@.table[i].key == f.key ==> on_frag_frame(
                    old(self)@,
                    final(self)@,
                    i,
                    f@,
                    now,
                    opt_session_view(emitted),
                ),
            final(self)@ == collector_step(old(self)@, f@, now).state,
            opt_session_view(emitted) == collector_step(old(self)@, f@, now).emitted,
    {
        let ghost c0 = self@;
        match self.find(f.source, f.key) {
            None => {
                if f.boundary == Boundary::Start && f.seq == 0 {
                    let mut segments: Vec<Segment> = Vec::new();
                    segments.push(Segment { seq: 0, bytes: f.bytes });
                    let a = Assembly {
                        source: f.source,
                        key: f.key,
                        segments,
                        pending: Vec::new(),
                        started_at: f.received_at,
                        last_at: now,
                    };
                    proof {
                        assert(a@ =~= fresh_assembly(f@, now));
                    }
                    let ghost tbefore = self.table@;
                    self.table.push(a);
                    proof {
                        assert forall|i: int| 0 <= i < self.table@.len()
                            implies vtable(self.table@)[i] == vtable(tbefore).push(a@)[i] by {
                            if i < tbefore.len() {
                                assert(self.table@[i] == tbefore[i]);
                            }
                        }
                        assert(final(self)@.table =~= c0.table.push(fresh_assembly(f@, now)));
                        assert(assembly_wf(a@, self.window));
                        assert(collector_wf(self@));
                        assert(final(self)@ =~= collector_step(c0, f@, now).state);
                    }
                    None
                } else {
                    proof {
                        assert(final(self)@ =~= collector_step(c0, f@, now).state);
                    }
                    None
                }
            },
            Some(i) => {
                let ghost tbefore = self.table@;
                let a = self.table.remove(i);
                proof {
                    assert(a@ == c0.table[i as int]);
                    assert forall|j: int| 0 <= j < self.table@.len()
                        implies vtable(self.table@)[j] == c0.table.remove(i as int)[j] by {
                        if j < i {
                            assert(self.table@[j] == tbefore[j]);
                        } else {
                            assert(self.table@[j] == tbefore[j + 1]);
                        }
                    }
                    assert(vtable(self.table@) =~= c0.table.remove(i as int));
                    lemma_apply_frag_wf(a@, f@, now, self.window);
                }
                let window = self.window;
                let (st, em) = assembly_step(a, f, now, window);
                let ghost st_spec = apply_frag(c0.table[i as int], f@, now, c0.window);
                match st {
                    Some(a2) => {
                        let ghost tmid = self.table@;
                        proof {
                            assert(a2@ == st_spec.state.unwrap());
                        }
                        self.table.push(a2);
                        proof {
                            assert forall|j: int| 0 <= j < self.table@.len()
                                implies vtable(self.table@)[j] == vtable(tmid).push(
                                st_spec.state.unwrap(),
                            )[j] by {
                                if j < tmid.len() {
                                    assert(self.table@[j] == tmid[j]);
                                }
                            }
                            assert(final(self)@.table =~= c0.table.remove(i as int).push(
                                st_spec.state.unwrap(),
                            ));
                            lemma_table_wf_after_replace(c0.table, i as int, st_spec.state.unwrap(), c0.window);
                        }
                    },
                    None => {
                        proof {
                            lemma_table_wf_after_remove(c0.table, i as int, c0.window);
                        }
                    },
                }
                proof {
                    assert forall|i2: int|
                        0 <= i2 < c0.table.len() && #[trigger] c0.table[i2].source == f.source
                            && c0.table[i2].key == f.key implies i2 == i as int by {
                        if i2 != i as int {
                            if i2 < i as int {
                                assert(!(c0.table[i2].source == c0.table[i as int].source
                                    && c0.table[i2].key == c0.table[i as int].key));
                            } else {
                                assert(!(c0.table[i as int].source == c0.table[i2].source
                                    && c0.table[i as int].key == c0.table[i2].key));
                            }
                        }
                    }
                    assert(has_key(c0.table, f.source, f.key));
                    assert(key_index(c0.table, f.source, f.key) == i as int);
                    assert(final(self)@ =~= collector_step(c0, f@, now).state);
                }
                em
            },
        }
    }
}

/// Whether an assembly has gone without fragments past the idle period.
pub open spec fn is_expired(a: AssemblyV, now: u64, idle: u64) -> bool {
    a.last_at + idle < now
}

/// Result of one idle sweep over the table.
#[verifier::ext_equal]
pub struct SweepV {
    pub kept: Seq<AssemblyV>,
    pub emitted: Seq<SessionV>,
}

/// The idle sweep, position by position: expired assemblies are finalized
/// with reason `Timeout` and leave the table; fresh ones are kept in order.
pub open spec fn sweep_table(t: Seq<AssemblyV>, now: u64, idle: u64) -> SweepV
    decreases t.len(),
{
    if t.len() == 0 {
        SweepV { kept: Seq::empty(), emitted: Seq::empty() }
    } else {
        let rest = sweep_table(t.skip(1), now, idle);
        if is_expired(t[0], now, idle) {
            SweepV {
                kept: rest.kept,
                emitted: seq![forced_session(t[0], now, CompletionReason::Timeout)]
                    + rest.emitted,
            }
        } else {
            SweepV { kept: seq![t[0]] + rest.kept, emitted: rest.emitted }
        }
    }
}

impl Collector {
    /// Force-finalizes every assembly that has seen no fragment for longer
    /// than the idle period: each is emitted exactly once, tagged `Timeout`,
    /// and its state leaves the table, so a later fragment of the same key
    /// cannot cause a duplicate emission.
    pub fn sweep_idle(&mut self, now: u64) -> (out: Vec<SessionData>)
        requires
            collector_wf(old(self)@),
        ensures
            collector_wf(final(self)@),
            final(self)@.window == old(self)@.window,
            final(self)@.idle_timeout_ms == old(self)@.idle_timeout_ms,
            final(self)@.table =~= sweep_table(
                old(self)@.table,
                now,
                old(self)@.idle_timeout_ms,
            ).kept,
            vsess(out@) =~= sweep_table(
                old(self)@.table,
                now,
                old(self)@.idle_timeout_ms,
            ).emitted,
            forall|j: int|
                0 <= j < vsess(out@).len() ==> session_wf(#[trigger] vsess(out@)[j])
                    && vsess(out@)[j].reason == CompletionReason::Timeout,
    {
        let ghost t0 = self@.table;
        let ghost idle = self.idle_timeout_ms;
        let ghost window = self.window;
        let mut kept: Vec<Assembly> = Vec::new();
        let mut out: Vec<SessionData> = Vec::new();
        let idle_ms = self.idle_timeout_ms;
        while self.table.len() > 0
            invariant
                self.idle_timeout_ms == idle,
                idle_ms == idle,
                self.window == window,
                table_wf(vtable(kept@) + vtable(self.table@), window),
                sweep_table(t0, now, idle).kept =~= vtable(kept@) + sweep_table(
                    vtable(self.table@),
                    now,
                    idle,
                ).kept,
                sweep_table(t0, now, idle).emitted =~= vsess(out@) + sweep_table(
                    vtable(self.table@),
                    now,
                    idle,
                ).emitted,
                forall|j: int|
                    0 <= j < vsess(out@).len() ==> session_wf(#[trigger] vsess(out@)[j])
                        && vsess(out@)[j].reason == CompletionReason::Timeout,
            decreases self.table.len(),
        {
            let ghost tcur = vtable(self.table@);
            let ghost before = self.table@;
            let a = self.table.remove(0);
            proof {
                assert(a@ == tcur[0]);
                assert forall|j: int| 0 <= j < self.table@.len() implies vtable(self.table@)[j]
                    == tcur.skip(1)[j] by {
                    assert(self.table@[j] == before[j + 1]);
                }
                assert(vtable(self.table@) =~= tcur.skip(1));
                assert(vtable(kept@) + tcur =~= (vtable(kept@) + tcur).take(
                    vtable(kept@).len() as int,
                ) + tcur);
                assert(assembly_wf(a@, window)) by {
                    assert((vtable(kept@) + tcur)[vtable(kept@).len() as int] == tcur[0]);
                }
            }
            if now > idle_ms && a.last_at < now - idle_ms {
                proof {
                    assert(is_expired(a@, now, idle));
                    lemma_forced_session_wf(a@, now, CompletionReason::Timeout, window);
                }
                let ghost av = a@;
                let ghost out_before = out@;
                let s = emit_with_pending(a, now, CompletionReason::Timeout);
                out.push(s);
                proof {
                    assert(out@ == out_before.push(s));
                    assert forall|j: int| 0 <= j < out@.len() implies #[trigger] vsess(out@)[j]
                        == vsess(out_before).push(s@)[j] by {
                        if j < out_before.len() {
                            assert(out@[j] == out_before[j]);
                        }
                    }
                    assert(vsess(out@) =~= vsess(out_before).push(s@));
                    assert(s@ =~= forced_session(av, now, CompletionReason::Timeout));
                    assert(session_wf(forced_session(av, now, CompletionReason::Timeout)));
                    assert(session_wf(s@));
                    assert(s.reason == CompletionReason::Timeout);
                    assert forall|j: int| 0 <= j < vsess(out@).len() implies session_wf(
                        #[trigger] vsess(out@)[j],
                    ) && vsess(out@)[j].reason == CompletionReason::Timeout by {
                        if j < out_before.len() {
                            assert(vsess(out@)[j] == vsess(out_before)[j]);
                        } else {
                            assert(vsess(out@)[j] == s@);
                        }
                    }
                    assert(sweep_table(tcur, now, idle).emitted =~= seq![
                        forced_session(av, now, CompletionReason::Timeout),
                    ] + sweep_table(tcur.skip(1), now, idle).emitted);
                    assert(table_wf(vtable(kept@) + vtable(self.table@), window)) by {
                        lemma_table_concat_drop_mid(vtable(kept@), tcur, window);
                    }
                }
            } else {
                proof {
                    assert(!is_expired(a@, now, idle));
                }
                let ghost kept_before = kept@;
                kept.push(a);
                proof {
                    assert forall|j: int| 0 <= j < kept@.len() implies vtable(kept@)[j]
                        == vtable(kept_before).push(tcur[0])[j] by {
                        if j < kept_before.len() {
                            assert(kept@[j] == kept_before[j]);
                        }
                    }
                    assert(vtable(kept@) =~= vtable(kept_before).push(tcur[0]));
                    assert(vtable(kept@) + vtable(self.table@) =~= vtable(kept_before) + tcur);
                    assert(sweep_table(tcur, now, idle).kept =~= seq![tcur[0]] + sweep_table(
                        tcur.skip(1),
                        now,
                        idle,
                    ).kept);
                    assert(vtable(kept@) + sweep_table(vtable(self.table@), now, idle).kept
                        =~= vtable(kept_before) + sweep_table(tcur, now, idle).kept);
                }
            }
        }
        self.table = kept;
        proof {
            assert(vtable(self.table@) + Seq::<AssemblyV>::empty() =~= vtable(self.table@));
            assert(table_wf(final(self)@.table, window));
        }
        out
    }
}

/// Nothing vanishes in a sweep: kept and emitted together account for the
/// whole table.
pub proof fn lemma_sweep_accounts_for_table(t: Seq<AssemblyV>, now: u64, idle: u64)
    ensures
        sweep_table(t, now, idle).kept.len() + sweep_table(t, now, idle).emitted.len() == t.len(),
    decreases t.len(),
{
    if t.len() > 0 {
        lemma_sweep_accounts_for_table(t.skip(1), now, idle);
    }
}

/// Every session emitted by a sweep carries the identity of some expired
/// table entry.
pub proof fn lemma_sweep_emitted_sound(t: Seq<AssemblyV>, now: u64, idle: u64, j: int)
    requires
        0 <= j < sweep_table(t, now, idle).emitted.len(),
    ensures
        exists|i: int|
            0 <= i < t.len() && is_expired(#[trigger] t[i], now, idle)
                && t[i].source == sweep_table(t, now, idle).emitted[j].source && t[i].key
                == sweep_table(t, now, idle).emitted[j].key,
    decreases t.len(),
{
    let r = sweep_table(t, now, idle);
    let rest = sweep_table(t.skip(1), now, idle);
    assert(forall|i: int| 0 <= i < t.skip(1).len() ==> t.skip(1)[i] == t[i + 1]);
    if is_expired(t[0], now, idle) {
        if j == 0 {
            assert(is_expired(t[0], now, idle) && t[0].source == r.emitted[0].source
                && t[0].key == r.emitted[0].key);
        } else {
            assert(r.emitted[j] == rest.emitted[j - 1]);
            lemma_sweep_emitted_sound(t.skip(1), now, idle, j - 1);
            let i0 = choose|i0: int|
                0 <= i0 < t.skip(1).len() && is_expired(#[trigger] t.skip(1)[i0], now, idle)
                    && t.skip(1)[i0].source == rest.emitted[j - 1].source && t.skip(1)[i0].key
                    == rest.emitted[j - 1].key;
            assert(is_expired(t[i0 + 1], now, idle) && t[i0 + 1].source == r.emitted[j].source
                && t[i0 + 1].key == r.emitted[j].key);
        }
    } else {
        assert(r.emitted[j] == rest.emitted[j]);
        lemma_sweep_emitted_sound(t.skip(1), now, idle, j);
        let i0 = choose|i0: int|
            0 <= i0 < t.skip(1).len() && is_expired(#[trigger] t.skip(1)[i0], now, idle)
                && t.skip(1)[i0].source == rest.emitted[j].source && t.skip(1)[i0].key
                == rest.emitted[j].key;
        assert(is_expired(t[i0 + 1], now, idle) && t[i0 + 1].source == r.emitted[j].source
            && t[i0 + 1].key == r.emitted[j].key);
    }
}

/// Every assembly kept by a sweep carries the identity of some fresh table
/// entry.
pub proof fn lemma_sweep_kept_sound(t: Seq<AssemblyV>, now: u64, idle: u64, k: int)
    requires
        0 <= k < sweep_table(t, now, idle).kept.len(),
    ensures
        exists|i: int|
            0 <= i < t.len() && !is_expired(#[trigger] t[i], now, idle)
                && t[i].source == sweep_table(t, now, idle).kept[k].source && t[i].key
                == sweep_table(t, now, idle).kept[k].key,
    decreases t.len(),
{
    let r = sweep_table(t, now, idle);
    let rest = sweep_table(t.skip(1), now, idle);
    assert(forall|i: int| 0 <= i < t.skip(1).len() ==> t.skip(1)[i] == t[i + 1]);
    if !is_expired(t[0], now, idle) && k == 0 {
        assert(!is_expired(t[0], now, idle) && t[0].source == r.kept[0].source && t[0].key
            == r.kept[0].key);
    } else {
        let off: int = if is_expired(t[0], now, idle) { 0 } else { 1 };
        assert(r.kept[k] == rest.kept[k - off]);
        lemma_sweep_kept_sound(t.skip(1), now, idle, k - off);
        let i0 = choose|i0: int|
            0 <= i0 < t.skip(1).len() && !is_expired(#[trigger] t.skip(1)[i0], now, idle)
                && t.skip(1)[i0].source == rest.kept[k - off].source && t.skip(1)[i0].key
                == rest.kept[k - off].key;
        assert(!is_expired(t[i0 + 1], now, idle) && t[i0 + 1].source == r.kept[k].source
            && t[i0 + 1].key == r.kept[k].key);
    }
}

/// Law: one idle sweep finalizes an expired assembly exactly once and
/// removes its state.
///
/// In a table with unique keys, the assembly at position `i`, idle past the
/// timeout, has exactly one emitted session carrying its (source, key)
/// identity, and no kept assembly carries that identity, so a later
/// out-of-window fragment for the key cannot produce a duplicate emission.
/// (What the emitted session holds — reason `Timeout` and every collected
/// payload, in order — is `sweep_table`'s definition via `forced_session`.)
pub proof fn lemma_sweep_finalizes_idle_once(
    t: Seq<AssemblyV>,
    now: u64,
    idle: u64,
    window: u64,
    i: int,
)
    requires
        table_wf(t, window),
        0 <= i < t.len(),
        is_expired(t[i], now, idle),
    ensures
        ({
            let r = sweep_table(t, now, idle);
            &&& exists|j: int|
                0 <= j < r.emitted.len() && (#[trigger] r.emitted[j]).source == t[i].source
                    && r.emitted[j].key == t[i].key
            &&& forall|j1: int, j2: int|
                0 <= j1 < j2 < r.emitted.len() && (#[trigger] r.emitted[j1]).source
                    == t[i].source && r.emitted[j1].key == t[i].key ==> !(
                (#[trigger] r.emitted[j2]).source == t[i].source && r.emitted[j2].key
                    == t[i].key)
            &&& !has_key(r.kept, t[i].source, t[i].key)
        }),
    decreases t.len(),
{
    let r = sweep_table(t, now, idle);
    let rest = sweep_table(t.skip(1), now, idle);
    assert(forall|i2: int| 0 <= i2 < t.skip(1).len() ==> t.skip(1)[i2] == t[i2 + 1]);
    lemma_table_wf_after_remove(t, 0, window);
    assert(t.remove(0) =~= t.skip(1));
    let head_exp = is_expired(t[0], now, idle);
    let off: int = if head_exp { 1 } else { 0 };
    assert(forall|j: int| 0 <= j < rest.emitted.len() ==> r.emitted[j + off] == rest.emitted[j]);
    assert(forall|k: int| 0 <= k < rest.kept.len() ==> r.kept[k + 1 - off] == rest.kept[k]);
    if i == 0 {
        assert(head_exp);
        assert(r.emitted[0].source == t[0].source && r.emitted[0].key == t[0].key);
        // No other emission can carry the head's identity: emissions from the
        // tail belong to tail entries, whose keys all differ from the head's.
        assert forall|j1: int, j2: int|
            0 <= j1 < j2 < r.emitted.len() && (#[trigger] r.emitted[j1]).source == t[0].source
                && r.emitted[j1].key == t[0].key implies !((#[trigger] r.emitted[j2]).source
            == t[0].source && r.emitted[j2].key == t[0].key) by {
            lemma_sweep_emitted_sound(t.skip(1), now, idle, j2 - 1);
            let i2 = choose|i2: int|
                0 <= i2 < t.skip(1).len() && is_expired(#[trigger] t.skip(1)[i2], now, idle)
                    && t.skip(1)[i2].source == rest.emitted[j2 - 1].source && t.skip(1)[i2].key
                    == rest.emitted[j2 - 1].key;
            assert(r.emitted[j2] == rest.emitted[j2 - 1]);
            assert(!(t[0].source == t[i2 + 1].source && t[0].key == t[i2 + 1].key));
        }
        if has_key(r.kept, t[0].source, t[0].key) {
            let k = choose|k: int|
                0 <= k < r.kept.len() && (#[trigger] r.kept[k]).source == t[0].source
                    && r.kept[k].key == t[0].key;
            lemma_sweep_kept_sound(t.skip(1), now, idle, k);
            let i2 = choose|i2: int|
                0 <= i2 < t.skip(1).len() && !is_expired(#[trigger] t.skip(1)[i2], now, idle)
                    && t.skip(1)[i2].source == rest.kept[k].source && t.skip(1)[i2].key
                    == rest.kept[k].key;
            assert(r.kept[k] == rest.kept[k]);
            assert(!(t[0].source == t[i2 + 1].source && t[0].key == t[i2 + 1].key));
        }
    } else {
        lemma_sweep_finalizes_idle_once(t.skip(1), now, idle, window, i - 1);
        assert(t.skip(1)[i - 1] == t[i]);
        // Existence lifts from the tail.
        let j0 = choose|j0: int|
            0 <= j0 < rest.emitted.len() && (#[trigger] rest.emitted[j0]).source == t[i].source
                && rest.emitted[j0].key == t[i].key;
        assert(r.emitted[j0 + off].source == t[i].source && r.emitted[j0 + off].key == t[i].key);
        // Uniqueness: the head's emission (if any) has a different key, and
        // two tail emissions with this key would contradict the tail claim.
        assert forall|j1: int, j2: int|
            0 <= j1 < j2 < r.emitted.len() && (#[trigger] r.emitted[j1]).source == t[i].source
                && r.emitted[j1].key == t[i].key implies !((#[trigger] r.emitted[j2]).source
            == t[i].source && r.emitted[j2].key == t[i].key) by {
            if head_exp && j1 == 0 {
                assert(!(t[0].source == t[i].source && t[0].key == t[i].key));
            } else {
                assert(r.emitted[j1] == rest.emitted[j1 - off]);
                assert(r.emitted[j2] == rest.emitted[j2 - off]);
            }
        }
        // Removal lifts from the tail; the head, if kept, has a different key.
        if has_key(r.kept, t[i].source, t[i].key) {
            let k = choose|k: int|
                0 <= k < r.kept.len() && (#[trigger] r.kept[k]).source == t[i].source
                    && r.kept[k].key == t[i].key;
            if !head_exp && k == 0 {
                assert(!(t[0].source == t[i].source && t[0].key == t[i].key));
            } else {
                assert(r.kept[k] == rest.kept[k - 1 + off]);
                assert(has_key(rest.kept, t[i].source, t[i].key));
            }
        }
    }
}

/// Concatenated-table well-formedness survives dropping the first entry of
/// the right-hand part.
pub proof fn lemma_table_concat_drop_mid(left: Seq<AssemblyV>, right: Seq<AssemblyV>, window: u64)
    requires
        table_wf(left + right, window),
        right.len() > 0,
    ensures
        table_wf(left + right.skip(1), window),
{
    let whole = left + right;
    let rest = left + right.skip(1);
    let n = left.len() as int;
    assert forall|j: int| 0 <= j < rest.len() implies assembly_wf(#[trigger] rest[j], window) by {
        let o: int = if j < n { j } else { j + 1 };
        assert(rest[j] == whole[o]);
    }
    assert forall|j1: int, j2: int| 0 <= j1 < j2 < rest.len() implies !(#[trigger] rest[j1].source
        == #[trigger] rest[j2].source && rest[j1].key == rest[j2].key) by {
        let o1: int = if j1 < n { j1 } else { j1 + 1 };
        let o2: int = if j2 < n { j2 } else { j2 + 1 };
        assert(rest[j1] == whole[o1] && rest[j2] == whole[o2]);
    }
}

/// Removing one assembly keeps the table well formed.
pub proof fn lemma_table_wf_after_remove(t: Seq<AssemblyV>, i: int, window: u64)
    requires
        table_wf(t, window),
        0 <= i < t.len(),
    ensures
        table_wf(t.remove(i), window),
        forall|s: u64, k: u64|
            !has_key(t, s, k) ==> !#[trigger] has_key(t.remove(i), s, k),
        forall|j: int|
            0 <= j < t.remove(i).len() && #[trigger] t.remove(i)[j].source == t[i].source
                && t.remove(i)[j].key == t[i].key ==> false,
{
    let r = t.remove(i);
    assert forall|j: int| 0 <= j < r.len() implies assembly_wf(#[trigger] r[j], window)
        && !(r[j].source == t[i].source && r[j].key == t[i].key) by {
        if j < i {
            assert(r[j] == t[j]);
        } else {
            assert(r[j] == t[j + 1]);
        }
    }
    assert forall|j1: int, j2: int| 0 <= j1 < j2 < r.len() implies !(#[trigger] r[j1].source
        == #[trigger] r[j2].source && r[j1].key == r[j2].key) by {
        let o1: int = if j1 < i { j1 } else { j1 + 1 };
        let o2: int = if j2 < i { j2 } else { j2 + 1 };
        assert(r[j1] == t[o1] && r[j2] == t[o2]);
    }
    assert forall|s: u64, k: u64| !has_key(t, s, k) implies !#[trigger] has_key(r, s, k) by {
        if has_key(r, s, k) {
            let j = choose|j: int| 0 <= j < r.len() && r[j].source == s && r[j].key == k;
            let o: int = if j < i { j } else { j + 1 };
            assert(r[j] == t[o]);
            assert(has_key(t, s, k));
        }
    }
}

/// Removing one assembly and appending a replacement with the same identity
/// keeps the table well formed.
pub proof fn lemma_table_wf_after_replace(t: Seq<AssemblyV>, i: int, a2: AssemblyV, window: u64)
    requires
        table_wf(t, window),
        0 <= i < t.len(),
        assembly_wf(a2, window),
        a2.source == t[i].source,
        a2.key == t[i].key,
    ensures
        table_wf(t.remove(i).push(a2), window),
{
    lemma_table_wf_after_remove(t, i, window);
    let r = t.remove(i);
    let r2 = r.push(a2);
    assert forall|j1: int, j2: int| 0 <= j1 < j2 < r2.len() implies !(#[trigger] r2[j1].source
        == #[trigger] r2[j2].source && r2[j1].key == r2[j2].key) by {
        if j2 == r.len() {
            assert(r2[j1] == r[j1]);
            assert(r2[j2] == a2);
        } else {
            assert(r2[j1] == r[j1] && r2[j2] == r[j2]);
        }
    }
    assert forall|j: int| 0 <= j < r2.len() implies assembly_wf(#[trigger] r2[j], window) by {
        if j < r.len() {
            assert(r2[j] == r[j]);
        }
    }
}

} // verus!
