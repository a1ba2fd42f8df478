use banshee::collector::Collector;
use banshee::data::Boundary;
use banshee::data::CompletionReason;
use banshee::data::FragmentData;

fn frag(source: u64, key: u64, seq: u64, boundary: Boundary, byte: u8, at: u64) -> FragmentData {
    FragmentData { source, key, seq, boundary, bytes: vec![byte], received_at: at }
}

#[test]
fn in_order_session_completes_naturally() {
    let mut c = Collector::new(16, 30000);
    assert!(c.on_fragment(frag(1, 7, 0, Boundary::Start, 10, 100), 100).is_none());
    assert!(c.on_fragment(frag(1, 7, 1, Boundary::Continue, 11, 110), 110).is_none());
    let s = c.on_fragment(frag(1, 7, 2, Boundary::End, 12, 120), 120).unwrap();
    assert_eq!(s.source, 1);
    assert_eq!(s.key, 7);
    assert!(matches!(s.reason, CompletionReason::Natural));
    assert_eq!(s.segments.len(), 3);
    for (i, g) in s.segments.iter().enumerate() {
        assert_eq!(g.seq, i as u64);
        assert_eq!(g.bytes, vec![10 + i as u8]);
    }
    assert_eq!(s.started_at, 100);
    assert_eq!(s.ended_at, 120);
    assert_eq!(c.active_sessions(), 0);
}

#[test]
fn out_of_order_within_window_is_reordered() {
    let mut c = Collector::new(16, 30000);
    assert!(c.on_fragment(frag(1, 7, 0, Boundary::Start, 10, 100), 100).is_none());
    // Sequence 2 runs ahead; it is buffered.
    assert!(c.on_fragment(frag(1, 7, 2, Boundary::Continue, 12, 105), 105).is_none());
    // Sequence 1 fills the hole; 2 drains behind it.
    assert!(c.on_fragment(frag(1, 7, 1, Boundary::Continue, 11, 110), 110).is_none());
    let s = c.on_fragment(frag(1, 7, 3, Boundary::End, 13, 120), 120).unwrap();
    assert!(matches!(s.reason, CompletionReason::Natural));
    assert_eq!(s.segments.len(), 4);
    for (i, g) in s.segments.iter().enumerate() {
        assert_eq!(g.seq, i as u64);
        assert_eq!(g.bytes, vec![10 + i as u8]);
    }
}

#[test]
fn buffered_end_completes_after_hole_fills() {
    let mut c = Collector::new(16, 30000);
    assert!(c.on_fragment(frag(1, 7, 0, Boundary::Start, 10, 100), 100).is_none());
    // The end fragment arrives before the middle one.
    assert!(c.on_fragment(frag(1, 7, 2, Boundary::End, 12, 105), 105).is_none());
    let s = c.on_fragment(frag(1, 7, 1, Boundary::Continue, 11, 110), 110).unwrap();
    assert!(matches!(s.reason, CompletionReason::Natural));
    assert_eq!(s.segments.len(), 3);
    assert_eq!(s.segments[2].bytes, vec![12]);
}

#[test]
fn duplicate_fragments_are_discarded() {
    let mut c = Collector::new(16, 30000);
    assert!(c.on_fragment(frag(1, 7, 0, Boundary::Start, 10, 100), 100).is_none());
    assert!(c.on_fragment(frag(1, 7, 1, Boundary::Continue, 11, 110), 110).is_none());
    // The same position again, and a repeated start: both discarded.
    assert!(c.on_fragment(frag(1, 7, 1, Boundary::Continue, 99, 111), 111).is_none());
    assert!(c.on_fragment(frag(1, 7, 0, Boundary::Start, 98, 112), 112).is_none());
    // A duplicate of a buffered position is discarded too.
    assert!(c.on_fragment(frag(1, 7, 3, Boundary::Continue, 13, 113), 113).is_none());
    assert!(c.on_fragment(frag(1, 7, 3, Boundary::Continue, 97, 114), 114).is_none());
    assert!(c.on_fragment(frag(1, 7, 2, Boundary::Continue, 12, 115), 115).is_none());
    let s = c.on_fragment(frag(1, 7, 4, Boundary::End, 14, 120), 120).unwrap();
    assert_eq!(s.segments.len(), 5);
    for (i, g) in s.segments.iter().enumerate() {
        assert_eq!(g.seq, i as u64);
        assert_eq!(g.bytes, vec![10 + i as u8]);
    }
}

#[test]
fn fragment_beyond_window_forces_gap_session() {
    let mut c = Collector::new(4, 30000);
    assert!(c.on_fragment(frag(1, 7, 0, Boundary::Start, 10, 100), 100).is_none());
    assert!(c.on_fragment(frag(1, 7, 2, Boundary::Continue, 12, 105), 105).is_none());
    // Expected next is 1; window is 4; sequence 9 is out of reach.
    let s = c.on_fragment(frag(1, 7, 9, Boundary::Continue, 19, 110), 110).unwrap();
    assert!(matches!(s.reason, CompletionReason::Gap));
    // Nothing collected vanishes: segment 0, buffered 2, and the far fragment.
    assert_eq!(s.segments.len(), 3);
    assert_eq!((s.segments[0].seq, s.segments[0].bytes[0]), (0, 10));
    assert_eq!((s.segments[1].seq, s.segments[1].bytes[0]), (2, 12));
    assert_eq!((s.segments[2].seq, s.segments[2].bytes[0]), (9, 19));
    assert_eq!(c.active_sessions(), 0);
}

#[test]
fn largest_sequence_marker_beyond_window_still_forces_gap() {
    let mut c = Collector::new(4, 30000);
    assert!(c.on_fragment(frag(1, 7, 0, Boundary::Start, 10, 100), 100).is_none());
    // The largest representable marker lies far beyond the window: the
    // session is gap-finalized and the fragment's payload is carried, not
    // silently dropped.
    let s = c.on_fragment(frag(1, 7, u64::MAX, Boundary::Continue, 99, 110), 110).unwrap();
    assert!(matches!(s.reason, CompletionReason::Gap));
    assert_eq!(s.segments.len(), 2);
    assert_eq!((s.segments[0].seq, s.segments[0].bytes[0]), (0, 10));
    assert_eq!((s.segments[1].seq, s.segments[1].bytes[0]), (u64::MAX, 99));
    assert_eq!(c.active_sessions(), 0);
}

#[test]
fn unknown_key_fragments_are_discarded() {
    let mut c = Collector::new(16, 30000);
    // No start was seen for this key: nothing is created or emitted.
    assert!(c.on_fragment(frag(1, 7, 1, Boundary::Continue, 11, 100), 100).is_none());
    assert!(c.on_fragment(frag(1, 7, 2, Boundary::End, 12, 110), 110).is_none());
    // A start with a nonzero sequence is malformed and ignored as well.
    assert!(c.on_fragment(frag(1, 7, 3, Boundary::Start, 13, 120), 120).is_none());
    assert_eq!(c.active_sessions(), 0);
}

#[test]
fn idle_session_times_out_exactly_once() {
    let mut c = Collector::new(16, 1000);
    assert!(c.on_fragment(frag(1, 7, 0, Boundary::Start, 10, 100), 100).is_none());
    assert!(c.on_fragment(frag(1, 7, 1, Boundary::Continue, 11, 200), 200).is_none());
    // Still fresh: nothing expires.
    assert!(c.sweep_idle(900).is_empty());
    assert_eq!(c.active_sessions(), 1);
    // Past the idle period: emitted once, tagged timeout, state removed.
    let out = c.sweep_idle(1300);
    assert_eq!(out.len(), 1);
    let s = &out[0];
    assert!(matches!(s.reason, CompletionReason::Timeout));
    assert_eq!(s.segments.len(), 2);
    assert_eq!(s.segments[0].bytes, vec![10]);
    assert_eq!(s.segments[1].bytes, vec![11]);
    assert_eq!(c.active_sessions(), 0);
    // A later fragment for the evicted key causes no duplicate emission.
    assert!(c.on_fragment(frag(1, 7, 2, Boundary::Continue, 12, 1400), 1400).is_none());
    assert_eq!(c.active_sessions(), 0);
    // And a second sweep emits nothing more.
    assert!(c.sweep_idle(5000).is_empty());
}

#[test]
fn timeout_session_includes_buffered_fragments() {
    let mut c = Collector::new(16, 1000);
    assert!(c.on_fragment(frag(1, 7, 0, Boundary::Start, 10, 100), 100).is_none());
    assert!(c.on_fragment(frag(1, 7, 3, Boundary::Continue, 13, 150), 150).is_none());
    let out = c.sweep_idle(2000);
    assert_eq!(out.len(), 1);
    // All payloads accounted for, in sequence order, gap visible in the markers.
    assert_eq!(out[0].segments.len(), 2);
    assert_eq!((out[0].segments[0].seq, out[0].segments[0].bytes[0]), (0, 10));
    assert_eq!((out[0].segments[1].seq, out[0].segments[1].bytes[0]), (3, 13));
}

#[test]
fn sweep_keeps_fresh_sessions_and_interleaved_keys_stay_independent() {
    let mut c = Collector::new(16, 1000);
    assert!(c.on_fragment(frag(1, 7, 0, Boundary::Start, 10, 100), 100).is_none());
    assert!(c.on_fragment(frag(2, 9, 0, Boundary::Start, 20, 1500), 1500).is_none());
    let out = c.sweep_idle(1600);
    assert_eq!(out.len(), 1);
    assert_eq!((out[0].source, out[0].key), (1, 7));
    assert_eq!(c.active_sessions(), 1);
    // The fresh session still completes normally afterwards.
    let s = c.on_fragment(frag(2, 9, 1, Boundary::End, 21, 1700), 1700).unwrap();
    assert!(matches!(s.reason, CompletionReason::Natural));
    assert_eq!(s.segments.len(), 2);
}
