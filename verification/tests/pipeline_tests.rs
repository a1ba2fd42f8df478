use banshee::collector::Collector;
use banshee::data::Boundary;
use banshee::data::CompletionReason;
use banshee::data::FragmentData;
use banshee::data::Msg;
use banshee::data::ResultStatus;
use banshee::data::Segment;
use banshee::data::SessionData;
use banshee::pipeline::collector_stage;
use banshee::pipeline::inference_stage;
use banshee::pipeline::processor_stage;
use banshee::pipeline::take_until_stop;

fn frag(source: u64, key: u64, seq: u64, boundary: Boundary, byte: u8, at: u64) -> FragmentData {
    FragmentData { source, key, seq, boundary, bytes: vec![byte], received_at: at }
}

fn session(source: u64, key: u64, bytes: Vec<u8>) -> SessionData {
    SessionData {
        source,
        key,
        segments: vec![Segment { seq: 0, bytes }],
        started_at: 0,
        ended_at: 1,
        reason: CompletionReason::Natural,
    }
}

#[test]
fn drain_processes_everything_ahead_of_stop() {
    // K buffered messages ahead of a Stop marker: all K come out, in order,
    // before Stop is observed; what sits behind the marker stays queued.
    let mut inbox: Vec<Msg<u64>> = vec![
        Msg::Data(1),
        Msg::Data(2),
        Msg::Data(3),
        Msg::Stop,
        Msg::Data(4),
    ];
    let (taken, stopped) = take_until_stop(&mut inbox);
    assert!(stopped);
    assert_eq!(taken, vec![1, 2, 3]);
    assert!(matches!(inbox[0], Msg::Data(4)));
    assert_eq!(inbox.len(), 1);
}

#[test]
fn drain_without_stop_takes_the_whole_inbox() {
    let mut inbox: Vec<Msg<u64>> = vec![Msg::Data(1), Msg::Data(2)];
    let (taken, stopped) = take_until_stop(&mut inbox);
    assert!(!stopped);
    assert_eq!(taken, vec![1, 2]);
    assert!(inbox.is_empty());
}

#[test]
fn two_interleaved_sources_each_complete() {
    // Two sources send 3-fragment sessions in round-robin arrival order;
    // both come out complete, each with 3 ordered segments.
    let mut c = Collector::new(16, 30000);
    let mut inbox = vec![
        Msg::Data(frag(1, 100, 0, Boundary::Start, 10, 1)),
        Msg::Data(frag(2, 200, 0, Boundary::Start, 20, 2)),
        Msg::Data(frag(1, 100, 1, Boundary::Continue, 11, 3)),
        Msg::Data(frag(2, 200, 1, Boundary::Continue, 21, 4)),
        Msg::Data(frag(1, 100, 2, Boundary::End, 12, 5)),
        Msg::Data(frag(2, 200, 2, Boundary::End, 22, 6)),
    ];
    let (out, stopped) = collector_stage(&mut c, &mut inbox);
    assert!(!stopped);
    assert_eq!(out.len(), 2);
    let mut seen = Vec::new();
    for m in &out {
        match m {
            Msg::Data(s) => {
                assert!(matches!(s.reason, CompletionReason::Natural));
                assert_eq!(s.segments.len(), 3);
                for (i, g) in s.segments.iter().enumerate() {
                    assert_eq!(g.seq, i as u64);
                }
                seen.push((s.source, s.key));
            }
            Msg::Stop => panic!("no stop was sent"),
        }
    }
    assert_eq!(seen, vec![(1, 100), (2, 200)]);
    assert_eq!(c.active_sessions(), 0);
}

#[test]
fn missing_end_times_out_with_partial_segments() {
    // A source sends start + continue but never the end fragment; past the
    // idle period the session comes out once, tagged timeout, with both
    // received segments.
    let mut c = Collector::new(16, 1000);
    assert!(c.on_fragment(frag(1, 5, 0, Boundary::Start, 10, 100), 100).is_none());
    assert!(c.on_fragment(frag(1, 5, 1, Boundary::Continue, 11, 300), 300).is_none());
    let out = c.sweep_idle(1500);
    assert_eq!(out.len(), 1);
    assert!(matches!(out[0].reason, CompletionReason::Timeout));
    assert_eq!(out[0].segments.len(), 2);
    assert_eq!(out[0].segments[0].bytes, vec![10]);
    assert_eq!(out[0].segments[1].bytes, vec![11]);
    assert!(c.sweep_idle(9000).is_empty());
}

#[test]
fn queued_sessions_drain_through_all_stages_before_shutdown() {
    // Five sessions sit in the channel ahead of the Stop marker when the
    // operator shuts the pipeline down: all five travel through slicing,
    // inference and the final drain before any stage exits, and each stage
    // forwards Stop downstream.
    let mut session_inbox: Vec<Msg<SessionData>> = Vec::new();
    for k in 0..5u64 {
        session_inbox.push(Msg::Data(session(1, k, vec![k as u8, k as u8 + 1])));
    }
    session_inbox.push(Msg::Stop);

    let (sample_msgs, proc_stopped) = processor_stage(&mut session_inbox, 2);
    assert!(proc_stopped);
    assert!(matches!(sample_msgs.last().unwrap(), Msg::Stop));
    assert_eq!(sample_msgs.len(), 6);  // one sample per session + Stop

    let mut sample_inbox = sample_msgs;
    let mut outcomes: Vec<Option<Vec<u8>>> = (0..5).map(|k| Some(vec![k as u8])).collect();
    let (result_msgs, inf_stopped) = inference_stage(&mut sample_inbox, &mut outcomes);
    assert!(inf_stopped);
    assert!(matches!(result_msgs.last().unwrap(), Msg::Stop));
    assert_eq!(result_msgs.len(), 6);

    let mut result_inbox = result_msgs;
    let (written, out_stopped) = take_until_stop(&mut result_inbox);
    assert!(out_stopped);
    assert_eq!(written.len(), 5);
    for (k, r) in written.iter().enumerate() {
        assert_eq!(r.key, k as u64);
        assert!(matches!(r.status, ResultStatus::Success));
        assert_eq!(r.payload, vec![k as u8]);
    }
}

#[test]
fn engine_failure_is_tagged_not_dropped() {
    let mut sample_inbox = {
        let mut session_inbox = vec![Msg::Data(session(3, 9, vec![1, 2, 3])), Msg::Stop];
        let (samples, _) = processor_stage(&mut session_inbox, 2);
        samples
    };
    // Two samples ([1,2] and [3]); the engine fails on the second.
    let mut outcomes: Vec<Option<Vec<u8>>> = vec![Some(vec![42]), None];
    let (results, stopped) = inference_stage(&mut sample_inbox, &mut outcomes);
    assert!(stopped);
    assert_eq!(results.len(), 3);
    match (&results[0], &results[1]) {
        (Msg::Data(a), Msg::Data(b)) => {
            assert!(matches!(a.status, ResultStatus::Success));
            assert_eq!(a.payload, vec![42]);
            assert!(matches!(b.status, ResultStatus::Failure));
            assert!(b.payload.is_empty());
            assert_eq!((b.source, b.key, b.index), (3, 9, 1));
        }
        _ => panic!("expected two data results"),
    }
}

#[test]
fn collector_stage_forwards_stop_after_draining() {
    let mut c = Collector::new(16, 30000);
    let mut inbox = vec![
        Msg::Data(frag(1, 1, 0, Boundary::Start, 10, 1)),
        Msg::Data(frag(1, 1, 1, Boundary::End, 11, 2)),
        Msg::Stop,
        Msg::Data(frag(1, 2, 0, Boundary::Start, 30, 3)),
    ];
    let (out, stopped) = collector_stage(&mut c, &mut inbox);
    assert!(stopped);
    assert_eq!(out.len(), 2);
    assert!(matches!(out[0], Msg::Data(_)));
    assert!(matches!(out[1], Msg::Stop));
    // The fragment behind the marker was not consumed.
    assert_eq!(inbox.len(), 1);
    assert_eq!(c.active_sessions(), 0);
}
