use banshee::channel::Pipe;
use banshee::config::Config;
use banshee::config::LogLevel;
use banshee::data::CompletionReason;
use banshee::data::FinalSampleData;
use banshee::data::ResultStatus;
use banshee::data::Segment;
use banshee::data::SessionData;
use banshee::inference::infer_step;
use banshee::output::next_sink_action;
use banshee::output::backoff_delay;
use banshee::output::SinkAction;
use banshee::processor::slice_session;
use banshee::shutdown::Coordinator;
use banshee::shutdown::Signals;
use banshee::shutdown::StopAction;

#[test]
fn config_defaults() {
    let c = Config::new();
    assert!(c.peers().is_empty());
    assert_eq!(c.channel_capacity, 100);
    assert_eq!(c.reorder_window, 16);
    assert_eq!(c.idle_timeout_ms, 30000);
    assert_eq!(c.sample_width, 4096);
    assert_eq!(c.retry_limit, 5);
    assert_eq!(c.backoff_base_ms, 100);
    assert_eq!(c.backoff_cap_ms, 5000);
    assert_eq!(c.log_lvl_console(), LogLevel::Info);
    assert_eq!(c.log_lvl_file(), LogLevel::Debug);
}

#[test]
fn config_add_peer() {
    let mut c = Config::new();
    c.add_peer(String::from("10.0.0.1"), 7000);
    c.add_peer(String::from("10.0.0.2"), 7001);
    assert_eq!(c.peers().len(), 2);
    assert_eq!(c.peers()[0].host, "10.0.0.1");
    assert_eq!(c.peers()[1].port, 7001);
}

#[test]
fn shutdown_is_idempotent() {
    let mut coord = Coordinator::new();
    let first = coord.on_trigger();
    assert_eq!(
        first,
        vec![
            StopAction::SignalInput,
            StopAction::StopCollector,
            StopAction::StopProcessor,
            StopAction::StopInference,
            StopAction::StopOutput,
        ]
    );
    // A second trigger injects nothing and does not panic.
    let second = coord.on_trigger();
    assert!(second.is_empty());
    let third = coord.on_trigger();
    assert!(third.is_empty());
}

#[test]
fn signals_deliver_at_most_one_event() {
    let mut s = Signals::new();
    assert!(s.next_event());
    assert!(!s.next_event());
    assert!(!s.next_event());
}

#[test]
fn backoff_grows_linearly_up_to_the_cap() {
    assert_eq!(backoff_delay(0, 100, 5000), 100);
    assert_eq!(backoff_delay(1, 100, 5000), 200);
    assert_eq!(backoff_delay(48, 100, 5000), 4900);
    assert_eq!(backoff_delay(49, 100, 5000), 5000);
    assert_eq!(backoff_delay(1_000_000, 100, 5000), 5000);
    assert_eq!(backoff_delay(3, 0, 5000), 0);
}

#[test]
fn retries_stop_at_the_limit() {
    assert_eq!(next_sink_action(0, 5, 100, 5000), SinkAction::Retry(100));
    assert_eq!(next_sink_action(4, 5, 100, 5000), SinkAction::Retry(500));
    assert_eq!(next_sink_action(5, 5, 100, 5000), SinkAction::GiveUp);
    assert_eq!(next_sink_action(99, 5, 100, 5000), SinkAction::GiveUp);
    assert_eq!(next_sink_action(0, 0, 100, 5000), SinkAction::GiveUp);
}

#[test]
fn inference_success_carries_engine_output() {
    let sample = FinalSampleData { source: 4, key: 8, index: 2, buffer: vec![1, 2], duration: 2 };
    let r = infer_step(&sample, Some(vec![9, 9, 9]));
    assert_eq!((r.source, r.key, r.index), (4, 8, 2));
    assert!(matches!(r.status, ResultStatus::Success));
    assert_eq!(r.payload, vec![9, 9, 9]);
}

#[test]
fn inference_failure_is_tagged() {
    let sample = FinalSampleData { source: 4, key: 8, index: 0, buffer: vec![1], duration: 1 };
    let r = infer_step(&sample, None);
    assert!(matches!(r.status, ResultStatus::Failure));
    assert!(r.payload.is_empty());
}

#[test]
fn slicing_keeps_every_byte_and_the_partial_tail() {
    let s = SessionData {
        source: 1,
        key: 2,
        segments: vec![
            Segment { seq: 0, bytes: vec![1, 2, 3] },
            Segment { seq: 1, bytes: vec![4, 5] },
        ],
        started_at: 0,
        ended_at: 9,
        reason: CompletionReason::Natural,
    };
    let out = slice_session(s, 2);
    assert_eq!(out.len(), 3);
    assert_eq!(out[0].buffer, vec![1, 2]);
    assert_eq!(out[1].buffer, vec![3, 4]);
    assert_eq!(out[2].buffer, vec![5]);
    for (i, smp) in out.iter().enumerate() {
        assert_eq!(smp.index, i);
        assert_eq!((smp.source, smp.key), (1, 2));
        assert_eq!(smp.duration, smp.buffer.len() as u64);
    }
}

#[test]
fn slicing_an_empty_session_yields_no_samples() {
    let s = SessionData {
        source: 1,
        key: 2,
        segments: Vec::new(),
        started_at: 0,
        ended_at: 9,
        reason: CompletionReason::Timeout,
    };
    assert!(slice_session(s, 4).is_empty());
}

#[test]
fn full_pipe_refuses_and_returns_the_message() {
    let mut p: Pipe<u64> = Pipe::new(2);
    assert!(p.try_send(1).is_ok());
    assert!(p.try_send(2).is_ok());
    // Full: the message comes back to the producer; nothing is dropped.
    assert_eq!(p.try_send(3), Err(3));
    assert_eq!(p.len(), 2);
    // Draining one slot makes room again; order is send order.
    assert_eq!(p.recv(), Some(1));
    assert!(p.try_send(3).is_ok());
    assert_eq!(p.recv(), Some(2));
    assert_eq!(p.recv(), Some(3));
    assert_eq!(p.recv(), None);
}
