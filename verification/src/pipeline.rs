//! Stage drivers: how each stage consumes its inbox and honors shutdown.
//!
//! A stage receives messages in channel order. Everything buffered ahead of
//! the first `Stop` marker is processed — drain before exit — then the stage
//! forwards its own `Stop` downstream and stops; messages queued behind the
//! marker are left untouched. A stage that never sees `Stop` processes its
//! whole inbox and keeps running.

use vstd::prelude::*;

use crate::collector::Collector;
use crate::collector::collector_run;
use crate::collector::collector_wf;
use crate::data::FinalSampleData;
use crate::data::FragmentData;
use crate::data::Msg;
use crate::data::ResultStatus;
use crate::data::SessionData;
use crate::data::StoredResultData;
use crate::data::session_wf;
use crate::collector::vsess;
use crate::inference::infer_step;
use crate::processor::ceil_div;
use crate::processor::sample_ok;
use crate::processor::session_bytes;
use crate::processor::slice_session;

verus! {

/// Position of the first `Stop` marker, or the length if there is none.
pub open spec fn first_stop<T>(msgs: Seq<Msg<T>>) -> int
    decreases msgs.len(),
{
    if msgs.len() == 0 {
        0
    } else if msgs[0] is Stop {
        0
    } else {
        1 + first_stop(msgs.skip(1))
    }
}

/// The payload of a data message.
pub open spec fn data_of<T>(m: Msg<T>) -> T
    recommends
        m is Data,
{
    choose|t: T| m == Msg::Data(t)
}

/// The first-stop position always lies within the inbox.
pub proof fn lemma_first_stop_in_range<T>(msgs: Seq<Msg<T>>)
    ensures
        0 <= first_stop(msgs) <= msgs.len(),
        first_stop(msgs) < msgs.len() ==> msgs[first_stop(msgs)] is Stop,
        forall|i: int| 0 <= i < first_stop(msgs) ==> (#[trigger] msgs[i]) is Data,
    decreases msgs.len(),
{
    if msgs.len() > 0 && !(msgs[0] is Stop) {
        lemma_first_stop_in_range(msgs.skip(1));
        assert(forall|i: int| 0 <= i < msgs.skip(1).len() ==> msgs.skip(1)[i] == msgs[i + 1]);
        assert forall|i: int| 0 <= i < first_stop(msgs) implies (#[trigger] msgs[i]) is Data by {
            if i > 0 {
                assert(msgs.skip(1)[i - 1] is Data);
            }
        }
    }
}

/// Law: drain before exit. A stage takes exactly the messages buffered
/// ahead of the first `Stop` marker — all of them, in order, none skipped —
/// and reports whether it observed `Stop`. What was queued behind the
/// marker stays in the inbox; without a marker the inbox is drained whole.
pub fn take_until_stop<T>(msgs: &mut Vec<Msg<T>>) -> (r: (Vec<T>, bool))
    ensures
        r.1 == (first_stop(old(msgs)@) < old(msgs)@.len()),
        r.0@.len() == first_stop(old(msgs)@),
        forall|i: int|
            0 <= i < r.0@.len() ==> (#[trigger] old(msgs)@[i]) is Data && old(msgs)@[i]
                == Msg::Data(r.0@[i]),
        final(msgs)@ == old(msgs)@.skip(
            first_stop(old(msgs)@) + (if r.1 {
                1int
            } else {
                0int
            }),
        ),
{
    let ghost orig = msgs@;
    let mut out: Vec<T> = Vec::new();
    while msgs.len() > 0
        invariant
            orig == old(msgs)@,
            msgs@ == orig.skip(out@.len() as int),
            out@.len() <= orig.len(),
            first_stop(orig) == out@.len() + first_stop(msgs@),
            forall|i: int|
                0 <= i < out@.len() ==> (#[trigger] orig[i]) is Data && orig[i] == Msg::Data(
                    out@[i],
                ),
        decreases msgs@.len(),
    {
        let ghost before = msgs@;
        let ghost k = out@.len() as int;
        let m = msgs.remove(0);
        proof {
            assert(m == before[0] && before[0] == orig[k]);
            assert(msgs@ =~= orig.skip(k + 1));
        }
        match m {
            Msg::Data(d) => {
                out.push(d);
                proof {
                    assert(first_stop(before) == 1 + first_stop(before.skip(1)));
                    assert(msgs@ =~= before.skip(1));
                }
            },
            Msg::Stop => {
                proof {
                    assert(first_stop(before) == 0);
                    assert(first_stop(orig) == k);
                    assert(k < orig.len());
                    lemma_first_stop_in_range(orig);
                }
                return (out, true);
            },
        }
    }
    proof {
        assert(first_stop(msgs@) == 0);
        assert(first_stop(orig) == out@.len());
        assert(msgs@ =~= orig.skip(first_stop(orig)));
    }
    (out, false)
}

/// Views of a fragment batch.
pub open spec fn vfrags(s: Seq<FragmentData>) -> Seq<crate::data::FragmentV> {
    s.map_values(|f: FragmentData| f@)
}

/// Views of the session payloads of a message batch.
pub open spec fn sess_views(msgs: Seq<Msg<SessionData>>) -> Seq<crate::data::SessionV> {
    msgs.map_values(|m: Msg<SessionData>| data_of(m)@)
}

/// Views of the fragments buffered ahead of the first `Stop` marker.
pub open spec fn taken_frag_views(msgs: Seq<Msg<FragmentData>>) -> Seq<crate::data::FragmentV> {
    Seq::new(first_stop(msgs) as nat, |i: int| data_of(msgs[i])@)
}

/// Runs the collector stage over one batch of its inbox.
///
/// Every fragment ahead of the first `Stop` marker is fed to the collector,
/// in arrival order, at its own receipt time: the final collector state and
/// the emitted sessions are exactly the `collector_run` fold of those
/// fragments. The emissions go out as data messages, in emission order; if
/// `Stop` was observed, one `Stop` marker is forwarded downstream as the
/// last message, and what was queued behind the marker stays in the inbox.
pub fn collector_stage(coll: &mut Collector, inbox: &mut Vec<Msg<FragmentData>>) -> (r: (
    Vec<Msg<SessionData>>,
    bool,
))
    requires
        collector_wf(old(coll)@),
    ensures
        collector_wf(final(coll)@),
        final(coll)@ == collector_run(old(coll)@, taken_frag_views(old(inbox)@)).state,
        r.1 == (first_stop(old(inbox)@) < old(inbox)@.len()),
        final(inbox)@ == old(inbox)@.skip(
            first_stop(old(inbox)@) + (if r.1 {
                1int
            } else {
                0int
            }),
        ),
        r.0@.len() == collector_run(old(coll)@, taken_frag_views(old(inbox)@)).emitted.len() + (
        if r.1 {
            1int
        } else {
            0int
        }),
        r.1 ==> r.0@.last() is Stop,
        forall|j: int|
            0 <= j < collector_run(old(coll)@, taken_frag_views(old(inbox)@)).emitted.len()
                ==> (#[trigger] r.0@[j]) is Data && data_of(r.0@[j])@ == collector_run(
                old(coll)@,
                taken_frag_views(old(inbox)@),
            ).emitted[j] && session_wf(data_of(r.0@[j])@),
{
    let ghost c0 = coll@;
    let ghost fv = taken_frag_views(inbox@);
    let (frags, stopped) = take_until_stop(inbox);
    let mut frags = frags;
    let mut out: Vec<Msg<SessionData>> = Vec::new();
    proof {
        assert forall|i: int| 0 <= i < frags@.len() implies #[trigger] vfrags(frags@)[i]
            == fv[i] by {
            assert(old(inbox)@[i] == Msg::Data(frags@[i]));
            let t = choose|t: FragmentData| old(inbox)@[i] == Msg::Data(t);
            assert(Msg::Data(t) == Msg::<FragmentData>::Data(frags@[i]));
        }
        assert(vfrags(frags@) =~= fv);
    }
    while frags.len() > 0
        invariant
            collector_wf(coll@),
            coll@.window == old(coll)@.window,
            coll@.idle_timeout_ms == old(coll)@.idle_timeout_ms,
            c0 == old(coll)@,
            collector_run(c0, fv).state == collector_run(coll@, vfrags(frags@)).state,
            collector_run(c0, fv).emitted =~= sess_views(out@) + collector_run(
                coll@,
                vfrags(frags@),
            ).emitted,
            forall|j: int|
                0 <= j < out@.len() ==> (#[trigger] out@[j]) is Data && session_wf(
                    data_of(out@[j])@,
                ),
        decreases frags@.len(),
    {
        let ghost coll_before = coll@;
        let ghost frags_before = frags@;
        let f = frags.remove(0);
        let now = f.received_at;
        let ghost out_before = out@;
        proof {
            assert(f == frags_before[0]);
            assert forall|i: int| 0 <= i < frags@.len() implies #[trigger] vfrags(frags@)[i]
                == vfrags(frags_before).skip(1)[i] by {
                assert(frags@[i] == frags_before[i + 1]);
            }
            assert(vfrags(frags@) =~= vfrags(frags_before).skip(1));
            assert(vfrags(frags_before)[0] == f@);
        }
        let em = coll.on_fragment(f, now);
        proof {
            let st = crate::collector::collector_step(coll_before, f@, now);
            assert(collector_run(coll_before, vfrags(frags_before)).state == collector_run(
                st.state,
                vfrags(frags_before).skip(1),
            ).state);
        }
        match em {
            Some(sess) => {
                proof {
                    assert(session_wf(sess@));
                    assert(data_of(Msg::Data(sess)) == sess) by {
                        let t = choose|t: SessionData| Msg::<SessionData>::Data(sess)
                            == Msg::Data(t);
                        assert(Msg::<SessionData>::Data(sess) == Msg::Data(t));
                    }
                }
                out.push(Msg::Data(sess));
                proof {
                    assert forall|j: int| 0 <= j < out@.len() implies #[trigger] sess_views(
                        out@,
                    )[j] == sess_views(out_before).push(sess@)[j] by {
                        if j < out_before.len() {
                            assert(out@[j] == out_before[j]);
                        } else {
                            assert(out@[j] == Msg::Data(sess));
                        }
                    }
                    assert(sess_views(out@) =~= sess_views(out_before).push(sess@));
                    let st = crate::collector::collector_step(coll_before, f@, now);
                    assert(st.emitted == Some(sess@));
                    assert(collector_run(coll_before, vfrags(frags_before)).emitted
                        =~= seq![sess@] + collector_run(coll@, vfrags(frags@)).emitted);
                    assert(sess_views(out_before) + collector_run(
                        coll_before,
                        vfrags(frags_before),
                    ).emitted =~= sess_views(out@) + collector_run(
                        coll@,
                        vfrags(frags@),
                    ).emitted);
                    assert forall|j: int| 0 <= j < out@.len() implies (#[trigger] out@[j]) is Data
                        && session_wf(data_of(out@[j])@) by {
                        if j < out_before.len() {
                            assert(out@[j] == out_before[j]);
                        }
                    }
                }
            },
            None => {
                proof {
                    let st = crate::collector::collector_step(coll_before, f@, now);
                    assert(st.emitted is None);
                    assert(collector_run(coll_before, vfrags(frags_before)).emitted
                        =~= collector_run(coll@, vfrags(frags@)).emitted);
                }
            },
        }
    }
    proof {
        assert(vfrags(frags@) =~= Seq::<crate::data::FragmentV>::empty());
        assert(collector_run(c0, fv).state == coll@);
        assert(collector_run(c0, fv).emitted =~= sess_views(out@) + Seq::<
            crate::data::SessionV,
        >::empty());
        assert(collector_run(c0, fv).emitted =~= sess_views(out@));
    }
    if stopped {
        let ghost out_before = out@;
        out.push(Msg::Stop);
        proof {
            assert(out@.last() is Stop);
            assert forall|j: int| 0 <= j < collector_run(c0, fv).emitted.len()
                implies (#[trigger] out@[j]) is Data && data_of(out@[j])@ == collector_run(
                c0,
                fv,
            ).emitted[j] && session_wf(data_of(out@[j])@) by {
                assert(out@[j] == out_before[j]);
                assert(sess_views(out_before)[j] == collector_run(c0, fv).emitted[j]);
            }
        }
        (out, true)
    } else {
        proof {
            assert forall|j: int| 0 <= j < collector_run(c0, fv).emitted.len()
                implies (#[trigger] out@[j]) is Data && data_of(out@[j])@ == collector_run(
                c0,
                fv,
            ).emitted[j] && session_wf(data_of(out@[j])@) by {
                assert(sess_views(out@)[j] == collector_run(c0, fv).emitted[j]);
            }
        }
        (out, false)
    }
}

/// Views of the sessions buffered ahead of the first `Stop` marker.
pub open spec fn taken_session_views(msgs: Seq<Msg<SessionData>>) -> Seq<crate::data::SessionV> {
    Seq::new(first_stop(msgs) as nat, |i: int| data_of(msgs[i])@)
}

/// Whether `out` is exactly the slicing of the sessions `ss` at width `w`,
/// session by session in order: the first session's samples first — each
/// message a data message carrying exactly the sample `slice_session`'s spec
/// fixes — then the next session's, and nothing else.
pub open spec fn sliced_ok(
    ss: Seq<crate::data::SessionV>,
    w: int,
    out: Seq<Msg<FinalSampleData>>,
) -> bool
    decreases ss.len(),
{
    if ss.len() == 0 {
        out.len() == 0
    } else {
        let n = ceil_div(session_bytes(ss[0]).len() as int, w);
        &&& 0 <= n <= out.len()
        &&& forall|i: int|
            0 <= i < n ==> (#[trigger] out[i]) is Data && sample_ok(ss[0], w, i, data_of(out[i]))
        &&& sliced_ok(ss.skip(1), w, out.skip(n))
    }
}

/// Extending a correctly sliced batch by one more session and its sample
/// block keeps it correctly sliced.
pub proof fn lemma_sliced_ok_snoc(
    ss: Seq<crate::data::SessionV>,
    w: int,
    out: Seq<Msg<FinalSampleData>>,
    sv: crate::data::SessionV,
    block: Seq<Msg<FinalSampleData>>,
)
    requires
        w >= 1,
        sliced_ok(ss, w, out),
        block.len() == ceil_div(session_bytes(sv).len() as int, w),
        forall|i: int|
            0 <= i < block.len() ==> (#[trigger] block[i]) is Data && sample_ok(
                sv,
                w,
                i,
                data_of(block[i]),
            ),
    ensures
        sliced_ok(ss.push(sv), w, out + block),
    decreases ss.len(),
{
    let combined = out + block;
    let whole = ss.push(sv);
    if ss.len() == 0 {
        assert(combined =~= block);
        let n = ceil_div(session_bytes(sv).len() as int, w);
        assert(whole[0] == sv);
        assert(whole.skip(1) =~= Seq::<crate::data::SessionV>::empty());
        assert(combined.skip(n) =~= Seq::<Msg<FinalSampleData>>::empty());
        assert(sliced_ok(whole.skip(1), w, combined.skip(n)));
        assert forall|i: int| 0 <= i < n implies (#[trigger] combined[i]) is Data && sample_ok(
            whole[0],
            w,
            i,
            data_of(combined[i]),
        ) by {
            assert(combined[i] == block[i]);
        }
        assert(sliced_ok(whole, w, combined));
    } else {
        let n0 = ceil_div(session_bytes(ss[0]).len() as int, w);
        lemma_sliced_ok_snoc(ss.skip(1), w, out.skip(n0), sv, block);
        assert(whole[0] == ss[0]);
        assert(whole.skip(1) =~= ss.skip(1).push(sv));
        assert(combined.skip(n0) =~= out.skip(n0) + block);
        assert(sliced_ok(whole.skip(1), w, combined.skip(n0)));
        assert forall|i: int| 0 <= i < n0 implies (#[trigger] combined[i]) is Data && sample_ok(
            whole[0],
            w,
            i,
            data_of(combined[i]),
        ) by {
            assert(combined[i] == out[i]);
        }
        assert(sliced_ok(whole, w, combined));
    }
}

/// Runs the processor stage over one batch of its inbox.
///
/// Every session ahead of the first `Stop` marker is sliced at the given
/// sample width, and the output is exactly those samples, session by session
/// in order (`sliced_ok`); if `Stop` was observed, one `Stop` marker is
/// forwarded downstream as the last message, and what was queued behind the
/// marker stays in the inbox.
pub fn processor_stage(inbox: &mut Vec<Msg<SessionData>>, width: usize) -> (r: (
    Vec<Msg<FinalSampleData>>,
    bool,
))
    requires
        width >= 1,
    ensures
        r.1 == (first_stop(old(inbox)@) < old(inbox)@.len()),
        final(inbox)@ == old(inbox)@.skip(
            first_stop(old(inbox)@) + (if r.1 {
                1int
            } else {
                0int
            }),
        ),
        r.1 ==> r.0@.len() >= 1 && r.0@.last() is Stop,
        sliced_ok(
            taken_session_views(old(inbox)@),
            width as int,
            r.0@.take(
                r.0@.len() - (if r.1 {
                    1int
                } else {
                    0int
                }),
            ),
        ),
        forall|j: int|
            0 <= j < r.0@.len() - (if r.1 {
                1int
            } else {
                0int
            }) ==> (#[trigger] r.0@[j]) is Data,
{
    let ghost sv_all = taken_session_views(inbox@);
    let (sessions, stopped) = take_until_stop(inbox);
    let mut sessions = sessions;
    let mut out: Vec<Msg<FinalSampleData>> = Vec::new();
    proof {
        assert forall|i: int| 0 <= i < sessions@.len() implies #[trigger] vsess(sessions@)[i]
            == sv_all[i] by {
            assert(old(inbox)@[i] == Msg::Data(sessions@[i]));
            let t = choose|t: SessionData| old(inbox)@[i] == Msg::Data(t);
            assert(Msg::Data(t) == Msg::<SessionData>::Data(sessions@[i]));
        }
        assert(vsess(sessions@) =~= sv_all);
        assert(sv_all.take(0) =~= Seq::<crate::data::SessionV>::empty());
    }
    while sessions.len() > 0
        invariant
            width >= 1,
            sessions@.len() <= sv_all.len(),
            vsess(sessions@) =~= sv_all.skip(sv_all.len() - sessions@.len()),
            sliced_ok(sv_all.take(sv_all.len() - sessions@.len()), width as int, out@),
            forall|j: int| 0 <= j < out@.len() ==> (#[trigger] out@[j]) is Data,
        decreases sessions@.len(),
    {
        let ghost p = sv_all.len() - sessions@.len();
        let ghost sessions_before = sessions@;
        let sess = sessions.remove(0);
        let ghost svv = sess@;
        proof {
            assert(sess == sessions_before[0]);
            assert(vsess(sessions_before)[0] == svv);
            assert(svv == sv_all[p]);
            assert forall|i: int| 0 <= i < sessions@.len() implies #[trigger] vsess(sessions@)[i]
                == sv_all.skip(p + 1)[i] by {
                assert(sessions@[i] == sessions_before[i + 1]);
                assert(vsess(sessions_before)[i + 1] == sv_all.skip(p)[i + 1]);
            }
            assert(vsess(sessions@) =~= sv_all.skip(p + 1));
        }
        let mut samples = slice_session(sess, width);
        let ghost samples_all = samples@;
        let ghost out_entry = out@;
        while samples.len() > 0
            invariant
                samples@.len() <= samples_all.len(),
                samples@ =~= samples_all.skip(samples_all.len() - samples@.len()),
                out@.len() == out_entry.len() + samples_all.len() - samples@.len(),
                forall|j: int| 0 <= j < out_entry.len() ==> #[trigger] out@[j] == out_entry[j],
                forall|j: int|
                    0 <= j < samples_all.len() - samples@.len() ==> #[trigger] out@[
                        out_entry.len() + j
                    ] == Msg::Data(samples_all[j]),
            decreases samples@.len(),
        {
            let ghost consumed = samples_all.len() - samples@.len();
            let ghost samples_before = samples@;
            let ghost out_before = out@;
            let smp = samples.remove(0);
            proof {
                assert(smp == samples_before[0]);
                assert(smp == samples_all[consumed]);
                assert forall|i: int| 0 <= i < samples@.len() implies #[trigger] samples@[i]
                    == samples_all.skip(consumed + 1)[i] by {
                    assert(samples@[i] == samples_before[i + 1]);
                    assert(samples_before[i + 1] == samples_all.skip(consumed as int)[i + 1]);
                }
                assert(samples@ =~= samples_all.skip(consumed + 1));
            }
            out.push(Msg::Data(smp));
            proof {
                assert(forall|j: int| 0 <= j < out_before.len() ==> #[trigger] out@[j]
                    == out_before[j]);
                assert(out@[out_entry.len() + consumed] == Msg::Data(samples_all[consumed]));
            }
        }
        proof {
            let w = width as int;
            let n = ceil_div(session_bytes(svv).len() as int, w);
            let block = out@.skip(out_entry.len() as int);
            assert(block.len() == n);
            assert forall|i: int| 0 <= i < block.len() implies (#[trigger] block[i]) is Data
                && sample_ok(svv, w, i, data_of(block[i])) by {
                assert(out@[out_entry.len() + i] == Msg::Data(samples_all[i]));
                assert(block[i] == Msg::Data(samples_all[i]));
                assert(data_of(block[i]) == samples_all[i]) by {
                    let t = choose|t: FinalSampleData| block[i] == Msg::Data(t);
                    assert(block[i] == Msg::Data(t));
                }
                assert(sample_ok(svv, w, i, samples_all[i]));
            }
            lemma_sliced_ok_snoc(sv_all.take(p), w, out_entry, svv, block);
            assert(sv_all.take(p + 1) =~= sv_all.take(p).push(sv_all[p]));
            assert(out@ =~= out_entry + block);
            assert(sliced_ok(sv_all.take(p + 1), w, out@));
            assert forall|j: int| 0 <= j < out@.len() implies (#[trigger] out@[j]) is Data by {
                if j < out_entry.len() {
                    assert(out@[j] == out_entry[j]);
                } else {
                    assert(out@[out_entry.len() + (j - out_entry.len())] == Msg::Data(
                        samples_all[j - out_entry.len()],
                    ));
                }
            }
        }
    }
    proof {
        assert(sv_all.take(sv_all.len() as int) =~= sv_all);
        assert(sliced_ok(sv_all, width as int, out@));
    }
    if stopped {
        let ghost out_before = out@;
        out.push(Msg::Stop);
        proof {
            assert(out@.take(out@.len() - 1) =~= out_before);
            assert forall|j: int| 0 <= j < out@.len() - 1 implies (#[trigger] out@[j])
                is Data by {
                assert(out@[j] == out_before[j]);
            }
        }
        (out, true)
    } else {
        proof {
            assert(out@.take(out@.len() as int) =~= out@);
        }
        (out, false)
    }
}

/// Whether one stored-result message is exactly what `infer_step` builds
/// for one sample message under the given engine outcome.
pub open spec fn inferred_ok(
    m_in: Msg<FinalSampleData>,
    m_out: Msg<StoredResultData>,
    outcome: Option<Seq<u8>>,
) -> bool {
    match (m_in, m_out) {
        (Msg::Data(smp), Msg::Data(res)) => {
            &&& res.source == smp.source
            &&& res.key == smp.key
            &&& res.index == smp.index
            &&& match outcome {
                Some(p) => res.status == ResultStatus::Success && res.payload@ == p,
                None => res.status == ResultStatus::Failure && res.payload@ == Seq::<
                    u8,
                >::empty(),
            }
        },
        _ => false,
    }
}

/// The engine outcome paired with sample `i`, as bytes; a missing entry
/// counts as a failure.
pub open spec fn outcome_at(eng: Seq<Option<Vec<u8>>>, i: int) -> Option<Seq<u8>> {
    if 0 <= i < eng.len() && eng[i] is Some {
        Some(eng[i].unwrap()@)
    } else {
        None
    }
}

/// Runs the inference stage over one batch of its inbox.
///
/// The `i`-th sample ahead of the first `Stop` marker is paired with the
/// `i`-th engine outcome (a missing outcome counts as an engine failure) and
/// becomes exactly the stored result `infer_step` builds: identity
/// preserved, `Success` with the engine's payload or `Failure` with an empty
/// one — a failed sample is forwarded, never dropped. If `Stop` was
/// observed, one `Stop` marker is forwarded downstream as the last message.
pub fn inference_stage(
    inbox: &mut Vec<Msg<FinalSampleData>>,
    engine_outcomes: &mut Vec<Option<Vec<u8>>>,
) -> (r: (Vec<Msg<StoredResultData>>, bool))
    ensures
        r.1 == (first_stop(old(inbox)@) < old(inbox)@.len()),
        r.0@.len() == first_stop(old(inbox)@) + (if r.1 {
            1int
        } else {
            0int
        }),
        r.1 ==> r.0@.last() is Stop,
        final(inbox)@ == old(inbox)@.skip(
            first_stop(old(inbox)@) + (if r.1 {
                1int
            } else {
                0int
            }),
        ),
        final(engine_outcomes)@.len() == (if first_stop(old(inbox)@) <= old(
            engine_outcomes,
        )@.len() {
            old(engine_outcomes)@.len() - first_stop(old(inbox)@)
        } else {
            0int
        }),
        forall|j: int|
            0 <= j < final(engine_outcomes)@.len() ==> #[trigger] final(engine_outcomes)@[j]
                == old(engine_outcomes)@[first_stop(old(inbox)@) + j],
        forall|i: int|
            0 <= i < first_stop(old(inbox)@) ==> inferred_ok(
                old(inbox)@[i],
                #[trigger] r.0@[i],
                outcome_at(old(engine_outcomes)@, i),
            ),
{
    let ghost orig = old(inbox)@;
    let ghost eng0 = engine_outcomes@;
    let (taken, stopped) = take_until_stop(inbox);
    let ghost k = first_stop(orig);
    let mut taken = taken;
    let mut out: Vec<Msg<StoredResultData>> = Vec::new();
    proof {
        lemma_first_stop_in_range(orig);
        assert forall|j: int| 0 <= j < k implies #[trigger] orig[j] is Data by {
            lemma_first_stop_in_range(orig);
        }
        assert(forall|j: int| 0 <= j < taken@.len() ==> orig[j] == Msg::Data(
            #[trigger] taken@[j],
        ));
    }
    while taken.len() > 0
        invariant
            out@.len() + taken@.len() == k,
            k <= orig.len(),
            forall|j: int|
                0 <= j < taken@.len() ==> orig[out@.len() + j] == Msg::Data(
                    #[trigger] taken@[j],
                ),
            forall|j: int|
                0 <= j < engine_outcomes@.len() ==> #[trigger] engine_outcomes@[j] == eng0[
                    out@.len() + j
                ],
            engine_outcomes@.len() == (if out@.len() as int <= eng0.len() as int {
                eng0.len() - out@.len()
            } else {
                0int
            }),
            forall|i: int|
                0 <= i < out@.len() ==> inferred_ok(orig[i], #[trigger] out@[i], outcome_at(
                    eng0,
                    i,
                )),
            forall|i: int| 0 <= i < k ==> (#[trigger] orig[i]) is Data,
        decreases taken@.len(),
    {
        let ghost i = out@.len() as int;
        let ghost samples_before = taken@;
        let ghost eng_before = engine_outcomes@;
        let smp = taken.remove(0);
        let outcome: Option<Vec<u8>> = if engine_outcomes.len() > 0 {
            engine_outcomes.remove(0)
        } else {
            None
        };
        proof {
            assert(smp == samples_before[0]);
            assert(taken@ =~= samples_before.skip(1));
            if eng_before.len() > 0 {
                assert(eng_before[0] == eng0[i]);
                assert(outcome == eng0[i]);
                assert forall|j: int| 0 <= j < engine_outcomes@.len()
                    implies #[trigger] engine_outcomes@[j] == eng0[i + 1 + j] by {
                    assert(engine_outcomes@[j] == eng_before[j + 1]);
                }
            } else {
                assert(i >= eng0.len());
                assert(outcome is None);
            }
            assert(orig[i] == Msg::Data(smp));
        }
        let ghost out_before = out@;
        let res = infer_step(&smp, outcome);
        out.push(Msg::Data(res));
        proof {
            assert forall|i2: int| 0 <= i2 < taken@.len() implies orig[out@.len() + i2]
                == Msg::Data(#[trigger] taken@[i2]) by {
                assert(taken@[i2] == samples_before[i2 + 1]);
            }
            assert forall|i2: int| 0 <= i2 < out@.len() implies inferred_ok(
                orig[i2],
                #[trigger] out@[i2],
                outcome_at(eng0, i2),
            ) by {
                if i2 < out_before.len() {
                    assert(out@[i2] == out_before[i2]);
                } else {
                    assert(out@[i2] == Msg::Data(res));
                    assert(inferred_ok(orig[i2], Msg::Data(res), outcome_at(eng0, i2)));
                }
            }
        }
    }
    if stopped {
        out.push(Msg::Stop);
        (out, true)
    } else {
        (out, false)
    }
}

} // verus!
