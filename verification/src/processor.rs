//! The processor stage: slicing a session into inference-ready samples.
//!
//! The session's payload — its segments concatenated in order — is cut into
//! fixed-width windows; the final partial window is kept, not dropped.
//! Sample order follows payload order, and every sample keeps the session's
//! traceable identity. No cross-session state exists.

use vstd::prelude::*;

use crate::data::FinalSampleData;
use crate::data::Segment;
use crate::data::SessionData;
use crate::data::SessionV;

verus! {

/// Concatenation of byte parts, in order.
pub open spec fn concat_bytes(parts: Seq<Seq<u8>>) -> Seq<u8>
    decreases parts.len(),
{
    if parts.len() == 0 {
        Seq::empty()
    } else {
        parts[0] + concat_bytes(parts.skip(1))
    }
}

/// The full payload of a session: its segments' bytes, concatenated in
/// segment order.
pub open spec fn session_bytes(s: SessionV) -> Seq<u8> {
    concat_bytes(s.segments.map_values(|g: crate::data::SegmentV| g.bytes))
}

/// Number of width-`w` windows covering `n` bytes, the last one partial.
pub open spec fn ceil_div(n: int, w: int) -> int
    recommends
        w >= 1,
{
    (n + w - 1) / w
}

/// The `i`-th window of `flat` at width `width`.
pub open spec fn chunk_of(flat: Seq<u8>, width: int, i: int) -> Seq<u8> {
    flat.subrange(
        i * width,
        if (i + 1) * width <= flat.len() {
            (i + 1) * width
        } else {
            flat.len() as int
        },
    )
}

/// Byte views of a segment vector.
pub open spec fn seg_bytes(q: Seq<Segment>) -> Seq<Seq<u8>> {
    q.map_values(|g: Segment| g.bytes@)
}

/// Whether `smp` is exactly sample `i` of session `s` at width `w`: the
/// `i`-th width-window of the session's concatenated payload, carrying the
/// session's identity, its own index, and its duration metadata.
pub open spec fn sample_ok(s: SessionV, w: int, i: int, smp: FinalSampleData) -> bool {
    &&& smp.source == s.source
    &&& smp.key == s.key
    &&& smp.index == i
    &&& smp.buffer@ == chunk_of(session_bytes(s), w, i)
    &&& smp.duration == smp.buffer@.len()
}

/// Slices one session into inference-ready samples.
///
/// Sample `i` carries exactly the `i`-th width-window of the session's
/// concatenated payload — every full window has `width` bytes, the final
/// partial window is kept — together with the session's identity, its own
/// index, and its duration metadata. An empty payload yields no samples.
pub fn slice_session(s: SessionData, width: usize) -> (out: Vec<FinalSampleData>)
    requires
        width >= 1,
    ensures
        out@.len() == ceil_div(session_bytes(s@).len() as int, width as int),
        forall|i: int| 0 <= i < out@.len() ==> sample_ok(s@, width as int, i, #[trigger] out@[i]),
{
    let ghost target = session_bytes(s@);
    let source = s.source;
    let key = s.key;
    let mut segs = s.segments;
    let mut flat: Vec<u8> = Vec::new();
    proof {
        assert(seg_bytes(segs@) =~= s@.segments.map_values(
            |g: crate::data::SegmentV| g.bytes,
        ));
    }
    while segs.len() > 0
        invariant
            target == flat@ + concat_bytes(seg_bytes(segs@)),
        decreases segs.len(),
    {
        let ghost before = segs@;
        let mut g = segs.remove(0);
        let ghost gb = g.bytes@;
        proof {
            assert(seg_bytes(before)[0] == gb);
            assert forall|i: int| 0 <= i < segs@.len() implies #[trigger] seg_bytes(segs@)[i]
                == seg_bytes(before).skip(1)[i] by {
                assert(segs@[i] == before[i + 1]);
            }
            assert(seg_bytes(segs@) =~= seg_bytes(before).skip(1));
        }
        flat.append(&mut g.bytes);
        proof {
            assert(concat_bytes(seg_bytes(before)) == gb + concat_bytes(
                seg_bytes(before).skip(1),
            ));
            assert(target =~= flat@ + concat_bytes(seg_bytes(segs@)));
        }
    }
    proof {
        assert(target =~= flat@);
    }
    let total = flat.len();
    let mut out: Vec<FinalSampleData> = Vec::new();
    let mut pos: usize = 0;
    proof {
        assert((out@.len() as int) * (width as int) == 0) by (nonlinear_arith)
            requires
                (out@.len() as int) == 0,
        ;
    }
    while pos < total
        invariant
            width >= 1,
            total == flat@.len(),
            flat@ == target,
            pos <= total,
            (out@.len() as int) * (width as int) <= total as int ==> pos as int == (
            out@.len() as int) * (width as int),
            (out@.len() as int) * (width as int) > total as int ==> pos == total,
            out@.len() == 0 || (out@.len() as int - 1) * (width as int) < total as int,
            forall|i: int|
                0 <= i < out@.len() ==> (#[trigger] out@[i]).source == source && out@[i].key
                    == key && out@[i].index == i && out@[i].buffer@ == chunk_of(
                    target,
                    width as int,
                    i,
                ) && out@[i].duration == out@[i].buffer@.len(),
        decreases total - pos,
    {
        let ghost n = out@.len() as int;
        proof {
            assert(n * (width as int) <= total as int || pos == total);
            assert(pos as int == n * (width as int));
        }
        let end = if width < total - pos {
            pos + width
        } else {
            total
        };
        proof {
            assert((n + 1) * width == n * width + width) by (nonlinear_arith);
        }
        let mut buf: Vec<u8> = Vec::new();
        let mut j = pos;
        while j < end
            invariant
                pos <= j <= end <= total,
                total == flat@.len(),
                buf@ == flat@.subrange(pos as int, j as int),
            decreases end - j,
        {
            let b = flat[j];
            buf.push(b);
            proof {
                assert(flat@.subrange(pos as int, j + 1 as int) =~= flat@.subrange(
                    pos as int,
                    j as int,
                ).push(flat@[j as int]));
            }
            j = j + 1;
        }
        let d = buf.len() as u64;
        let idx = out.len();
        let ghost out_before = out@;
        out.push(FinalSampleData { source, key, index: idx, buffer: buf, duration: d });
        proof {
            assert(end as int == if (n + 1) * width <= total as int {
                (n + 1) * width
            } else {
                total as int
            });
            assert(out@[n].buffer@ == chunk_of(target, width as int, n));
            assert forall|i: int| 0 <= i < out@.len() implies (#[trigger] out@[i]).source
                == source && out@[i].key == key && out@[i].index == i && out@[i].buffer@
                == chunk_of(target, width as int, i) && out@[i].duration
                == out@[i].buffer@.len() by {
                if i < n {
                    assert(out@[i] == out_before[i]);
                }
            }
        }
        pos = end;
    }
    proof {
        let n = out@.len() as int;
        let t = total as int;
        let w = width as int;
        if n * w <= t {
            assert(pos == n * w);
            assert(n * w == t);
            assert((n * w + w - 1) / w == n) by (nonlinear_arith)
                requires
                    w >= 1,
                    n >= 0,
            ;
        } else {
            assert(n >= 1 && (n - 1) * w < t);
            assert((t + w - 1) / w == n) by (nonlinear_arith)
                requires
                    w >= 1,
                    n >= 1,
                    (n - 1) * w < t,
                    t < n * w,
            ;
        }
    }
    out
}

} // verus!
