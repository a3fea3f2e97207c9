//! Chunk planning: the video's duration, in milliseconds, cut into
//! contiguous half-open intervals `[start_ms, end_ms)` with ids `0..n`.

use vstd::prelude::*;

verus! {

/// One planned interval of the video.
#[derive(Clone, Copy, Debug, PartialEq, Eq, Structural)]
pub struct VideoChunk {
    pub id: usize,
    pub start_ms: u64,
    pub end_ms: u64,
}

/// A plan for a video of `duration` ms: ids in order, each interval starting
/// where the previous ended, the first at zero and the last at the end.
pub open spec fn valid_plan(p: Seq<VideoChunk>, duration: u64) -> bool {
    &&& (p.len() == 0 ==> duration == 0)
    &&& (p.len() > 0 ==> p[0].start_ms == 0 && p[p.len() - 1].end_ms == duration)
    &&& forall|i: int| 0 <= i < p.len() ==> (#[trigger] p[i]).id == i && p[i].start_ms <= p[i].end_ms
    &&& forall|i: int| 0 <= i < p.len() - 1 ==> (#[trigger] p[i]).end_ms == p[i + 1].start_ms
}

pub open spec fn covers(c: VideoChunk, t: int) -> bool {
    c.start_ms <= t < c.end_ms
}

/// Some interval of `p` covers instant `t`.
pub open spec fn covered(p: Seq<VideoChunk>, t: int) -> bool {
    exists|i: int| 0 <= i < p.len() && #[trigger] covers(p[i], t)
}

/// Every instant of a valid plan's video lies in exactly one of its
/// intervals: together they cover `[0, duration)` and no two overlap.
pub proof fn lemma_plan_partition(p: Seq<VideoChunk>, duration: u64)
    requires
        valid_plan(p, duration),
    ensures
        forall|t: int| 0 <= t < duration ==> #[trigger] covered(p, t),
        forall|i: int, j: int| 0 <= i < j < p.len() ==> (#[trigger] p[i]).end_ms <= (#[trigger] p[j]).start_ms,
        forall|t: int, i: int, j: int|
            0 <= i < p.len() && 0 <= j < p.len() && #[trigger] covers(p[i], t) && #[trigger] covers(p[j], t) ==> i == j,
{
    assert forall|i: int, j: int| 0 <= i < j < p.len() implies (#[trigger] p[i]).end_ms <= (
    #[trigger] p[j]).start_ms by {
        lemma_ordered(p, duration, i, j);
    }
    assert forall|t: int| 0 <= t < duration implies #[trigger] covered(p, t) by {
        lemma_cover(p, duration, t, p.len() as int - 1);
    }
    assert forall|t: int, i: int, j: int|
        0 <= i < p.len() && 0 <= j < p.len() && #[trigger] covers(p[i], t) && #[trigger] covers(
            p[j],
            t,
        ) implies i == j by {
        if i < j {
            lemma_ordered(p, duration, i, j);
        } else if j < i {
            lemma_ordered(p, duration, j, i);
        }
    }
}

proof fn lemma_ordered(p: Seq<VideoChunk>, duration: u64, i: int, j: int)
    requires
        valid_plan(p, duration),
        0 <= i < j < p.len(),
    ensures
        p[i].end_ms <= p[j].start_ms,
    decreases j - i,
{
    assert(p[j - 1].end_ms == p[j].start_ms);
    if i < j - 1 {
        lemma_ordered(p, duration, i, j - 1);
        assert(p[j - 1].start_ms <= p[j - 1].end_ms);
    }
}

/// Some interval among the first `k + 1` covers `t`, if `t` is before the
/// end of interval `k`.
proof fn lemma_cover(p: Seq<VideoChunk>, duration: u64, t: int, k: int)
    requires
        valid_plan(p, duration),
        0 <= k < p.len(),
        0 <= t < p[k].end_ms,
    ensures
        exists|i: int| 0 <= i <= k && #[trigger] covers(p[i], t),
    decreases k,
{
    if t >= p[k].start_ms {
        assert(covers(p[k], t));
    } else {
        assert(k > 0);
        assert(p[k - 1].end_ms == p[k].start_ms);
        lemma_cover(p, duration, t, k - 1);
    }
}

/// Start of interval `i` when `duration` is cut into `n` near-equal parts.
pub open spec fn count_boundary(duration: u64, n: usize, i: int) -> int {
    i * duration / (n as int)
}

proof fn lemma_boundary_monotone(duration: u64, n: usize, i: int)
    requires
        n > 0,
        0 <= i < n,
    ensures
        0 <= count_boundary(duration, n, i) <= count_boundary(duration, n, i + 1) <= duration,
{
    let d = duration as int;
    let m = n as int;
    assert(i * d <= (i + 1) * d) by (nonlinear_arith)
        requires
            0 <= i,
            0 <= d,
    ;
    assert((i + 1) * d <= m * d) by (nonlinear_arith)
        requires
            i + 1 <= m,
            0 <= d,
    ;
    assert(0 <= i * d) by (nonlinear_arith)
        requires
            0 <= i,
            0 <= d,
    ;
    vstd::arithmetic::div_mod::lemma_div_is_ordered(i * d, (i + 1) * d, m);
    vstd::arithmetic::div_mod::lemma_div_is_ordered((i + 1) * d, m * d, m);
    vstd::arithmetic::div_mod::lemma_div_pos_is_pos(i * d, m);
    vstd::arithmetic::div_mod::lemma_div_by_multiple(d, m);
    assert(m * d == d * m) by (nonlinear_arith);
}

/// With at least a millisecond per interval, every interval is non-empty.
proof fn lemma_boundary_strict(duration: u64, n: usize, i: int)
    requires
        n > 0,
        0 <= i < n,
        duration >= n,
    ensures
        count_boundary(duration, n, i) < count_boundary(duration, n, i + 1),
{
    let d = duration as int;
    let m = n as int;
    let q = (i * d) / m;
    assert(0 <= i * d) by (nonlinear_arith)
        requires
            0 <= i,
            0 <= d,
    ;
    vstd::arithmetic::div_mod::lemma_fundamental_div_mod(i * d, m);
    vstd::arithmetic::div_mod::lemma_mod_pos_bound(i * d, m);
    assert((q + 1) * m == m * q + m) by (nonlinear_arith);
    assert((i + 1) * d == i * d + d) by (nonlinear_arith);
    assert((q + 1) * m <= (i + 1) * d);
    vstd::arithmetic::div_mod::lemma_div_is_ordered((q + 1) * m, (i + 1) * d, m);
    vstd::arithmetic::div_mod::lemma_div_by_multiple(q + 1, m);
}

/// Cuts `duration` ms into `n` intervals of near-equal length (the earlier
/// ones never longer than the later ones by more than a millisecond).
pub fn split_by_count(duration: u64, n: usize) -> (r: Vec<VideoChunk>)
    requires
        n > 0,
    ensures
        valid_plan(r@, duration),
        r@.len() == n,
        duration >= n ==> forall|i: int| 0 <= i < n ==> (#[trigger] r@[i]).start_ms < r@[i].end_ms,
        forall|i: int|
            0 <= i < n ==> (#[trigger] r@[i]).start_ms == count_boundary(duration, n, i)
                && r@[i].end_ms == count_boundary(duration, n, i + 1),
{
    let mut out: Vec<VideoChunk> = Vec::new();
    let mut i: usize = 0;
    while i < n
        invariant
            n > 0,
            i <= n,
            out@.len() == i,
            forall|k: int|
                0 <= k < i ==> (#[trigger] out@[k]).id == k && out@[k].start_ms == count_boundary(
                    duration,
                    n,
                    k,
                ) && out@[k].end_ms == count_boundary(duration, n, k + 1),
        decreases n - i,
    {
        proof {
            lemma_boundary_monotone(duration, n, i as int);
            let big: int = 0x1_0000_0000_0000_0000;
            assert((i as int + 1) * (duration as int) <= big * (big - 1)) by (nonlinear_arith)
                requires
                    0 <= i < big,
                    0 <= duration < big,
            ;
            assert((i as int) * (duration as int) <= (i as int + 1) * (duration as int)) by (nonlinear_arith);
        }
        let start = ((i as u128) * (duration as u128) / (n as u128)) as u64;
        let end = (((i as u128) + 1) * (duration as u128) / (n as u128)) as u64;
        out.push(VideoChunk { id: i, start_ms: start, end_ms: end });
        i = i + 1;
    }
    proof {
        assert(count_boundary(duration, n, 0) == 0);
        let d = duration as int;
        let m = n as int;
        assert(m * d == d * m) by (nonlinear_arith);
        vstd::arithmetic::div_mod::lemma_div_by_multiple(d, m);
        assert forall|k: int| 0 <= k < out@.len() implies (#[trigger] out@[k]).id == k
            && out@[k].start_ms <= out@[k].end_ms by {
            lemma_boundary_monotone(duration, n, k);
        }
        if duration >= n {
            assert forall|k: int| 0 <= k < n implies (#[trigger] out@[k]).start_ms < out@[k].end_ms by {
                lemma_boundary_strict(duration, n, k);
            }
        }
    }
    out
}

/// Number of intervals of `per` ms needed for `duration` ms.
pub open spec fn duration_chunk_count(duration: u64, per: u64) -> int {
    (duration as int + per as int - 1) / (per as int)
}

/// Cuts `duration` ms into intervals of `per` ms, the last one shorter where
/// `per` does not divide the duration.
pub fn split_by_duration(duration: u64, per: u64) -> (r: Vec<VideoChunk>)
    requires
        per > 0,
        duration_chunk_count(duration, per) <= usize::MAX,
    ensures
        valid_plan(r@, duration),
        r@.len() == duration_chunk_count(duration, per),
        forall|i: int|
            0 <= i < r@.len() ==> (#[trigger] r@[i]).start_ms == i * per && r@[i].end_ms == if (i
                + 1) * per <= duration {
                (i + 1) * per
            } else {
                duration as int
            },
{
    let mut out: Vec<VideoChunk> = Vec::new();
    if duration == 0 {
        proof {
            vstd::arithmetic::div_mod::lemma_fundamental_div_mod_converse(
                per as int - 1,
                per as int,
                0,
                per as int - 1,
            );
        }
        return out;
    }
    let mut start: u64 = 0;
    let mut i: usize = 0;
    loop
        invariant_except_break
            start == i * per,
            start < duration,
            i > 0 ==> out@[i - 1].end_ms == start,
        invariant
            per > 0,
            duration > 0,
            duration_chunk_count(duration, per) <= usize::MAX,
            out@.len() == i,
            forall|k: int|
                0 <= k < i ==> (#[trigger] out@[k]).id == k && out@[k].start_ms == k * per
                    && out@[k].end_ms == if (k + 1) * per <= duration {
                    (k + 1) * per
                } else {
                    duration as int
                },
        ensures
            i > 0,
            (i - 1) * per < duration <= i * per,
            out@[i - 1].end_ms == duration,
        decreases duration - i * per,
    {
        proof {
            assert((i + 1) * per == i * per + per) by (nonlinear_arith);
            assert(i + 1 <= (i + 1) * per) by (nonlinear_arith)
                requires
                    per >= 1,
                    i >= 0,
            ;
            let a = duration as int + per as int - 1;
            assert((i + 1) * per <= a);
            vstd::arithmetic::div_mod::lemma_div_is_ordered((i + 1) * per, a, per as int);
            vstd::arithmetic::div_mod::lemma_div_by_multiple(i + 1, per as int);
        }
        if duration - start <= per {
            out.push(VideoChunk { id: i, start_ms: start, end_ms: duration });
            i = i + 1;
            break;
        }
        let end = start + per;
        out.push(VideoChunk { id: i, start_ms: start, end_ms: end });
        i = i + 1;
        start = end;
    }
    proof {
        let d = duration as int;
        let q = per as int;
        // i intervals were needed: (i - 1) * per < duration <= i * per
        assert(duration_chunk_count(duration, per) == i) by {
            let a = d + q - 1;
            {
                assert(i * q <= a) by (nonlinear_arith)
                    requires
                        d <= i * q,
                        (i - 1) * q < d,
                        a == d + q - 1,
                        i >= 1,
                ;
                assert(a < (i + 1) * q) by (nonlinear_arith)
                    requires
                        d <= i * q,
                        a == d + q - 1,
                ;
                vstd::arithmetic::div_mod::lemma_fundamental_div_mod_converse(a, q, i as int, a - i * q);
            }
        }
        assert forall|k: int| 0 <= k < out@.len() - 1 implies (#[trigger] out@[k]).end_ms
            == out@[k + 1].start_ms by {
            assert((k + 1) * q <= k * q + q) by (nonlinear_arith);
            assert(out@[k + 1].start_ms == (k + 1) * q);
            assert((k + 1) * q <= (i - 1) * q) by (nonlinear_arith)
                requires
                    k + 1 <= i - 1,
                    q >= 1,
            ;
        }
        assert forall|k: int| 0 <= k < out@.len() implies (#[trigger] out@[k]).id == k
            && out@[k].start_ms <= out@[k].end_ms by {
            assert((k + 1) * q == k * q + q) by (nonlinear_arith);
        }
    }
    out
}

} // verus!
