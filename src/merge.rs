//! Phase-three merge: the observations of all sidecars in one stream, ordered
//! by frame number, observations of one frame keeping their order.

use vstd::prelude::*;
use crate::router::{empty_router, process_all_spec};

verus! {

/// One QR payload seen in a frame.
#[derive(Clone, Debug)]
pub struct QrCodeData {
    pub frame_number: u64,
    pub data: String,
    pub chunk_id: usize,
}

/// `b` is `a` reordered by `p` (a one-to-one map of positions), frames
/// ascending, and observations of one frame in their order in `a`.
pub open spec fn stable_frame_order(a: Seq<QrCodeData>, b: Seq<QrCodeData>, p: Seq<int>) -> bool {
    &&& p.len() == a.len() && b.len() == a.len()
    &&& forall|k: int| 0 <= k < p.len() ==> 0 <= #[trigger] p[k] < a.len() && b[k] == a[p[k]]
    &&& forall|k: int, l: int| 0 <= k < l < p.len() ==> p[k] != p[l]
    &&& forall|k: int, l: int|
        0 <= k < l < b.len() ==> (#[trigger] b[k]).frame_number <= (#[trigger] b[l]).frame_number
    &&& forall|k: int, l: int|
        0 <= k < l < b.len() && b[k].frame_number == b[l].frame_number ==> p[k] < p[l]
}

/// Relies on `slice::sort_by_key`: a stable sort, here by frame number.
#[verifier::external_body]
fn sort_by_frame(v: &mut Vec<QrCodeData>)
    ensures
        exists|p: Seq<int>| #[trigger] stable_frame_order(old(v)@, final(v)@, p),
{
    v.sort_by_key(|o| o.frame_number);
}

/// All sidecars' observations, in sidecar order.
pub open spec fn concat_sidecars(s: Seq<Seq<QrCodeData>>) -> Seq<QrCodeData>
    decreases s.len(),
{
    if s.len() == 0 {
        Seq::empty()
    } else {
        concat_sidecars(s.drop_last()) + s.last()
    }
}

pub open spec fn sidecars_view(s: Seq<Vec<QrCodeData>>) -> Seq<Seq<QrCodeData>> {
    Seq::new(s.len(), |i: int| s[i]@)
}

/// Merges sidecars into one stream ordered by frame number.
pub fn merge_sidecars(sidecars: Vec<Vec<QrCodeData>>) -> (r: Vec<QrCodeData>)
    ensures
        exists|p: Seq<int>|
            #[trigger] stable_frame_order(
                concat_sidecars(sidecars_view(sidecars@)),
                r@,
                p,
            ),
{
    let ghost sv = sidecars_view(sidecars@);
    let mut all: Vec<QrCodeData> = Vec::new();
    let mut sidecars = sidecars;
    let mut rest: Vec<Vec<QrCodeData>> = Vec::new();
    // reversed, so that popping yields sidecars in order
    while sidecars.len() > 0
        invariant
            sidecars@.len() + rest@.len() == sv.len(),
            forall|q: int| 0 <= q < sidecars@.len() ==> sidecars@[q]@ == sv[q],
            forall|q: int| 0 <= q < rest@.len() ==> rest@[q]@ == sv[sv.len() - 1 - q],
        decreases sidecars@.len(),
    {
        let s = sidecars.pop().unwrap();
        rest.push(s);
    }
    let mut t: usize = 0;
    let n = rest.len();
    while rest.len() > 0
        invariant
            n == sv.len(),
            rest@.len() + t == n,
            forall|q: int| 0 <= q < rest@.len() ==> rest@[q]@ == sv[n - 1 - q],
            all@ == concat_sidecars(sv.subrange(0, t as int)),
        decreases rest@.len(),
    {
        let mut s = rest.pop().unwrap();
        proof {
            let q = sv.subrange(0, t + 1);
            assert(q.drop_last() =~= sv.subrange(0, t as int));
            assert(q.last() == s@);
        }
        all.append(&mut s);
        t = t + 1;
    }
    assert(sv.subrange(0, n as int) =~= sv);
    sort_by_frame(&mut all);
    all
}

/// A one-to-one map of the positions `0..n` onto themselves reaches every
/// position.
proof fn lemma_onto(p: Seq<int>, n: int, y: int)
    requires
        p.len() == n,
        forall|k: int| 0 <= k < n ==> 0 <= #[trigger] p[k] < n,
        forall|k: int, l: int| 0 <= k < l < n ==> p[k] != p[l],
        0 <= y < n,
    ensures
        exists|k: int| 0 <= k < n && p[k] == y,
{
    assert(p.no_duplicates()) by {
        assert forall|k: int, l: int| 0 <= k < p.len() && 0 <= l < p.len() && k != l implies p[k]
            != p[l] by {
            if k > l {
                assert(p[l] != p[k]);
            }
        }
    }
    p.unique_seq_to_set();
    vstd::set_lib::lemma_int_range(0, n);
    let range = vstd::set_lib::set_int_range(0, n);
    assert(p.to_set().subset_of(range));
    vstd::set_lib::lemma_len_subset(p.to_set(), range);
    vstd::set_lib::lemma_subset_equality(p.to_set(), range);
    assert(range.contains(y));
    assert(p.to_set().contains(y));
}

/// Position `x` of `a` comes before position `y` in a stable frame order.
spec fn before(a: Seq<QrCodeData>, x: int, y: int) -> bool {
    a[x].frame_number < a[y].frame_number || (a[x].frame_number == a[y].frame_number && x < y)
}

proof fn lemma_order_before(a: Seq<QrCodeData>, b: Seq<QrCodeData>, p: Seq<int>, k: int, l: int)
    requires
        stable_frame_order(a, b, p),
        0 <= k < l < p.len(),
    ensures
        before(a, p[k], p[l]),
{
    assert(b[k] == a[p[k]]);
    assert(b[l] == a[p[l]]);
    assert(b[k].frame_number <= b[l].frame_number);
}

/// Two stable frame orders of `a` agree up to position `k`.
proof fn lemma_orders_agree(
    a: Seq<QrCodeData>,
    ba: Seq<QrCodeData>,
    pa: Seq<int>,
    bb: Seq<QrCodeData>,
    pb: Seq<int>,
    k: int,
)
    requires
        stable_frame_order(a, ba, pa),
        stable_frame_order(a, bb, pb),
        0 <= k < a.len(),
    ensures
        forall|q: int| 0 <= q <= k ==> pa[q] == pb[q],
    decreases k,
{
    let n = a.len() as int;
    if k > 0 {
        lemma_orders_agree(a, ba, pa, bb, pb, k - 1);
    }
    let x = pa[k];
    lemma_onto(pb, n, x);
    let l = choose|l: int| 0 <= l < n && pb[l] == x;
    if l > k {
        let y = pb[k];
        lemma_order_before(a, bb, pb, k, l);
        lemma_onto(pa, n, y);
        let k2 = choose|k2: int| 0 <= k2 < n && pa[k2] == y;
        if k2 > k {
            lemma_order_before(a, ba, pa, k, k2);
        } else if k2 == k {
            assert(pb[k] != pb[l]);
        } else {
            assert(pa[k2] == pb[k2]);
            assert(pb[k2] != pb[k]);
        }
    } else if l < k {
        assert(pa[l] == pb[l]);
        assert(pa[l] != pa[k]);
    }
}

/// The stable frame order of a stream is unique: merging the same sidecars
/// twice gives the same stream.
pub proof fn lemma_merge_unique(
    a: Seq<QrCodeData>,
    ba: Seq<QrCodeData>,
    pa: Seq<int>,
    bb: Seq<QrCodeData>,
    pb: Seq<int>,
)
    requires
        stable_frame_order(a, ba, pa),
        stable_frame_order(a, bb, pb),
    ensures
        ba == bb,
{
    if a.len() > 0 {
        lemma_orders_agree(a, ba, pa, bb, pb, a.len() - 1);
        assert forall|k: int| 0 <= k < ba.len() implies ba[k] == bb[k] by {
            assert(ba[k] == a[pa[k]]);
            assert(bb[k] == a[pb[k]]);
        }
    }
    assert(ba =~= bb);
}

/// The payloads of a stream, in order.
pub open spec fn payloads_of(s: Seq<QrCodeData>) -> Seq<Seq<char>> {
    Seq::new(s.len(), |i: int| s[i].data@)
}

/// Reconstruction from the same sidecars twice gives the same results: the
/// merged streams are equal, and decoding them from a fresh state gives the
/// same files and the same per-packet results.
pub proof fn lemma_phase3_repeatable(
    sidecars: Seq<Seq<QrCodeData>>,
    ra: Seq<QrCodeData>,
    pa: Seq<int>,
    rb: Seq<QrCodeData>,
    pb: Seq<int>,
)
    requires
        stable_frame_order(concat_sidecars(sidecars), ra, pa),
        stable_frame_order(concat_sidecars(sidecars), rb, pb),
    ensures
        ra == rb,
        process_all_spec(empty_router(), payloads_of(ra)) == process_all_spec(
            empty_router(),
            payloads_of(rb),
        ),
{
    lemma_merge_unique(concat_sidecars(sidecars), ra, pa, rb, pb);
}

} // verus!
