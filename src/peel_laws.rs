//! Laws of peeling: it stops within the chunk count, leaves no packet that
//! could still give a chunk, and recovers only chunks of any file that all
//! the received packets agree with.

use vstd::prelude::*;
use crate::fountain::{
    all_pending_in_range, count_present, indices_in_range, is_missing, last_missing,
    lemma_count_present_le, lemma_last_missing, lemma_peel_pass, lemma_peel_unfold, missing_count, peel, peel_pass,
    peel_rounds, peel_step, xor_known, PendingView, Slots, DecoderView, add_packet_spec,
    store_systematic,
};
use crate::packet::DataPacketView;

verus! {

// ---------------------------------------------------------------------------
// Peeling: bound, closure and soundness

/// Peeling stops after at most as many productive scans as chunks were
/// missing, and so never more than the file's chunk count.
pub proof fn lemma_peel_rounds_bounded(c: Slots, ps: Seq<PendingView>)
    requires
        all_pending_in_range(ps, c.len()),
    ensures
        peel_rounds(c, ps) <= c.len() - count_present(c),
        peel_rounds(c, ps) <= c.len(),
    decreases c.len() - count_present(c),
{
    lemma_peel_pass(c, ps);
    lemma_count_present_le(c);
    let (c2, ps2, prog) = peel_pass(c, ps);
    lemma_count_present_le(c2);
    if prog && c2.len() == c.len() && count_present(c2) > count_present(c) && count_present(c2)
        <= c.len() {
        lemma_peel_rounds_bounded(c2, ps2);
    }
}

/// A scan that recovers nothing changes no slot, and keeps exactly the
/// packets with two or more unknown chunks.
proof fn lemma_pass_no_progress(c: Slots, ps: Seq<PendingView>)
    ensures
        ({
            let (c2, ps2, prog) = peel_pass(c, ps);
            !prog ==> c2 == c && forall|k: int|
                0 <= k < ps2.len() ==> missing_count(c, #[trigger] ps2[k].indices) >= 2
        }),
    decreases ps.len(),
{
    if ps.len() > 0 {
        let (c1, keep, prog1) = peel_step(c, ps[0]);
        lemma_pass_no_progress(c1, ps.drop_first());
        let (c2, rest, prog2) = peel_pass(c1, ps.drop_first());
        if !prog1 && !prog2 && keep {
            let out = seq![ps[0]] + rest;
            assert forall|k: int| 0 <= k < out.len() implies missing_count(
                c,
                #[trigger] out[k].indices,
            ) >= 2 by {
                if k > 0 {
                    assert(out[k] == rest[k - 1]);
                }
            }
        }
    }
}

/// When peeling stops, no waiting packet lacks fewer than two chunks: each
/// packet that could still give a chunk has given it.
pub proof fn lemma_peel_closed(c: Slots, ps: Seq<PendingView>)
    requires
        all_pending_in_range(ps, c.len()),
    ensures
        ({
            let (cf, psf) = peel(c, ps);
            forall|k: int| 0 <= k < psf.len() ==> missing_count(cf, #[trigger] psf[k].indices) >= 2
        }),
    decreases c.len() - count_present(c),
{
    lemma_peel_unfold(c, ps);
    lemma_peel_pass(c, ps);
    lemma_pass_no_progress(c, ps);
    lemma_count_present_le(c);
    let (c2, ps2, prog) = peel_pass(c, ps);
    lemma_count_present_le(c2);
    if prog {
        lemma_peel_closed(c2, ps2);
    }
}

/// XOR of byte `j` of the chunks listed in `idx`, taken from `t`.
pub open spec fn xor_column(idx: Seq<usize>, t: Seq<Seq<u8>>, j: int) -> u8
    decreases idx.len(),
{
    if idx.len() == 0 {
        0
    } else {
        xor_column(idx.drop_last(), t, j) ^ t[idx.last() as int][j]
    }
}

/// The same, leaving out chunk `m`.
pub open spec fn xor_column_without(idx: Seq<usize>, t: Seq<Seq<u8>>, j: int, m: usize) -> u8
    decreases idx.len(),
{
    if idx.len() == 0 {
        0
    } else if idx.last() == m {
        xor_column_without(idx.drop_last(), t, j, m)
    } else {
        xor_column_without(idx.drop_last(), t, j, m) ^ t[idx.last() as int][j]
    }
}

/// The known slots agree with the file chunks `t`.
pub open spec fn slots_agree(c: Slots, t: Seq<Seq<u8>>) -> bool {
    &&& c.len() == t.len()
    &&& forall|i: int| 0 <= i < c.len() && (#[trigger] c[i]).is_some() ==> c[i] == Some(t[i])
}

/// A coded packet agrees with the file chunks `t`: distinct indices in
/// range, chunks as long as the payload, and the payload their XOR.
pub open spec fn packet_agrees(p: PendingView, t: Seq<Seq<u8>>) -> bool {
    &&& forall|a: int, b: int| 0 <= a < b < p.indices.len() ==> p.indices[a] != p.indices[b]
    &&& forall|k: int| 0 <= k < p.indices.len() ==> (#[trigger] p.indices[k]) < t.len()
        && t[p.indices[k] as int].len() == p.payload.len()
    &&& forall|j: int| 0 <= j < p.payload.len() ==> p.payload[j] == #[trigger] xor_column(p.indices, t, j)
}

pub open spec fn packets_agree(ps: Seq<PendingView>, t: Seq<Seq<u8>>) -> bool {
    forall|k: int| 0 <= k < ps.len() ==> packet_agrees(#[trigger] ps[k], t)
}

proof fn lemma_xor_bytes(a: u8, b: u8, c: u8)
    ensures
        (a ^ b) ^ c == (a ^ c) ^ b,
        (a ^ b) ^ c == a ^ (b ^ c),
        (a ^ b) ^ b == a,
        a ^ 0 == a,
        (a ^ b) ^ a == b,
{
    assert((a ^ b) ^ c == (a ^ c) ^ b) by (bit_vector);
    assert((a ^ b) ^ c == a ^ (b ^ c)) by (bit_vector);
    assert((a ^ b) ^ b == a) by (bit_vector);
    assert(a ^ 0 == a) by (bit_vector);
    assert((a ^ b) ^ a == b) by (bit_vector);
}

/// Leaving out `m`, which occurs at most once, takes its byte out of the XOR.
proof fn lemma_xor_column_split(idx: Seq<usize>, t: Seq<Seq<u8>>, j: int, m: usize)
    requires
        forall|a: int, b: int| 0 <= a < b < idx.len() ==> idx[a] != idx[b],
    ensures
        xor_column(idx, t, j) == if idx.contains(m) {
            xor_column_without(idx, t, j, m) ^ t[m as int][j]
        } else {
            xor_column_without(idx, t, j, m)
        },
    decreases idx.len(),
{
    if idx.len() > 0 {
        let d = idx.drop_last();
        lemma_xor_column_split(d, t, j, m);
        let last = idx.last();
        if idx.contains(m) && last != m {
            let k = choose|k: int| 0 <= k < idx.len() && idx[k] == m;
            assert(k < idx.len() - 1);
            assert(d[k] == m);
        }
        if last == m {
            assert(!d.contains(m)) by {
                if d.contains(m) {
                    let k = choose|k: int| 0 <= k < d.len() && d[k] == m;
                    assert(idx[k] == idx[idx.len() - 1]);
                }
            }
            lemma_xor_bytes(xor_column_without(d, t, j, m), t[m as int][j], 0);
        } else {
            if d.contains(m) {
                lemma_xor_bytes(xor_column_without(d, t, j, m), t[m as int][j], t[last as int][j]);
            }
            assert(d.contains(m) == idx.contains(m)) by {
                if idx.contains(m) {
                    let k = choose|k: int| 0 <= k < idx.len() && idx[k] == m;
                    assert(d[k] == m);
                }
                if d.contains(m) {
                    let k = choose|k: int| 0 <= k < d.len() && d[k] == m;
                    assert(idx[k] == m);
                }
            }
        }
    }
}

/// With every listed chunk but `m` known and agreeing with `t`, XORing the
/// known ones into `acc` XORs in their bytes.
proof fn lemma_xor_known_column(acc: Seq<u8>, idx: Seq<usize>, c: Slots, t: Seq<Seq<u8>>, m: usize)
    requires
        slots_agree(c, t),
        forall|k: int| 0 <= k < idx.len() && idx[k] != m ==> (#[trigger] idx[k]) < c.len() && c[idx[k] as int].is_some(),
        forall|k: int| 0 <= k < idx.len() ==> (#[trigger] idx[k]) < t.len() && t[idx[k] as int].len() == acc.len(),
    ensures
        xor_known(acc, idx, c, m).len() == acc.len(),
        forall|j: int| 0 <= j < acc.len() ==> #[trigger] xor_known(acc, idx, c, m)[j] == acc[j] ^ xor_column_without(idx, t, j, m),
    decreases idx.len(),
{
    if idx.len() == 0 {
        assert forall|j: int| 0 <= j < acc.len() implies #[trigger] xor_known(acc, idx, c, m)[j] == acc[j] ^ xor_column_without(idx, t, j, m) by {
            lemma_xor_bytes(acc[j], 0, 0);
        }
    } else {
        let d = idx.drop_last();
        lemma_xor_known_column(acc, d, c, t, m);
        let last = idx.last();
        let prev = xor_known(acc, d, c, m);
        if last != m {
            assert(idx[idx.len() - 1] == last);
            assert(c[last as int] == Some(t[last as int]));
            assert forall|j: int| 0 <= j < acc.len() implies #[trigger] xor_known(acc, idx, c, m)[j] == acc[j] ^ xor_column_without(idx, t, j, m) by {
                assert(prev[j] == acc[j] ^ xor_column_without(d, t, j, m));
                lemma_xor_bytes(acc[j], xor_column_without(d, t, j, m), t[last as int][j]);
            }
        }
    }
}

proof fn lemma_last_missing_listed(c: Slots, idx: Seq<usize>)
    requires
        missing_count(c, idx) > 0,
    ensures
        idx.contains(last_missing(c, idx)),
    decreases idx.len(),
{
    if is_missing(c, idx.last()) {
        assert(idx[idx.len() - 1] == idx.last());
    } else {
        lemma_last_missing_listed(c, idx.drop_last());
        let k = choose|k: int| 0 <= k < idx.drop_last().len() && idx.drop_last()[k] == last_missing(c, idx.drop_last());
        assert(idx[k] == last_missing(c, idx));
    }
}

/// With exactly one listed chunk unknown, every other listed chunk is known.
proof fn lemma_single_missing(c: Slots, idx: Seq<usize>)
    requires
        missing_count(c, idx) == 1,
        indices_in_range(idx, c.len()),
    ensures
        forall|k: int| 0 <= k < idx.len() && idx[k] != last_missing(c, idx) ==> c[#[trigger] idx[k] as int].is_some(),
    decreases idx.len(),
{
    let d = idx.drop_last();
    if is_missing(c, idx.last()) {
        assert(missing_count(c, d) == 0);
        lemma_none_missing(c, d);
        assert forall|k: int| 0 <= k < idx.len() && idx[k] != last_missing(c, idx) implies c[#[trigger] idx[k] as int].is_some() by {
            if k < idx.len() - 1 {
                assert(d[k] == idx[k]);
            }
        }
    } else {
        lemma_single_missing(c, d);
        assert forall|k: int| 0 <= k < idx.len() && idx[k] != last_missing(c, idx) implies c[#[trigger] idx[k] as int].is_some() by {
            if k < idx.len() - 1 {
                assert(d[k] == idx[k]);
            } else {
                assert(idx[k] == idx.last());
            }
        }
    }
}

proof fn lemma_none_missing(c: Slots, idx: Seq<usize>)
    requires
        missing_count(c, idx) == 0,
        indices_in_range(idx, c.len()),
    ensures
        forall|k: int| 0 <= k < idx.len() ==> c[#[trigger] idx[k] as int].is_some(),
    decreases idx.len(),
{
    if idx.len() > 0 {
        let d = idx.drop_last();
        lemma_none_missing(c, d);
        assert forall|k: int| 0 <= k < idx.len() implies c[#[trigger] idx[k] as int].is_some() by {
            if k < idx.len() - 1 {
                assert(d[k] == idx[k]);
            } else {
                assert(idx[k] == idx.last());
            }
        }
    }
}

/// Peeling one packet that agrees with `t` keeps the slots agreeing.
proof fn lemma_step_sound(c: Slots, p: PendingView, t: Seq<Seq<u8>>)
    requires
        slots_agree(c, t),
        packet_agrees(p, t),
    ensures
        slots_agree(peel_step(c, p).0, t),
{
    if missing_count(c, p.indices) == 1 {
        let m = last_missing(c, p.indices);
        assert(indices_in_range(p.indices, c.len()));
        lemma_last_missing(c, p.indices);
        lemma_last_missing_listed(c, p.indices);
        lemma_single_missing(c, p.indices);
        lemma_xor_known_column(p.payload, p.indices, c, t, m);
        let rec = xor_known(p.payload, p.indices, c, m);
        let k = choose|k: int| 0 <= k < p.indices.len() && p.indices[k] == m;
        assert(t[m as int].len() == p.payload.len());
        assert forall|j: int| 0 <= j < rec.len() implies rec[j] == t[m as int][j] by {
            lemma_xor_column_split(p.indices, t, j, m);
            lemma_xor_bytes(xor_column_without(p.indices, t, j, m), t[m as int][j], 0);
            lemma_xor_bytes(xor_column_without(p.indices, t, j, m), t[m as int][j], 0);
        }
        assert(rec =~= t[m as int]);
    }
}

/// A scan over packets agreeing with `t` keeps the slots agreeing, and the
/// packets left agree too.
proof fn lemma_pass_sound(c: Slots, ps: Seq<PendingView>, t: Seq<Seq<u8>>)
    requires
        slots_agree(c, t),
        packets_agree(ps, t),
    ensures
        slots_agree(peel_pass(c, ps).0, t),
        packets_agree(peel_pass(c, ps).1, t),
    decreases ps.len(),
{
    if ps.len() > 0 {
        lemma_step_sound(c, ps[0], t);
        let (c1, keep, prog1) = peel_step(c, ps[0]);
        assert(packets_agree(ps.drop_first(), t)) by {
            assert forall|k: int| 0 <= k < ps.drop_first().len() implies packet_agrees(#[trigger] ps.drop_first()[k], t) by {
                assert(ps.drop_first()[k] == ps[k + 1]);
            }
        }
        lemma_pass_sound(c1, ps.drop_first(), t);
        let (c2, rest, prog2) = peel_pass(c1, ps.drop_first());
        if keep {
            let out = seq![ps[0]] + rest;
            assert forall|k: int| 0 <= k < out.len() implies packet_agrees(#[trigger] out[k], t) by {
                if k > 0 {
                    assert(out[k] == rest[k - 1]);
                }
            }
        }
    }
}

/// Peeling is sound: if the known chunks and the waiting packets all agree
/// with some file `t`, every chunk peeling recovers is `t`'s chunk, and the
/// packets left still agree with `t`.
pub proof fn lemma_peel_sound(c: Slots, ps: Seq<PendingView>, t: Seq<Seq<u8>>)
    requires
        slots_agree(c, t),
        packets_agree(ps, t),
    ensures
        slots_agree(peel(c, ps).0, t),
        packets_agree(peel(c, ps).1, t),
    decreases c.len() - count_present(c),
{
    lemma_pass_sound(c, ps, t);
    let (c2, ps2, prog) = peel_pass(c, ps);
    if prog && c2.len() == c.len() && count_present(c2) > count_present(c) && count_present(c2)
        <= c.len() {
        lemma_peel_sound(c2, ps2, t);
    }
}

/// Systematic records agree with `t` where their index is in range.
pub open spec fn records_agree(recs: Seq<(usize, Seq<u8>)>, t: Seq<Seq<u8>>) -> bool {
    forall|k: int| 0 <= k < recs.len() && (#[trigger] recs[k]).0 < t.len() ==> recs[k].1 == t[recs[k].0 as int]
}

proof fn lemma_store_sound(c: Slots, recs: Seq<(usize, Seq<u8>)>, t: Seq<Seq<u8>>)
    requires
        slots_agree(c, t),
        records_agree(recs, t),
    ensures
        slots_agree(store_systematic(c, recs), t),
    decreases recs.len(),
{
    if recs.len() > 0 {
        assert(records_agree(recs.drop_last(), t)) by {
            assert forall|k: int| 0 <= k < recs.drop_last().len() && (#[trigger] recs.drop_last()[k]).0 < t.len() implies recs.drop_last()[k].1 == t[recs.drop_last()[k].0 as int] by {
                assert(recs.drop_last()[k] == recs[k]);
            }
        }
        lemma_store_sound(c, recs.drop_last(), t);
        assert(recs[recs.len() - 1] == recs.last());
    }
}

/// Decoding a file never stores a wrong chunk: if what the decoder holds and
/// the packet it takes agree with some file `t` (systematic chunks equal to
/// `t`'s, a coded payload equal to the XOR of `t`'s listed chunks), the
/// decoder still agrees with `t` afterwards.
pub proof fn lemma_add_packet_sound(d: DecoderView, p: DataPacketView, t: Seq<Seq<u8>>)
    requires
        slots_agree(d.chunks, t),
        packets_agree(d.pending, t),
        records_agree(p.systematic, t),
        p.xor_data.is_some() ==> packet_agrees(
            PendingView { indices: p.source_chunks, payload: p.xor_data.unwrap() },
            t,
        ),
    ensures
        slots_agree(add_packet_spec(d, p).0.chunks, t),
        packets_agree(add_packet_spec(d, p).0.pending, t),
{
    if d.meta.is_some() {
        if p.systematic.len() > 0 {
            lemma_store_sound(d.chunks, p.systematic, t);
            lemma_peel_sound(store_systematic(d.chunks, p.systematic), d.pending, t);
        } else if p.xor_data.is_some() {
            let ps1 = d.pending.push(PendingView { indices: p.source_chunks, payload: p.xor_data.unwrap() });
            assert(packets_agree(ps1, t)) by {
                assert forall|k: int| 0 <= k < ps1.len() implies packet_agrees(#[trigger] ps1[k], t) by {
                    if k < d.pending.len() {
                        assert(ps1[k] == d.pending[k]);
                    }
                }
            }
            lemma_peel_sound(d.chunks, ps1, t);
        }
    }
}

} // verus!
