//! The decoder of one file: systematic chunks are stored as they come,
//! coded packets wait until all but one of their chunks are known, and the
//! missing one is then peeled off their XOR.

use vstd::prelude::*;
use crate::checksum::{calculate_checksum, file_checksum_text};
use crate::packet::{
    opt_string_view, chunks_view, opt_bytes_view, DataPacket, DataPacketView, FileMetadata, MetadataView,
    SystematicChunk,
};

verus! {

// ---------------------------------------------------------------------------
// Model

/// A coded packet waiting for its chunks: distinct source indices and the XOR
/// of those chunks.
pub struct PendingView {
    pub indices: Seq<usize>,
    pub payload: Seq<u8>,
}

/// Chunk slots of a file: `Some` where the chunk is known.
pub type Slots = Seq<Option<Seq<u8>>>;

/// Number of known chunks.
pub open spec fn count_present(c: Slots) -> nat
    decreases c.len(),
{
    if c.len() == 0 {
        0
    } else {
        count_present(c.drop_last()) + if c.last().is_some() {
            1nat
        } else {
            0nat
        }
    }
}

/// Byte-wise XOR of `d` into `acc`, over the bytes both have.
pub open spec fn xor_into(acc: Seq<u8>, d: Seq<u8>) -> Seq<u8> {
    Seq::new(acc.len(), |j: int| if j < d.len() { acc[j] ^ d[j] } else { acc[j] })
}

/// `acc` with every known chunk listed in `idx`, other than `m`, XORed in, in
/// list order.
pub open spec fn xor_known(acc: Seq<u8>, idx: Seq<usize>, c: Slots, m: usize) -> Seq<u8>
    decreases idx.len(),
{
    if idx.len() == 0 {
        acc
    } else {
        let prev = xor_known(acc, idx.drop_last(), c, m);
        let i = idx.last();
        if i != m && 0 <= i < c.len() && c[i as int].is_some() {
            xor_into(prev, c[i as int].unwrap())
        } else {
            prev
        }
    }
}

pub open spec fn is_missing(c: Slots, i: usize) -> bool {
    0 <= i < c.len() && c[i as int].is_none()
}

/// How many of the listed chunks are still unknown.
pub open spec fn missing_count(c: Slots, idx: Seq<usize>) -> nat
    decreases idx.len(),
{
    if idx.len() == 0 {
        0
    } else {
        missing_count(c, idx.drop_last()) + if is_missing(c, idx.last()) {
            1nat
        } else {
            0nat
        }
    }
}

/// The last listed chunk that is still unknown.
pub open spec fn last_missing(c: Slots, idx: Seq<usize>) -> usize
    decreases idx.len(),
{
    if idx.len() == 0 {
        0
    } else if is_missing(c, idx.last()) {
        idx.last()
    } else {
        last_missing(c, idx.drop_last())
    }
}

/// What peeling does with one waiting packet: the new slots, whether the
/// packet keeps waiting, and whether a chunk was recovered.
pub open spec fn peel_step(c: Slots, p: PendingView) -> (Slots, bool, bool) {
    let k = missing_count(c, p.indices);
    if k == 0 {
        (c, false, false)
    } else if k == 1 {
        let m = last_missing(c, p.indices);
        (c.update(m as int, Some(xor_known(p.payload, p.indices, c, m))), false, true)
    } else {
        (c, true, false)
    }
}

/// One scan over the waiting packets, in order: the new slots, the packets
/// still waiting, and whether any chunk was recovered.
pub open spec fn peel_pass(c: Slots, ps: Seq<PendingView>) -> (Slots, Seq<PendingView>, bool)
    decreases ps.len(),
{
    if ps.len() == 0 {
        (c, Seq::empty(), false)
    } else {
        let (c1, keep, prog1) = peel_step(c, ps[0]);
        let (c2, rest, prog2) = peel_pass(c1, ps.drop_first());
        (c2, if keep {
            seq![ps[0]] + rest
        } else {
            rest
        }, prog1 || prog2)
    }
}

/// Scans repeated until one recovers nothing.
pub open spec fn peel(c: Slots, ps: Seq<PendingView>) -> (Slots, Seq<PendingView>)
    decreases c.len() - count_present(c),
{
    let (c2, ps2, prog) = peel_pass(c, ps);
    if prog && c2.len() == c.len() && count_present(c2) > count_present(c) && count_present(c2) <= c.len() {
        peel(c2, ps2)
    } else {
        (c2, ps2)
    }
}

/// Number of scans that recover something before peeling stops.
pub open spec fn peel_rounds(c: Slots, ps: Seq<PendingView>) -> nat
    decreases c.len() - count_present(c),
{
    let (c2, ps2, prog) = peel_pass(c, ps);
    if prog && c2.len() == c.len() && count_present(c2) > count_present(c) && count_present(c2) <= c.len() {
        1 + peel_rounds(c2, ps2)
    } else {
        0
    }
}

/// Systematic chunks stored where the index is in range and the slot empty.
pub open spec fn store_systematic(c: Slots, recs: Seq<(usize, Seq<u8>)>) -> Slots
    decreases recs.len(),
{
    if recs.len() == 0 {
        c
    } else {
        let prev = store_systematic(c, recs.drop_last());
        let (i, d) = recs.last();
        if i < prev.len() && prev[i as int].is_none() {
            prev.update(i as int, Some(d))
        } else {
            prev
        }
    }
}

pub open spec fn indices_in_range(idx: Seq<usize>, n: nat) -> bool {
    forall|k: int| 0 <= k < idx.len() ==> idx[k] < n
}

pub open spec fn all_pending_in_range(ps: Seq<PendingView>, n: nat) -> bool {
    forall|k: int| 0 <= k < ps.len() ==> indices_in_range(#[trigger] ps[k].indices, n)
}

/// State of one file's decoder.
pub struct DecoderView {
    pub meta: Option<MetadataView>,
    pub chunks: Slots,
    pub pending: Seq<PendingView>,
}

/// Decoder state after a data packet; also whether the packet was taken.
pub open spec fn add_packet_spec(d: DecoderView, p: DataPacketView) -> (DecoderView, bool) {
    if d.meta.is_none() {
        (d, false)
    } else if p.systematic.len() > 0 {
        let c1 = store_systematic(d.chunks, p.systematic);
        let (c2, ps2) = peel(c1, d.pending);
        (DecoderView { meta: d.meta, chunks: c2, pending: ps2 }, true)
    } else {
        match p.xor_data {
            Some(x) => if indices_in_range(p.source_chunks, d.chunks.len()) {
                let ps1 = d.pending.push(PendingView { indices: p.source_chunks, payload: x });
                let (c2, ps2) = peel(d.chunks, ps1);
                (DecoderView { meta: d.meta, chunks: c2, pending: ps2 }, true)
            } else {
                (d, false)
            },
            None => (d, true),
        }
    }
}

/// Indices below `n` whose chunk is unknown, ascending.
pub open spec fn missing_indices(c: Slots, n: nat) -> Seq<usize>
    decreases n,
{
    if n == 0 {
        Seq::empty()
    } else {
        let prev = missing_indices(c, (n - 1) as nat);
        if c[n - 1].is_none() {
            prev.push((n - 1) as usize)
        } else {
            prev
        }
    }
}

/// All chunks of the file known.
pub open spec fn all_present(c: Slots) -> bool {
    forall|i: int| 0 <= i < c.len() ==> (#[trigger] c[i]).is_some()
}

/// The chunks concatenated in index order (unknown ones contribute nothing).
pub open spec fn concat_chunks(c: Slots) -> Seq<u8>
    decreases c.len(),
{
    if c.len() == 0 {
        Seq::empty()
    } else {
        concat_chunks(c.drop_last()) + match c.last() {
            Some(d) => d,
            None => Seq::empty(),
        }
    }
}

/// The file's bytes: the chunks in order, cut to the declared size.
pub open spec fn file_bytes(c: Slots, size: nat) -> Seq<u8> {
    let all = concat_chunks(c);
    if all.len() <= size {
        all
    } else {
        all.subrange(0, size as int)
    }
}

// ---------------------------------------------------------------------------
// Lemmas on the model

pub proof fn lemma_count_present_le(c: Slots)
    ensures
        count_present(c) <= c.len(),
    decreases c.len(),
{
    if c.len() > 0 {
        lemma_count_present_le(c.drop_last());
    }
}

/// Filling an empty slot adds one known chunk.
pub proof fn lemma_count_present_fill(c: Slots, m: int, x: Seq<u8>)
    requires
        0 <= m < c.len(),
        c[m].is_none(),
    ensures
        count_present(c.update(m, Some(x))) == count_present(c) + 1,
    decreases c.len(),
{
    let u = c.update(m, Some(x));
    if m == c.len() - 1 {
        assert(u.drop_last() =~= c.drop_last());
    } else {
        assert(u.drop_last() =~= c.drop_last().update(m, Some(x)));
        lemma_count_present_fill(c.drop_last(), m, x);
    }
}

pub proof fn lemma_last_missing(c: Slots, idx: Seq<usize>)
    requires
        missing_count(c, idx) > 0,
    ensures
        is_missing(c, last_missing(c, idx)),
    decreases idx.len(),
{
    if !is_missing(c, idx.last()) {
        lemma_last_missing(c, idx.drop_last());
    }
}

/// A scan keeps the slot count, never loses a chunk, gains one whenever it
/// reports progress, and keeps waiting packets in range.
pub proof fn lemma_peel_pass(c: Slots, ps: Seq<PendingView>)
    requires
        all_pending_in_range(ps, c.len()),
    ensures
        ({
            let (c2, ps2, prog) = peel_pass(c, ps);
            &&& c2.len() == c.len()
            &&& count_present(c2) >= count_present(c)
            &&& prog ==> count_present(c2) > count_present(c)
            &&& all_pending_in_range(ps2, c.len())
        }),
    decreases ps.len(),
{
    if ps.len() > 0 {
        let p = ps[0];
        let (c1, keep, prog1) = peel_step(c, p);
        let k = missing_count(c, p.indices);
        if k == 1 {
            let m = last_missing(c, p.indices);
            lemma_last_missing(c, p.indices);
            lemma_count_present_fill(c, m as int, xor_known(p.payload, p.indices, c, m));
        }
        assert(all_pending_in_range(ps.drop_first(), c.len())) by {
            assert forall|q: int| 0 <= q < ps.drop_first().len() implies indices_in_range(
                #[trigger] ps.drop_first()[q].indices,
                c.len(),
            ) by {
                assert(ps.drop_first()[q] == ps[q + 1]);
            }
        }
        lemma_peel_pass(c1, ps.drop_first());
        let (c2, rest, prog2) = peel_pass(c1, ps.drop_first());
        if keep {
            let out = seq![ps[0]] + rest;
            assert forall|q: int| 0 <= q < out.len() implies indices_in_range(
                #[trigger] out[q].indices,
                c.len(),
            ) by {
                if q > 0 {
                    assert(out[q] == rest[q - 1]);
                }
            }
        }
    }
}

/// When a scan reports progress, peeling goes on from its result.
pub proof fn lemma_peel_unfold(c: Slots, ps: Seq<PendingView>)
    requires
        all_pending_in_range(ps, c.len()),
    ensures
        ({
            let (c2, ps2, prog) = peel_pass(c, ps);
            &&& prog ==> peel(c, ps) == peel(c2, ps2)
            &&& !prog ==> peel(c, ps) == (c2, ps2)
        }),
{
    lemma_peel_pass(c, ps);
    let (c2, ps2, prog) = peel_pass(c, ps);
    lemma_count_present_le(c2);
}

// ---------------------------------------------------------------------------
// Executable decoder

/// A coded packet waiting for its chunks.
pub struct PendingPacket {
    pub indices: Vec<usize>,
    pub payload: Vec<u8>,
}

impl View for PendingPacket {
    type V = PendingView;

    open spec fn view(&self) -> PendingView {
        PendingView { indices: self.indices@, payload: self.payload@ }
    }
}

/// Decoder of one file.
pub struct FountainDecoder {
    initialized: bool,
    meta_data: Option<FileMetadata>,
    total_chunks: usize,
    slots: Vec<Option<Vec<u8>>>,
    recovered_chunk_count: usize,
    coded_packets: Vec<PendingPacket>,
}

pub open spec fn opt_meta_view(m: Option<FileMetadata>) -> Option<MetadataView> {
    match m {
        Some(v) => Some(v@),
        None => None,
    }
}

pub open spec fn slots_view(slots: Seq<Option<Vec<u8>>>, total: nat) -> Slots {
    Seq::new(total, |i: int| if i < slots.len() { opt_bytes_view(slots[i]) } else { None })
}

pub open spec fn pending_view(ps: Seq<PendingPacket>) -> Seq<PendingView> {
    Seq::new(ps.len(), |k: int| ps[k]@)
}

impl View for FountainDecoder {
    type V = DecoderView;

    closed spec fn view(&self) -> DecoderView {
        DecoderView {
            meta: opt_meta_view(self.meta_data),
            chunks: slots_view(self.slots@, self.total_chunks as nat),
            pending: pending_view(self.coded_packets@),
        }
    }
}

fn copy_bytes(v: &Vec<u8>) -> (r: Vec<u8>)
    ensures
        r@ == v@,
{
    let mut out: Vec<u8> = Vec::new();
    let mut i: usize = 0;
    while i < v.len()
        invariant
            i <= v@.len(),
            out@ == v@.subrange(0, i as int),
        decreases v@.len() - i,
    {
        out.push(v[i]);
        i = i + 1;
        assert(out@ =~= v@.subrange(0, i as int));
    }
    assert(v@.subrange(0, v@.len() as int) =~= v@);
    out
}

impl FountainDecoder {
    pub closed spec fn wf(&self) -> bool {
        &&& self.initialized == self.meta_data.is_some()
        &&& (self.meta_data.is_some() ==> self.total_chunks == self.meta_data.unwrap().chunks_count)
        &&& (!self.initialized ==> self.total_chunks == 0 && self.coded_packets@.len() == 0)
        &&& self.slots@.len() <= self.total_chunks
        &&& self.recovered_chunk_count == count_present(self@.chunks)
        &&& all_pending_in_range(self@.pending, self.total_chunks as nat)
    }

    /// A decoder with no file yet: it takes no data packet.
    pub fn new() -> (r: Self)
        ensures
            r.wf(),
            r@.meta.is_none(),
            r@.chunks.len() == 0,
            r@.pending.len() == 0,
    {
        let r = FountainDecoder {
            initialized: false,
            meta_data: None,
            total_chunks: 0,
            slots: Vec::new(),
            recovered_chunk_count: 0,
            coded_packets: Vec::new(),
        };
        proof {
            assert(r@.chunks =~= Seq::empty());
            assert(r@.pending =~= Seq::empty());
        }
        r
    }

    /// Starts decoding the file `metadata` describes, forgetting all else.
    pub fn initialize(&mut self, metadata: FileMetadata)
        ensures
            final(self).wf(),
            final(self)@.meta == Some(metadata@),
            final(self)@.chunks == Seq::new(metadata.chunks_count as nat, |i: int| None::<Seq<u8>>),
            final(self)@.pending.len() == 0,
    {
        let count = metadata.chunks_count;
        self.initialized = true;
        self.meta_data = Some(metadata);
        self.total_chunks = count;
        self.slots = Vec::new();
        self.recovered_chunk_count = 0;
        self.coded_packets = Vec::new();
        proof {
            assert(self@.chunks =~= Seq::new(count as nat, |i: int| None::<Seq<u8>>));
            assert(self@.pending =~= Seq::empty());
            lemma_count_present_none(count as nat);
        }
    }

    /// The file's metadata, once initialized.
    pub fn metadata(&self) -> (r: Option<&FileMetadata>)
        ensures
            opt_meta_view(match r {
                Some(m) => Some(*m),
                None => None,
            }) == self@.meta,
    {
        self.meta_data.as_ref()
    }

    /// Number of chunks known so far.
    pub fn recovered_chunk_count(&self) -> (r: usize)
        requires
            self.wf(),
        ensures
            r == count_present(self@.chunks),
    {
        self.recovered_chunk_count
    }

    /// Number of coded packets still waiting.
    pub fn pending_count(&self) -> (r: usize)
        ensures
            r == self@.pending.len(),
    {
        self.coded_packets.len()
    }

    fn chunk_at(&self, i: usize) -> (r: Option<&Vec<u8>>)
        requires
            i < self.total_chunks,
        ensures
            opt_bytes_view(match r {
                Some(v) => Some(*v),
                None => None,
            }) == self@.chunks[i as int],
    {
        if i < self.slots.len() {
            self.slots[i].as_ref()
        } else {
            None
        }
    }

    /// Stores chunk `i`, which was unknown.
    fn store(&mut self, i: usize, data: Vec<u8>)
        requires
            old(self).wf(),
            i < old(self).total_chunks,
            old(self)@.chunks[i as int].is_none(),
        ensures
            final(self).wf(),
            final(self)@.chunks == old(self)@.chunks.update(i as int, Some(data@)),
            final(self)@.pending == old(self)@.pending,
            final(self)@.meta == old(self)@.meta,
            final(self).total_chunks == old(self).total_chunks,
    {
        let ghost before = self@.chunks;
        while self.slots.len() <= i
            invariant
                self.wf(),
                i < self.total_chunks,
                self@.chunks == before,
                self@.pending == old(self)@.pending,
                self@.meta == old(self)@.meta,
                self.total_chunks == old(self).total_chunks,
            decreases self.total_chunks - self.slots@.len(),
        {
            self.slots.push(None);
            assert(self@.chunks =~= before);
        }
        self.slots.set(i, Some(data));
        proof {
            assert(self@.chunks =~= before.update(i as int, Some(data@)));
            lemma_count_present_fill(before, i as int, data@);
            lemma_count_present_le(self@.chunks);
        }
        self.recovered_chunk_count = self.recovered_chunk_count + 1;
    }

    /// How many chunks of waiting packet `k` are unknown (up to two), and the
    /// last of them.
    fn missing_of(&self, k: usize) -> (r: (usize, usize))
        requires
            self.wf(),
            k < self@.pending.len(),
        ensures
            r.0 == if missing_count(self@.chunks, self@.pending[k as int].indices) >= 2 {
                2
            } else {
                missing_count(self@.chunks, self@.pending[k as int].indices)
            },
            r.0 == 1 ==> r.1 == last_missing(self@.chunks, self@.pending[k as int].indices),
    {
        let ghost c = self@.chunks;
        let ghost idx = self@.pending[k as int].indices;
        let indices = &self.coded_packets[k].indices;
        assert(indices@ == idx);
        assert(indices_in_range(idx, self.total_chunks as nat));
        let mut count: usize = 0;
        let mut last: usize = 0;
        let mut t: usize = 0;
        while t < indices.len()
            invariant
                self.wf(),
                t <= idx.len(),
                indices@ == idx,
                c == self@.chunks,
                indices_in_range(idx, self.total_chunks as nat),
                count == if missing_count(c, idx.subrange(0, t as int)) >= 2 {
                    2
                } else {
                    missing_count(c, idx.subrange(0, t as int))
                },
                missing_count(c, idx.subrange(0, t as int)) > 0 ==> last == last_missing(
                    c,
                    idx.subrange(0, t as int),
                ),
            decreases idx.len() - t,
        {
            let i = indices[t];
            let present = self.chunk_at(i).is_some();
            proof {
                let p = idx.subrange(0, t + 1);
                assert(p.drop_last() =~= idx.subrange(0, t as int));
                assert(p.last() == i);
            }
            if !present {
                last = i;
                if count < 2 {
                    count = count + 1;
                }
            }
            t = t + 1;
        }
        assert(idx.subrange(0, idx.len() as int) =~= idx);
        (count, last)
    }

    /// The XOR of waiting packet `k` with its known chunks other than `m`.
    fn recover(&self, k: usize, m: usize) -> (r: Vec<u8>)
        requires
            self.wf(),
            k < self@.pending.len(),
        ensures
            r@ == xor_known(self@.pending[k as int].payload, self@.pending[k as int].indices, self@.chunks, m),
    {
        let ghost c = self@.chunks;
        let ghost idx = self@.pending[k as int].indices;
        let ghost pay = self@.pending[k as int].payload;
        let packet = &self.coded_packets[k];
        assert(packet.indices@ == idx && packet.payload@ == pay);
        assert(indices_in_range(idx, self.total_chunks as nat));
        let mut acc = copy_bytes(&packet.payload);
        let mut t: usize = 0;
        while t < packet.indices.len()
            invariant
                self.wf(),
                t <= idx.len(),
                packet.indices@ == idx,
                c == self@.chunks,
                indices_in_range(idx, self.total_chunks as nat),
                acc@ == xor_known(pay, idx.subrange(0, t as int), c, m),
            decreases idx.len() - t,
        {
            let i = packet.indices[t];
            proof {
                let p = idx.subrange(0, t + 1);
                assert(p.drop_last() =~= idx.subrange(0, t as int));
                assert(p.last() == i);
            }
            if i != m {
                match self.chunk_at(i) {
                    Some(d) => {
                        let ghost prev = acc@;
                        let mut j: usize = 0;
                        while j < acc.len() && j < d.len()
                            invariant
                                j <= acc@.len() == prev.len(),
                                acc@ == Seq::new(
                                    prev.len(),
                                    |q: int|
                                        if q < j && q < d@.len() {
                                            prev[q] ^ d@[q]
                                        } else {
                                            prev[q]
                                        },
                                ),
                            decreases prev.len() - j,
                        {
                            let v = acc[j] ^ d[j];
                            acc.set(j, v);
                            j = j + 1;
                            assert(acc@ =~= Seq::new(
                                prev.len(),
                                |q: int|
                                    if q < j && q < d@.len() {
                                        prev[q] ^ d@[q]
                                    } else {
                                        prev[q]
                                    },
                            ));
                        }
                        assert(acc@ =~= xor_into(prev, d@));
                    },
                    None => {},
                }
            }
            t = t + 1;
        }
        assert(idx.subrange(0, idx.len() as int) =~= idx);
        acc
    }

    fn drop_pending(&mut self, i: usize)
        requires
            old(self).wf(),
            i < old(self)@.pending.len(),
        ensures
            final(self).wf(),
            final(self)@.pending == old(self)@.pending.remove(i as int),
            final(self)@.chunks == old(self)@.chunks,
            final(self)@.meta == old(self)@.meta,
            final(self).total_chunks == old(self).total_chunks,
    {
        let ghost before = self@.pending;
        self.coded_packets.remove(i);
        proof {
            assert(self@.pending =~= before.remove(i as int));
            assert forall|q: int| 0 <= q < self@.pending.len() implies indices_in_range(
                #[trigger] self@.pending[q].indices,
                self.total_chunks as nat,
            ) by {
                if q < i {
                    assert(self@.pending[q] == before[q]);
                } else {
                    assert(self@.pending[q] == before[q + 1]);
                }
            }
        }
    }

    /// One scan over the waiting packets; whether a chunk was recovered.
    fn peel_pass_exec(&mut self) -> (progress: bool)
        requires
            old(self).wf(),
        ensures
            final(self).wf(),
            (final(self)@.chunks, final(self)@.pending, progress) == peel_pass(
                old(self)@.chunks,
                old(self)@.pending,
            ),
            final(self)@.meta == old(self)@.meta,
            final(self).total_chunks == old(self).total_chunks,
    {
        let ghost c0 = self@.chunks;
        let ghost p0 = self@.pending;
        let ghost mut j: int = 0;
        let mut i: usize = 0;
        let mut progress = false;
        proof {
            assert(p0.subrange(0, p0.len() as int) =~= p0);
            assert(self@.pending.subrange(0, 0) =~= Seq::<PendingView>::empty());
        }
        while i < self.coded_packets.len()
            invariant
                self.wf(),
                0 <= j <= p0.len(),
                i <= self@.pending.len(),
                self@.meta == old(self)@.meta,
                self.total_chunks == old(self).total_chunks,
                self@.pending == self@.pending.subrange(0, i as int) + p0.subrange(j, p0.len() as int),
                peel_pass(c0, p0) == ({
                    let (c2, rest, later) = peel_pass(self@.chunks, p0.subrange(j, p0.len() as int));
                    (c2, self@.pending.subrange(0, i as int) + rest, progress || later)
                }),
            decreases self@.pending.len() - i,
        {
            let ghost cur = self@.chunks;
            let ghost tail = p0.subrange(j, p0.len() as int);
            let ghost kept = self@.pending.subrange(0, i as int);
            proof {
                assert(tail.len() > 0);
                assert(tail[0] == self@.pending[i as int]);
                assert(tail.drop_first() =~= p0.subrange(j + 1, p0.len() as int));
            }
            let (count, last) = self.missing_of(i);
            if count == 0 {
                self.drop_pending(i);
                proof {
                    assert(self@.pending =~= kept + p0.subrange(j + 1, p0.len() as int));
                    assert(self@.pending.subrange(0, i as int) =~= kept);
                    j = j + 1;
                }
            } else if count == 1 {
                let data = self.recover(i, last);
                proof {
                    lemma_last_missing(cur, tail[0].indices);
                }
                self.store(last, data);
                self.drop_pending(i);
                progress = true;
                proof {
                    assert(self@.pending =~= kept + p0.subrange(j + 1, p0.len() as int));
                    assert(self@.pending.subrange(0, i as int) =~= kept);
                    j = j + 1;
                }
            } else {
                proof {
                    let (c2, rest, later) = peel_pass(cur, tail.drop_first());
                    assert(kept + (seq![tail[0]] + rest) =~= kept.push(tail[0]) + rest);
                    assert(self@.pending.subrange(0, i + 1) =~= kept.push(tail[0]));
                    assert(self@.pending =~= self@.pending.subrange(0, i + 1) + p0.subrange(
                        j + 1,
                        p0.len() as int,
                    ));
                    j = j + 1;
                }
                i = i + 1;
            }
        }
        proof {
            assert(p0.subrange(j, p0.len() as int) =~= Seq::<PendingView>::empty());
            assert(self@.pending.subrange(0, i as int) + Seq::<PendingView>::empty() =~= self@.pending);
        }
        progress
    }

    /// Peels until a scan recovers nothing.
    fn peel_exec(&mut self)
        requires
            old(self).wf(),
        ensures
            final(self).wf(),
            (final(self)@.chunks, final(self)@.pending) == peel(old(self)@.chunks, old(self)@.pending),
            final(self)@.meta == old(self)@.meta,
            final(self).total_chunks == old(self).total_chunks,
    {
        let ghost goal = peel(self@.chunks, self@.pending);
        loop
            invariant_except_break
                goal == peel(self@.chunks, self@.pending),
            invariant
                self.wf(),
                self@.meta == old(self)@.meta,
                self.total_chunks == old(self).total_chunks,
            ensures
                goal == (self@.chunks, self@.pending),
            decreases self@.chunks.len() - count_present(self@.chunks),
        {
            let ghost c = self@.chunks;
            let ghost ps = self@.pending;
            proof {
                lemma_peel_unfold(c, ps);
                lemma_peel_pass(c, ps);
                lemma_count_present_le(c);
            }
            let progress = self.peel_pass_exec();
            proof {
                let (c2, ps2, prog) = peel_pass(c, ps);
                assert(self@.chunks == c2);
                assert(self@.pending == ps2);
                assert(progress == prog);
                lemma_count_present_le(self@.chunks);
            }
            if !progress {
                break;
            }
        }
    }

    /// Stores the systematic chunks of `recs` that are in range and new.
    fn store_all(&mut self, recs: &Vec<SystematicChunk>)
        requires
            old(self).wf(),
        ensures
            final(self).wf(),
            final(self)@.chunks == store_systematic(old(self)@.chunks, chunks_view(recs@)),
            final(self)@.pending == old(self)@.pending,
            final(self)@.meta == old(self)@.meta,
            final(self).total_chunks == old(self).total_chunks,
    {
        let ghost c0 = self@.chunks;
        let ghost rv = chunks_view(recs@);
        let mut t: usize = 0;
        while t < recs.len()
            invariant
                self.wf(),
                t <= rv.len(),
                rv == chunks_view(recs@),
                self@.chunks == store_systematic(c0, rv.subrange(0, t as int)),
                self@.pending == old(self)@.pending,
                self@.meta == old(self)@.meta,
                self.total_chunks == old(self).total_chunks,
            decreases rv.len() - t,
        {
            proof {
                let p = rv.subrange(0, t + 1);
                assert(p.drop_last() =~= rv.subrange(0, t as int));
                assert(p.last() == rv[t as int]);
            }
            let index = recs[t].chunk_index;
            if index < self.total_chunks {
                if self.chunk_at(index).is_none() {
                    let data = copy_bytes(&recs[t].chunk_data);
                    self.store(index, data);
                }
            }
            t = t + 1;
        }
        assert(rv.subrange(0, rv.len() as int) =~= rv);
    }

    /// Takes a data packet for this file: systematic chunks are stored,
    /// coded packets queued, and peeling run. Returns whether the packet was
    /// taken: not before `initialize`, nor a coded packet naming a chunk
    /// beyond the file.
    pub fn add_packet(&mut self, packet: DataPacket) -> (r: bool)
        requires
            old(self).wf(),
        ensures
            final(self).wf(),
            (final(self)@, r) == add_packet_spec(old(self)@, packet@),
            final(self)@.meta == old(self)@.meta,
    {
        if !self.initialized {
            return false;
        }
        let ghost d0 = self@;
        if packet.systematic_data_chunks.len() > 0 {
            self.store_all(&packet.systematic_data_chunks);
            self.peel_exec();
            proof {
                assert(self@ == DecoderView { meta: d0.meta, chunks: self@.chunks, pending: self@.pending });
            }
            return true;
        }
        match packet.xor_data {
            Some(x) => {
                let mut t: usize = 0;
                while t < packet.source_chunks.len()
                    invariant
                        self.wf(),
                        self@ == d0,
                        old(self)@ == d0,
                        d0.chunks.len() == self.total_chunks,
                        packet@.systematic.len() == 0,
                        d0.meta.is_some(),
                        packet@.xor_data == Some(x@),
                        t <= packet.source_chunks@.len(),
                        forall|q: int| 0 <= q < t ==> packet.source_chunks@[q] < self.total_chunks,
                    decreases packet.source_chunks@.len() - t,
                {
                    if packet.source_chunks[t] >= self.total_chunks {
                        proof {
                            assert(packet@.source_chunks[t as int] >= d0.chunks.len());
                            assert(!indices_in_range(packet@.source_chunks, d0.chunks.len()));
                            assert(add_packet_spec(d0, packet@) == (d0, false));
                        }
                        return false;
                    }
                    t = t + 1;
                }
                let ghost pv = PendingView { indices: packet.source_chunks@, payload: x@ };
                self.coded_packets.push(PendingPacket { indices: packet.source_chunks, payload: x });
                proof {
                    assert(self@.pending =~= d0.pending.push(pv));
                    assert(all_pending_in_range(self@.pending, self.total_chunks as nat)) by {
                        assert forall|q: int| 0 <= q < self@.pending.len() implies indices_in_range(
                            #[trigger] self@.pending[q].indices,
                            self.total_chunks as nat,
                        ) by {
                            if q < d0.pending.len() {
                                assert(self@.pending[q] == d0.pending[q]);
                            }
                        }
                    }
                }
                self.peel_exec();
                proof {
                    assert(self@ == DecoderView { meta: d0.meta, chunks: self@.chunks, pending: self@.pending });
                }
                true
            },
            None => true,
        }
    }

    /// Indices of the chunks still unknown, ascending.
    pub fn missing_chunks(&self) -> (r: Vec<usize>)
        requires
            self.wf(),
        ensures
            r@ == missing_indices(self@.chunks, self@.chunks.len()),
    {
        let mut out: Vec<usize> = Vec::new();
        let mut i: usize = 0;
        while i < self.total_chunks
            invariant
                self.wf(),
                i <= self.total_chunks,
                out@ == missing_indices(self@.chunks, i as nat),
            decreases self.total_chunks - i,
        {
            if self.chunk_at(i).is_none() {
                out.push(i);
            }
            i = i + 1;
        }
        out
    }

    /// Whether every chunk of the file is known.
    pub fn is_complete(&self) -> (r: bool)
        requires
            self.wf(),
        ensures
            r == all_present(self@.chunks),
    {
        proof {
            lemma_complete_iff(self@.chunks);
        }
        self.recovered_chunk_count >= self.total_chunks
    }

    /// The checksum text the transmitter computes for `data`.
    pub fn calculate_checksum(&self, data: &[u8]) -> (r: String)
        ensures
            r@ == file_checksum_text(data@),
    {
        calculate_checksum(data)
    }

    /// The known chunks in index order, cut to the declared file size.
    pub fn assemble(&self) -> (r: Vec<u8>)
        requires
            self.wf(),
            self@.meta.is_some(),
        ensures
            r@ == file_bytes(self@.chunks, self@.meta.unwrap().file_size as nat),
    {
        let ghost c = self@.chunks;
        let mut out: Vec<u8> = Vec::new();
        let mut i: usize = 0;
        while i < self.total_chunks
            invariant
                self.wf(),
                c == self@.chunks,
                i <= self.total_chunks,
                out@ == concat_chunks(c.subrange(0, i as int)),
            decreases self.total_chunks - i,
        {
            proof {
                let p = c.subrange(0, i + 1);
                assert(p.drop_last() =~= c.subrange(0, i as int));
                assert(p.last() == c[i as int]);
            }
            match self.chunk_at(i) {
                Some(d) => {
                    let mut j: usize = 0;
                    let ghost before = out@;
                    while j < d.len()
                        invariant
                            j <= d@.len(),
                            out@ == before + d@.subrange(0, j as int),
                        decreases d@.len() - j,
                    {
                        out.push(d[j]);
                        j = j + 1;
                        assert(out@ =~= before + d@.subrange(0, j as int));
                    }
                    assert(d@.subrange(0, d@.len() as int) =~= d@);
                },
                None => {
                    assert(out@ =~= out@ + Seq::<u8>::empty());
                },
            }
            i = i + 1;
        }
        assert(c.subrange(0, c.len() as int) =~= c);
        let size = match &self.meta_data {
            Some(m) => m.file_size,
            None => 0,
        };
        if out.len() > size {
            out.truncate(size);
        }
        out
    }
}

proof fn lemma_count_present_none(n: nat)
    ensures
        count_present(Seq::new(n, |i: int| None::<Seq<u8>>)) == 0,
    decreases n,
{
    if n > 0 {
        assert(Seq::new(n, |i: int| None::<Seq<u8>>).drop_last() =~= Seq::new(
            (n - 1) as nat,
            |i: int| None::<Seq<u8>>,
        ));
        lemma_count_present_none((n - 1) as nat);
    }
}

/// All chunks are known exactly when the count of known chunks is full.
pub proof fn lemma_complete_iff(c: Slots)
    ensures
        all_present(c) <==> count_present(c) >= c.len(),
    decreases c.len(),
{
    lemma_count_present_le(c);
    if c.len() > 0 {
        lemma_complete_iff(c.drop_last());
        lemma_count_present_le(c.drop_last());
        if all_present(c) {
            assert(all_present(c.drop_last())) by {
                assert forall|i: int| 0 <= i < c.drop_last().len() implies (
                #[trigger] c.drop_last()[i]).is_some() by {
                    assert(c.drop_last()[i] == c[i]);
                }
            }
            assert(c[c.len() - 1].is_some());
        }
        if count_present(c) >= c.len() {
            assert forall|i: int| 0 <= i < c.len() implies (#[trigger] c[i]).is_some() by {
                if i < c.len() - 1 {
                    assert(c.drop_last()[i] == c[i]);
                }
            }
        }
    }
}

// ---------------------------------------------------------------------------
// Completion

/// What becomes of a complete file.
pub enum FileOutcome {
    /// The file passed its checks; `data` is to be written under
    /// `file_name`. `file_checksum` is the metadata checksum it matched.
    Reconstructed { file_name: String, data: Vec<u8>, file_checksum: Option<String> },
    /// The metadata checksum disagrees with the bytes; nothing is written.
    ChecksumMismatch { file_name: String, expected: String, actual: String },
    /// A JPEG file lacks its start or end marker; nothing is written.
    StructureMismatch { file_name: String },
}

pub enum OutcomeView {
    Reconstructed { file_name: Seq<char>, data: Seq<u8>, file_checksum: Option<Seq<char>> },
    ChecksumMismatch { file_name: Seq<char>, expected: Seq<char>, actual: Seq<char> },
    StructureMismatch { file_name: Seq<char> },
}

impl View for FileOutcome {
    type V = OutcomeView;

    open spec fn view(&self) -> OutcomeView {
        match self {
            FileOutcome::Reconstructed { file_name, data, file_checksum } =>
                OutcomeView::Reconstructed {
                file_name: file_name@,
                data: data@,
                file_checksum: opt_string_view(*file_checksum),
            },
            FileOutcome::ChecksumMismatch { file_name, expected, actual } =>
                OutcomeView::ChecksumMismatch {
                file_name: file_name@,
                expected: expected@,
                actual: actual@,
            },
            FileOutcome::StructureMismatch { file_name } => OutcomeView::StructureMismatch {
                file_name: file_name@,
            },
        }
    }
}

/// MIME types of JPEG files.
pub open spec fn is_jpeg_type(t: Seq<char>) -> bool {
    t == "image/jpeg"@ || t == "image/jpg"@ || t == "image/pjpeg"@
}

fn is_jpeg_type_exec(t: &String) -> (r: bool)
    ensures
        r == is_jpeg_type(t@),
{
    let a = String::from_str("image/jpeg");
    let b = String::from_str("image/jpg");
    let c = String::from_str("image/pjpeg");
    *t == a || *t == b || *t == c
}

/// Starts with `FF D8` and ends with `FF D9`.
pub open spec fn jpeg_markers_ok(d: Seq<u8>) -> bool {
    &&& d.len() >= 2
    &&& d[0] == 0xFFu8 && d[1] == 0xD8u8
    &&& d[d.len() - 2] == 0xFFu8 && d[d.len() - 1] == 0xD9u8
}

/// The outcome for a file with metadata `m` and chunks `c`.
pub open spec fn outcome_spec(m: MetadataView, c: Slots) -> OutcomeView {
    let data = file_bytes(c, m.file_size as nat);
    match m.file_checksum {
        Some(k) if file_checksum_text(data) != k => OutcomeView::ChecksumMismatch {
            file_name: m.file_name,
            expected: k,
            actual: file_checksum_text(data),
        },
        _ => if is_jpeg_type(m.file_type) && !jpeg_markers_ok(data) {
            OutcomeView::StructureMismatch { file_name: m.file_name }
        } else {
            OutcomeView::Reconstructed { file_name: m.file_name, data, file_checksum: m.file_checksum }
        },
    }
}

fn jpeg_markers_exec(d: &Vec<u8>) -> (r: bool)
    ensures
        r == jpeg_markers_ok(d@),
{
    let n = d.len();
    n >= 2 && d[0] == 0xFFu8 && d[1] == 0xD8u8 && d[n - 2] == 0xFFu8 && d[n - 1] == 0xD9u8
}

impl FountainDecoder {
    /// The outcome of the file: its bytes if they pass the checksum (when the
    /// metadata has one) and, for JPEG, the marker check.
    pub fn finalize(&self) -> (r: FileOutcome)
        requires
            self.wf(),
            self@.meta.is_some(),
            all_present(self@.chunks),
        ensures
            r@ == outcome_spec(self@.meta.unwrap(), self@.chunks),
            // an emitted file always matches the checksum its metadata carries
            r@ is Reconstructed ==> match self@.meta.unwrap().file_checksum {
                Some(k) => file_checksum_text(r@->Reconstructed_data) == k,
                None => true,
            },
    {
        let data = self.assemble();
        let meta = self.meta_data.as_ref().unwrap();
        let file_name = meta.file_name.clone();
        match &meta.file_checksum {
            Some(k) => {
                let actual = calculate_checksum(data.as_slice());
                if !(actual == *k) {
                    return FileOutcome::ChecksumMismatch { file_name, expected: k.clone(), actual };
                }
            },
            None => {},
        }
        if is_jpeg_type_exec(&meta.file_type) && !jpeg_markers_exec(&data) {
            return FileOutcome::StructureMismatch { file_name };
        }
        let file_checksum = match &meta.file_checksum {
            Some(k) => Some(k.clone()),
            None => None,
        };
        FileOutcome::Reconstructed { file_name, data, file_checksum }
    }
}

/// A file is only ever emitted with the checksum its metadata carries.
pub proof fn lemma_emitted_matches_checksum(m: MetadataView, c: Slots)
    ensures
        outcome_spec(m, c) is Reconstructed ==> match m.file_checksum {
            Some(k) => file_checksum_text(outcome_spec(m, c)->Reconstructed_data) == k,
            None => true,
        },
{
}

} // verus!
