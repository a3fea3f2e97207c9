//! Temporal routing over several files: every metadata packet selects the
//! active file (creating its decoder on first sight), and every data packet
//! goes to the active file's decoder only. A decoder whose file completes is
//! finalized and dropped.

use vstd::prelude::*;
use crate::fountain::{add_packet_spec, all_present, missing_indices, outcome_spec, DecoderView, FileOutcome, FountainDecoder, OutcomeView};
use crate::packet::{packet_result_view, parse_packet, parse_packet_spec, MetadataView, Packet, PacketView, ParseError};

verus! {

/// Files are told apart by name and chunk count.
pub open spec fn key_of(d: DecoderView) -> (Seq<char>, usize) {
    (d.meta.unwrap().file_name, d.meta.unwrap().chunks_count)
}

/// Index of the first decoder with key `k`, or -1.
pub open spec fn find_key(ds: Seq<DecoderView>, k: (Seq<char>, usize)) -> int
    decreases ds.len(),
{
    if ds.len() == 0 {
        -1
    } else if key_of(ds[0]) == k {
        0
    } else {
        let r = find_key(ds.drop_first(), k);
        if r < 0 {
            -1
        } else {
            r + 1
        }
    }
}

/// No two decoders share a file key.
pub open spec fn keys_distinct(ds: Seq<DecoderView>) -> bool {
    forall|i: int, j: int| 0 <= i < j < ds.len() ==> key_of(ds[i]) != key_of(ds[j])
}

/// Why a payload was not used.
#[derive(Clone, Copy, Debug, PartialEq, Eq, Structural)]
pub enum RejectReason {
    /// The payload is not a well-formed packet.
    Parse(ParseError),
    /// A data packet came while no file was active.
    NoActiveFile,
}

/// What processing one payload did.
pub enum ProcessResult {
    /// A metadata packet made its file the active one.
    Metadata,
    /// A data packet went to the active file; `accepted` is false where that
    /// decoder refused it. `completed` holds the file's outcome when this
    /// packet completed it.
    Data { accepted: bool, completed: Option<FileOutcome> },
    /// The payload was dropped.
    Rejected(RejectReason),
}

pub enum ProcessResultView {
    Metadata,
    Data { accepted: bool, completed: Option<OutcomeView> },
    Rejected(RejectReason),
}

impl View for ProcessResult {
    type V = ProcessResultView;

    open spec fn view(&self) -> ProcessResultView {
        match self {
            ProcessResult::Metadata => ProcessResultView::Metadata,
            ProcessResult::Data { accepted, completed } => ProcessResultView::Data {
                accepted: *accepted,
                completed: match completed {
                    Some(o) => Some(o@),
                    None => None,
                },
            },
            ProcessResult::Rejected(r) => ProcessResultView::Rejected(*r),
        }
    }
}

impl ProcessResult {
    /// Whether the payload was put to use.
    pub open spec fn spec_is_valid(&self) -> bool {
        match self {
            ProcessResult::Metadata => true,
            ProcessResult::Data { accepted, .. } => *accepted,
            ProcessResult::Rejected(_) => false,
        }
    }

    #[verifier::when_used_as_spec(spec_is_valid)]
    pub fn is_valid(&self) -> (r: bool)
        ensures
            r == self.spec_is_valid(),
    {
        match self {
            ProcessResult::Metadata => true,
            ProcessResult::Data { accepted, .. } => *accepted,
            ProcessResult::Rejected(_) => false,
        }
    }
}

pub struct RouterView {
    pub decoders: Seq<DecoderView>,
    pub active: Option<(Seq<char>, usize)>,
}

/// The fresh decoder of a file.
pub open spec fn fresh_decoder(m: MetadataView) -> DecoderView {
    DecoderView {
        meta: Some(m),
        chunks: Seq::new(m.chunks_count as nat, |i: int| None::<Seq<u8>>),
        pending: Seq::empty(),
    }
}

/// Router state and result after one payload.
pub open spec fn process_spec(st: RouterView, s: Seq<char>) -> (RouterView, ProcessResultView) {
    match parse_packet_spec(s) {
        Err(e) => (st, ProcessResultView::Rejected(RejectReason::Parse(e))),
        Ok(PacketView::Metadata(m)) => {
            let k = (m.file_name, m.chunks_count);
            let ds = if find_key(st.decoders, k) < 0 {
                st.decoders.push(fresh_decoder(m))
            } else {
                st.decoders
            };
            (RouterView { decoders: ds, active: Some(k) }, ProcessResultView::Metadata)
        },
        Ok(PacketView::Data(p)) => match st.active {
            None => (st, ProcessResultView::Rejected(RejectReason::NoActiveFile)),
            Some(k) => {
                let i = find_key(st.decoders, k);
                if i < 0 {
                    (st, ProcessResultView::Rejected(RejectReason::NoActiveFile))
                } else {
                    let (d2, accepted) = add_packet_spec(st.decoders[i], p);
                    if all_present(d2.chunks) {
                        (
                            RouterView { decoders: st.decoders.remove(i), active: st.active },
                            ProcessResultView::Data {
                                accepted,
                                completed: Some(outcome_spec(d2.meta.unwrap(), d2.chunks)),
                            },
                        )
                    } else {
                        (
                            RouterView { decoders: st.decoders.update(i, d2), active: st.active },
                            ProcessResultView::Data { accepted, completed: None },
                        )
                    }
                }
            },
        },
    }
}

/// Router state and results after a sequence of payloads, in order.
pub open spec fn process_all_spec(st: RouterView, ps: Seq<Seq<char>>) -> (RouterView, Seq<ProcessResultView>)
    decreases ps.len(),
{
    if ps.len() == 0 {
        (st, Seq::empty())
    } else {
        let (st1, rs) = process_all_spec(st, ps.drop_last());
        let (st2, r) = process_spec(st1, ps.last());
        (st2, rs.push(r))
    }
}

pub open spec fn empty_router() -> RouterView {
    RouterView { decoders: Seq::empty(), active: None }
}

/// The multiplex of file decoders, with the active file.
pub struct QRFileDecoder {
    file_decoders: Vec<FountainDecoder>,
    current_active_decoder: Option<(String, usize)>,
}

pub open spec fn active_view(a: Option<(String, usize)>) -> Option<(Seq<char>, usize)> {
    match a {
        Some((n, c)) => Some((n@, c)),
        None => None,
    }
}

impl View for QRFileDecoder {
    type V = RouterView;

    closed spec fn view(&self) -> RouterView {
        RouterView {
            decoders: Seq::new(self.file_decoders@.len(), |i: int| self.file_decoders@[i]@),
            active: active_view(self.current_active_decoder),
        }
    }
}

impl QRFileDecoder {
    /// Every decoder is well formed and has its file, and no two decoders
    /// share a file key.
    pub closed spec fn wf(&self) -> bool {
        &&& forall|i: int|
            0 <= i < self.file_decoders@.len() ==> (#[trigger] self.file_decoders@[i]).wf()
                && self.file_decoders@[i]@.meta.is_some()
        &&& keys_distinct(self@.decoders)
    }

    /// No file yet, none active.
    pub fn new() -> (r: Self)
        ensures
            r.wf(),
            r@ == empty_router(),
    {
        let r = QRFileDecoder { file_decoders: Vec::new(), current_active_decoder: None };
        assert(r@.decoders =~= Seq::<DecoderView>::empty());
        assert(keys_distinct(r@.decoders));
        r
    }

    /// Number of files in progress.
    pub fn file_count(&self) -> (r: usize)
        ensures
            r == self@.decoders.len(),
    {
        self.file_decoders.len()
    }

    fn find(&self, name: &String, count: usize) -> (r: Option<usize>)
        requires
            self.wf(),
        ensures
            match r {
                Some(i) => find_key(self@.decoders, (name@, count)) == i as int && i
                    < self@.decoders.len(),
                None => find_key(self@.decoders, (name@, count)) < 0,
            },
    {
        let ghost ds = self@.decoders;
        let ghost k = (name@, count);
        let mut i: usize = 0;
        while i < self.file_decoders.len()
            invariant
                self.wf(),
                ds == self@.decoders,
                k == (name@, count),
                i <= ds.len(),
                forall|j: int| 0 <= j < i ==> key_of(ds[j]) != k,
            decreases ds.len() - i,
        {
            let d = &self.file_decoders[i];
            assert(ds[i as int] == d@);
            match d.metadata() {
                Some(m) => {
                    if m.chunks_count == count && m.file_name == *name {
                        proof {
                            assert(d@.meta == Some(m@));
                            assert(m@.file_name == name@);
                            assert(key_of(ds[i as int]) == k);
                            lemma_find_key(ds, k, i as int);
                        }
                        return Some(i);
                    }
                },
                None => {},
            }
            i = i + 1;
        }
        proof {
            lemma_find_key(ds, k, ds.len() as int);
        }
        None
    }

    /// Processes one QR payload.
    pub fn process_qr_code(&mut self, qr_data: &str) -> (r: ProcessResult)
        requires
            old(self).wf(),
        ensures
            final(self).wf(),
            (final(self)@, r@) == process_spec(old(self)@, qr_data@),
    {
        let parsed = parse_packet(qr_data);
        proof {
            assert(packet_result_view(parsed) == parse_packet_spec(qr_data@));
        }
        match parsed {
            Err(e) => ProcessResult::Rejected(RejectReason::Parse(e)),
            Ok(Packet::Metadata(m)) => {
                let name = m.file_name.clone();
                let count = m.chunks_count;
                let ghost mv = m@;
                let ghost before = self@.decoders;
                match self.find(&name, count) {
                    Some(_) => {},
                    None => {
                        let mut d = FountainDecoder::new();
                        d.initialize(m);
                        proof {
                            assert(d@.pending =~= Seq::<crate::fountain::PendingView>::empty());
                            assert(d@ == fresh_decoder(mv));
                        }
                        self.file_decoders.push(d);
                        proof {
                            assert(self@.decoders =~= before.push(fresh_decoder(mv)));
                            lemma_find_key_absent(before, (mv.file_name, mv.chunks_count));
                            assert(keys_distinct(self@.decoders)) by {
                                assert forall|a: int, b: int| 0 <= a < b < self@.decoders.len() implies key_of(self@.decoders[a]) != key_of(self@.decoders[b]) by {
                                    if b == before.len() {
                                        assert(key_of(self@.decoders[b]) == (mv.file_name, mv.chunks_count));
                                    }
                                }
                            }
                        }
                    },
                }
                self.current_active_decoder = Some((name, count));
                ProcessResult::Metadata
            },
            Ok(Packet::Data(p)) => {
                let (name, count) = match &self.current_active_decoder {
                    Some((n, c)) => (n.clone(), *c),
                    None => {
                        return ProcessResult::Rejected(RejectReason::NoActiveFile);
                    },
                };
                let i = match self.find(&name, count) {
                    Some(i) => i,
                    None => {
                        return ProcessResult::Rejected(RejectReason::NoActiveFile);
                    },
                };
                let ghost before = self@.decoders;
                let mut d = self.file_decoders.remove(i);
                assert(d@ == before[i as int]);
                let accepted = d.add_packet(p);
                if d.is_complete() {
                    let outcome = d.finalize();
                    proof {
                        assert(self@.decoders =~= before.remove(i as int));
                        assert(keys_distinct(self@.decoders)) by {
                            assert forall|a: int, b: int| 0 <= a < b < self@.decoders.len() implies key_of(self@.decoders[a]) != key_of(self@.decoders[b]) by {
                                let a0 = if a < i { a } else { a + 1 };
                                let b0 = if b < i { b } else { b + 1 };
                                assert(self@.decoders[a] == before[a0]);
                                assert(self@.decoders[b] == before[b0]);
                            }
                        }
                    }
                    ProcessResult::Data { accepted, completed: Some(outcome) }
                } else {
                    self.file_decoders.insert(i, d);
                    proof {
                        assert(self@.decoders =~= before.update(i as int, d@));
                        assert(key_of(d@) == key_of(before[i as int]));
                        assert(keys_distinct(self@.decoders)) by {
                            assert forall|a: int, b: int| 0 <= a < b < self@.decoders.len() implies key_of(self@.decoders[a]) != key_of(self@.decoders[b]) by {
                                assert(key_of(self@.decoders[a]) == key_of(before[a]));
                                assert(key_of(self@.decoders[b]) == key_of(before[b]));
                            }
                        }
                    }
                    ProcessResult::Data { accepted, completed: None }
                }
            },
        }
    }
}

/// A file still being decoded.
pub struct IncompleteFile {
    pub file_name: String,
    pub chunks_count: usize,
    /// Indices of the chunks still unknown, ascending.
    pub missing: Vec<usize>,
}

impl QRFileDecoder {
    /// The files still in progress, in the order they were first seen.
    pub fn incomplete_files(&self) -> (r: Vec<IncompleteFile>)
        requires
            self.wf(),
        ensures
            r@.len() == self@.decoders.len(),
            forall|i: int|
                0 <= i < r@.len() ==> (#[trigger] r@[i]).file_name@ == key_of(self@.decoders[i]).0
                    && r@[i].chunks_count == key_of(self@.decoders[i]).1 && r@[i].missing@
                    == missing_indices(self@.decoders[i].chunks, self@.decoders[i].chunks.len()),
    {
        let mut out: Vec<IncompleteFile> = Vec::new();
        let mut i: usize = 0;
        while i < self.file_decoders.len()
            invariant
                self.wf(),
                i <= self.file_decoders@.len(),
                out@.len() == i,
                forall|k: int|
                    0 <= k < i ==> (#[trigger] out@[k]).file_name@ == key_of(self@.decoders[k]).0
                        && out@[k].chunks_count == key_of(self@.decoders[k]).1 && out@[k].missing@
                        == missing_indices(self@.decoders[k].chunks, self@.decoders[k].chunks.len()),
            decreases self.file_decoders@.len() - i,
        {
            let d = &self.file_decoders[i];
            assert(self@.decoders[i as int] == d@);
            let m = d.metadata().unwrap();
            let missing = d.missing_chunks();
            out.push(IncompleteFile { file_name: m.file_name.clone(), chunks_count: m.chunks_count, missing });
            i = i + 1;
        }
        out
    }
}

impl QRFileDecoder {
    /// Processes payloads in order; one result per payload.
    pub fn process_all(&mut self, payloads: &Vec<String>) -> (r: Vec<ProcessResult>)
        requires
            old(self).wf(),
        ensures
            final(self).wf(),
            (final(self)@, Seq::new(r@.len(), |i: int| r@[i]@)) == process_all_spec(
                old(self)@,
                Seq::new(payloads@.len(), |i: int| payloads@[i]@),
            ),
    {
        let ghost ps = Seq::new(payloads@.len(), |i: int| payloads@[i]@);
        let mut out: Vec<ProcessResult> = Vec::new();
        let mut i: usize = 0;
        while i < payloads.len()
            invariant
                self.wf(),
                i <= payloads@.len(),
                out@.len() == i,
                ps == Seq::new(payloads@.len(), |i: int| payloads@[i]@),
                (self@, Seq::new(out@.len(), |j: int| out@[j]@)) == process_all_spec(
                    old(self)@,
                    ps.subrange(0, i as int),
                ),
            decreases payloads@.len() - i,
        {
            let ghost prev = Seq::new(out@.len(), |j: int| out@[j]@);
            proof {
                let q = ps.subrange(0, i + 1);
                assert(q.drop_last() =~= ps.subrange(0, i as int));
                assert(q.last() == payloads@[i as int]@);
            }
            let r = self.process_qr_code(payloads[i].as_str());
            out.push(r);
            proof {
                assert(Seq::new(out@.len(), |j: int| out@[j]@) =~= prev.push(out@[i as int]@));
            }
            i = i + 1;
        }
        assert(ps.subrange(0, payloads@.len() as int) =~= ps);
        out
    }
}

proof fn lemma_find_key_absent(ds: Seq<DecoderView>, k: (Seq<char>, usize))
    requires
        find_key(ds, k) < 0,
    ensures
        forall|i: int| 0 <= i < ds.len() ==> key_of(#[trigger] ds[i]) != k,
    decreases ds.len(),
{
    if ds.len() > 0 {
        lemma_find_key_absent(ds.drop_first(), k);
        assert forall|i: int| 0 <= i < ds.len() implies key_of(#[trigger] ds[i]) != k by {
            if i > 0 {
                assert(ds[i] == ds.drop_first()[i - 1]);
            }
        }
    }
}

proof fn lemma_find_key(ds: Seq<DecoderView>, k: (Seq<char>, usize), i: int)
    requires
        0 <= i <= ds.len(),
        forall|j: int| 0 <= j < i ==> key_of(ds[j]) != k,
        i == ds.len() || key_of(ds[i]) == k,
    ensures
        i < ds.len() ==> find_key(ds, k) == i,
        i == ds.len() ==> find_key(ds, k) < 0,
    decreases ds.len(),
{
    if ds.len() > 0 && key_of(ds[0]) != k {
        assert forall|j: int| 0 <= j < i - 1 implies key_of(ds.drop_first()[j]) != k by {
            assert(ds.drop_first()[j] == ds[j + 1]);
        }
        if i < ds.len() {
            assert(ds.drop_first()[i - 1] == ds[i]);
        }
        lemma_find_key(ds.drop_first(), k, i - 1);
    }
}

/// Decoding depends on the payload stream alone: two runs over the same
/// stream from the same state end in the same state with the same results,
/// and so reconstruct the same bytes.
pub proof fn lemma_decoding_deterministic(st1: RouterView, st2: RouterView, ps: Seq<Seq<char>>)
    requires
        st1 == st2,
    ensures
        process_all_spec(st1, ps) == process_all_spec(st2, ps),
{
}

/// A data record without its six-field prefix is rejected as malformed, and
/// the decoders and the active file stay as they were.
pub proof fn lemma_short_data_record_rejected(st: RouterView, s: Seq<char>)
    requires
        vstd::utf8::is_ascii_chars(s),
        crate::packet::starts_with_tag(s, 'D'),
        crate::text::skip_fields(s, ':', 6).is_none(),
    ensures
        process_spec(st, s) == (st, ProcessResultView::Rejected(RejectReason::Parse(ParseError::MalformedData))),
{
}

} // verus!
