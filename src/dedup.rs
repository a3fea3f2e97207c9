//! Per-worker suppression of repeated payloads: a QR code that stays on
//! screen for several frames is recorded once. A payload is suppressed while
//! it was last seen within `window` frames; frames must come in
//! non-decreasing order, and so the recorded frame numbers are too.

use vstd::prelude::*;

verus! {

/// Payloads seen recently, each with the frame it was last seen in.
pub type Recent = Seq<(u64, Seq<char>)>;

/// Entries last seen within `window` frames of `frame`, in order.
pub open spec fn evict(s: Recent, frame: u64, window: u64) -> Recent
    decreases s.len(),
{
    if s.len() == 0 {
        s
    } else {
        let prev = evict(s.drop_last(), frame, window);
        if s.last().0 as int + window as int >= frame as int {
            prev.push(s.last())
        } else {
            prev
        }
    }
}

/// Index of `payload` among the entries, or -1.
pub open spec fn find_payload(s: Recent, payload: Seq<char>) -> int
    decreases s.len(),
{
    if s.len() == 0 {
        -1
    } else {
        let r = find_payload(s.drop_last(), payload);
        if r >= 0 {
            r
        } else if s.last().1 == payload {
            s.len() - 1
        } else {
            -1
        }
    }
}

pub struct DedupView {
    pub recent: Recent,
    pub last_frame: Option<u64>,
    pub window: u64,
}

/// State and verdict after seeing `payload` in `frame`: recorded (`true`)
/// unless seen within the window, or unless the frame goes back in time.
pub open spec fn observe_spec(st: DedupView, frame: u64, payload: Seq<char>) -> (DedupView, bool) {
    match st.last_frame {
        Some(l) if frame < l => (st, false),
        _ => {
            let kept = evict(st.recent, frame, st.window);
            let i = find_payload(kept, payload);
            if i >= 0 {
                (
                    DedupView {
                        recent: kept.update(i, (frame, payload)),
                        last_frame: Some(frame),
                        window: st.window,
                    },
                    false,
                )
            } else {
                (
                    DedupView {
                        recent: kept.push((frame, payload)),
                        last_frame: Some(frame),
                        window: st.window,
                    },
                    true,
                )
            }
        },
    }
}

pub open spec fn non_decreasing(s: Seq<u64>) -> bool {
    forall|i: int, j: int| 0 <= i < j < s.len() ==> s[i] <= s[j]
}

pub struct FrameDeduplicator {
    window: u64,
    recent: Vec<(u64, String)>,
    last_frame: Option<u64>,
    /// Frames of the payloads recorded so far.
    recorded: Ghost<Seq<u64>>,
}

impl View for FrameDeduplicator {
    type V = DedupView;

    closed spec fn view(&self) -> DedupView {
        DedupView {
            recent: Seq::new(self.recent@.len(), |i: int| (self.recent@[i].0, self.recent@[i].1@)),
            last_frame: self.last_frame,
            window: self.window,
        }
    }
}

impl FrameDeduplicator {
    /// Frame numbers of the payloads recorded so far, in order.
    pub closed spec fn recorded(&self) -> Seq<u64> {
        self.recorded@
    }

    pub closed spec fn wf(&self) -> bool {
        &&& non_decreasing(self.recorded@)
        &&& forall|i: int| 0 <= i < self.recorded@.len() ==> self.last_frame.is_some() && #[trigger] self.recorded@[i] <= self.last_frame.unwrap()
    }

    /// A deduplicator with a window of `window` frames (twice the frame
    /// rate is the usual choice).
    pub fn new(window: u64) -> (r: Self)
        ensures
            r.wf(),
            r@ == (DedupView { recent: Seq::empty(), last_frame: None, window }),
            r.recorded() == Seq::<u64>::empty(),
    {
        let r = FrameDeduplicator { window, recent: Vec::new(), last_frame: None, recorded: Ghost(Seq::empty()) };
        assert(r@.recent =~= Seq::<(u64, Seq<char>)>::empty());
        r
    }

    /// Sees `payload` in `frame`; returns whether it is to be recorded.
    pub fn observe(&mut self, frame: u64, payload: &str) -> (r: bool)
        requires
            old(self).wf(),
        ensures
            final(self).wf(),
            (final(self)@, r) == observe_spec(old(self)@, frame, payload@),
            r ==> final(self).recorded() == old(self).recorded().push(frame),
            !r ==> final(self).recorded() == old(self).recorded(),
    {
        match self.last_frame {
            Some(l) => {
                if frame < l {
                    return false;
                }
            },
            None => {},
        }
        let ghost v0 = self@.recent;
        // eviction
        let mut kept: Vec<(u64, String)> = Vec::new();
        let mut t: usize = 0;
        let ghost n = self.recent@.len();
        let ghost sv = v0;
        while t < self.recent.len()
            invariant
                t <= n,
                n == self.recent@.len(),
                sv == v0,
                v0 == Seq::new(self.recent@.len(), |i: int| (self.recent@[i].0, self.recent@[i].1@)),
                Seq::new(kept@.len(), |i: int| (kept@[i].0, kept@[i].1@)) == evict(
                    sv.subrange(0, t as int),
                    frame,
                    self.window,
                ),
            decreases n - t,
        {
            let ghost before = Seq::new(kept@.len(), |i: int| (kept@[i].0, kept@[i].1@));
            let f = self.recent[t].0;
            proof {
                let p = sv.subrange(0, t + 1);
                assert(p.drop_last() =~= sv.subrange(0, t as int));
                assert(p.last() == sv[t as int]);
            }
            if (f as u128) + (self.window as u128) >= frame as u128 {
                let text = self.recent[t].1.clone();
                kept.push((f, text));
                proof {
                    assert(Seq::new(kept@.len(), |i: int| (kept@[i].0, kept@[i].1@)) =~= before.push(
                        sv[t as int],
                    ));
                }
            }
            t = t + 1;
        }
        assert(sv.subrange(0, n as int) =~= sv);
        let ghost kv = Seq::new(kept@.len(), |i: int| (kept@[i].0, kept@[i].1@));
        // lookup
        let wanted = String::from_str(payload);
        let mut i: usize = 0;
        let mut found: Option<usize> = None;
        while i < kept.len()
            invariant_except_break
                found.is_none(),
                find_payload(kv.subrange(0, i as int), payload@) == -1,
            invariant
                i <= kept@.len(),
                kv == Seq::new(kept@.len(), |i: int| (kept@[i].0, kept@[i].1@)),
                wanted@ == payload@,
            ensures
                found.is_none() ==> i == kept@.len() && find_payload(kv.subrange(0, i as int), payload@) == -1,
                found.is_some() ==> find_payload(kv, payload@) == found.unwrap() as int
                    && found.unwrap() < kept@.len(),
            decreases kept@.len() - i,
        {
            proof {
                let p = kv.subrange(0, i + 1);
                assert(p.drop_last() =~= kv.subrange(0, i as int));
            }
            if kept[i].1 == wanted {
                proof {
                    lemma_find_prefix(kv, payload@, i as int);
                }
                found = Some(i);
                break;
            }
            i = i + 1;
        }
        if found.is_none() {
            assert(kv.subrange(0, kv.len() as int) =~= kv);
        }
        self.last_frame = Some(frame);
        match found {
            Some(k) => {
                kept.set(k, (frame, String::from_str(payload)));
                self.recent = kept;
                proof {
                    assert(self@.recent =~= kv.update(k as int, (frame, payload@)));
                }
                false
            },
            None => {
                kept.push((frame, String::from_str(payload)));
                self.recent = kept;
                self.recorded = Ghost(self.recorded@.push(frame));
                proof {
                    assert(self@.recent =~= kv.push((frame, payload@)));
                }
                true
            },
        }
    }
}

/// If entry `i` holds `payload` and no earlier one does, it is the one found.
proof fn lemma_find_prefix(s: Recent, payload: Seq<char>, i: int)
    requires
        0 <= i < s.len(),
        s[i].1 == payload,
        find_payload(s.subrange(0, i), payload) == -1,
    ensures
        find_payload(s, payload) == i,
    decreases s.len(),
{
    if s.len() - 1 > i {
        assert(s.drop_last().subrange(0, i) =~= s.subrange(0, i));
        lemma_find_prefix(s.drop_last(), payload, i);
    } else {
        assert(s.drop_last() =~= s.subrange(0, i));
    }
}

/// Within one session the recorded frame numbers never decrease.
pub proof fn lemma_recorded_monotone(d: &FrameDeduplicator)
    requires
        d.wf(),
    ensures
        non_decreasing(d.recorded()),
{
}

} // verus!
