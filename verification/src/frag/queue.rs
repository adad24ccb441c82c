//! The pending samples of a track as a queue: one can be held back, and all
//! leave with a fragment.

use crate::cenc::types::{sample_views as senc_views, SeigEntry, SencSample};
use crate::frag::fields::TfraEmitEntry;
use crate::frag::model::{advanced, attached, last_aux, sync_rows, without_last};
use crate::frag::protect::{opt_seig, seig_views};
use crate::frag::run::{marks_sync, sample_views, total_duration, PendingSample, SampleView};
use crate::frag::track::{opt_aux, track_wf, FragTrackState, TrackView};
use crate::bytes::low32;
use vstd::prelude::*;

verus! {

/// The first samples last no longer than all.
pub proof fn lemma_total_grows(s: Seq<SampleView>, n: int)
    requires
        0 <= n <= s.len(),
    ensures
        total_duration(s.take(n)) <= total_duration(s),
    decreases s.len(),
{
    if n < s.len() {
        assert(s.drop_last().take(n) =~= s.take(n));
        lemma_total_grows(s.drop_last(), n);
    } else {
        assert(s.take(n) =~= s);
    }
}

/// How long samples last together.
pub fn total_ticks(pending: &Vec<PendingSample>) -> (r: u64)
    requires
        total_duration(sample_views(pending@)) <= u64::MAX,
    ensures
        r == total_duration(sample_views(pending@)),
{
    let ghost s = sample_views(pending@);
    let mut total: u64 = 0;
    let mut i: usize = 0;
    assert(s.take(0) =~= Seq::<SampleView>::empty());
    while i < pending.len()
        invariant
            i <= pending.len(),
            s == sample_views(pending@),
            total_duration(s) <= u64::MAX,
            total == total_duration(s.take(i as int)),
        decreases pending.len() - i,
    {
        proof {
            assert(s.take(i + 1).drop_last() =~= s.take(i as int));
            assert(s.take(i + 1).last() == s[i as int]);
            lemma_total_grows(s, i + 1);
        }
        total = total + pending[i].duration as u64;
        i = i + 1;
    }
    assert(s.take(pending.len() as int) =~= s);
    total
}

/// A sample that is held back, with what belongs to it.
pub struct Held {
    /// The sample.
    pub sample: PendingSample,
    /// Its encryption entry and override, if it has them.
    pub aux: Option<(SencSample, Option<SeigEntry>)>,
}

impl FragTrackState {
    /// Take the last pending sample out.
    pub fn detach_last(&mut self) -> (r: Held)
        requires
            track_wf(old(self)@),
            old(self)@.pending.len() > 0,
        ensures
            final(self)@ == without_last(old(self)@),
            track_wf(final(self)@),
            r.sample@ == old(self)@.pending.last(),
            opt_aux(r.aux) == last_aux(old(self)@),
    {
        let ghost t = self@;
        let n: usize = self.pending.len();
        assert(t.pending.len() == n);
        let sample: PendingSample = self.pending.pop().unwrap();
        assert(sample@ == t.pending.last());
        assert(sample_views(self.pending@) =~= t.pending.drop_last());
        let aux: Option<(SencSample, Option<SeigEntry>)> = match self.pending_senc.pop() {
            Some(senc) => {
                assert(senc@ == t.senc.last());
                let seig: Option<SeigEntry> = self.pending_seig.pop().unwrap();
                assert(opt_seig(seig) == t.seig.last());
                Some((senc, seig))
            },
            None => None,
        };
        proof {
            if t.senc.len() > 0 {
                assert(senc_views(self.pending_senc@) =~= t.senc.drop_last());
                assert(seig_views(self.pending_seig@) =~= t.seig.drop_last());
            } else {
                assert(senc_views(self.pending_senc@) =~= t.senc);
            }
        }
        self.cumulative_duration = self.cumulative_duration - sample.duration as u64;
        assert(self@ =~= without_last(t));
        Held { sample, aux }
    }

    /// Put a sample at the end of the pending ones.
    pub fn reattach(&mut self, held: Held)
        requires
            track_wf(old(self)@),
            old(self)@.cumulative + held.sample.duration <= u64::MAX,
            held.aux is Some ==> old(self)@.senc.len() == old(self)@.pending.len(),
            held.aux is None ==> old(self)@.senc.len() == 0,
        ensures
            final(self)@ == attached(old(self)@, held.sample@, opt_aux(held.aux)),
            track_wf(final(self)@),
    {
        let ghost t = self@;
        let ghost s = held.sample@;
        self.cumulative_duration = self.cumulative_duration + held.sample.duration as u64;
        self.pending.push(held.sample);
        assert(sample_views(self.pending@) =~= t.pending.push(s));
        assert(t.pending.push(s).drop_last() =~= t.pending);
        match held.aux {
            Some((senc, seig)) => {
                let ghost a = senc@;
                let ghost b = opt_seig(seig);
                self.pending_senc.push(senc);
                self.pending_seig.push(seig);
                assert(senc_views(self.pending_senc@) =~= t.senc.push(a));
                assert(seig_views(self.pending_seig@) =~= t.seig.push(b));
            },
            None => {},
        }
        assert(self@ =~= attached(t, s, opt_aux(held.aux)));
    }

    /// The decode time behind the pending samples, if 64 bits hold it.
    pub fn end_time(&self) -> (r: Option<u64>)
        ensures
            match r {
                Some(end) => end == self@.next_bmdt + total_duration(self@.pending),
                None => self@.next_bmdt + total_duration(self@.pending) > u64::MAX,
            },
    {
        let ghost s = self@.pending;
        let mut end: u64 = self.next_bmdt;
        let mut i: usize = 0;
        assert(s.take(0) =~= Seq::<SampleView>::empty());
        while i < self.pending.len()
            invariant
                i <= self.pending.len(),
                s == self@.pending,
                end == self@.next_bmdt + total_duration(s.take(i as int)),
            decreases self.pending.len() - i,
        {
            proof {
                assert(s.take(i + 1).drop_last() =~= s.take(i as int));
                assert(s.take(i + 1).last() == s[i as int]);
                lemma_total_grows(s, i + 1);
            }
            match end.checked_add(self.pending[i].duration as u64) {
                Some(x) => {
                    end = x;
                },
                None => {
                    return None;
                },
            }
            i = i + 1;
        }
        assert(s.take(s.len() as int) =~= s);
        Some(end)
    }

    /// Whether the decode time has room for the pending samples and
    /// `duration` ticks more.
    pub fn has_room(&self, duration: u32) -> (r: bool)
        ensures
            r == (self@.next_bmdt + total_duration(self@.pending) + duration <= u64::MAX),
    {
        match self.end_time() {
            Some(end) => end.checked_add(duration as u64).is_some(),
            None => false,
        }
    }

    /// Append the rows of the pending sync samples to the random access
    /// table.
    fn record_sync_samples(&mut self, offset: u64)
        requires
            old(self)@.next_bmdt + total_duration(old(self)@.pending) <= u64::MAX,
        ensures
            final(self)@ == (TrackView {
                tfra: old(self)@.tfra + sync_rows(
                    old(self)@.pending,
                    old(self)@.next_bmdt,
                    offset,
                ),
                ..old(self)@
            }),
    {
        let ghost t = self@;
        let ghost s = t.pending;
        let mut elapsed: u64 = 0;
        let mut i: usize = 0;
        assert(s.take(0) =~= Seq::<SampleView>::empty());
        assert(t.tfra + sync_rows(s.take(0), t.next_bmdt, offset) =~= t.tfra);
        while i < self.pending.len()
            invariant
                i <= self.pending.len(),
                s == t.pending,
                self@ == (TrackView {
                    tfra: t.tfra + sync_rows(s.take(i as int), t.next_bmdt, offset),
                    ..t
                }),
                elapsed == total_duration(s.take(i as int)),
                t.next_bmdt + total_duration(s) <= u64::MAX,
            decreases self.pending.len() - i,
        {
            let ghost before = self@;
            proof {
                assert(s == sample_views(self.pending@));
                assert(s.take(i + 1).drop_last() =~= s.take(i as int));
                assert(s.take(i + 1).last() == s[i as int]);
                lemma_total_grows(s, i + 1);
            }
            if marks_sync(self.pending[i].flags) {
                let row: TfraEmitEntry = TfraEmitEntry {
                    time: self.next_bmdt + elapsed,
                    moof_offset: offset,
                    traf_number: 1,
                    trun_number: 1,
                    sample_number: low32(i).wrapping_add(1),
                };
                self.tfra_entries.push(row);
                assert(self@.tfra =~= t.tfra + sync_rows(s.take(i + 1), t.next_bmdt, offset));
            }
            elapsed = elapsed + self.pending[i].duration as u64;
            i = i + 1;
        }
        assert(s.take(s.len() as int) =~= s);
    }

    /// Let the pending samples go into a fragment at file offset `offset`.
    pub fn advance(&mut self, offset: u64)
        requires
            track_wf(old(self)@),
            old(self)@.next_bmdt + total_duration(old(self)@.pending) <= u64::MAX,
        ensures
            final(self)@ == advanced(old(self)@, offset),
            track_wf(final(self)@),
    {
        let ghost t = self@;
        self.record_sync_samples(offset);
        assert(sample_views(self.pending@) == t.pending);
        self.next_bmdt = self.next_bmdt + total_ticks(&self.pending);
        self.pending = Vec::new();
        self.pending_senc = Vec::new();
        self.pending_seig = Vec::new();
        assert(self@ =~= advanced(t, offset));
    }
}

} // verus!
