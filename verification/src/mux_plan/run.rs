//! Carrying out a plan.

use crate::bytes::put_bytes;
use crate::emsg::{emsg_views, EmsgBox};
use crate::frag::error::MuxError;
use crate::frag::model::{header_step, mux_wf, packet_times};
use crate::frag::muxer::{FragmentedMuxer, Trailer};
use crate::frag::open::{open_fragmented_typed, opened};
use crate::frag::track::{Packet, TrackSetup};
use crate::mux_plan::order::{is_order, is_slot, write_order, Slot};
use crate::mux_plan::plan::{plan_wf, FragPlan, Gap, MuxPlan, PlanBrand};
use crate::mux_plan::steps::{
    after_slot, after_slots, events_of, file_of, going, lemma_flush_goes_on, lemma_gap_goes_on,
    lemma_going_flushes, lemma_going_takes, lemma_going_waits, lemma_packet_goes_on, lemma_started,
    lemma_wider, plans_fragments, plans_options, started,
};
use crate::mux_plan::tracks::{packet_plan_wf, plan_views, track_plan_wf, TrackPlan, TrackPlanView};
use crate::options::{BrandPreset, FragmentCadence, FragmentedOptions, Mp4MuxerOptions};
use crate::text;
use vstd::prelude::*;
use vstd::slice::slice_to_vec;

verus! {

/// What should come back of one track.
#[derive(Clone, Debug, PartialEq, Eq)]
pub struct TrackExpect {
    /// The data of its packets, in order.
    pub payloads: Vec<Vec<u8>>,
    /// When its packets are presented, in order.
    pub pts: Vec<i64>,
    /// Ticks per second of these times.
    pub tb_den: i64,
}

/// A file, and what should come back of it.
#[derive(Clone, Debug, PartialEq, Eq)]
pub struct Built {
    /// The file.
    pub bytes: Vec<u8>,
    /// What should come back of its tracks.
    pub tracks: Vec<TrackExpect>,
    /// Whether the times should come back: empty time shifts them.
    pub check_pts: bool,
}

/// A track promises the data and the times of its plan.
pub open spec fn expects(e: TrackExpect, t: TrackPlanView) -> bool {
    &&& e.tb_den == t.ticks_per_sec
    &&& e.payloads@.len() == t.packets.len()
    &&& e.pts@.len() == t.packets.len()
    &&& forall|k: int|
        0 <= k < t.packets.len() ==> (#[trigger] e.payloads@[k])@ == t.packets[k].data
    &&& forall|k: int|
        0 <= k < t.packets.len() ==> t.packets[k].pts == Some(#[trigger] e.pts@[k])
}

/// What should come back of a track.
fn expect_track(t: &TrackPlan, i: Ghost<int>) -> (r: TrackExpect)
    requires
        track_plan_wf(t@, i@),
    ensures
        expects(r, t@),
{
    let mut payloads: Vec<Vec<u8>> = Vec::new();
    let mut pts: Vec<i64> = Vec::new();
    let mut k: usize = 0;
    while k < t.packets.len()
        invariant
            k <= t.packets.len(),
            track_plan_wf(t@, i@),
            payloads@.len() == k,
            pts@.len() == k,
            forall|j: int|
                0 <= j < k ==> (#[trigger] payloads@[j])@ == t@.packets[j].data,
            forall|j: int| 0 <= j < k ==> t@.packets[j].pts == Some(#[trigger] pts@[j]),
        decreases t.packets.len() - k,
    {
        let p: &Packet = &t.packets[k];
        assert(t@.packets[k as int] == p@);
        assert(packet_plan_wf(t@.packets[k as int], i@));
        payloads.push(slice_to_vec(p.data.as_slice()));
        pts.push(
            match p.pts {
                Some(x) => x,
                None => 0,
            },
        );
        k = k + 1;
    }
    TrackExpect { payloads, pts, tb_den: t.ticks_per_sec }
}

/// A copy of an event.
fn copy_event(e: &EmsgBox) -> (r: EmsgBox)
    ensures
        r@ == e@,
{
    EmsgBox {
        scheme_id_uri: text::plain(e.scheme_id_uri.as_str()),
        value: text::plain(e.value.as_str()),
        timescale: e.timescale,
        presentation: e.presentation,
        event_duration: e.event_duration,
        id: e.id,
        message_data: slice_to_vec(e.message_data.as_slice()),
    }
}

/// The options about fragments that a plan asks for.
fn fragment_options(p: &FragPlan) -> (f: FragmentedOptions)
    ensures
        plans_fragments(p@, f),
{
    let mut f: FragmentedOptions = FragmentedOptions::with_cadence(
        FragmentCadence::EveryNPackets(p.every),
    );
    f.emit_random_access_indexes = p.indexed;
    if !p.indexed {
        f.styp = None;
    }
    f
}

impl MuxPlan {
    /// The options that the plan asks for.
    fn muxer_options(&self) -> (o: Mp4MuxerOptions)
        ensures
            plans_options(self@, o),
    {
        let mut o: Mp4MuxerOptions = Mp4MuxerOptions::default();
        o.brand = match self.brand() {
            PlanBrand::Mp4 => BrandPreset::Mp4,
            PlanBrand::Mov => BrandPreset::Mov,
            PlanBrand::Ismv => BrandPreset::Ismv,
        };
        o.faststart = self.faststart();
        o
    }

    /// What should come back of the tracks.
    fn expect_tracks(&self) -> (r: Vec<TrackExpect>)
        requires
            plan_wf(self@),
        ensures
            r@.len() == self@.tracks.len(),
            forall|i: int| 0 <= i < r@.len() ==> expects(#[trigger] r@[i], self@.tracks[i]),
    {
        let tracks: &Vec<TrackPlan> = self.tracks();
        let mut out: Vec<TrackExpect> = Vec::new();
        let mut i: usize = 0;
        while i < tracks.len()
            invariant
                i <= tracks.len(),
                plan_wf(self@),
                self@.tracks == plan_views(tracks@),
                out@.len() == i,
                forall|k: int| 0 <= k < i ==> expects(#[trigger] out@[k], self@.tracks[k]),
            decreases tracks.len() - i,
        {
            assert(self@.tracks[i as int] == tracks@[i as int]@);
            assert(track_plan_wf(self@.tracks[i as int], i as int));
            out.push(expect_track(&tracks[i], Ghost(i as int)));
            i = i + 1;
        }
        out
    }

    /// Write one packet, and the empty time behind it.
    fn write_slot(
        &self,
        mux: &mut FragmentedMuxer,
        out: &mut Vec<u8>,
        s: Slot,
        gap: Option<Gap>,
        k: Ghost<int>,
    )
        requires
            plan_wf(self@),
            is_slot(self@.tracks, s),
            gap matches Some(g) ==> g.track == 0,
            mux_wf(old(mux)@),
            going(old(mux)@, self@.tracks.len(), 3 * k@, k@, 2 * k@),
            0 <= k@ < 100,
        ensures
            (final(mux)@, final(out)@) == after_slot(self@.tracks, gap, s, old(mux)@, old(out)@),
            mux_wf(final(mux)@),
            going(final(mux)@, self@.tracks.len(), 3 * k@ + 3, k@ + 1, 2 * k@ + 2),
    {
        reveal(after_slot);
        let ghost n = self@.tracks.len();
        let ghost m = mux@;
        let tracks: &Vec<TrackPlan> = self.tracks();
        assert(self@.tracks[s.track as int] == tracks@[s.track as int]@);
        let packet: &Packet = &tracks[s.track].packets[s.packet];
        assert(self@.tracks[s.track as int].packets[s.packet as int] == packet@);
        assert(track_plan_wf(self@.tracks[s.track as int], s.track as int));
        assert(packet_plan_wf(packet@, s.track as int));
        let position: u64 = out.len() as u64;
        proof {
            lemma_going_takes(
                m,
                s.track as int,
                packet.keyframe,
                packet_times(m, packet@),
                n,
                3 * k@,
                k@,
                2 * k@,
            );
            lemma_packet_goes_on(
                m,
                s.track,
                packet.data@,
                packet.keyframe,
                packet_times(m, packet@),
                position,
                n,
                3 * k@,
                k@,
                2 * k@,
            );
        }
        let taken: Result<(), MuxError> = mux.write_packet(
            packet,
            position,
            out,
        );
        assert(taken is Ok);
        match gap {
            Some(g) => {
                if g.track == s.track && g.after == s.packet {
                    let position: u64 = out.len() as u64;
                    proof {
                        lemma_going_waits(
                            mux@,
                            g.track,
                            g.duration,
                            n,
                            3 * k@ + 1,
                            k@ + 1,
                            2 * k@ + 1,
                        );
                        lemma_gap_goes_on(
                            mux@,
                            g.track,
                            g.duration,
                            position,
                            n,
                            3 * k@ + 1,
                            k@ + 1,
                            2 * k@ + 1,
                        );
                    }
                    let inserted: Result<(), MuxError> = mux.insert_empty_time(
                        g.track,
                        g.duration,
                        position,
                        out,
                    );
                    assert(inserted is Ok);
                } else {
                    assert(going(mux@, n, 3 * k@ + 3, k@ + 1, 2 * k@ + 2)) by {
                        lemma_wider(mux@, n, 3 * k@ + 1, k@ + 1, 2 * k@ + 1);
                    }
                }
            },
            None => {
                assert(going(mux@, n, 3 * k@ + 3, k@ + 1, 2 * k@ + 2)) by {
                    lemma_wider(mux@, n, 3 * k@ + 1, k@ + 1, 2 * k@ + 1);
                }
            },
        }
    }
}

impl MuxPlan {
    /// Carry out a fragmented plan on tracks that are set up as given. The
    /// muxer refuses nothing of it.
    pub fn run(&self, setups: &Vec<TrackSetup>) -> (r: Built)
        requires
            plan_wf(self@),
            self@.frag is Some,
            setups@.len() == self@.tracks.len(),
        ensures
            exists|o: Mp4MuxerOptions, f: FragmentedOptions, order: Seq<Slot>|
                plans_options(self@, o) && plans_fragments(self@.frag->0, f) && is_order(
                    self@.tracks,
                    order,
                ) && r.bytes@ == #[trigger] file_of(
                    setups@,
                    self@.tracks,
                    self@.frag->0,
                    o,
                    f,
                    order,
                ),
            r.tracks@.len() == self@.tracks.len(),
            forall|i: int|
                0 <= i < r.tracks@.len() ==> expects(#[trigger] r.tracks@[i], self@.tracks[i]),
            r.check_pts == self@.check_pts,
    {
        let ghost p = self@;
        let ghost n = p.tracks.len();
        let order: Vec<Slot> = write_order(self.tracks());
        let options: Mp4MuxerOptions = self.muxer_options();
        let ghost o = options;
        let frag: &FragPlan = self.frag().as_ref().unwrap();
        let frag_options: FragmentedOptions = fragment_options(frag);
        let ghost f = frag_options;
        proof {
            lemma_started(setups@, p, o, f);
        }
        let mut mux: FragmentedMuxer = open_fragmented_typed(
            setups,
            options,
            frag_options,
        ).unwrap();
        let mut out: Vec<u8> = Vec::new();
        let headed: Result<(), MuxError> = mux.write_header(&mut out);
        assert(headed is Ok);
        let ghost head = header_step(opened(setups@, o, f)->Ok_0);
        assert(out@ =~= head.out);
        match &frag.emsg {
            Some(e) => {
                let mut events: Vec<EmsgBox> = Vec::new();
                events.push(copy_event(e));
                assert(emsg_views(events@) =~= events_of(p.frag->0));
                mux.set_next_segment_emsg(events);
            },
            None => {
                assert(head.after.emsg + events_of(p.frag->0) =~= head.after.emsg);
            },
        }
        let ghost start = started(setups@, p.frag->0, o, f);
        assert(mux@ =~= start);
        let gap: Option<Gap> = frag.gap;
        let mut i: usize = 0;
        assert(order@.take(0) =~= Seq::<Slot>::empty());
        while i < order.len()
            invariant
                i <= order.len() <= 12,
                p == self@,
                n == p.tracks.len(),
                plan_wf(p),
                is_order(p.tracks, order@),
                gap matches Some(g) ==> g.track == 0,
                mux_wf(mux@),
                going(mux@, n, 3 * i, i as int, 2 * i),
                (mux@, out@) == after_slots(
                    p.tracks,
                    gap,
                    order@.take(i as int),
                    start,
                    head.out,
                ),
            decreases order.len() - i,
        {
            assert(order@.contains(order@[i as int]));
            assert(order@.take(i + 1).drop_last() =~= order@.take(i as int));
            assert(order@.take(i + 1).last() == order@[i as int]);
            self.write_slot(&mut mux, &mut out, order[i], gap, Ghost(i as int));
            i = i + 1;
        }
        assert(order@.take(order.len() as int) =~= order@);
        let position: u64 = out.len() as u64;
        proof {
            lemma_going_flushes(mux@, false, n, 3 * i, i as int, 2 * i);
            lemma_flush_goes_on(mux@, false, position, n, 3 * i, i as int, 2 * i);
        }
        let trailer: Trailer = mux.write_trailer(position, &mut out).unwrap();
        match &trailer.mfra {
            Some(b) => put_bytes(&mut out, b.as_slice()),
            None => {},
        }
        let ghost whole = file_of(setups@, p.tracks, p.frag->0, o, f, order@);
        assert(out@ =~= whole);
        Built { bytes: out, tracks: self.expect_tracks(), check_pts: self.check_pts() }
    }
}

} // verus!
