//! Writing a frame: its PES packets, cut into packets.
use vstd::prelude::*;

use crate::muxer::config::SpliceSpec;
use crate::muxer::flow::{
    Flow, FlowView, Plan, PlanView, ProgramFlow, TrackFlow, TrackPlan, AUDIO_TB_RX,
};
use crate::muxer::packets::{
    lemma_needed_bound, needed, packets_needed, pes_packet, pes_take, push_pes_packet, Field,
};

verus! {

/// What goes along with a PES packet.
#[derive(Clone, Copy, Debug, PartialEq, Eq)]
pub struct Riders {
    /// PCR base and extension, in the first packet.
    pub pcr: Option<(u64, u16)>,
    /// `random_access_indicator`, in the first packet.
    pub random_access: bool,
    /// A splicing point after the last packet.
    pub splice: Option<SpliceSpec>,
}

impl Riders {
    /// The values fit their fields.
    pub open spec fn wf(self) -> bool {
        &&& self.pcr matches Some((base, ext)) ==> base <= 0x1_FFFF_FFFF && ext <= 0x1FF
        &&& self.splice matches Some(s) ==> s.wf()
    }

    /// `splice_type` and `DTS_next_AU` to carry.
    pub open spec fn seamless(self) -> Option<(u8, u64)> {
        match self.splice {
            Some(s) => match s.seamless {
                Some(x) => Some((x.splice_type, x.dts_next_au)),
                None => None,
            },
            None => None,
        }
    }
}

/// The field of a countdown packet with nothing else.
pub open spec fn countdown_field(seamless: Option<(u8, u64)>) -> Field {
    Field { discontinuity: false, random_access: false, pcr: None, countdown: Some(0), seamless }
}

/// Packets that the rest of a PES packet takes when the countdown starts now, in
/// a packet that carries `base` as well.
pub open spec fn countdown_from(base: Field, seamless: Option<(u8, u64)>, left: int) -> int {
    let here = Field { countdown: Some(0), seamless, ..base };
    needed(left, 184 - here.size(), 184 - countdown_field(seamless).size())
}

/// Packets of a countdown that runs or starts now: a countdown starts as soon as
/// it fits the signed 8-bit field.
pub open spec fn countdown_run(
    run: Option<int>,
    base: Field,
    seamless: Option<(u8, u64)>,
    left: int,
) -> Option<int> {
    match run {
        Some(n) => Some(n),
        None => {
            let n = countdown_from(base, seamless, left);
            if n <= 128 { Some(n) } else { None }
        },
    }
}

impl FlowView {
    /// The PCR that a first packet carries: the byte clock's where it runs.
    pub open spec fn rider_pcr(self, riders: Riders, start: bool) -> Option<(u64, u16)> {
        if !start {
            None
        } else {
            match riders.pcr {
                Some(fixed) => Some(if self.anchored() { self.pcr_now() } else { fixed }),
                None => None,
            }
        }
    }

    /// The field of a packet, the countdown aside.
    pub open spec fn base_field(self, plan: PlanView, t: int, riders: Riders, start: bool) -> Field {
        let pcr = self.rider_pcr(riders, start);
        Field {
            discontinuity: pcr is Some
                && self.programs[plan.tracks[t].program as int].discontinuity,
            random_access: start && riders.random_access,
            pcr,
            countdown: None,
            seamless: None,
        }
    }

    /// The field of a packet. `run` counts the packets of a running countdown.
    pub open spec fn packet_field(
        self,
        plan: PlanView,
        t: int,
        riders: Riders,
        start: bool,
        run: Option<int>,
        left: int,
    ) -> Field {
        let base = self.base_field(plan, t, riders, start);
        if riders.splice is Some {
            match countdown_run(run, base, riders.seamless(), left) {
                Some(n) => Field {
                    countdown: Some((n - 1) as i8),
                    seamless: riders.seamless(),
                    ..base
                },
                None => base,
            }
        } else {
            match self.tracks[t].after_splice {
                Some((next, _)) => Field { countdown: Some((0 - next) as i8), ..base },
                None => base,
            }
        }
    }

    /// The state of a stream after a packet with payload.
    pub open spec fn track_after(self, t: int, riders: Riders) -> TrackFlow {
        let x = self.tracks[t];
        TrackFlow {
            cc: ((x.cc + 1) % 16) as u8,
            after_splice: if riders.splice is Some {
                x.after_splice
            } else {
                match x.after_splice {
                    Some((next, total)) if next < total => Some(((next + 1) as u8, total)),
                    _ => None,
                }
            },
            ..x
        }
    }

    /// After a packet with the head of the rest of a PES packet.
    pub open spec fn packet_put(
        self,
        plan: PlanView,
        t: int,
        riders: Riders,
        start: bool,
        run: Option<int>,
        rest: Seq<u8>,
    ) -> FlowView {
        let track = plan.tracks[t];
        let p = track.program as int;
        let f = self.packet_field(plan, t, riders, start, run, rest.len() as int);
        let a = self.put(pes_packet(track.pid, self.tracks[t].cc, start, f, rest));
        let b = FlowView { tracks: self.tracks.update(t, self.track_after(t, riders)), ..a };
        if f.pcr is Some {
            let c = b.signalled(p);
            if self.anchored() { c.with_pcr_at(p, self.pos()) } else { c }
        } else {
            b
        }
    }

    /// After the null packets that a stream's transport buffer asks for. Video
    /// buffers drain faster than any rate.
    pub open spec fn paced_for(self, plan: PlanView, t: int) -> FlowView {
        let track = plan.tracks[t];
        if track.is_video { self } else { self.tb_paced(track.pid, AUDIO_TB_RX as int) }
    }

    /// Packets of a countdown that are to come after this one.
    pub open spec fn run_after(
        self,
        plan: PlanView,
        t: int,
        riders: Riders,
        start: bool,
        run: Option<int>,
        left: int,
    ) -> Option<int> {
        if riders.splice is None {
            None
        } else {
            match countdown_run(
                run,
                self.base_field(plan, t, riders, start),
                riders.seamless(),
                left,
            ) {
                Some(k) => Some(k - 1),
                None => None,
            }
        }
    }

    /// After the rest of a PES packet.
    pub open spec fn rest_put(
        self,
        plan: PlanView,
        t: int,
        riders: Riders,
        start: bool,
        run: Option<int>,
        rest: Seq<u8>,
    ) -> FlowView
        decreases rest.len(),
    {
        let a = self.paced_for(plan, t);
        let left = rest.len() as int;
        let n = pes_take(a.packet_field(plan, t, riders, start, run, left), left);
        if left == 0 || n <= 0 || n > left {
            self
        } else {
            a.packet_put(plan, t, riders, start, run, rest).rest_put(
                plan,
                t,
                riders,
                false,
                a.run_after(plan, t, riders, start, run, left),
                rest.skip(n),
            )
        }
    }

    /// With countdown state `x` after a splicing point.
    pub open spec fn with_after_splice(self, t: int, x: Option<(u8, u8)>) -> FlowView {
        FlowView {
            tracks: self.tracks.update(t, TrackFlow { after_splice: x, ..self.tracks[t] }),
            ..self
        }
    }

    /// After a PES packet on stream `t`.
    pub open spec fn pes_put(self, plan: PlanView, t: int, riders: Riders, pes: Seq<u8>) -> FlowView {
        match riders.splice {
            None => self.rest_put(plan, t, riders, true, None, pes),
            Some(s) => {
                let a = self.with_after_splice(t, None).rest_put(plan, t, riders, true, None, pes);
                if s.post_splice_packets > 0 {
                    a.with_after_splice(t, Some((1u8, s.post_splice_packets)))
                } else {
                    a
                }
            },
        }
    }
}

/// The run of a countdown still covers the rest: it has one packet for each that
/// is to come.
pub open spec fn run_covers(run: Option<int>, seamless: Option<(u8, u64)>, left: int) -> bool {
    let cap = 184 - countdown_field(seamless).size();
    run matches Some(n) ==> 0 <= n <= 128 && (if left == 0 { n == 0 } else {
        n == needed(left, cap, cap)
    })
}

/// A countdown has exactly one packet for each that is to come: after a packet of
/// the countdown, the run covers what is left, so the packet that ends the frame
/// carries zero.
pub proof fn lemma_countdown_exact(
    run: Option<int>,
    base: Field,
    seamless: Option<(u8, u64)>,
    left: int,
)
    requires
        left > 0,
        base.wf(),
        base.countdown is None && base.seamless is None,
        seamless matches Some((t, dts)) ==> t <= 0xF && dts <= 0x1_FFFF_FFFF,
        run is Some ==> base.is_bare(),
        run_covers(run, seamless, left),
    ensures
        ({
            let now = countdown_run(run, base, seamless, left);
            let f = Field { countdown: Some((now->0 - 1) as i8), seamless, ..base };
            now is Some ==> {
                &&& 1 <= now->0 <= 128
                &&& f.wf()
                &&& run_covers(Some(now->0 - 1), seamless, left - pes_take(f, left))
                &&& now->0 == 1 <==> pes_take(f, left) == left
            }
        }),
{
    let cap = 184 - countdown_field(seamless).size();
    assert(cap == 181 || cap == 174);
    let now = countdown_run(run, base, seamless, left);
    if now is Some {
        let f = Field { countdown: Some((now->0 - 1) as i8), seamless, ..base };
        let here = Field { countdown: Some(0), seamless, ..base };
        assert(f.size() == here.size());
        let room = 184 - here.size();
        assert(168 <= room <= 181);
        assert(now->0 == needed(left, room, cap));
        let over = left - room;
        if over > 0 {
            if cap == 181 {
                assert(needed(left, room, 181) == 1 + (over + 180) / 181);
            } else {
                assert(needed(left, room, 174) == 1 + (over + 173) / 174);
            }
        }
    }
}

impl Flow {
    fn set_after_splice(&mut self, plan: &Plan, t: usize, x: Option<(u8, u8)>)
        requires
            old(self)@.wf(plan@),
            t < plan.tracks@.len(),
            x matches Some((next, total)) ==> 1 <= next <= total <= 127,
        ensures
            final(self)@ == old(self)@.with_after_splice(t as int, x),
            final(self)@.wf(plan@),
            final(self)@.follows(old(self)@),
            final(self)@.pacer == old(self)@.pacer,
    {
        let mut flow: TrackFlow = self.tracks[t];
        assert(self@.tracks[t as int].wf());
        flow.after_splice = x;
        self.tracks.set(t, flow);
        assert(self@ =~= old(self)@.with_after_splice(t as int, x));
    }

    /// Write one packet with the head of the rest of a PES packet. Returns how
    /// much of it went in.
    fn put_packet(
        &mut self,
        plan: &Plan,
        t: usize,
        riders: &Riders,
        start: bool,
        f: &Field,
        rest: &[u8],
        run: Ghost<Option<int>>,
    ) -> (n: usize)
        requires
            plan@.wf(),
            old(self)@.wf(plan@),
            t < plan.tracks@.len(),
            rest@.len() > 0,
            f.wf(),
            *f == old(self)@.packet_field(
                plan@,
                t as int,
                *riders,
                start,
                run@,
                rest@.len() as int,
            ),
        ensures
            n == pes_take(*f, rest@.len() as int),
            0 < n <= rest@.len(),
            final(self)@ == old(self)@.packet_put(plan@, t as int, *riders, start, run@, rest@),
            final(self)@.wf(plan@),
            final(self)@.follows(old(self)@),
    {
        let track: TrackPlan = plan.tracks[t];
        assert(plan@.tracks[t as int] == track);
        let p: usize = track.program;
        let here: u128 = self.position();
        let anchored: bool = match &self.pacer {
            Some(q) => q.anchor.is_some(),
            None => false,
        };
        let ghost before = self@;
        let mut flow: TrackFlow = self.tracks[t];
        assert(self@.tracks[t as int].wf());
        let n: usize = push_pes_packet(&mut self.out, track.pid, flow.cc, start, f, rest);
        flow.cc = (flow.cc + 1) % 16;
        if riders.splice.is_none() {
            flow.after_splice =
            match flow.after_splice {
                Some((next, total)) => if next < total {
                    Some((next + 1, total))
                } else {
                    None
                },
                None => None,
            };
        }
        self.tracks.set(t, flow);
        let ghost b = self@;
        proof {
            let a = before.put(pes_packet(track.pid, before.tracks[t as int].cc, start, *f, rest@));
            assert(b =~= FlowView {
                tracks: before.tracks.update(t as int, before.track_after(t as int, *riders)),
                ..a
            });
        }
        if f.pcr.is_some() {
            let mut prog: ProgramFlow = self.programs[p];
            prog.discontinuity = false;
            self.programs.set(p, prog);
            assert(self@ =~= b.signalled(p as int));
            if anchored {
                self.note_pcr_position(plan, p, here);
            }
        }
        n
    }

    /// The field of the next packet, the countdown aside.
    fn base_field_now(&self, plan: &Plan, t: usize, riders: &Riders, start: bool) -> (f: Field)
        requires
            plan@.wf(),
            self@.wf(plan@),
            t < plan.tracks@.len(),
            riders.wf(),
        ensures
            f == self@.base_field(plan@, t as int, *riders, start),
            f.wf(),
            !start ==> f.is_bare(),
    {
        let track: TrackPlan = plan.tracks[t];
        assert(plan@.tracks[t as int] == track);
        let anchored: bool = match &self.pacer {
            Some(q) => q.anchor.is_some(),
            None => false,
        };
        let pcr: Option<(u64, u16)> = if !start {
            None
        } else {
            match riders.pcr {
                Some(fixed) => Some(
                    if anchored {
                        self.pcr_fields(Ghost(plan@))
                    } else {
                        fixed
                    },
                ),
                None => None,
            }
        };
        Field {
            discontinuity: pcr.is_some() && self.programs[track.program].discontinuity,
            random_access: start && riders.random_access,
            pcr,
            countdown: None,
            seamless: None,
        }
    }

    /// Write the next packet of a PES packet. Returns how much went in, and the
    /// packets of a countdown that are to come.
    fn write_next(
        &mut self,
        plan: &Plan,
        t: usize,
        riders: &Riders,
        start: bool,
        run: Option<usize>,
        rest: &[u8],
    ) -> (r: (usize, Option<usize>))
        requires
            plan@.wf(),
            old(self)@.wf(plan@),
            t < plan.tracks@.len(),
            riders.wf(),
            rest@.len() > 0,
            run is Some ==> !start && riders.splice is Some,
            run_covers(count_of(run), riders.seamless(), rest@.len() as int),
        ensures
            ({
                let a = old(self)@.paced_for(plan@, t as int);
                let left = rest@.len() as int;
                let f = a.packet_field(plan@, t as int, *riders, start, count_of(run), left);
                &&& final(self)@ == a.packet_put(
                    plan@,
                    t as int,
                    *riders,
                    start,
                    count_of(run),
                    rest@,
                )
                &&& r.0 == pes_take(f, left)
                &&& 0 < r.0 <= left
                &&& count_of(r.1) == a.run_after(
                    plan@,
                    t as int,
                    *riders,
                    start,
                    count_of(run),
                    left,
                )
                &&& run_covers(count_of(r.1), riders.seamless(), left - r.0)
            }),
            final(self)@.wf(plan@),
            final(self)@.follows(old(self)@),
    {
        let track: TrackPlan = plan.tracks[t];
        assert(plan@.tracks[t as int] == track);
        let ghost run0 = count_of(run);
        let left: usize = rest.len();
        if !track.is_video {
            self.pace_tb(track.pid, AUDIO_TB_RX, Ghost(plan@));
        }
        let ghost a = self@;
        let base: Field = self.base_field_now(plan, t, riders, start);
        let mut f: Field = base;
        let mut next: Option<usize> = None;
        if let Some(s) = &riders.splice {
            let seamless: Option<(u8, u64)> = match s.seamless {
                Some(x) => Some((x.splice_type, x.dts_next_au)),
                None => None,
            };
            proof {
                lemma_countdown_exact(run0, base, seamless, left as int);
            }
            if let Some(n) = countdown_now(run, &base, seamless, left) {
                f.countdown = Some((n - 1) as i8);
                f.seamless = seamless;
                next = Some(n - 1);
            }
        } else if let Some((k, _)) = self.tracks[t].after_splice {
            assert(self@.tracks[t as int].wf());
            f.countdown = Some(0 - k as i8);
        }
        assert(f == a.packet_field(plan@, t as int, *riders, start, run0, left as int));
        let n: usize = self.put_packet(plan, t, riders, start, &f, rest, Ghost(run0));
        (n, next)
    }

    /// Cut a PES packet into packets of stream `t`.
    fn write_rest(&mut self, plan: &Plan, t: usize, riders: &Riders, pes: &[u8])
        requires
            plan@.wf(),
            old(self)@.wf(plan@),
            t < plan.tracks@.len(),
            riders.wf(),
        ensures
            final(self)@ == old(self)@.rest_put(plan@, t as int, *riders, true, None, pes@),
            final(self)@.wf(plan@),
            final(self)@.follows(old(self)@),
    {
        let mut at: usize = 0;
        let mut start: bool = true;
        let mut run: Option<usize> = None;
        assert(pes@.skip(0) =~= pes@);
        while at < pes.len()
            invariant
                plan@.wf(),
                self@.wf(plan@),
                t < plan.tracks@.len(),
                riders.wf(),
                at <= pes@.len(),
                run is Some ==> !start && riders.splice is Some,
                run_covers(count_of(run), riders.seamless(), pes@.len() - at),
                self@.rest_put(
                    plan@,
                    t as int,
                    *riders,
                    start,
                    count_of(run),
                    pes@.skip(at as int),
                ) == old(self)@.rest_put(plan@, t as int, *riders, true, None, pes@),
                self@.follows(old(self)@),
            decreases pes@.len() - at,
        {
            let tail: &[u8] = &pes[at..pes.len()];
            assert(tail@ =~= pes@.skip(at as int));
            let (n, next): (usize, Option<usize>) = self.write_next(
                plan,
                t,
                riders,
                start,
                run,
                tail,
            );
            assert(tail@.skip(n as int) =~= pes@.skip(at + n));
            run = next;
            at = at + n;
            start = false;
        }
    }

    /// Write a PES packet on stream `t`.
    pub(crate) fn write_pes_bytes_as_ts(
        &mut self,
        plan: &Plan,
        t: usize,
        riders: &Riders,
        pes: &[u8],
    )
        requires
            plan@.wf(),
            old(self)@.wf(plan@),
            t < plan.tracks@.len(),
            riders.wf(),
        ensures
            final(self)@ == old(self)@.pes_put(plan@, t as int, *riders, pes@),
            final(self)@.wf(plan@),
            final(self)@.follows(old(self)@),
    {
        if riders.splice.is_some() {
            self.set_after_splice(plan, t, None);
        }
        self.write_rest(plan, t, riders, pes);
        if let Some(s) = &riders.splice {
            if s.post_splice_packets > 0 {
                self.set_after_splice(plan, t, Some((1, s.post_splice_packets)));
            }
        }
    }
}

/// Packets of a countdown that runs or starts now.
fn countdown_now(
    run: Option<usize>,
    base: &Field,
    seamless: Option<(u8, u64)>,
    left: usize,
) -> (r: Option<usize>)
    requires
        base.countdown is None && base.seamless is None,
    ensures
        count_of(r) == countdown_run(count_of(run), *base, seamless, left as int),
{
    if run.is_some() {
        return run;
    }
    let here: Field = Field { countdown: Some(0), seamless, ..*base };
    let next: Field = Field {
        discontinuity: false,
        random_access: false,
        pcr: None,
        countdown: Some(0),
        seamless,
    };
    proof {
        if left > 184 - here.size() {
            lemma_needed_bound(left as int, 184 - here.size(), 184 - next.size());
        }
    }
    let n: usize = packets_needed(left, 184 - here.bare_size(), 184 - next.bare_size());
    if n <= 128 {
        Some(n)
    } else {
        None
    }
}

/// A count that may be missing.
pub open spec fn count_of(x: Option<usize>) -> Option<int> {
    match x {
        Some(n) => Some(n as int),
        None => None,
    }
}

} // verus!
