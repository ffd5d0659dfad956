//! What a layout promises: a PID for each stream, and every clock on a stream.
use vstd::prelude::*;

use crate::muxer::config::{MpegTsMuxConfig, MuxStream, ProgramSpec};
use crate::muxer::flow::{PlanView, Slot, TableView, TrackPlan};
use crate::muxer::plan::{
    draft_of, eits_of, first_video, nit_of, pat_of, plan_of, pmt_of, programs_laid, sdt_of,
    track_on, tracks_laid, DraftView, FIRST_ES_PID,
};
use crate::psi::dvb::{EIT_PID, NIT_PID, SDT_PID};
use crate::psi::tables::PAT_PID;

verus! {

/// Every stream has a PID for itself, apart from those of the tables, and every
/// clock goes with the stream on its PID.
#[verifier::opaque]
pub open spec fn laid_out(plan: PlanView) -> bool {
    &&& plan.wf()
    &&& forall|i: int| 0 <= i < plan.tracks.len() ==> (#[trigger] plan.tracks[i]).pid < 0x1FFF
    &&& forall|i: int, j: int|
        0 <= i < plan.tracks.len() && 0 <= j < plan.tracks.len() && i != j ==> (
        #[trigger] plan.tracks[i]).pid != (#[trigger] plan.tracks[j]).pid
    &&& forall|p: int|
        0 <= p < plan.programs.len() ==> (#[trigger] plan.programs[p]).pcr_pid < 0x2000 && (
        plan.programs[p].pcr_track matches Some(x) ==> plan.tracks[x as int].pid
            == plan.programs[p].pcr_pid)
    &&& forall|i: int| 0 <= i < plan.tables.len() ==> (#[trigger] plan.tables[i]).pid < 0x1FFF
    &&& forall|i: int, t: int|
        0 <= i < plan.tables.len() && 0 <= t < plan.tracks.len() ==> (
        #[trigger] plan.tables[i]).pid != (#[trigger] plan.tracks[t]).pid
}

/// Tables share a PID only where they share its counter.
#[verifier::opaque]
pub open spec fn tables_apart(plan: PlanView) -> bool {
    forall|i: int, j: int|
        0 <= i < plan.tables.len() && 0 <= j < plan.tables.len() ==> ((
        #[trigger] plan.tables[i]).pid == (#[trigger] plan.tables[j]).pid <==> plan.tables[i].slot
            == plan.tables[j].slot)
}

/// The PID of track `i`.
pub open spec fn pid_of(i: int) -> u16 {
    ((FIRST_ES_PID + i) % 65536) as u16
}

/// The streams have their PIDs in a row.
pub open spec fn in_a_row(tracks: Seq<TrackPlan>) -> bool {
    forall|i: int| 0 <= i < tracks.len() ==> (#[trigger] tracks[i]).pid == pid_of(i)
}

proof fn lemma_tracks_in_a_row(d: DraftView, streams: Seq<MuxStream>, spec: ProgramSpec, k: int)
    requires
        in_a_row(d.tracks),
        0 <= k <= spec.stream_indices@.len(),
        tracks_laid(d, streams, spec, k) is Ok,
    ensures
        ({
            let x = tracks_laid(d, streams, spec, k)->Ok_0;
            &&& in_a_row(x.tracks)
            &&& x.tracks.len() == d.tracks.len() + k
            &&& x.programs == d.programs
        }),
    decreases k,
{
    if k > 0 {
        lemma_tracks_in_a_row(d, streams, spec, k - 1);
    }
}

pub(crate) proof fn lemma_first_video(tracks: Seq<TrackPlan>, i: int)
    requires
        0 <= i,
    ensures
        first_video(tracks, i) matches Some(j) ==> i <= j < tracks.len(),
    decreases tracks.len() - i,
{
    if i < tracks.len() && !tracks[i].is_video {
        lemma_first_video(tracks, i + 1);
    }
}

/// The clock of a program is on the PID that was asked for, or on a stream's.
pub open spec fn has_clock(d: DraftView, spec: ProgramSpec, p: int) -> bool {
    match spec.pcr_pid {
        Some(pid) => d.programs[p].pcr_pid == pid,
        None => exists|i: int|
            0 <= i < d.tracks.len() && d.programs[p].pcr_pid == #[trigger] pid_of(i),
    }
}

pub(crate) proof fn lemma_programs_laid(streams: Seq<MuxStream>, specs: Seq<ProgramSpec>, n: int)
    requires
        0 <= n <= specs.len(),
        programs_laid(streams, specs, n) is Ok,
    ensures
        ({
            let d = programs_laid(streams, specs, n)->Ok_0;
            &&& in_a_row(d.tracks)
            &&& d.programs.len() == n
            &&& forall|p: int|
                0 <= p < n ==> (#[trigger] d.programs[p]).pmt_pid == specs[p].pmt_pid && has_clock(
                    d,
                    specs[p],
                    p,
                )
        }),
    decreases n,
{
    if n > 0 {
        lemma_programs_laid(streams, specs, n - 1);
        let a = programs_laid(streams, specs, n - 1)->Ok_0;
        let spec = specs[n - 1];
        let k = spec.stream_indices@.len() as int;
        lemma_tracks_in_a_row(a, streams, spec, k);
        let d = programs_laid(streams, specs, n)->Ok_0;
        let start = a.tracks.len() as int;
        lemma_first_video(d.tracks, start);
        assert forall|p: int| 0 <= p < n implies (#[trigger] d.programs[p]).pmt_pid
            == specs[p].pmt_pid && has_clock(d, specs[p], p) by {
            if p < n - 1 {
                assert(d.programs[p] == a.programs[p]);
                assert(has_clock(a, specs[p], p));
                if specs[p].pcr_pid is None {
                    let i = choose|i: int|
                        0 <= i < a.tracks.len() && a.programs[p].pcr_pid == #[trigger] pid_of(i);
                    assert(d.programs[p].pcr_pid == pid_of(i));
                }
            } else if spec.pcr_pid is None {
                let i = match first_video(d.tracks, start) {
                    Some(i) => i,
                    None => start,
                };
                assert(d.tracks[i].pid == pid_of(i));
                assert(d.programs[p].pcr_pid == pid_of(i));
            }
        }
    }
}

proof fn lemma_track_on(tracks: Seq<TrackPlan>, pid: u16, i: int)
    requires
        0 <= i,
        tracks.len() <= usize::MAX,
    ensures
        track_on(tracks, pid, i) matches Some(x) ==> i <= x < tracks.len() && tracks[x as int].pid
            == pid,
    decreases tracks.len() - i,
{
    if i < tracks.len() && tracks[i].pid != pid {
        lemma_track_on(tracks, pid, i + 1);
    }
}

pub(crate) proof fn lemma_eit_pids(config: MpegTsMuxConfig, n: int)
    requires
        n <= config.programs@.len(),
    ensures
        forall|i: int| 0 <= i < eits_of(config, n).len() ==> (#[trigger] eits_of(config, n)[i]).pid
            == EIT_PID && eits_of(config, n)[i].slot is Eit,
    decreases n,
{
    if n > 0 {
        lemma_eit_pids(config, n - 1);
    }
}

/// There are PIDs for `n` streams below the null PID, and the PIDs that `config`
/// gives away are others, or clocks.
pub open spec fn has_room(config: MpegTsMuxConfig, n: int) -> bool {
    &&& FIRST_ES_PID + n <= 0x1FFF
    &&& forall|p: int|
        0 <= p < config.programs@.len() ==> {
            let spec = #[trigger] config.programs@[p];
            &&& spec.pmt_pid < 0x1FFF
            &&& !(FIRST_ES_PID <= spec.pmt_pid < FIRST_ES_PID + n)
            &&& spec.pcr_pid matches Some(pid) ==> pid < 0x2000
        }
}

/// Every PMT has a PID for itself: no two programs share one, and none is that of
/// another table.
pub open spec fn maps_apart(config: MpegTsMuxConfig) -> bool {
    &&& forall|p: int|
        0 <= p < config.programs@.len() ==> {
            let pid = (#[trigger] config.programs@[p]).pmt_pid;
            pid != PAT_PID && pid != NIT_PID && pid != SDT_PID && pid != EIT_PID
        }
    &&& forall|p: int, q: int|
        0 <= p < config.programs@.len() && 0 <= q < config.programs@.len() && p != q ==> (
        #[trigger] config.programs@[p]).pmt_pid != (#[trigger] config.programs@[q]).pmt_pid
}

/// A table of the layout of `config`: its PID and its counter go together.
spec fn goes_together(d: DraftView, t: TableView) -> bool {
    match t.slot {
        Slot::Pat => t.pid == PAT_PID,
        Slot::Pmt(p) => p < d.programs.len() && t.pid == d.programs[p as int].pmt_pid,
        Slot::Sdt => t.pid == SDT_PID,
        Slot::Nit => t.pid == NIT_PID,
        Slot::Eit => t.pid == EIT_PID,
    }
}

/// The layout of a configuration whose PMTs have PIDs for themselves lets tables
/// share a PID only where they share its counter.
pub proof fn lemma_plan_tables_apart(streams: Seq<MuxStream>, config: MpegTsMuxConfig)
    requires
        draft_of(streams, config) is Ok,
        maps_apart(config),
        config.programs@.len() <= usize::MAX,
    ensures
        tables_apart(plan_of(draft_of(streams, config)->Ok_0, config)),
{
    reveal(tables_apart);
    let d = draft_of(streams, config)->Ok_0;
    let plan = plan_of(d, config);
    let n = config.programs@.len() as int;
    lemma_programs_laid(streams, config.programs@, n);
    lemma_eit_pids(config, n);
    assert forall|i: int| 0 <= i < plan.tables.len() implies goes_together(
        d,
        #[trigger] plan.tables[i],
    ) by {
        let pmts = Seq::new(d.programs.len(), |p: int| pmt_of(d, p));
        let a = seq![pat_of(d, config)] + pmts;
        let b = a + sdt_of(config);
        let c = b + nit_of(config);
        if 1 <= i < a.len() {
            assert(plan.tables[i] == pmt_of(d, i - 1));
        } else if i >= c.len() {
            assert(plan.tables[i] == eits_of(config, n)[i - c.len()]);
        } else if i >= b.len() {
            assert(plan.tables[i] == nit_of(config)[i - b.len()]);
        } else if i >= a.len() {
            assert(plan.tables[i] == sdt_of(config)[i - a.len()]);
        } else {
            assert(plan.tables[0] == pat_of(d, config));
        }
    }
    assert forall|i: int, j: int| 0 <= i < plan.tables.len() && 0 <= j < plan.tables.len() implies ((
    #[trigger] plan.tables[i]).pid == (#[trigger] plan.tables[j]).pid <==> plan.tables[i].slot
        == plan.tables[j].slot) by {
        assert(goes_together(d, plan.tables[i]));
        assert(goes_together(d, plan.tables[j]));
        if plan.tables[i].slot is Pmt {
            let p = plan.tables[i].slot->Pmt_0 as int;
            assert(d.programs[p].pmt_pid == config.programs@[p].pmt_pid);
        }
        if plan.tables[j].slot is Pmt {
            let q = plan.tables[j].slot->Pmt_0 as int;
            assert(d.programs[q].pmt_pid == config.programs@[q].pmt_pid);
        }
    }
}

/// The layout of a configuration with room for its streams gives each of them a
/// PID for itself.
pub proof fn lemma_plan_laid_out(streams: Seq<MuxStream>, config: MpegTsMuxConfig)
    requires
        draft_of(streams, config) is Ok,
        ({
            let d = draft_of(streams, config)->Ok_0;
            has_room(config, d.tracks.len() as int) && plan_of(d, config).wf()
        }),
    ensures
        laid_out(plan_of(draft_of(streams, config)->Ok_0, config)),
{
    reveal(laid_out);
    let d = draft_of(streams, config)->Ok_0;
    let plan = plan_of(d, config);
    let n = config.programs@.len() as int;
    lemma_programs_laid(streams, config.programs@, n);
    lemma_eit_pids(config, n);
    assert forall|i: int| 0 <= i < d.tracks.len() implies (#[trigger] plan.tracks[i]).pid
        == FIRST_ES_PID + i by {
        assert(d.tracks[i].pid == pid_of(i));
    }
    assert forall|p: int| 0 <= p < plan.programs.len() implies (
    #[trigger] plan.programs[p]).pcr_pid < 0x2000 && (plan.programs[p].pcr_track matches Some(x)
        ==> plan.tracks[x as int].pid == plan.programs[p].pcr_pid) by {
        assert(d.programs[p].pmt_pid == config.programs@[p].pmt_pid);
        assert(has_clock(d, config.programs@[p], p));
        lemma_track_on(d.tracks, d.programs[p].pcr_pid, 0);
    }
    assert forall|i: int| 0 <= i < plan.tables.len() implies (#[trigger] plan.tables[i]).pid < 0x1FFF
        && !(FIRST_ES_PID <= plan.tables[i].pid < FIRST_ES_PID + d.tracks.len()) by {
        let pmts = Seq::new(d.programs.len(), |p: int| pmt_of(d, p));
        let a = seq![pat_of(d, config)] + pmts;
        let b = a + sdt_of(config);
        let c = b + nit_of(config);
        if 1 <= i < a.len() {
            assert(plan.tables[i] == pmt_of(d, i - 1));
            assert(d.programs[i - 1].pmt_pid == config.programs@[i - 1].pmt_pid);
        } else if i >= c.len() {
            assert(plan.tables[i] == eits_of(config, n)[i - c.len()]);
        } else if i >= b.len() {
            assert(plan.tables[i] == nit_of(config)[i - b.len()]);
        } else if i >= a.len() {
            assert(plan.tables[i] == sdt_of(config)[i - a.len()]);
        } else {
            assert(plan.tables[0] == pat_of(d, config));
        }
    }
}

} // verus!
