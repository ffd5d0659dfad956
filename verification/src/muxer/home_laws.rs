//! When the layout of a configuration says what it is, and has everything where
//! it belongs.
use vstd::prelude::*;

use crate::build::round_trip::{lemma_entry_within, lemma_pmt_entry};
use crate::build::sections::{entries_bytes, pmt_body, pmt_entry};
use crate::bytes::low13;
use crate::muxer::config::{MpegTsMuxConfig, MuxStream, ProgramSpec};
use crate::muxer::flow::TrackPlan;
use crate::muxer::found::{
    announced, is_audio_pid, is_clock_pid, is_good_pat, is_good_pmt, is_map_pid,
};
use crate::muxer::laws::{lemma_pat_reads, lemma_pmt_reads, lemma_track_entries};
use crate::muxer::mux::is_single_program;
use crate::muxer::plan::{
    draft_of, eits_of, empty_draft, es_info, first_video, nit_of, pat_of, plan_of, pmt_of,
    programs_laid, sdt_of, track_entries, track_on, tracks_laid, DraftView, FIRST_ES_PID,
};
use crate::muxer::plan_laws::{
    has_room, laid_out, lemma_eit_pids, lemma_first_video, lemma_plan_laid_out,
    lemma_plan_tables_apart, lemma_programs_laid, maps_apart, pid_of,
};
use crate::muxer::settling::{at_home, homed};
use crate::psi::dvb::{EIT_PID, NIT_PID, SDT_PID};
use crate::psi::entries::loop_entries;
use crate::psi::section::section_body;
use crate::psi::tables::{pat_programs, pmt_loop, PAT_PID};
use crate::stream_type::is_audio_byte;

verus! {

/// The PAT and every PMT fit one section.
pub open spec fn sections_fit(d: DraftView) -> bool {
    &&& d.programs.len() <= 253
    &&& forall|p: int|
        0 <= p < d.programs.len() ==> pmt_body(
            (#[trigger] d.programs[p]).pcr_pid,
            Seq::empty(),
            track_entries(d, p, d.tracks.len() as int),
        ).len() <= 1012
}

/// A PCR PID that is asked for is that of no other program's stream.
pub open spec fn clocks_at_home(config: MpegTsMuxConfig, d: DraftView) -> bool {
    forall|p: int, t: int|
        0 <= p < config.programs@.len() && 0 <= t < d.tracks.len() && (
        #[trigger] config.programs@[p]).pcr_pid == Some((#[trigger] d.tracks[t]).pid)
            ==> d.tracks[t].program == p
}

/// Audio is no video.
pub open spec fn is_of_one_kind(t: TrackPlan) -> bool {
    is_audio_byte(t.stream_type) ==> !t.is_video
}

proof fn lemma_tracks_owned(d: DraftView, streams: Seq<MuxStream>, spec: ProgramSpec, k: int)
    requires
        0 <= k <= spec.stream_indices@.len(),
        tracks_laid(d, streams, spec, k) is Ok,
        d.programs.len() <= usize::MAX,
    ensures
        ({
            let x = tracks_laid(d, streams, spec, k)->Ok_0;
            &&& x.tracks.len() == d.tracks.len() + k
            &&& x.programs == d.programs
            &&& forall|i: int| 0 <= i < d.tracks.len() ==> #[trigger] x.tracks[i] == d.tracks[i]
            &&& forall|i: int|
                d.tracks.len() <= i < x.tracks.len() ==> (#[trigger] x.tracks[i]).program
                    == d.programs.len() && is_of_one_kind(x.tracks[i])
        }),
    decreases k,
{
    if k > 0 {
        lemma_tracks_owned(d, streams, spec, k - 1);
    }
}

/// The clock of program `p`, where none is asked for, is on a stream of its own.
pub open spec fn clocks_itself(d: DraftView, spec: ProgramSpec, p: int) -> bool {
    spec.pcr_pid is None ==> exists|i: int|
        0 <= i < d.tracks.len() && (#[trigger] d.tracks[i]).program == p && d.tracks[i].pid
            == d.programs[p].pcr_pid
}

proof fn lemma_programs_owned(streams: Seq<MuxStream>, specs: Seq<ProgramSpec>, n: int)
    requires
        0 <= n <= specs.len(),
        specs.len() <= usize::MAX,
        programs_laid(streams, specs, n) is Ok,
    ensures
        ({
            let d = programs_laid(streams, specs, n)->Ok_0;
            &&& d.programs.len() == n
            &&& forall|i: int| 0 <= i < d.tracks.len() ==> is_of_one_kind(#[trigger] d.tracks[i])
            &&& forall|p: int| 0 <= p < n ==> #[trigger] clocks_itself(d, specs[p], p)
        }),
    decreases n,
{
    if n > 0 {
        lemma_programs_owned(streams, specs, n - 1);
        let a = programs_laid(streams, specs, n - 1)->Ok_0;
        let spec = specs[n - 1];
        let k = spec.stream_indices@.len() as int;
        lemma_tracks_owned(a, streams, spec, k);
        let d = programs_laid(streams, specs, n)->Ok_0;
        let start = a.tracks.len() as int;
        lemma_first_video(d.tracks, start);
        assert forall|p: int| 0 <= p < n implies #[trigger] clocks_itself(d, specs[p], p) by {
            if specs[p].pcr_pid is None {
                if p < n - 1 {
                    assert(clocks_itself(a, specs[p], p));
                    let i = choose|i: int|
                        0 <= i < a.tracks.len() && (#[trigger] a.tracks[i]).program == p
                            && a.tracks[i].pid == a.programs[p].pcr_pid;
                    assert(d.tracks[i] == a.tracks[i]);
                    assert(d.programs[p] == a.programs[p]);
                } else {
                    let i = match first_video(d.tracks, start) {
                        Some(i) => i,
                        None => start,
                    };
                    assert(d.tracks[i].program == p);
                    assert(d.programs[p].pcr_pid == d.tracks[i].pid);
                }
            }
        }
        assert forall|i: int| 0 <= i < d.tracks.len() implies is_of_one_kind(
            #[trigger] d.tracks[i],
        ) by {
            if i < start {
                assert(d.tracks[i] == a.tracks[i]);
            }
        }
    }
}

proof fn lemma_track_found(tracks: Seq<TrackPlan>, i: int, t: int)
    requires
        0 <= i <= t < tracks.len(),
    ensures
        track_on(tracks, tracks[t].pid, i) is Some,
    decreases tracks.len() - i,
{
    if tracks[i].pid != tracks[t].pid {
        lemma_track_found(tracks, i + 1, t);
    }
}

/// The PAT of a layout names its PMTs.
proof fn lemma_good_pat(d: DraftView, config: MpegTsMuxConfig)
    requires
        sections_fit(d),
        forall|p: int| 0 <= p < d.programs.len() ==> (#[trigger] d.programs[p]).pmt_pid < 0x1FFF,
    ensures
        is_good_pat(pat_of(d, config).section, plan_of(d, config)),
{
    let plan = plan_of(d, config);
    lemma_pat_reads(d, config);
    let pairs = pat_programs(section_body(pat_of(d, config).section));
    assert forall|i: int| 0 <= i < pairs.len() implies is_map_pid(plan, (#[trigger] pairs[i]).1) by {
        assert(plan.programs[i].pmt_pid == pairs[i].1);
    }
}

/// The PMT of a program names its clock and its streams.
proof fn lemma_good_pmt(d: DraftView, config: MpegTsMuxConfig, p: int)
    requires
        sections_fit(d),
        0 <= p < d.programs.len(),
        d.programs[p].pcr_pid < 0x2000,
        forall|k: int| 0 <= k < d.tracks.len() ==> (#[trigger] d.tracks[k]).pid < 0x1FFF,
    ensures
        is_good_pmt(pmt_of(d, p).section, plan_of(d, config)),
{
    let plan = plan_of(d, config);
    let n = d.tracks.len() as int;
    assert(pmt_body(d.programs[p].pcr_pid, Seq::empty(), track_entries(d, p, n)).len() <= 1012);
    lemma_pmt_reads(d, p);
    let body = section_body(pmt_of(d, p).section);
    let es = loop_entries(pmt_loop(body), 5)->Ok_0;
    assert(plan.programs[p].pcr_pid == low13(body[0], body[1]));
    assert(is_clock_pid(plan, low13(body[0], body[1])));
    assert forall|i: int| 0 <= i < es.len() implies (is_audio_byte((#[trigger] es[i]).head[0])
        ==> is_audio_pid(plan, low13(es[i].head[1], es[i].head[2]))) by {
        lemma_track_entries(d, p, n, i);
        let k = choose|k: int|
            0 <= k < n && (#[trigger] d.tracks[k]).program == p && es[i] == pmt_entry(
                d.tracks[k].stream_type,
                d.tracks[k].pid,
                es_info(d.tracks[k], d.extras[k]),
            );
        lemma_entry_within(es, i);
        lemma_pmt_entry(
            d.tracks[k].stream_type,
            d.tracks[k].pid,
            es_info(d.tracks[k], d.extras[k]),
        );
        assert(plan.tracks[k] == d.tracks[k]);
    }
}

/// The tables by their places: a PAT, the PMTs, and those on other PIDs.
proof fn lemma_table_kind(d: DraftView, config: MpegTsMuxConfig, i: int)
    requires
        0 <= i < plan_of(d, config).tables.len(),
    ensures
        ({
            let t = plan_of(d, config).tables[i];
            let n = d.programs.len();
            &&& i == 0 ==> t == pat_of(d, config)
            &&& 1 <= i <= n ==> t == pmt_of(d, i - 1)
            &&& i > n ==> t.pid == SDT_PID || t.pid == NIT_PID || t.pid == EIT_PID
        }),
{
    let plan = plan_of(d, config);
    let n = config.programs@.len() as int;
    lemma_eit_pids(config, n);
    let pmts = Seq::new(d.programs.len(), |p: int| pmt_of(d, p));
    let a = seq![pat_of(d, config)] + pmts;
    let b = a + sdt_of(config);
    let c = b + nit_of(config);
    if 1 <= i < a.len() {
        assert(plan.tables[i] == pmt_of(d, i - 1));
    } else if i >= c.len() {
        assert(plan.tables[i] == eits_of(config, n)[i - c.len()]);
    } else if i >= b.len() {
        assert(plan.tables[i] == nit_of(config)[i - b.len()]);
    } else if i >= a.len() {
        assert(plan.tables[i] == sdt_of(config)[i - a.len()]);
    } else {
        assert(plan.tables[0] == pat_of(d, config));
    }
}

/// The layout of a configuration says what it is: if there is room for its
/// streams, if its PMTs have PIDs for themselves, and if PAT and PMTs fit one
/// section each.
pub proof fn lemma_plan_announced(streams: Seq<MuxStream>, config: MpegTsMuxConfig)
    requires
        draft_of(streams, config) is Ok,
        maps_apart(config),
        ({
            let d = draft_of(streams, config)->Ok_0;
            has_room(config, d.tracks.len() as int) && plan_of(d, config).wf() && sections_fit(d)
        }),
    ensures
        announced(plan_of(draft_of(streams, config)->Ok_0, config)),
{
    let d = draft_of(streams, config)->Ok_0;
    let plan = plan_of(d, config);
    let n = config.programs@.len() as int;
    lemma_programs_laid(streams, config.programs@, n);
    lemma_plan_laid_out(streams, config);
    lemma_eit_pids(config, n);
    assert forall|k: int| 0 <= k < d.tracks.len() implies (#[trigger] d.tracks[k]).pid
        == FIRST_ES_PID + k by {
        assert(d.tracks[k].pid == pid_of(k));
    }
    assert forall|p: int| 0 <= p < d.programs.len() implies (#[trigger] d.programs[p]).pmt_pid
        == config.programs@[p].pmt_pid && d.programs[p].pmt_pid < 0x1FFF && d.programs[p].pcr_pid
        < 0x2000 by {
        reveal(laid_out);
        assert(plan.programs[p].pcr_pid == d.programs[p].pcr_pid);
        let _ = config.programs@[p];
    }
    assert forall|i: int| 0 <= i < plan.tables.len() && (#[trigger] plan.tables[i]).pid
        == PAT_PID implies is_good_pat(plan.tables[i].section, plan) by {
        lemma_table_kind(d, config, i);
        lemma_good_pat(d, config);
    }
    assert forall|i: int| 0 <= i < plan.tables.len() && is_map_pid(
        plan,
        (#[trigger] plan.tables[i]).pid,
    ) implies is_good_pmt(plan.tables[i].section, plan) by {
        lemma_table_kind(d, config, i);
        let p = choose|p: int|
            0 <= p < plan.programs.len() && (#[trigger] plan.programs[p]).pmt_pid
                == plan.tables[i].pid;
        assert(plan.programs[p].pmt_pid == d.programs[p].pmt_pid);
        let _ = config.programs@[p];
        lemma_good_pmt(d, config, i - 1);
    }
    assert forall|p: int| 0 <= p < plan.programs.len() implies (
    #[trigger] plan.programs[p]).pmt_pid < 0x1FFF && plan.programs[p].pmt_pid != PAT_PID by {
        assert(plan.programs[p].pmt_pid == d.programs[p].pmt_pid);
        let _ = config.programs@[p];
    }
    assert forall|t: int, p: int| 0 <= t < plan.tracks.len() && 0 <= p
        < plan.programs.len() implies (#[trigger] plan.tracks[t]).pid != (
    #[trigger] plan.programs[p]).pmt_pid by {
        assert(plan.tracks[t] == d.tracks[t]);
        assert(plan.programs[p].pmt_pid == d.programs[p].pmt_pid);
        let _ = config.programs@[p];
    }
    assert forall|t: int| 0 <= t < plan.tracks.len() implies (#[trigger] plan.tracks[t]).pid
        != PAT_PID by {
        assert(plan.tracks[t] == d.tracks[t]);
    }
    reveal(announced);
}

/// A configuration with room for its streams, PMTs with PIDs for themselves, PAT
/// and PMTs of one section each, and no clock on another program's stream has a
/// layout that says what it is and has everything where it belongs.
pub proof fn lemma_plan_homed(streams: Seq<MuxStream>, config: MpegTsMuxConfig)
    requires
        draft_of(streams, config) is Ok,
        config.programs@.len() <= usize::MAX,
        maps_apart(config),
        ({
            let d = draft_of(streams, config)->Ok_0;
            &&& has_room(config, d.tracks.len() as int)
            &&& plan_of(d, config).wf()
            &&& sections_fit(d)
            &&& clocks_at_home(config, d)
        }),
    ensures
        homed(plan_of(draft_of(streams, config)->Ok_0, config)),
{
    let d = draft_of(streams, config)->Ok_0;
    let plan = plan_of(d, config);
    let n = config.programs@.len() as int;
    lemma_plan_laid_out(streams, config);
    lemma_plan_tables_apart(streams, config);
    lemma_plan_announced(streams, config);
    lemma_programs_owned(streams, config.programs@, n);
    lemma_programs_laid(streams, config.programs@, n);
    assert(at_home(plan)) by {
        reveal(at_home);
        reveal(laid_out);
        assert forall|t: int, p: int|
            0 <= t < plan.tracks.len() && 0 <= p < plan.programs.len() && (
            #[trigger] plan.programs[p]).pcr_pid == (
            #[trigger] plan.tracks[t]).pid implies plan.tracks[t].program == p
            && plan.programs[p].pcr_track is Some by {
            assert(plan.tracks[t] == d.tracks[t]);
            assert(plan.programs[p].pcr_pid == d.programs[p].pcr_pid);
            assert(plan.programs[p].pcr_track == track_on(d.tracks, d.programs[p].pcr_pid, 0));
            lemma_track_found(d.tracks, 0, t);
            assert(d.programs[p].pmt_pid == config.programs@[p].pmt_pid);
            match config.programs@[p].pcr_pid {
                Some(pid) => {
                    assert(d.programs[p].pcr_pid == pid);
                },
                None => {
                    assert(clocks_itself(d, config.programs@[p], p));
                    let i = choose|i: int|
                        0 <= i < d.tracks.len() && (#[trigger] d.tracks[i]).program == p
                            && d.tracks[i].pid == d.programs[p].pcr_pid;
                    if i != t {
                        assert(plan.tracks[i].pid != plan.tracks[t].pid);
                    }
                },
            }
        }
        assert forall|t: int| 0 <= t < plan.tracks.len() && is_audio_byte(
            (#[trigger] plan.tracks[t]).stream_type,
        ) implies !plan.tracks[t].is_video by {
            assert(is_of_one_kind(d.tracks[t]));
        }
    }
}

proof fn lemma_no_extras(d: DraftView, streams: Seq<MuxStream>, spec: ProgramSpec, k: int)
    requires
        0 <= k <= spec.stream_indices@.len(),
        tracks_laid(d, streams, spec, k) is Ok,
        spec.es_descriptors@.len() == 0,
        d.extras.len() == d.tracks.len(),
        forall|i: int| 0 <= i < d.extras.len() ==> (#[trigger] d.extras[i]).len() == 0,
    ensures
        ({
            let x = tracks_laid(d, streams, spec, k)->Ok_0;
            &&& x.extras.len() == x.tracks.len()
            &&& forall|i: int| 0 <= i < x.extras.len() ==> (#[trigger] x.extras[i]).len() == 0
        }),
    decreases k,
{
    if k > 0 {
        lemma_no_extras(d, streams, spec, k - 1);
    }
}

proof fn lemma_entries_short(d: DraftView, p: int, n: int)
    requires
        0 <= n <= d.tracks.len(),
        d.extras.len() == d.tracks.len(),
        forall|i: int| 0 <= i < d.extras.len() ==> (#[trigger] d.extras[i]).len() == 0,
    ensures
        entries_bytes(track_entries(d, p, n)).len() <= 14 * n,
    decreases n,
{
    if n > 0 {
        lemma_entries_short(d, p, n - 1);
        let prior = track_entries(d, p, n - 1);
        if d.tracks[n - 1].program == p {
            let t = d.tracks[n - 1];
            let info = es_info(t, d.extras[n - 1]);
            assert(d.extras[n - 1].len() == 0);
            assert(info.len() <= 9);
            let e = pmt_entry(t.stream_type, t.pid, info);
            assert(e.head.len() == 5);
            assert(prior.push(e).drop_last() =~= prior);
        }
    }
}

/// A multiplexer of one program with at most 72 streams has everything where it
/// belongs.
pub proof fn lemma_single_program_homed(streams: Seq<MuxStream>, config: MpegTsMuxConfig)
    requires
        is_single_program(config, streams),
        streams.len() <= 72,
        draft_of(streams, config) is Ok,
        plan_of(draft_of(streams, config)->Ok_0, config).wf(),
    ensures
        homed(plan_of(draft_of(streams, config)->Ok_0, config)),
{
    let d = draft_of(streams, config)->Ok_0;
    let spec = config.programs@[0];
    let k = spec.stream_indices@.len() as int;
    assert(k == streams.len());
    reveal_with_fuel(programs_laid, 2);
    lemma_tracks_owned(empty_draft(), streams, spec, k);
    lemma_no_extras(empty_draft(), streams, spec, k);
    lemma_entries_short(d, 0, d.tracks.len() as int);
    assert(d.tracks.len() == k);
    assert(sections_fit(d)) by {
        assert forall|p: int| 0 <= p < d.programs.len() implies pmt_body(
            (#[trigger] d.programs[p]).pcr_pid,
            Seq::empty(),
            track_entries(d, p, d.tracks.len() as int),
        ).len() <= 1012 by {
            assert(p == 0);
        }
    }
    lemma_plan_homed(streams, config);
}

} // verus!
