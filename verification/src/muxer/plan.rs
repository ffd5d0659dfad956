//! Laying out a transport stream: PIDs, clocks and tables.
use vstd::prelude::*;
use vstd::string::StringSliceAdditionalSpecFns;
use vstd::utf8::encode_utf8;

use crate::build::descriptors::{
    iso639_data, iso639_language_descriptor, network_name_descriptor, service_data,
    service_descriptor, short_event_data, short_event_descriptor, stream_identifier_descriptor,
    tagged,
};
use crate::build::sections::{
    build_eit_pf, build_nit, build_pat, build_pmt, build_sdt, eit_body, eit_entries, eit_entry,
    nit_body, nit_entries, nit_entry, pat_body, pmt_body, pmt_entries, pmt_entry, sdt_body,
    sdt_entries, sdt_entry, sdt_flags, sealed, status_tag, EitEventEntry, NitTsEntry,
    PmtStreamEntry, SdtServiceEntry, PSI_TAG, SI_TAG,
};
use crate::muxer::config::{
    codec_entry, iso639_code, language_code, stream_type_for_codec, EventSpec, MpegTsMuxConfig,
    MuxError, MuxStream, ProgramSpec,
};
use crate::muxer::flow::{Plan, PlanView, ProgramPlan, Slot, Table, TableView, TrackPlan};
use crate::psi::dvb::{
    RunningStatus, EIT_ACTUAL_PF_TABLE_ID, EIT_PID, NIT_ACTUAL_TABLE_ID, NIT_PID,
    SDT_ACTUAL_TABLE_ID, SDT_PID,
};
use crate::psi::entries::LoopEntry;
use crate::psi::tables::{PAT_PID, PAT_TABLE_ID, PMT_TABLE_ID};

verus! {

/// PID of the first elementary stream; further ones count up.
pub const FIRST_ES_PID: u16 = 0x1011;

/// Streams and programs laid out so far.
#[verifier::ext_equal]
pub struct DraftView {
    /// The streams.
    pub tracks: Seq<TrackPlan>,
    /// Further descriptor bytes of each stream.
    pub extras: Seq<Seq<u8>>,
    /// The programs.
    pub programs: Seq<ProgramPlan>,
}

/// The last of the first `n` streams with index `index`.
pub open spec fn stream_with(streams: Seq<MuxStream>, index: u32, n: int) -> Option<int>
    decreases n,
{
    if n <= 0 {
        None
    } else if streams[n - 1].index == index {
        Some(n - 1)
    } else {
        stream_with(streams, index, n - 1)
    }
}

/// A stream with index `index` is laid out.
pub open spec fn is_laid(tracks: Seq<TrackPlan>, index: u32) -> bool {
    exists|i: int| 0 <= i < tracks.len() && (#[trigger] tracks[i]).stream_index == index
}

/// The first entry for `index` from position `i` on.
pub open spec fn extra_for(list: Seq<(u32, Vec<u8>)>, index: u32, i: int) -> Seq<u8>
    decreases list.len() - i,
{
    if i < 0 || i >= list.len() {
        Seq::empty()
    } else if list[i].0 == index {
        list[i].1@
    } else {
        extra_for(list, index, i + 1)
    }
}

/// The language code of a stream; none for video.
pub open spec fn code_of(s: MuxStream, is_video: bool) -> Option<(u8, u8, u8)> {
    match s.language {
        Some(tag) if !is_video => {
            let c = language_code(encode_utf8(tag@));
            Some((c[0], c[1], c[2]))
        },
        _ => None,
    }
}

/// Stream `s` as track number `n`, the `k`th of program `p` from 0.
pub open spec fn track_for(
    s: MuxStream,
    codec: (u8, u8, bool),
    n: int,
    p: int,
    k: int,
) -> TrackPlan {
    TrackPlan {
        stream_index: s.index,
        pid: ((FIRST_ES_PID + n) % 65536) as u16,
        stream_type: codec.0,
        stream_id: codec.1,
        is_video: codec.2,
        program: p as usize,
        component_tag: ((k + 1) % 256) as u8,
        language: code_of(s, codec.2),
    }
}

/// The draft with the first `k` streams of program `spec` laid out.
pub open spec fn tracks_laid(
    d: DraftView,
    streams: Seq<MuxStream>,
    spec: ProgramSpec,
    k: int,
) -> Result<DraftView, MuxError>
    decreases k,
{
    if k <= 0 {
        Ok(d)
    } else {
        match tracks_laid(d, streams, spec, k - 1) {
            Err(e) => Err(e),
            Ok(x) => {
                let index = spec.stream_indices@[k - 1];
                match stream_with(streams, index, streams.len() as int) {
                    None => Err(
                        MuxError::UnknownStream {
                            program_number: spec.program_number,
                            stream_index: index,
                        },
                    ),
                    Some(i) => if is_laid(x.tracks, index) {
                        Err(MuxError::StreamAssignedTwice { stream_index: index })
                    } else {
                        match codec_entry(streams[i].codec_id@) {
                            None => Err(MuxError::UnsupportedCodec { stream_index: index }),
                            Some(c) => Ok(
                                DraftView {
                                    tracks: x.tracks.push(
                                        track_for(
                                            streams[i],
                                            c,
                                            x.tracks.len() as int,
                                            d.programs.len() as int,
                                            k - 1,
                                        ),
                                    ),
                                    extras: x.extras.push(
                                        extra_for(spec.es_descriptors@, index, 0),
                                    ),
                                    programs: x.programs,
                                },
                            ),
                        }
                    },
                }
            },
        }
    }
}

/// The first video track from position `i` on.
pub open spec fn first_video(tracks: Seq<TrackPlan>, i: int) -> Option<int>
    decreases tracks.len() - i,
{
    if i < 0 || i >= tracks.len() {
        None
    } else if tracks[i].is_video {
        Some(i)
    } else {
        first_video(tracks, i + 1)
    }
}

/// The PCR PID of a program whose tracks start at position `start`.
pub open spec fn pcr_pid_for(spec: ProgramSpec, tracks: Seq<TrackPlan>, start: int) -> u16 {
    match spec.pcr_pid {
        Some(pid) => pid,
        None => match first_video(tracks, start) {
            Some(i) => tracks[i].pid,
            None => tracks[start].pid,
        },
    }
}

/// The draft with program `spec` laid out.
pub open spec fn program_laid(
    d: DraftView,
    streams: Seq<MuxStream>,
    spec: ProgramSpec,
) -> Result<DraftView, MuxError> {
    if spec.program_number == 0 {
        Err(MuxError::ReservedProgramNumber)
    } else {
        match tracks_laid(d, streams, spec, spec.stream_indices@.len() as int) {
            Err(e) => Err(e),
            Ok(x) => if spec.stream_indices@.len() == 0 {
                Err(MuxError::EmptyProgram { program_number: spec.program_number })
            } else {
                Ok(
                    DraftView {
                        programs: x.programs.push(
                            ProgramPlan {
                                number: spec.program_number,
                                pmt_pid: spec.pmt_pid,
                                pcr_pid: pcr_pid_for(spec, x.tracks, d.tracks.len() as int),
                                pcr_track: None,
                            },
                        ),
                        ..x
                    },
                )
            },
        }
    }
}

/// Nothing laid out.
pub open spec fn empty_draft() -> DraftView {
    DraftView { tracks: Seq::empty(), extras: Seq::empty(), programs: Seq::empty() }
}

/// The first `n` programs laid out.
pub open spec fn programs_laid(
    streams: Seq<MuxStream>,
    specs: Seq<ProgramSpec>,
    n: int,
) -> Result<DraftView, MuxError>
    decreases n,
{
    if n <= 0 {
        Ok(empty_draft())
    } else {
        match programs_laid(streams, specs, n - 1) {
            Err(e) => Err(e),
            Ok(d) => program_laid(d, streams, specs[n - 1]),
        }
    }
}

/// The streams and programs of a configuration, or why it is refused.
pub open spec fn draft_of(streams: Seq<MuxStream>, config: MpegTsMuxConfig) -> Result<
    DraftView,
    MuxError,
> {
    if streams.len() == 0 {
        Err(MuxError::NoStreams)
    } else if config.programs@.len() == 0 {
        Err(MuxError::NoPrograms)
    } else {
        programs_laid(streams, config.programs@, config.programs@.len() as int)
    }
}

/// The first track from position `i` on with PID `pid`.
pub open spec fn track_on(tracks: Seq<TrackPlan>, pid: u16, i: int) -> Option<usize>
    decreases tracks.len() - i,
{
    if i < 0 || i >= tracks.len() {
        None
    } else if tracks[i].pid == pid {
        Some(i as usize)
    } else {
        track_on(tracks, pid, i + 1)
    }
}

/// The programs, with the track of each one's PCR PID.
pub open spec fn clocked(d: DraftView) -> Seq<ProgramPlan> {
    d.programs.map_values(
        |p: ProgramPlan| ProgramPlan { pcr_track: track_on(d.tracks, p.pcr_pid, 0), ..p },
    )
}

/// The descriptors of a track in its PMT: its component tag, its language, and
/// the further ones.
pub open spec fn es_info(t: TrackPlan, extra: Seq<u8>) -> Seq<u8> {
    seq![0x52u8, 1u8, t.component_tag] + (match t.language {
        Some((a, b, c)) => tagged(0x0A, seq![a, b, c, 0u8]),
        None => Seq::empty(),
    }) + extra
}

/// The PMT entries of those of the first `n` tracks that belong to program `p`.
pub open spec fn track_entries(d: DraftView, p: int, n: int) -> Seq<LoopEntry>
    decreases n,
{
    if n <= 0 {
        Seq::empty()
    } else if d.tracks[n - 1].program == p {
        let t = d.tracks[n - 1];
        track_entries(d, p, n - 1).push(
            pmt_entry(t.stream_type, t.pid, es_info(t, d.extras[n - 1])),
        )
    } else {
        track_entries(d, p, n - 1)
    }
}

/// The PAT of the layout.
pub open spec fn pat_of(d: DraftView, config: MpegTsMuxConfig) -> TableView {
    TableView {
        pid: PAT_PID,
        slot: Slot::Pat,
        section: sealed(
            PAT_TABLE_ID,
            PSI_TAG,
            config.transport_stream_id,
            0,
            pat_body(d.programs.map_values(|p: ProgramPlan| (p.number, p.pmt_pid))),
        ),
    }
}

/// The PMT of program `p`.
pub open spec fn pmt_of(d: DraftView, p: int) -> TableView {
    TableView {
        pid: d.programs[p].pmt_pid,
        slot: Slot::Pmt(p as usize),
        section: sealed(
            PMT_TABLE_ID,
            PSI_TAG,
            d.programs[p].number,
            0,
            pmt_body(
                d.programs[p].pcr_pid,
                Seq::empty(),
                track_entries(d, p, d.tracks.len() as int),
            ),
        ),
    }
}

/// The SDT entries of those of the first `n` programs with a service.
pub open spec fn service_entries(specs: Seq<ProgramSpec>, n: int) -> Seq<LoopEntry>
    decreases n,
{
    if n <= 0 {
        Seq::empty()
    } else {
        let prior = service_entries(specs, n - 1);
        match specs[n - 1].service {
            Some(s) => prior.push(
                sdt_entry(
                    specs[n - 1].program_number,
                    sdt_flags(false, false),
                    status_tag(RunningStatus::Running, false),
                    tagged(
                        0x48,
                        service_data(s.service_type, s.provider_name@, s.service_name@),
                    ),
                ),
            ),
            None => prior,
        }
    }
}

/// The SDT, if a program has a service.
pub open spec fn sdt_of(config: MpegTsMuxConfig) -> Seq<TableView> {
    let n = config.programs@.len() as int;
    let entries = service_entries(config.programs@, n);
    if entries.len() == 0 {
        Seq::empty()
    } else {
        seq![
            TableView {
                pid: SDT_PID,
                slot: Slot::Sdt,
                section: sealed(
                    SDT_ACTUAL_TABLE_ID,
                    SI_TAG,
                    config.transport_stream_id,
                    0,
                    sdt_body(config.original_network_id, entries),
                ),
            },
        ]
    }
}

/// The NIT, if the network is described.
pub open spec fn nit_of(config: MpegTsMuxConfig) -> Seq<TableView> {
    match config.network {
        None => Seq::empty(),
        Some(net) => seq![
            TableView {
                pid: NIT_PID,
                slot: Slot::Nit,
                section: sealed(
                    NIT_ACTUAL_TABLE_ID,
                    SI_TAG,
                    net.network_id,
                    0,
                    nit_body(
                        tagged(0x40, net.network_name@) + net.network_descriptors@,
                        seq![
                            nit_entry(
                                config.transport_stream_id,
                                config.original_network_id,
                                net.transport_descriptors@,
                            ),
                        ],
                    ),
                ),
            },
        ],
    }
}

/// An event as an EIT entry; one without texts has no descriptor.
pub open spec fn event_entry(e: EventSpec) -> LoopEntry {
    eit_entry(
        e.event_id,
        e.start_time,
        e.duration,
        status_tag(e.running_status, false),
        if e.event_name@.len() == 0 && e.text@.len() == 0 {
            Seq::empty()
        } else {
            tagged(0x4D, short_event_data(e.language@, e.event_name@, e.text@))
        },
    )
}

/// The EITs of those of the first `n` programs with events.
pub open spec fn eits_of(config: MpegTsMuxConfig, n: int) -> Seq<TableView>
    decreases n,
{
    if n <= 0 {
        Seq::empty()
    } else {
        let prior = eits_of(config, n - 1);
        let spec = config.programs@[n - 1];
        if spec.events@.len() == 0 {
            prior
        } else {
            prior.push(
                TableView {
                    pid: EIT_PID,
                    slot: Slot::Eit,
                    section: sealed(
                        EIT_ACTUAL_PF_TABLE_ID,
                        SI_TAG,
                        spec.program_number,
                        0,
                        eit_body(
                            config.transport_stream_id,
                            config.original_network_id,
                            EIT_ACTUAL_PF_TABLE_ID,
                            spec.events@.map_values(|e: EventSpec| event_entry(e)),
                        ),
                    ),
                },
            )
        }
    }
}

/// The tables, in the order in which they are written.
pub open spec fn tables_of(d: DraftView, config: MpegTsMuxConfig) -> Seq<TableView> {
    seq![pat_of(d, config)] + Seq::new(d.programs.len(), |p: int| pmt_of(d, p)) + sdt_of(config)
        + nit_of(config) + eits_of(config, config.programs@.len() as int)
}

/// The layout of a configuration.
pub open spec fn plan_of(d: DraftView, config: MpegTsMuxConfig) -> PlanView {
    PlanView { tracks: d.tracks, programs: clocked(d), tables: tables_of(d, config) }
}

/// Streams and programs laid out so far.
pub struct Draft {
    /// The streams.
    pub tracks: Vec<TrackPlan>,
    /// Further descriptor bytes of each stream.
    pub extras: Vec<Vec<u8>>,
    /// The programs.
    pub programs: Vec<ProgramPlan>,
}

impl View for Draft {
    type V = DraftView;

    open spec fn view(&self) -> DraftView {
        DraftView {
            tracks: self.tracks@,
            extras: crate::psi::assembler::bytes_of(self.extras@),
            programs: self.programs@,
        }
    }
}

fn find_stream(streams: &[MuxStream], index: u32) -> (r: Option<usize>)
    ensures
        match r {
            Some(i) => stream_with(streams@, index, streams@.len() as int) == Some(i as int) && i
                < streams@.len() && streams@[i as int].index == index,
            None => stream_with(streams@, index, streams@.len() as int) is None,
        },
{
    let mut n: usize = streams.len();
    while n > 0
        invariant
            n <= streams@.len(),
            stream_with(streams@, index, n as int) == stream_with(
                streams@,
                index,
                streams@.len() as int,
            ),
        decreases n,
    {
        if streams[n - 1].index == index {
            return Some(n - 1);
        }
        n -= 1;
    }
    None
}

fn find_extra(list: &Vec<(u32, Vec<u8>)>, index: u32) -> (r: Vec<u8>)
    ensures
        r@ == extra_for(list@, index, 0),
{
    let mut i: usize = 0;
    while i < list.len()
        invariant
            i <= list@.len(),
            extra_for(list@, index, i as int) == extra_for(list@, index, 0),
        decreases list@.len() - i,
    {
        if list[i].0 == index {
            return vstd::slice::slice_to_vec(list[i].1.as_slice());
        }
        i += 1;
    }
    Vec::new()
}

fn language_for(s: &MuxStream, is_video: bool) -> (r: Option<(u8, u8, u8)>)
    ensures
        r == code_of(*s, is_video),
{
    if is_video {
        return None;
    }
    match &s.language {
        Some(tag) => {
            let c: [u8; 3] = iso639_code(tag.as_str());
            Some((c[0], c[1], c[2]))
        },
        None => None,
    }
}

impl Draft {
    fn is_laid(&self, index: u32) -> (r: bool)
        ensures
            r == is_laid(self@.tracks, index),
    {
        let mut i: usize = 0;
        while i < self.tracks.len()
            invariant
                i <= self.tracks@.len(),
                forall|j: int| 0 <= j < i ==> (#[trigger] self.tracks@[j]).stream_index != index,
            decreases self.tracks@.len() - i,
        {
            if self.tracks[i].stream_index == index {
                assert(self@.tracks[i as int].stream_index == index);
                return true;
            }
            i += 1;
        }
        false
    }

    /// The draft is in range: one list of descriptors for each track, and every
    /// track in one of the programs, or in the next one.
    pub open spec fn wf(self, next: int) -> bool {
        &&& self.extras@.len() == self.tracks@.len()
        &&& forall|i: int|
            0 <= i < self.tracks@.len() ==> (#[trigger] self.tracks@[i]).program < next
                && crate::muxer::pes::is_mux_stream_id(self.tracks@[i].stream_id)
    }

    /// Lay out the streams of a program.
    fn add_tracks(&mut self, streams: &[MuxStream], spec: &ProgramSpec) -> (r: Result<(), MuxError>)
        requires
            old(self).wf(old(self).programs@.len() as int),
        ensures
            match r {
                Ok(_) => tracks_laid(
                    old(self)@,
                    streams@,
                    *spec,
                    spec.stream_indices@.len() as int,
                ) == Ok::<DraftView, MuxError>(final(self)@),
                Err(e) => tracks_laid(
                    old(self)@,
                    streams@,
                    *spec,
                    spec.stream_indices@.len() as int,
                ) == Err::<DraftView, MuxError>(e),
            },
            r is Ok ==> {
                &&& final(self).wf(old(self).programs@.len() + 1int)
                &&& final(self).programs@ == old(self).programs@
                &&& final(self).tracks@.len() == old(self).tracks@.len()
                    + spec.stream_indices@.len()
            },
    {
        let ghost d = self@;
        let ghost n = spec.stream_indices@.len() as int;
        let p: usize = self.programs.len();
        let mut k: usize = 0;
        while k < spec.stream_indices.len()
            invariant
                k <= spec.stream_indices@.len(),
                n == spec.stream_indices@.len(),
                d == old(self)@,
                p == d.programs.len(),
                self@.programs == d.programs,
                self.wf(p + 1),
                self.tracks@.len() == d.tracks.len() + k,
                tracks_laid(d, streams@, *spec, k as int) == Ok::<DraftView, MuxError>(self@),
            decreases n - k,
        {
            let index: u32 = spec.stream_indices[k];
            let i: usize = match find_stream(streams, index) {
                Some(i) => i,
                None => {
                    proof {
                        lemma_tracks_error(d, streams@, *spec, k + 1, n);
                    }
                    return Err(
                        MuxError::UnknownStream {
                            program_number: spec.program_number,
                            stream_index: index,
                        },
                    );
                },
            };
            if self.is_laid(index) {
                proof {
                    lemma_tracks_error(d, streams@, *spec, k + 1, n);
                }
                return Err(MuxError::StreamAssignedTwice { stream_index: index });
            }
            let s: &MuxStream = &streams[i];
            let codec: (u8, u8, bool) = match stream_type_for_codec(s.codec_id.as_str()) {
                Some(c) => c,
                None => {
                    proof {
                        lemma_tracks_error(d, streams@, *spec, k + 1, n);
                    }
                    return Err(MuxError::UnsupportedCodec { stream_index: index });
                },
            };
            let count: usize = self.tracks.len();
            let track: TrackPlan = TrackPlan {
                stream_index: index,
                pid: ((count % 65536 + 0x1011) % 65536) as u16,
                stream_type: codec.0,
                stream_id: codec.1,
                is_video: codec.2,
                program: p,
                component_tag: ((k % 256 + 1) % 256) as u8,
                language: language_for(s, codec.2),
            };
            assert(track == track_for(*s, codec, count as int, p as int, k as int));
            let ghost before = self@;
            self.tracks.push(track);
            self.extras.push(find_extra(&spec.es_descriptors, index));
            assert(self@.extras =~= before.extras.push(
                extra_for(spec.es_descriptors@, index, 0),
            ));
            k += 1;
        }
        Ok(())
    }

    /// The PCR PID of a program whose tracks start at position `start`.
    fn choose_pcr_pid(&self, spec: &ProgramSpec, start: usize) -> (r: u16)
        requires
            start < self.tracks@.len(),
        ensures
            r == pcr_pid_for(*spec, self@.tracks, start as int),
    {
        if let Some(pid) = spec.pcr_pid {
            return pid;
        }
        let mut i: usize = start;
        while i < self.tracks.len()
            invariant
                start <= i <= self.tracks@.len(),
                spec.pcr_pid is None,
                first_video(self@.tracks, i as int) == first_video(self@.tracks, start as int),
            decreases self.tracks@.len() - i,
        {
            if self.tracks[i].is_video {
                return self.tracks[i].pid;
            }
            i += 1;
        }
        self.tracks[start].pid
    }

    /// Lay out a program.
    fn add_program(&mut self, streams: &[MuxStream], spec: &ProgramSpec) -> (r: Result<
        (),
        MuxError,
    >)
        requires
            old(self).wf(old(self).programs@.len() as int),
        ensures
            match r {
                Ok(_) => program_laid(old(self)@, streams@, *spec) == Ok::<DraftView, MuxError>(
                    final(self)@,
                ),
                Err(e) => program_laid(old(self)@, streams@, *spec) == Err::<DraftView, MuxError>(e),
            },
            r is Ok ==> final(self).wf(final(self).programs@.len() as int)
                && final(self).programs@.len() == old(self).programs@.len() + 1,
    {
        if spec.program_number == 0 {
            return Err(MuxError::ReservedProgramNumber);
        }
        let start: usize = self.tracks.len();
        self.add_tracks(streams, spec)?;
        if spec.stream_indices.len() == 0 {
            return Err(MuxError::EmptyProgram { program_number: spec.program_number });
        }
        let pcr_pid: u16 = self.choose_pcr_pid(spec, start);
        self.programs.push(
            ProgramPlan {
                number: spec.program_number,
                pmt_pid: spec.pmt_pid,
                pcr_pid,
                pcr_track: None,
            },
        );
        Ok(())
    }

    /// Lay out the streams and programs of a configuration.
    pub(crate) fn lay_out(streams: &[MuxStream], config: &MpegTsMuxConfig) -> (r: Result<
        Draft,
        MuxError,
    >)
        ensures
            match r {
                Ok(d) => draft_of(streams@, *config) == Ok::<DraftView, MuxError>(d@) && d.wf(
                    d.programs@.len() as int,
                ) && d.programs@.len() == config.programs@.len(),
                Err(e) => draft_of(streams@, *config) == Err::<DraftView, MuxError>(e),
            },
    {
        if streams.len() == 0 {
            return Err(MuxError::NoStreams);
        }
        if config.programs.len() == 0 {
            return Err(MuxError::NoPrograms);
        }
        let mut d: Draft = Draft { tracks: Vec::new(), extras: Vec::new(), programs: Vec::new() };
        assert(d@ =~= empty_draft());
        let mut i: usize = 0;
        while i < config.programs.len()
            invariant
                streams@.len() > 0,
                config.programs@.len() > 0,
                i <= config.programs@.len(),
                d.programs@.len() == i,
                d.wf(i as int),
                programs_laid(streams@, config.programs@, i as int) == Ok::<DraftView, MuxError>(d@),
            decreases config.programs@.len() - i,
        {
            match d.add_program(streams, &config.programs[i]) {
                Ok(_) => {},
                Err(e) => {
                    proof {
                        lemma_programs_error(
                            streams@,
                            config.programs@,
                            i + 1,
                            config.programs@.len() as int,
                        );
                    }
                    return Err(e);
                },
            }
            i += 1;
        }
        Ok(d)
    }
}

proof fn lemma_tracks_error(
    d: DraftView,
    streams: Seq<MuxStream>,
    spec: ProgramSpec,
    k: int,
    n: int,
)
    requires
        0 <= k <= n,
        tracks_laid(d, streams, spec, k) is Err,
    ensures
        tracks_laid(d, streams, spec, n) == tracks_laid(d, streams, spec, k),
    decreases n - k,
{
    if k < n {
        lemma_tracks_error(d, streams, spec, k, n - 1);
    }
}

proof fn lemma_programs_error(streams: Seq<MuxStream>, specs: Seq<ProgramSpec>, k: int, n: int)
    requires
        0 <= k <= n,
        programs_laid(streams, specs, k) is Err,
    ensures
        programs_laid(streams, specs, n) == programs_laid(streams, specs, k),
    decreases n - k,
{
    if k < n {
        lemma_programs_error(streams, specs, k, n - 1);
    }
}

/// The descriptors of a track in its PMT: its component tag, its language, and
/// the further ones.
pub fn build_es_descriptors(track: &TrackPlan, extra: &[u8]) -> (r: Vec<u8>)
    ensures
        r@ == es_info(*track, extra@),
{
    let mut out: Vec<u8> = stream_identifier_descriptor(track.component_tag);
    if let Some((a, b, c)) = track.language {
        let lang: [u8; 3] = [a, b, c];
        let list: [([u8; 3], u8); 1] = [(lang, 0)];
        let d: Vec<u8> = iso639_language_descriptor(list.as_slice());
        proof {
            reveal_with_fuel(iso639_data, 2);
            assert(list@.drop_last() =~= Seq::empty());
            assert(iso639_data(list@) =~= seq![a, b, c, 0u8]);
        }
        out.extend_from_slice(d.as_slice());
    }
    out.extend_from_slice(extra);
    assert(out@ =~= es_info(*track, extra@));
    out
}

impl Draft {
    fn pat_table(&self, config: &MpegTsMuxConfig) -> (r: Table)
        ensures
            r@ == pat_of(self@, *config),
    {
        let mut pairs: Vec<(u16, u16)> = Vec::new();
        let ghost want = self@.programs.map_values(|p: ProgramPlan| (p.number, p.pmt_pid));
        let mut i: usize = 0;
        while i < self.programs.len()
            invariant
                i <= self.programs@.len(),
                pairs@.len() == i,
                want == self@.programs.map_values(|p: ProgramPlan| (p.number, p.pmt_pid)),
                forall|j: int| 0 <= j < i ==> #[trigger] pairs@[j] == want[j],
            decreases self.programs@.len() - i,
        {
            pairs.push((self.programs[i].number, self.programs[i].pmt_pid));
            i += 1;
        }
        assert(pairs@ =~= want);
        Table {
            pid: PAT_PID,
            slot: Slot::Pat,
            section: build_pat(config.transport_stream_id, 0, pairs.as_slice()),
        }
    }

    fn pmt_table(&self, p: usize) -> (r: Table)
        requires
            self.extras@.len() == self.tracks@.len(),
            p < self.programs@.len(),
        ensures
            r@ == pmt_of(self@, p as int),
    {
        let mut streams: Vec<PmtStreamEntry> = Vec::new();
        let mut i: usize = 0;
        assert(pmt_entries(streams@) =~= track_entries(self@, p as int, 0));
        while i < self.tracks.len()
            invariant
                i <= self.tracks@.len(),
                self.extras@.len() == self.tracks@.len(),
                pmt_entries(streams@) == track_entries(self@, p as int, i as int),
            decreases self.tracks@.len() - i,
        {
            let t: &TrackPlan = &self.tracks[i];
            if t.program == p {
                let ghost before = pmt_entries(streams@);
                let info: Vec<u8> = build_es_descriptors(t, self.extras[i].as_slice());
                assert(self@.extras[i as int] == self.extras@[i as int]@);
                let e: PmtStreamEntry = PmtStreamEntry {
                    stream_type: t.stream_type,
                    elementary_pid: t.pid,
                    es_info: info,
                };
                streams.push(e);
                assert(pmt_entries(streams@) =~= before.push(e.entry()));
            }
            i += 1;
        }
        let none: Vec<u8> = Vec::new();
        assert(none@ =~= Seq::empty());
        let prog: ProgramPlan = self.programs[p];
        Table {
            pid: prog.pmt_pid,
            slot: Slot::Pmt(p),
            section: build_pmt(
                prog.number,
                0,
                prog.pcr_pid,
                none.as_slice(),
                streams.as_slice(),
            ),
        }
    }
}

fn sdt_table(config: &MpegTsMuxConfig) -> (r: Option<Table>)
    ensures
        match r {
            Some(t) => sdt_of(*config) == seq![t@],
            None => sdt_of(*config) == Seq::<TableView>::empty(),
        },
{
    let mut services: Vec<SdtServiceEntry> = Vec::new();
    let mut i: usize = 0;
    assert(sdt_entries(services@) =~= service_entries(config.programs@, 0));
    while i < config.programs.len()
        invariant
            i <= config.programs@.len(),
            sdt_entries(services@) == service_entries(config.programs@, i as int),
        decreases config.programs@.len() - i,
    {
        let spec: &ProgramSpec = &config.programs[i];
        if let Some(s) = &spec.service {
            let ghost before = sdt_entries(services@);
            let e: SdtServiceEntry = SdtServiceEntry {
                service_id: spec.program_number,
                eit_schedule: false,
                eit_present_following: false,
                running_status: RunningStatus::Running,
                free_ca_mode: false,
                descriptors: service_descriptor(
                    s.service_type,
                    s.provider_name.as_slice(),
                    s.service_name.as_slice(),
                ),
            };
            services.push(e);
            assert(sdt_entries(services@) =~= before.push(e.entry()));
        }
        i += 1;
    }
    if services.len() == 0 {
        return None;
    }
    Some(
        Table {
            pid: SDT_PID,
            slot: Slot::Sdt,
            section: build_sdt(
                true,
                config.transport_stream_id,
                config.original_network_id,
                0,
                services.as_slice(),
            ),
        },
    )
}

fn nit_table(config: &MpegTsMuxConfig) -> (r: Option<Table>)
    ensures
        match r {
            Some(t) => nit_of(*config) == seq![t@],
            None => nit_of(*config) == Seq::<TableView>::empty(),
        },
{
    match &config.network {
        None => None,
        Some(net) => {
            let mut descriptors: Vec<u8> = network_name_descriptor(net.network_name.as_slice());
            descriptors.extend_from_slice(net.network_descriptors.as_slice());
            let mut streams: Vec<NitTsEntry> = Vec::new();
            let e: NitTsEntry = NitTsEntry {
                transport_stream_id: config.transport_stream_id,
                original_network_id: config.original_network_id,
                descriptors: vstd::slice::slice_to_vec(net.transport_descriptors.as_slice()),
            };
            streams.push(e);
            assert(nit_entries(streams@) =~= seq![e.entry()]);
            assert(e.descriptors@ =~= net.transport_descriptors@);
            assert(descriptors@ =~= tagged(0x40, net.network_name@) + net.network_descriptors@);
            let section: Vec<u8> = build_nit(
                true,
                net.network_id,
                0,
                descriptors.as_slice(),
                streams.as_slice(),
            );
            let t: Table = Table { pid: NIT_PID, slot: Slot::Nit, section };
            assert(nit_of(*config) =~= seq![t@]);
            Some(t)
        },
    }
}

fn eit_section(config: &MpegTsMuxConfig, spec: &ProgramSpec) -> (r: Vec<u8>)
    ensures
        r@ == sealed(
            EIT_ACTUAL_PF_TABLE_ID,
            SI_TAG,
            spec.program_number,
            0,
            eit_body(
                config.transport_stream_id,
                config.original_network_id,
                EIT_ACTUAL_PF_TABLE_ID,
                spec.events@.map_values(|e: EventSpec| event_entry(e)),
            ),
        ),
{
    let ghost want = spec.events@.map_values(|e: EventSpec| event_entry(e));
    let mut events: Vec<EitEventEntry> = Vec::new();
    let mut i: usize = 0;
    while i < spec.events.len()
        invariant
            i <= spec.events@.len(),
            events@.len() == i,
            want == spec.events@.map_values(|e: EventSpec| event_entry(e)),
            forall|j: int| 0 <= j < i ==> (#[trigger] events@[j]).entry() == want[j],
        decreases spec.events@.len() - i,
    {
        let ev: &EventSpec = &spec.events[i];
        let descriptors: Vec<u8> = if ev.event_name.len() == 0 && ev.text.len() == 0 {
            Vec::new()
        } else {
            short_event_descriptor(
                ev.language,
                ev.event_name.as_slice(),
                ev.text.as_slice(),
            )
        };
        assert(ev.event_name@.len() == 0 && ev.text@.len() == 0 ==> descriptors@
            =~= Seq::<u8>::empty());
        events.push(
            EitEventEntry {
                event_id: ev.event_id,
                start_time: ev.start_time,
                duration: ev.duration,
                running_status: ev.running_status,
                free_ca_mode: false,
                descriptors,
            },
        );
        i += 1;
    }
    assert(eit_entries(events@) =~= want);
    build_eit_pf(
        true,
        spec.program_number,
        config.transport_stream_id,
        config.original_network_id,
        0,
        events.as_slice(),
    )
}

/// What the tables say.
spec fn views_of(v: Seq<Table>) -> Seq<TableView> {
    v.map_values(|t: Table| t@)
}

fn push_table(v: &mut Vec<Table>, t: Table)
    ensures
        views_of(final(v)@) == views_of(old(v)@).push(t@),
{
    v.push(t);
    assert(views_of(v@) =~= views_of(old(v)@).push(t@));
}

fn push_eits(v: &mut Vec<Table>, config: &MpegTsMuxConfig)
    ensures
        views_of(final(v)@) == views_of(old(v)@) + eits_of(
            *config,
            config.programs@.len() as int,
        ),
{
    let ghost before = views_of(v@);
    let mut i: usize = 0;
    assert(before + Seq::<TableView>::empty() =~= before);
    while i < config.programs.len()
        invariant
            i <= config.programs@.len(),
            before == views_of(old(v)@),
            views_of(v@) == before + eits_of(*config, i as int),
        decreases config.programs@.len() - i,
    {
        let spec: &ProgramSpec = &config.programs[i];
        if spec.events.len() > 0 {
            let ghost prior = eits_of(*config, i as int);
            let t: Table = Table {
                pid: EIT_PID,
                slot: Slot::Eit,
                section: eit_section(config, spec),
            };
            let ghost view = t@;
            push_table(v, t);
            assert(views_of(v@) =~= before + prior.push(view));
        }
        i += 1;
    }
}

impl Draft {
    /// The tables of the layout, in the order in which they are written.
    fn tables(&self, config: &MpegTsMuxConfig) -> (v: Vec<Table>)
        requires
            self.extras@.len() == self.tracks@.len(),
            config.programs@.len() == self.programs@.len(),
        ensures
            views_of(v@) == tables_of(self@, *config),
    {
        let ghost d = self@;
        let ghost pmts = Seq::new(d.programs.len(), |p: int| pmt_of(d, p));
        let mut v: Vec<Table> = Vec::new();
        push_table(&mut v, self.pat_table(config));
        assert(views_of(v@) =~= seq![pat_of(d, *config)] + pmts.take(0));
        let mut p: usize = 0;
        while p < self.programs.len()
            invariant
                p <= self.programs@.len(),
                self.extras@.len() == self.tracks@.len(),
                d == self@,
                pmts == Seq::new(d.programs.len(), |p: int| pmt_of(d, p)),
                views_of(v@) == seq![pat_of(d, *config)] + pmts.take(p as int),
            decreases self.programs@.len() - p,
        {
            let t: Table = self.pmt_table(p);
            let ghost view = t@;
            push_table(&mut v, t);
            assert(view == pmts[p as int]);
            assert(views_of(v@) =~= seq![pat_of(d, *config)] + pmts.take(p + 1));
            p += 1;
        }
        let ghost a = seq![pat_of(d, *config)] + pmts;
        assert(views_of(v@) =~= a);
        if let Some(t) = sdt_table(config) {
            push_table(&mut v, t);
        }
        assert(views_of(v@) =~= a + sdt_of(*config));
        if let Some(t) = nit_table(config) {
            push_table(&mut v, t);
        }
        assert(views_of(v@) =~= a + sdt_of(*config) + nit_of(*config));
        push_eits(&mut v, config);
        assert(views_of(v@) =~= tables_of(d, *config));
        v
    }

    fn find_track(&self, pid: u16) -> (r: Option<usize>)
        ensures
            r == track_on(self@.tracks, pid, 0),
            r matches Some(t) ==> t < self.tracks@.len(),
    {
        let mut i: usize = 0;
        while i < self.tracks.len()
            invariant
                i <= self.tracks@.len(),
                track_on(self@.tracks, pid, i as int) == track_on(self@.tracks, pid, 0),
            decreases self.tracks@.len() - i,
        {
            if self.tracks[i].pid == pid {
                return Some(i);
            }
            i += 1;
        }
        None
    }

    /// The layout.
    pub(crate) fn finish(self, config: &MpegTsMuxConfig) -> (r: Plan)
        requires
            self.wf(self.programs@.len() as int),
            config.programs@.len() == self.programs@.len(),
        ensures
            r@ == plan_of(self@, *config),
            r@.wf(),
            r@.programs.len() == config.programs@.len(),
    {
        let tables: Vec<Table> = self.tables(config);
        let ghost d = self@;
        let mut programs: Vec<ProgramPlan> = Vec::new();
        let mut i: usize = 0;
        while i < self.programs.len()
            invariant
                i <= self.programs@.len(),
                d == self@,
                programs@.len() == i,
                forall|j: int| 0 <= j < i ==> #[trigger] programs@[j] == clocked(d)[j],
                forall|j: int|
                    0 <= j < i ==> ((#[trigger] programs@[j]).pcr_track matches Some(t) ==> t
                        < self.tracks@.len()),
            decreases self.programs@.len() - i,
        {
            let p: ProgramPlan = self.programs[i];
            programs.push(ProgramPlan { pcr_track: self.find_track(p.pcr_pid), ..p });
            i += 1;
        }
        assert(programs@ =~= clocked(d));
        let r: Plan = Plan { tracks: self.tracks, programs, tables };
        assert(r@ =~= plan_of(d, *config));
        proof {
            lemma_slots(d, *config);
        }
        r
    }
}

proof fn lemma_slots(d: DraftView, config: MpegTsMuxConfig)
    requires
        config.programs@.len() == d.programs.len(),
        d.programs.len() <= usize::MAX,
    ensures
        forall|i: int|
            0 <= i < tables_of(d, config).len() ==> plan_of(d, config).has_slot(
                (#[trigger] tables_of(d, config)[i]).slot,
            ),
{
    lemma_eit_slots(config, config.programs@.len() as int);
    let a = seq![pat_of(d, config)];
    let b = Seq::new(d.programs.len(), |p: int| pmt_of(d, p));
    let c = sdt_of(config);
    let e = nit_of(config);
    let f = eits_of(config, config.programs@.len() as int);
    let all = tables_of(d, config);
    assert forall|i: int| 0 <= i < all.len() implies plan_of(d, config).has_slot(
        (#[trigger] all[i]).slot,
    ) by {
        let o1 = a.len() as int;
        let o2 = o1 + b.len();
        let o3 = o2 + c.len();
        let o4 = o3 + e.len();
        if i < o1 {
            assert(all[i] == a[i]);
        } else if i < o2 {
            assert(all[i] == b[i - o1]);
        } else if i < o3 {
            assert(all[i] == c[i - o2]);
        } else if i < o4 {
            assert(all[i] == e[i - o3]);
        } else {
            assert(all[i] == f[i - o4]);
        }
    }
}

proof fn lemma_eit_slots(config: MpegTsMuxConfig, n: int)
    ensures
        forall|i: int|
            0 <= i < eits_of(config, n).len() ==> (#[trigger] eits_of(config, n)[i]).slot
                == Slot::Eit,
    decreases n,
{
    if n > 0 {
        lemma_eit_slots(config, n - 1);
        let prior = eits_of(config, n - 1);
        assert forall|i: int| 0 <= i < eits_of(config, n).len() implies (#[trigger] eits_of(
            config,
            n,
        )[i]).slot == Slot::Eit by {
            if i < prior.len() {
                assert(eits_of(config, n)[i] == prior[i]);
            }
        }
    }
}

} // verus!
