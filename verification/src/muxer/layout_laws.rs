//! The layout is what was asked for: every program with its number and PIDs, every
//! stream where its program lists it, announced as its codec.
use vstd::prelude::*;
use vstd::utf8::encode_utf8;

use crate::muxer::config::{codec_entry, MpegTsMuxConfig, MuxStream, ProgramSpec};
use crate::muxer::flow::TrackPlan;
use crate::muxer::plan::{
    draft_of, empty_draft, extra_for, first_video, program_laid, programs_laid, stream_with,
    tracks_laid, DraftView,
};

verus! {

/// The streams of the first `p` programs.
pub open spec fn streams_before(specs: Seq<ProgramSpec>, p: int) -> int
    decreases p,
{
    if p <= 0 {
        0
    } else {
        streams_before(specs, p - 1) + specs[p - 1].stream_indices@.len()
    }
}

/// Byte `i` of language tag `tag`, a space where it is shorter.
pub open spec fn tag_byte(tag: Seq<u8>, i: int) -> u8 {
    if i < tag.len() { tag[i] } else { 0x20 }
}

/// `t` carries input stream `s`: by its index and its codec, with its language unless
/// it is video.
pub open spec fn carries(t: TrackPlan, s: MuxStream) -> bool {
    &&& t.stream_index == s.index
    &&& codec_entry(s.codec_id@) == Some((t.stream_type, t.stream_id, t.is_video))
    &&& t.language == match s.language {
        Some(tag) if !t.is_video => {
            let b = encode_utf8(tag@);
            Some((tag_byte(b, 0), tag_byte(b, 1), tag_byte(b, 2)))
        },
        _ => None,
    }
}

/// `t` is stream `k` of program `p` and carries an input stream; it is track `n` of all.
pub open spec fn is_placed(
    t: TrackPlan,
    streams: Seq<MuxStream>,
    spec: ProgramSpec,
    p: int,
    k: int,
    n: int,
) -> bool {
    &&& t.stream_index == spec.stream_indices@[k]
    &&& t.program == p
    &&& t.component_tag == (k + 1) % 256
    &&& t.pid == (0x1011 + n) % 65536
    &&& exists|j: int| 0 <= j < streams.len() && carries(t, #[trigger] streams[j])
}

proof fn lemma_stream_with(streams: Seq<MuxStream>, index: u32, n: int)
    requires
        n <= streams.len(),
    ensures
        stream_with(streams, index, n) matches Some(i) ==> 0 <= i < n && streams[i].index == index,
    decreases n,
{
    if n > 0 {
        lemma_stream_with(streams, index, n - 1);
    }
}

proof fn lemma_tracks_placed(d: DraftView, streams: Seq<MuxStream>, spec: ProgramSpec, k: int)
    requires
        0 <= k <= spec.stream_indices@.len(),
        tracks_laid(d, streams, spec, k) is Ok,
        d.programs.len() <= usize::MAX,
    ensures
        ({
            let x = tracks_laid(d, streams, spec, k)->Ok_0;
            let from = d.tracks.len();
            &&& x.tracks.len() == from + k
            &&& x.programs == d.programs
            &&& forall|i: int| 0 <= i < from ==> #[trigger] x.tracks[i] == d.tracks[i]
            &&& forall|i: int|
                from <= i < from + k ==> is_placed(
                    #[trigger] x.tracks[i],
                    streams,
                    spec,
                    d.programs.len() as int,
                    i - from,
                    i,
                )
        }),
    decreases k,
{
    if k > 0 {
        lemma_tracks_placed(d, streams, spec, k - 1);
        let index = spec.stream_indices@[k - 1];
        lemma_stream_with(streams, index, streams.len() as int);
        let y = tracks_laid(d, streams, spec, k - 1)->Ok_0;
        let x = tracks_laid(d, streams, spec, k)->Ok_0;
        let j = stream_with(streams, index, streams.len() as int)->0;
        let t = x.tracks[y.tracks.len() as int];
        assert(x.tracks == y.tracks.push(t));
        assert(carries(t, streams[j]));
        assert forall|i: int| d.tracks.len() <= i < x.tracks.len() implies is_placed(
            #[trigger] x.tracks[i],
            streams,
            spec,
            d.programs.len() as int,
            i - d.tracks.len(),
            i,
        ) by {
            if i < y.tracks.len() {
                assert(x.tracks[i] == y.tracks[i]);
            }
        }
    }
}

/// Program `p` is laid out as `spec` says, its streams from track `from` on.
pub open spec fn is_as_asked(
    d: DraftView,
    streams: Seq<MuxStream>,
    spec: ProgramSpec,
    p: int,
    from: int,
) -> bool {
    let prog = d.programs[p];
    let n = spec.stream_indices@.len() as int;
    &&& n > 0
    &&& prog.number == spec.program_number
    &&& prog.number != 0
    &&& prog.pmt_pid == spec.pmt_pid
    &&& 0 <= from && from + n <= d.tracks.len()
    &&& forall|k: int|
        0 <= k < n ==> is_placed(#[trigger] d.tracks[from + k], streams, spec, p, k, from + k)
    &&& match spec.pcr_pid {
        Some(pid) => prog.pcr_pid == pid,
        None => exists|k: int|
            0 <= k < n && prog.pcr_pid == (#[trigger] d.tracks[from + k]).pid && (if
            d.tracks[from + k].is_video {
                forall|i: int| 0 <= i < k ==> !(#[trigger] d.tracks[from + i]).is_video
            } else {
                k == 0 && forall|i: int|
                    0 <= i < n ==> !(#[trigger] d.tracks[from + i]).is_video
            }),
    }
}

proof fn lemma_first_video_is_first(tracks: Seq<TrackPlan>, i: int)
    requires
        0 <= i <= tracks.len(),
    ensures
        match first_video(tracks, i) {
            Some(v) => i <= v < tracks.len() && tracks[v].is_video && forall|j: int|
                i <= j < v ==> !(#[trigger] tracks[j]).is_video,
            None => forall|j: int| i <= j < tracks.len() ==> !(#[trigger] tracks[j]).is_video,
        },
    decreases tracks.len() - i,
{
    if i < tracks.len() && !tracks[i].is_video {
        lemma_first_video_is_first(tracks, i + 1);
    }
}

proof fn lemma_program_asked(d: DraftView, streams: Seq<MuxStream>, spec: ProgramSpec)
    requires
        program_laid(d, streams, spec) is Ok,
        d.programs.len() < usize::MAX,
    ensures
        ({
            let x = program_laid(d, streams, spec)->Ok_0;
            let from = d.tracks.len() as int;
            &&& x.programs.len() == d.programs.len() + 1
            &&& x.tracks.len() == from + spec.stream_indices@.len()
            &&& forall|i: int| 0 <= i < d.tracks.len() ==> #[trigger] x.tracks[i] == d.tracks[i]
            &&& forall|i: int|
                0 <= i < d.programs.len() ==> #[trigger] x.programs[i] == d.programs[i]
            &&& is_as_asked(x, streams, spec, d.programs.len() as int, from)
        }),
{
    let n = spec.stream_indices@.len() as int;
    let from = d.tracks.len() as int;
    lemma_tracks_placed(d, streams, spec, n);
    let y = tracks_laid(d, streams, spec, n)->Ok_0;
    let x = program_laid(d, streams, spec)->Ok_0;
    let p = d.programs.len() as int;
    assert(x.tracks == y.tracks);
    lemma_first_video_is_first(x.tracks, from);
    if spec.pcr_pid is None {
        let v = match first_video(x.tracks, from) {
            Some(v) => v,
            None => from,
        };
        let k = v - from;
        assert(x.programs[p].pcr_pid == x.tracks[from + k].pid);
        assert forall|i: int| 0 <= i < k implies !(#[trigger] x.tracks[from + i]).is_video by {}
        if !x.tracks[v].is_video {
            assert forall|i: int| 0 <= i < n implies !(#[trigger] x.tracks[from + i]).is_video by {}
        }
    }
}

proof fn lemma_asked_stays(
    d: DraftView,
    x: DraftView,
    streams: Seq<MuxStream>,
    spec: ProgramSpec,
    p: int,
    from: int,
)
    requires
        0 <= p < d.programs.len(),
        is_as_asked(d, streams, spec, p, from),
        d.tracks.len() <= x.tracks.len(),
        forall|i: int| 0 <= i < d.tracks.len() ==> #[trigger] x.tracks[i] == d.tracks[i],
        x.programs[p] == d.programs[p],
    ensures
        is_as_asked(x, streams, spec, p, from),
{
    let n = spec.stream_indices@.len() as int;
    assert forall|k: int| 0 <= k < n implies is_placed(
        #[trigger] x.tracks[from + k],
        streams,
        spec,
        p,
        k,
        from + k,
    ) && x.tracks[from + k] == d.tracks[from + k] by {
        assert(is_placed(d.tracks[from + k], streams, spec, p, k, from + k));
    }
    if spec.pcr_pid is None {
        let k = choose|k: int|
            0 <= k < n && d.programs[p].pcr_pid == (#[trigger] d.tracks[from + k]).pid && (if
            d.tracks[from + k].is_video {
                forall|i: int| 0 <= i < k ==> !(#[trigger] d.tracks[from + i]).is_video
            } else {
                k == 0 && forall|i: int|
                    0 <= i < n ==> !(#[trigger] d.tracks[from + i]).is_video
            });
        assert(x.programs[p].pcr_pid == x.tracks[from + k].pid);
        assert forall|i: int| 0 <= i < n implies #[trigger] x.tracks[from + i] == d.tracks[from
            + i] by {}
    }
}

proof fn lemma_programs_asked(streams: Seq<MuxStream>, specs: Seq<ProgramSpec>, n: int, p: int)
    requires
        0 <= p < n <= specs.len(),
        specs.len() <= usize::MAX,
        programs_laid(streams, specs, n) is Ok,
    ensures
        ({
            let d = programs_laid(streams, specs, n)->Ok_0;
            &&& d.programs.len() == n
            &&& d.tracks.len() == streams_before(specs, n)
            &&& is_as_asked(d, streams, specs[p], p, streams_before(specs, p))
        }),
    decreases n,
{
    let a = programs_laid(streams, specs, n - 1)->Ok_0;
    let d = programs_laid(streams, specs, n)->Ok_0;
    if n > 1 {
        lemma_programs_asked(streams, specs, n - 1, if p < n - 1 { p } else { 0 });
    } else {
        assert(a == empty_draft());
        assert(streams_before(specs, 0) == 0);
    }
    assert(streams_before(specs, n) == streams_before(specs, n - 1) + specs[n
        - 1].stream_indices@.len());
    lemma_program_asked(a, streams, specs[n - 1]);
    if p < n - 1 {
        lemma_asked_stays(a, d, streams, specs[p], p, streams_before(specs, p));
    }
}

/// A configuration that is accepted is laid out as it says: each program with its
/// number and the PID of its map, and its streams in the order of the program, on PIDs
/// in a row from 0x1011 on, each with the type of its codec, a component tag that
/// counts from 1 in its program, and its language. The clock of a program is where it
/// was asked to be, else on its first video stream, else on its first stream.
pub proof fn lemma_laid_out_as_asked(streams: Seq<MuxStream>, config: MpegTsMuxConfig, p: int)
    requires
        draft_of(streams, config) is Ok,
        config.programs@.len() <= usize::MAX,
        0 <= p < config.programs@.len(),
    ensures
        ({
            let d = draft_of(streams, config)->Ok_0;
            let specs = config.programs@;
            &&& d.programs.len() == specs.len()
            &&& d.tracks.len() == streams_before(specs, specs.len() as int)
            &&& is_as_asked(d, streams, specs[p], p, streams_before(specs, p))
        }),
{
    lemma_programs_asked(streams, config.programs@, config.programs@.len() as int, p);
}

/// The further descriptors of a stream are the first that are given for its index.
pub proof fn lemma_extra_is_first(list: Seq<(u32, Vec<u8>)>, index: u32, from: int)
    requires
        0 <= from <= list.len(),
    ensures
        forall|i: int|
            from <= i < list.len() && (#[trigger] list[i]).0 == index && (forall|j: int|
                from <= j < i ==> (#[trigger] list[j]).0 != index) ==> extra_for(list, index, from)
                == list[i].1@,
        (forall|j: int| from <= j < list.len() ==> (#[trigger] list[j]).0 != index) ==> extra_for(
            list,
            index,
            from,
        ).len() == 0,
    decreases list.len() - from,
{
    if from < list.len() && list[from].0 != index {
        lemma_extra_is_first(list, index, from + 1);
    }
}

} // verus!
