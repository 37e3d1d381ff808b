//! Decisions of the background recorder, the segment cleanup and the RTMP ingest: which
//! camera to record from where, with which ffmpeg arguments, and which segments expire.
use vstd::prelude::*;
use std::collections::HashSet;
use crate::clock::{earliest_timestamp, latest_timestamp, now_timestamp};
use crate::order::segments_view;
use crate::text::{
    chars_equal, chars_of, decimal, decimal_int, ends_with, lemma_parse_decimal_u16, parsed_u16,
    push_decimal_i64, push_decimal_u64, push_str, string_of,
};

verus! {

broadcast use vstd::seq_lib::group_seq_properties;

/// Directory that holds the recorded segments of a camera: `DATA/segments/<id>`.
pub open spec fn segment_dir_text(cam_id: i64) -> Seq<char> {
    "DATA/segments/"@ + decimal_int(cam_id as int)
}

/// `DATA/segments/<cam_id>`.
pub fn segment_dir(cam_id: i64) -> (r: String)
    ensures
        r@ == segment_dir_text(cam_id),
{
    let mut r = string_of("DATA/segments/");
    push_decimal_i64(&mut r, cam_id);
    r
}

/// `DATA/segments/<cam_id>/<file>`.
pub fn segment_file(cam_id: i64, file: &str) -> (r: String)
    ensures
        r@ == segment_dir_text(cam_id) + "/"@ + file@,
{
    let mut r = segment_dir(cam_id);
    push_str(&mut r, "/");
    push_str(&mut r, file);
    r
}

/// Whether a file name has the extension `ts`, as `Path::extension` reads it: the name ends
/// in `.ts` and something comes before that dot (`.ts` alone names a hidden file without
/// an extension).
pub open spec fn segment_file_name(name: Seq<char>) -> bool {
    name.len() > 3 && ".ts"@.is_suffix_of(name)
}

/// Whether a file of a segment directory is a recorded segment: its name has the extension
/// `ts`.
pub fn is_segment_file_name(name: &str) -> (r: bool)
    ensures
        r == segment_file_name(name@),
{
    let v = chars_of(name);
    v.len() > 3 && ends_with(&v, &chars_of(".ts"))
}

/// Directory the RTMP ingest of a stream key writes to: `DATA/ingest/<key>`.
pub open spec fn ingest_dir_text(key: Seq<char>) -> Seq<char> {
    "DATA/ingest/"@ + key
}

/// `DATA/ingest/<key>`.
pub fn ingest_dir(key: &str) -> (r: String)
    ensures
        r@ == ingest_dir_text(key@),
{
    let mut r = string_of("DATA/ingest/");
    push_str(&mut r, key);
    r
}

/// Playlist the RTMP ingest of a stream key keeps up to date: `DATA/ingest/<key>/stream.m3u8`.
pub open spec fn ingest_playlist_text(key: Seq<char>) -> Seq<char> {
    ingest_dir_text(key) + "/stream.m3u8"@
}

/// `DATA/ingest/<key>/stream.m3u8`.
pub fn ingest_playlist(key: &str) -> (r: String)
    ensures
        r@ == ingest_playlist_text(key@),
{
    let mut r = ingest_dir(key);
    push_str(&mut r, "/stream.m3u8");
    r
}

/// The views of a list of strings.
pub open spec fn strings_view(v: Seq<String>) -> Seq<Seq<char>> {
    v.map_values(|s: String| s@)
}

fn push_arg(args: &mut Vec<String>, a: &str)
    ensures
        strings_view(final(args)@) == strings_view(old(args)@).push(a@),
{
    let ghost before = args@;
    args.push(string_of(a));
    assert(strings_view(args@) =~= strings_view(before).push(a@));
}

fn push_owned_arg(args: &mut Vec<String>, a: String)
    ensures
        strings_view(final(args)@) == strings_view(old(args)@).push(a@),
{
    let ghost before = args@;
    let ghost ag = a@;
    args.push(a);
    assert(strings_view(args@) =~= strings_view(before).push(ag));
}

/// The ffmpeg arguments of a camera recorder: copy the input into four-second HLS segments
/// `seg_%06d.ts` under `out_dir` with a ten-entry `live.m3u8`, and refresh `thumb.jpg`, a
/// 320-pixel-wide frame, every ten seconds.
pub open spec fn recorder_args_spec(input_url: Seq<char>, out_dir: Seq<char>) -> Seq<Seq<char>> {
    seq![
        "-i"@, input_url,
        "-map"@, "0"@, "-c"@, "copy"@, "-f"@, "hls"@, "-hls_time"@, "4"@,
        "-hls_list_size"@, "10"@, "-hls_flags"@, "temp_file"@,
        "-hls_segment_filename"@, out_dir + "/seg_%06d.ts"@, out_dir + "/live.m3u8"@,
        "-map"@, "0:v"@, "-vf"@, "fps=1/10,scale=320:-1"@, "-update"@, "1"@,
        out_dir + "/thumb.jpg"@
    ]
}

/// The ffmpeg arguments of a camera recorder.
pub fn recorder_args(input_url: &str, out_dir: &str) -> (args: Vec<String>)
    ensures
        strings_view(args@) == recorder_args_spec(input_url@, out_dir@),
{
    let mut args: Vec<String> = Vec::new();
    push_arg(&mut args, "-i");
    push_arg(&mut args, input_url);
    push_arg(&mut args, "-map");
    push_arg(&mut args, "0");
    push_arg(&mut args, "-c");
    push_arg(&mut args, "copy");
    push_arg(&mut args, "-f");
    push_arg(&mut args, "hls");
    push_arg(&mut args, "-hls_time");
    push_arg(&mut args, "4");
    push_arg(&mut args, "-hls_list_size");
    push_arg(&mut args, "10");
    push_arg(&mut args, "-hls_flags");
    push_arg(&mut args, "temp_file");
    push_arg(&mut args, "-hls_segment_filename");
    let mut pattern = string_of(out_dir);
    push_str(&mut pattern, "/seg_%06d.ts");
    push_owned_arg(&mut args, pattern);
    let mut playlist = string_of(out_dir);
    push_str(&mut playlist, "/live.m3u8");
    push_owned_arg(&mut args, playlist);
    push_arg(&mut args, "-map");
    push_arg(&mut args, "0:v");
    push_arg(&mut args, "-vf");
    push_arg(&mut args, "fps=1/10,scale=320:-1");
    push_arg(&mut args, "-update");
    push_arg(&mut args, "1");
    let mut thumb = string_of(out_dir);
    push_str(&mut thumb, "/thumb.jpg");
    push_owned_arg(&mut args, thumb);
    assert(strings_view(args@) =~= recorder_args_spec(input_url@, out_dir@));
    args
}

/// The address the RTMP ingest of `key` listens on: `rtmp://0.0.0.0:<port>/live/<key>`.
pub open spec fn listen_url_text(key: Seq<char>, port: u16) -> Seq<char> {
    "rtmp://0.0.0.0:"@ + decimal(port as nat) + "/live/"@ + key
}

/// The ffmpeg arguments of an RTMP ingest: listen for one publisher of stream `key` on
/// `port` and copy it into four-second HLS segments `seg_%03d.ts` under the ingest
/// directory, with a 900-entry `stream.m3u8` from which old segments are deleted.
pub open spec fn ingest_args_spec(key: Seq<char>, port: u16) -> Seq<Seq<char>> {
    seq![
        "-listen"@, "1"@, "-i"@, listen_url_text(key, port),
        "-c"@, "copy"@, "-f"@, "hls"@, "-hls_time"@, "4"@,
        "-hls_list_size"@, "900"@, "-hls_flags"@, "delete_segments+append_list"@,
        "-hls_segment_filename"@, ingest_dir_text(key) + "/seg_%03d.ts"@,
        ingest_playlist_text(key)
    ]
}

/// The ffmpeg arguments of the RTMP ingest of `key` on `port`.
pub fn ingest_args(key: &str, port: u16) -> (args: Vec<String>)
    ensures
        strings_view(args@) == ingest_args_spec(key@, port),
{
    let mut args: Vec<String> = Vec::new();
    push_arg(&mut args, "-listen");
    push_arg(&mut args, "1");
    push_arg(&mut args, "-i");
    let mut url = string_of("rtmp://0.0.0.0:");
    push_decimal_u64(&mut url, port as u64);
    push_str(&mut url, "/live/");
    push_str(&mut url, key);
    push_owned_arg(&mut args, url);
    push_arg(&mut args, "-c");
    push_arg(&mut args, "copy");
    push_arg(&mut args, "-f");
    push_arg(&mut args, "hls");
    push_arg(&mut args, "-hls_time");
    push_arg(&mut args, "4");
    push_arg(&mut args, "-hls_list_size");
    push_arg(&mut args, "900");
    push_arg(&mut args, "-hls_flags");
    push_arg(&mut args, "delete_segments+append_list");
    push_arg(&mut args, "-hls_segment_filename");
    let mut pattern = ingest_dir(key);
    push_str(&mut pattern, "/seg_%03d.ts");
    push_owned_arg(&mut args, pattern);
    push_owned_arg(&mut args, ingest_playlist(key));
    assert(strings_view(args@) =~= ingest_args_spec(key@, port));
    args
}

/// Listen-port law: an RTMP ingest is told to listen (`-listen 1`) on the input given by
/// `-i`, an address `rtmp://0.0.0.0:<port>/live/<key>` whose port text reads back, as
/// `str::parse::<u16>` reads it, as exactly the port it was given, for every port, and
/// whose stream name is the key.
pub proof fn lemma_ingest_listens_on_port(key: Seq<char>, port: u16)
    ensures
        ingest_args_spec(key, port)[0] == "-listen"@,
        ingest_args_spec(key, port)[2] == "-i"@,
        exists|p: Seq<char>|
            ingest_args_spec(key, port)[3] == "rtmp://0.0.0.0:"@ + p + "/live/"@ + key
                && #[trigger] parsed_u16(p) == Some(port),
{
    lemma_parse_decimal_u16(port);
    let p = decimal(port as nat);
    assert(parsed_u16(p) == Some(port));
}

/// A camera as the recorder sees it.
pub struct RecordingTarget {
    pub id: i64,
    pub name: String,
    pub source_type: String,
    pub stream_url: Option<String>,
    pub stream_key: Option<String>,
    pub rewind_hours: i64,
}

/// What the recorder does with one camera in a cycle.
pub enum RecordingStep {
    /// A recorder already runs for the camera.
    AlreadyRecording,
    /// An `hls` camera without a stream URL is skipped.
    NoStreamUrl,
    /// A `stream_key` camera whose ingest has not written its playlist yet is skipped.
    NoIngestYet,
    /// A `stream_key` camera without a stream key is skipped.
    NoStreamKey,
    /// A camera of another source type is skipped.
    UnknownSource,
    /// Record `input_url` into `out_dir`, keeping `max_segments` four-second segments.
    Start { input_url: String, out_dir: String, max_segments: i64 },
}

/// Where a camera's recording comes from, or why there is none.
pub enum SourceChoice {
    Input(Seq<char>),
    NoStreamUrl,
    NoIngestYet,
    NoStreamKey,
    UnknownSource,
}

/// The strings of an optional string.
pub open spec fn option_view(o: Option<String>) -> Option<Seq<char>> {
    match o {
        Some(s) => Some(s@),
        None => None,
    }
}

/// The input of a camera: the stream URL of an `hls` camera; the ingest playlist of a
/// `stream_key` camera once `ingest_ready` (that playlist exists).
pub open spec fn source_choice(t: RecordingTarget, ingest_ready: bool) -> SourceChoice {
    if t.source_type@ == "hls"@ {
        match t.stream_url {
            Some(u) => SourceChoice::Input(u@),
            None => SourceChoice::NoStreamUrl,
        }
    } else if t.source_type@ == "stream_key"@ {
        match t.stream_key {
            Some(k) => if ingest_ready {
                SourceChoice::Input(ingest_playlist_text(k@))
            } else {
                SourceChoice::NoIngestYet
            },
            None => SourceChoice::NoStreamKey,
        }
    } else {
        SourceChoice::UnknownSource
    }
}

/// The step the recorder takes for camera `t`.
pub open spec fn step_spec(t: RecordingTarget, active: bool, ingest_ready: bool, step: RecordingStep) -> bool {
    if active {
        step is AlreadyRecording
    } else {
        match source_choice(t, ingest_ready) {
            SourceChoice::Input(u) => step matches RecordingStep::Start { input_url, out_dir, max_segments }
                && input_url@ == u && out_dir@ == segment_dir_text(t.id) && max_segments == t.rewind_hours * 900,
            SourceChoice::NoStreamUrl => step is NoStreamUrl,
            SourceChoice::NoIngestYet => step is NoIngestYet,
            SourceChoice::NoStreamKey => step is NoStreamKey,
            SourceChoice::UnknownSource => step is UnknownSource,
        }
    }
}

/// Starting a recorder for `t` computes `rewind_hours * 3600` within `i64`.
pub open spec fn recording_in_range(t: RecordingTarget, active: bool, ingest_ready: bool) -> bool {
    (!active && source_choice(t, ingest_ready) is Input) ==> i64::MIN <= t.rewind_hours * 3600 <= i64::MAX
}

/// `hours * 3600 / 4`, the number of four-second segments in `hours` hours, or `None` where
/// `hours * 3600` leaves `i64`.
fn segments_for_hours(hours: i64) -> (r: Option<i64>)
    ensures
        r is None <==> !(i64::MIN <= hours * 3600 <= i64::MAX),
        r matches Some(n) ==> n == hours * 900,
{
    let span = match hours.checked_mul(3600) {
        Some(s) => s,
        None => {
            return None;
        },
    };
    let n = span / 4;
    assert(n == hours * 900) by (nonlinear_arith)
        requires
            span == hours * 3600,
            n == span / 4,
    ;
    Some(n)
}

/// Decides what the recorder does with camera `t` in one cycle: nothing when a recorder
/// already runs for it (`active`); otherwise it records the camera's input into its
/// segment directory, keeping `rewind_hours * 3600 / 4` segments, or skips the camera when
/// it has no input. `ingest_ready` tells whether the ingest playlist of its stream key
/// exists. `None` where `rewind_hours * 3600` leaves `i64`.
pub fn plan_recording_checked(t: &RecordingTarget, active: bool, ingest_ready: bool) -> (r: Option<RecordingStep>)
    ensures
        r is None <==> !recording_in_range(*t, active, ingest_ready),
        r matches Some(step) ==> step_spec(*t, active, ingest_ready, step),
{
    if active {
        return Some(RecordingStep::AlreadyRecording);
    }
    let st = chars_of(t.source_type.as_str());
    let input_url: String = if chars_equal(&st, &chars_of("hls")) {
        match &t.stream_url {
            Some(u) => u.clone(),
            None => {
                return Some(RecordingStep::NoStreamUrl);
            },
        }
    } else if chars_equal(&st, &chars_of("stream_key")) {
        match &t.stream_key {
            Some(k) => {
                if !ingest_ready {
                    return Some(RecordingStep::NoIngestYet);
                }
                ingest_playlist(k.as_str())
            },
            None => {
                return Some(RecordingStep::NoStreamKey);
            },
        }
    } else {
        return Some(RecordingStep::UnknownSource);
    };
    let out_dir = segment_dir(t.id);
    match segments_for_hours(t.rewind_hours) {
        Some(max_segments) => Some(RecordingStep::Start { input_url, out_dir, max_segments }),
        None => None,
    }
}

/// Decides what the recorder does with camera `t` in one cycle (see `plan_recording_checked`).
pub fn plan_recording(t: &RecordingTarget, active: bool, ingest_ready: bool) -> (step: RecordingStep)
    requires
        recording_in_range(*t, active, ingest_ready),
    ensures
        step_spec(*t, active, ingest_ready, step),
{
    match plan_recording_checked(t, active, ingest_ready) {
        Some(step) => step,
        None => RecordingStep::AlreadyRecording,
    }
}

/// Takes the recorder's step for camera `t` in a cycle, given `active`, the cameras whose
/// recorder runs: a camera whose recorder starts joins `active`; any other step leaves it
/// as it was. `None` where `rewind_hours * 3600` leaves `i64`.
pub fn recording_step(active: &mut HashSet<i64>, t: &RecordingTarget, ingest_ready: bool) -> (r:
    Option<RecordingStep>)
    ensures
        r is None <==> !recording_in_range(*t, old(active)@.contains(t.id), ingest_ready),
        r matches Some(step) ==> step_spec(*t, old(active)@.contains(t.id), ingest_ready, step),
        final(active)@ == if r matches Some(RecordingStep::Start { .. }) {
            old(active)@.insert(t.id)
        } else {
            old(active)@
        },
{
    broadcast use vstd::std_specs::hash::group_hash_axioms;

    let is_active = active.contains(&t.id);
    let r = plan_recording_checked(t, is_active, ingest_ready);
    match &r {
        Some(RecordingStep::Start { .. }) => {
            active.insert(t.id);
        },
        _ => {},
    }
    r
}

/// The recorder of camera `id` stopped: the camera leaves `active`, so that the next cycle
/// starts it again.
pub fn recorder_stopped(active: &mut HashSet<i64>, id: i64)
    ensures
        final(active)@ == old(active)@.remove(id),
{
    broadcast use vstd::std_specs::hash::group_hash_axioms;

    active.remove(&id);
}

/// Single-recorder law: a recorder starts for a camera only while none runs for it; once
/// it has started, every later step for the camera finds it recording, until it stops.
pub proof fn lemma_one_recorder_per_camera(
    active: Set<i64>,
    t: RecordingTarget,
    ready: bool,
    step: RecordingStep,
    later_ready: bool,
    later: RecordingStep,
)
    requires
        step_spec(t, active.contains(t.id), ready, step),
        step is Start,
        step_spec(t, active.insert(t.id).contains(t.id), later_ready, later),
    ensures
        !active.contains(t.id),
        later is AlreadyRecording,
{
}

/// Oldest segment time kept when a camera keeps `hours` hours of recordings at time `now`,
/// or `None` where chrono's date arithmetic fails: `hours` hours do not fit in a
/// `TimeDelta`, or `now` minus them falls outside the range of `DateTime<Utc>`.
pub open spec fn retention_spec(now: i64, hours: i64) -> Option<i64> {
    let c = now - hours * 3600;
    if -2562047788015 <= hours <= 2562047788015 && earliest_timestamp() <= c <= latest_timestamp() {
        Some(c as i64)
    } else {
        None
    }
}

/// Oldest segment time kept when a camera keeps `hours` hours of recordings at time `now`.
pub fn retention_cutoff(now: i64, hours: i64) -> (r: Option<i64>)
    ensures
        r == retention_spec(now, hours),
{
    if hours < -2562047788015 || hours > 2562047788015 {
        return None;
    }
    let c: i128 = (now as i128) - (hours as i128) * 3600;
    if c < -8334601315200 || c > 8210266876799 {
        return None;
    }
    Some(c as i64)
}

/// Oldest segment time kept now when a camera keeps `hours` hours of recordings.
pub fn retention_cutoff_now(hours: i64) -> (r: Option<i64>)
    ensures
        exists|now: i64| 0 <= now <= latest_timestamp() && r == #[trigger] retention_spec(now, hours),
{
    let now = now_timestamp();
    retention_cutoff(now, hours)
}

/// Whether a segment is older than `cutoff`.
pub open spec fn older_than(cutoff: i64) -> spec_fn((i64, Seq<char>)) -> bool {
    |e: (i64, Seq<char>)| e.0 < cutoff
}

/// Names of the segments older than `cutoff`, in their given order.
pub open spec fn expired_names(segs: Seq<(i64, Seq<char>)>, cutoff: i64) -> Seq<Seq<char>> {
    segs.filter(older_than(cutoff)).map_values(|e: (i64, Seq<char>)| e.1)
}

/// The segments (time and file name) to delete: those older than `cutoff`.
pub fn expired_segments(segs: &Vec<(i64, String)>, cutoff: i64) -> (r: Vec<String>)
    ensures
        strings_view(r@) == expired_names(segments_view(segs@), cutoff),
{
    let ghost sv = segments_view(segs@);
    let mut r: Vec<String> = Vec::new();
    for i in 0..segs.len()
        invariant
            sv == segments_view(segs@),
            strings_view(r@) == expired_names(sv.take(i as int), cutoff),
    {
        let ghost x = sv[i as int];
        proof {
            assert(sv.take(i + 1) =~= sv.take(i as int).push(x));
            sv.take(i as int).lemma_filter_push(x, older_than(cutoff));
        }
        if segs[i].0 < cutoff {
            let ghost before = r@;
            let name = segs[i].1.clone();
            r.push(name);
            assert(strings_view(r@) =~= strings_view(before).push(x.1));
        }
        assert(strings_view(r@) =~= expired_names(sv.take(i + 1), cutoff));
    }
    assert(sv.take(segs.len() as int) =~= sv);
    r
}

} // verus!
