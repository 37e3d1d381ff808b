//! HLS playlists built from the recorded segments of a camera.
use vstd::prelude::*;
use crate::clock::{latest_timestamp, now_timestamp};
use crate::live::{lemma_lines_text_add, lemma_text_lines_of_lines, lines_text, text_lines, unbroken, without_cr};
use crate::recorder::{older_than, retention_spec};
use crate::order::{
    at_time, is_time_ordering, lemma_filter_by, lemma_filter_keeps_every, lemma_filter_narrower,
    lemma_filters_commute, lemma_time_ordered, lemma_time_ordering_empty, lemma_time_ordering_len,
    lemma_time_ordering_same_entries, lemma_time_ordering_unique, segments_view, sort_by_time,
    sorted_by_time, stamped, time_ordered,
};
use crate::text::{decimal, decimal_int, is_digit, lemma_decimal_digits, push_char, push_decimal_i64, push_decimal_u64, push_str, string_of};

verus! {

broadcast use vstd::seq_lib::group_seq_properties;

/// A string result seen through the characters of its strings.
pub open spec fn result_view(r: Result<String, String>) -> Result<Seq<char>, Seq<char>> {
    match r {
        Ok(s) => Ok(s@),
        Err(e) => Err(e@),
    }
}

/// Path under which the service serves a segment file of a camera.
pub open spec fn segment_uri(cam_id: i64, name: Seq<char>) -> Seq<char> {
    "/api/segments/"@ + decimal_int(cam_id as int) + seq!['/'] + name
}

/// Whether more than six seconds separate entry `k` from the entry before it.
pub open spec fn gap_before(sel: Seq<(i64, Seq<char>)>, k: int) -> bool {
    k > 0 && sel[k].0 - sel[k - 1].0 > 6
}

/// The playlist lines for entry `k`: a discontinuity tag after a gap, the duration tag and
/// the segment's path.
pub open spec fn segment_entry(cam_id: i64, sel: Seq<(i64, Seq<char>)>, k: int) -> Seq<char> {
    (if gap_before(sel, k) {
        "#EXT-X-DISCONTINUITY\n"@
    } else {
        Seq::empty()
    }) + "#EXTINF:4.0,\n"@ + segment_uri(cam_id, sel[k].1) + seq!['\n']
}

/// The playlist lines of the first `n` entries.
pub open spec fn segment_entries(cam_id: i64, sel: Seq<(i64, Seq<char>)>, n: nat) -> Seq<char>
    decreases n,
{
    if n == 0 {
        Seq::empty()
    } else {
        segment_entries(cam_id, sel, (n - 1) as nat) + segment_entry(cam_id, sel, n - 1)
    }
}

/// The time between consecutive entries fits in an `i64`.
pub open spec fn gaps_in_range(sel: Seq<(i64, Seq<char>)>) -> bool {
    forall|k: int| 0 < k < sel.len() ==> #[trigger] sel[k].0 - sel[k - 1].0 <= i64::MAX
}

/// Appends the entries of `sel`; fails (changing nothing that matters) when a gap between
/// consecutive entries does not fit in an `i64`.
fn push_entries(p: &mut String, cam_id: i64, sel: &Vec<(i64, String)>) -> (ok: bool)
    ensures
        ok == gaps_in_range(segments_view(sel@)),
        ok ==> final(p)@ == old(p)@ + segment_entries(
            cam_id,
            segments_view(sel@),
            sel@.len(),
        ),
{
    let ghost sv = segments_view(sel@);
    let ghost start = p@;
    let mut k: usize = 0;
    while k < sel.len()
        invariant
            sv == segments_view(sel@),
            k <= sel@.len(),
            p@ == start + segment_entries(cam_id, sv, k as nat),
            forall|m: int| 0 < m < k ==> #[trigger] sv[m].0 - sv[m - 1].0 <= i64::MAX,
        decreases sel.len() - k,
    {
        let ghost before = p@;
        let ts = sel[k].0;
        if k > 0 {
            let prev = sel[k - 1].0;
            let diff: i128 = (ts as i128) - (prev as i128);
            if diff > 9223372036854775807i128 {
                assert(sv[k as int].0 - sv[k - 1].0 > i64::MAX);
                return false;
            }
            if diff > 6 {
                push_str(p, "#EXT-X-DISCONTINUITY\n");
            }
        }
        push_str(p, "#EXTINF:4.0,\n");
        push_str(p, "/api/segments/");
        push_decimal_i64(p, cam_id);
        push_char(p, '/');
        push_str(p, sel[k].1.as_str());
        push_char(p, '\n');
        proof {
            assert(sv[k as int] == (sel@[k as int].0, sel@[k as int].1@));
            let d = if gap_before(sv, k as int) {
                "#EXT-X-DISCONTINUITY\n"@
            } else {
                Seq::empty()
            };
            assert(p@ =~= before + segment_entry(cam_id, sv, k as int));
            assert(segment_entries(cam_id, sv, (k + 1) as nat) == segment_entries(cam_id, sv, k as nat)
                + segment_entry(cam_id, sv, k as int));
        }
        k = k + 1;
    }
    true
}

/// Fixed lines that open every playlist.
pub open spec fn playlist_head() -> Seq<char> {
    "#EXTM3U\n#EXT-X-VERSION:3\n#EXT-X-TARGETDURATION:5\n"@
}

/// `t / 4`, rounded toward zero as integer division does.
pub open spec fn quarter(t: i64) -> int {
    if t >= 0 {
        t / 4
    } else {
        -((-t) / 4)
    }
}

/// How many of the newest segments a live window of `dur` seconds covers: one per four
/// seconds, and at least one.
pub open spec fn latest_count(dur: i64) -> usize {
    (if dur >= 4 {
        dur / 4
    } else {
        1
    }) as usize
}

/// Whether a time lies between `start` and `end`, both included.
pub open spec fn within(start: i64, end: int) -> spec_fn((i64, Seq<char>)) -> bool {
    |e: (i64, Seq<char>)| start <= e.0 && e.0 <= end
}

/// The last `n` entries of `o` (all of them when it has fewer).
pub open spec fn newest(o: Seq<(i64, Seq<char>)>, n: usize) -> Seq<(i64, Seq<char>)> {
    if o.len() > n {
        o.skip(o.len() - n)
    } else {
        o
    }
}

/// Duration asked for, one hour when none is given.
pub open spec fn window_length(duration: Option<i64>) -> i64 {
    match duration {
        Some(d) => d,
        None => 3600,
    }
}

/// The segments a DVR playlist lists: with a start time, those whose time lies in
/// `[start, start + duration]`; without one, the newest that `duration` covers. Both in time order.
pub open spec fn dvr_selection(
    segs: Seq<(i64, Seq<char>)>,
    from_ts: Option<i64>,
    duration: Option<i64>,
) -> Seq<(i64, Seq<char>)> {
    let o = time_ordered(segs);
    let dur = window_length(duration);
    match from_ts {
        Some(start) => o.filter(within(start, start + dur)),
        None => newest(o, latest_count(dur)),
    }
}

/// Text of a DVR playlist over the (non-empty) selection `sel`.
pub open spec fn dvr_text(cam_id: i64, sel: Seq<(i64, Seq<char>)>, live: bool) -> Seq<char> {
    playlist_head() + "#EXT-X-MEDIA-SEQUENCE:"@ + decimal((quarter(sel[0].0) as u64) as nat)
        + seq!['\n'] + segment_entries(cam_id, sel, sel.len()) + (if live {
        Seq::empty()
    } else {
        "#EXT-X-ENDLIST\n"@
    })
}

/// What a DVR playlist request gives.
pub open spec fn dvr_playlist_spec(
    cam_id: i64,
    segs: Seq<(i64, Seq<char>)>,
    from_ts: Option<i64>,
    duration: Option<i64>,
    live: bool,
) -> Result<Seq<char>, Seq<char>> {
    if segs.len() == 0 {
        Err("No segments available"@)
    } else {
        let sel = dvr_selection(segs, from_ts, duration);
        if sel.len() == 0 {
            Err("No segments in the requested time range"@)
        } else {
            Ok(dvr_text(cam_id, sel, live))
        }
    }
}

/// The arithmetic of a DVR playlist request stays within `i64`: the end of the requested
/// window, and the time between consecutive listed segments.
pub open spec fn dvr_in_range(
    segs: Seq<(i64, Seq<char>)>,
    from_ts: Option<i64>,
    duration: Option<i64>,
) -> bool {
    segs.len() > 0 ==> {
        &&& (match from_ts {
            Some(start) => i64::MIN <= start + window_length(duration) <= i64::MAX,
            None => true,
        })
        &&& gaps_in_range(dvr_selection(segs, from_ts, duration))
    }
}

fn window_of(sorted: &Vec<(i64, String)>, start: i64, end: i64) -> (sel: Vec<(i64, String)>)
    ensures
        segments_view(sel@) == segments_view(sorted@).filter(within(start, end as int)),
{
    let ghost sv = segments_view(sorted@);
    let mut sel: Vec<(i64, String)> = Vec::new();
    for i in 0..sorted.len()
        invariant
            sv == segments_view(sorted@),
            segments_view(sel@) == sv.take(i as int).filter(within(start, end as int)),
    {
        let ts = sorted[i].0;
        let ghost x = sv[i as int];
        proof {
            assert(sv.take(i + 1) =~= sv.take(i as int).push(x));
            sv.take(i as int).lemma_filter_push(x, within(start, end as int));
        }
        if start <= ts && ts <= end {
            let e = (ts, sorted[i].1.clone());
            let ghost before = sel@;
            sel.push(e);
            assert(segments_view(sel@) =~= segments_view(before).push(x));
        }
    }
    assert(sv.take(sorted.len() as int) =~= sv);
    sel
}

fn newest_of(sorted: &Vec<(i64, String)>, n: usize) -> (sel: Vec<(i64, String)>)
    ensures
        segments_view(sel@) == newest(segments_view(sorted@), n),
{
    let ghost sv = segments_view(sorted@);
    let first: usize = if sorted.len() > n {
        sorted.len() - n
    } else {
        0
    };
    let mut sel: Vec<(i64, String)> = Vec::new();
    for i in first..sorted.len()
        invariant
            sv == segments_view(sorted@),
            first <= sorted.len(),
            segments_view(sel@) == sv.subrange(first as int, i as int),
    {
        let e = (sorted[i].0, sorted[i].1.clone());
        let ghost before = sel@;
        let ghost eg = e;
        sel.push(e);
        assert(segments_view(sel@) =~= segments_view(before).push((eg.0, eg.1@)));
        assert(sv[i as int] == (eg.0, eg.1@));
        assert(segments_view(sel@) =~= sv.subrange(first as int, i + 1));
    }
    assert(newest(sv, n) =~= sv.subrange(first as int, sorted.len() as int));
    sel
}

fn dvr_text_of(cam_id: i64, selected: &Vec<(i64, String)>, live: bool) -> (r: Option<String>)
    requires
        selected@.len() > 0,
    ensures
        r is None <==> !gaps_in_range(segments_view(selected@)),
        r matches Some(t) ==> t@ == dvr_text(cam_id, segments_view(selected@), live),
{
    let ghost sel = segments_view(selected@);
    let mut playlist = string_of("#EXTM3U\n#EXT-X-VERSION:3\n#EXT-X-TARGETDURATION:5\n");
    push_str(&mut playlist, "#EXT-X-MEDIA-SEQUENCE:");
    let first_ts = selected[0].0;
    let q: i64 = if first_ts >= 0 {
        first_ts / 4
    } else {
        (-((-(first_ts as i128)) / 4)) as i64
    };
    push_decimal_u64(&mut playlist, q as u64);
    push_char(&mut playlist, '\n');
    if !push_entries(&mut playlist, cam_id, selected) {
        return None;
    }
    if !live {
        push_str(&mut playlist, "#EXT-X-ENDLIST\n");
    }
    assert(playlist@ =~= dvr_text(cam_id, sel, live));
    Some(playlist)
}

/// Builds a DVR playlist from the segments of camera `cam_id` (time and file name of each),
/// as the DVR endpoint serves it. Gives `None` where the arithmetic leaves `i64`.
pub fn dvr_playlist_checked(
    cam_id: i64,
    segments: &Vec<(i64, String)>,
    from_ts: Option<i64>,
    duration: Option<i64>,
    live: bool,
) -> (r: Option<Result<String, String>>)
    ensures
        r is None <==> !dvr_in_range(segments_view(segments@), from_ts, duration),
        r matches Some(x) ==> result_view(x) == dvr_playlist_spec(
            cam_id,
            segments_view(segments@),
            from_ts,
            duration,
            live,
        ),
{
    let ghost sv = segments_view(segments@);
    if segments.len() == 0 {
        return Some(Err(string_of("No segments available")));
    }
    let sorted = sort_by_time(segments);
    let dur = match duration {
        Some(d) => d,
        None => 3600,
    };
    let selected = match from_ts {
        Some(start) => {
            let end = match start.checked_add(dur) {
                Some(e) => e,
                None => {
                    return None;
                },
            };
            window_of(&sorted, start, end)
        },
        None => {
            let max_segs: usize = if dur >= 4 {
                (dur / 4) as usize
            } else {
                1
            };
            newest_of(&sorted, max_segs)
        },
    };
    let ghost sel = segments_view(selected@);
    assert(sel == dvr_selection(sv, from_ts, duration));
    if selected.len() == 0 {
        return Some(Err(string_of("No segments in the requested time range")));
    }
    match dvr_text_of(cam_id, &selected, live) {
        Some(t) => Some(Ok(t)),
        None => None,
    }
}

/// Builds a DVR playlist from the segments of camera `cam_id` (time and file name of each):
/// the segments are put in time order; with `from_ts`, those whose time lies in
/// `[from_ts, from_ts + duration]` are listed, otherwise the newest `duration / 4` (at least
/// one); `duration` defaults to one hour. A live playlist has no end tag.
pub fn dvr_playlist(
    cam_id: i64,
    segments: &Vec<(i64, String)>,
    from_ts: Option<i64>,
    duration: Option<i64>,
    live: bool,
) -> (r: Result<String, String>)
    requires
        dvr_in_range(segments_view(segments@), from_ts, duration),
    ensures
        result_view(r) == dvr_playlist_spec(cam_id, segments_view(segments@), from_ts, duration, live),
{
    match dvr_playlist_checked(cam_id, segments, from_ts, duration, live) {
        Some(r) => r,
        None => Err(String::new()),
    }
}

/// Whether a segment's time is not before `cutoff`.
pub open spec fn not_before(cutoff: i64) -> spec_fn((i64, Seq<char>)) -> bool {
    |e: (i64, Seq<char>)| e.0 >= cutoff
}

/// The segments a full playlist lists: those not older than `cutoff`, in time order.
pub open spec fn full_selection(segs: Seq<(i64, Seq<char>)>, cutoff: i64) -> Seq<(i64, Seq<char>)> {
    time_ordered(segs.filter(not_before(cutoff)))
}

/// Fixed lines that open a full (video on demand) playlist.
pub open spec fn vod_head() -> Seq<char> {
    "#EXTM3U\n#EXT-X-VERSION:3\n#EXT-X-TARGETDURATION:5\n#EXT-X-PLAYLIST-TYPE:VOD\n#EXT-X-MEDIA-SEQUENCE:0\n"@
}

/// What a full playlist request gives.
pub open spec fn full_playlist_spec(cam_id: i64, segs: Seq<(i64, Seq<char>)>, cutoff: i64) -> Result<
    Seq<char>,
    Seq<char>,
> {
    let sel = full_selection(segs, cutoff);
    if segs.filter(not_before(cutoff)).len() == 0 {
        Err("No segments available"@)
    } else {
        Ok(vod_head() + segment_entries(cam_id, sel, sel.len()) + "#EXT-X-ENDLIST\n"@)
    }
}

/// The time between consecutive segments of a full playlist fits in an `i64`.
pub open spec fn full_in_range(segs: Seq<(i64, Seq<char>)>, cutoff: i64) -> bool {
    gaps_in_range(full_selection(segs, cutoff))
}

/// Builds the full playlist of camera `cam_id`: every segment not older than `cutoff`, in
/// time order, closed by an end tag. Gives `None` where a gap between segments leaves `i64`.
pub fn full_playlist_checked(cam_id: i64, segments: &Vec<(i64, String)>, cutoff: i64) -> (r: Option<
    Result<String, String>,
>)
    ensures
        r is None <==> !full_in_range(segments_view(segments@), cutoff),
        r matches Some(x) ==> result_view(x) == full_playlist_spec(
            cam_id,
            segments_view(segments@),
            cutoff,
        ),
{
    let ghost sv = segments_view(segments@);
    let mut kept: Vec<(i64, String)> = Vec::new();
    for i in 0..segments.len()
        invariant
            sv == segments_view(segments@),
            segments_view(kept@) == sv.take(i as int).filter(not_before(cutoff)),
    {
        let ts = segments[i].0;
        let ghost x = sv[i as int];
        proof {
            assert(sv.take(i + 1) =~= sv.take(i as int).push(x));
            sv.take(i as int).lemma_filter_push(x, not_before(cutoff));
        }
        if ts >= cutoff {
            let e = (ts, segments[i].1.clone());
            let ghost before = kept@;
            let ghost eg = e;
            kept.push(e);
            assert(segments_view(kept@) =~= segments_view(before).push((eg.0, eg.1@)));
        }
    }
    assert(sv.take(segments.len() as int) =~= sv);
    if kept.len() == 0 {
        proof {
            let k = sv.filter(not_before(cutoff));
            lemma_time_ordered(k);
            lemma_time_ordering_empty(time_ordered(k), k);
        }
        return Some(Err(string_of("No segments available")));
    }
    let sorted = sort_by_time(&kept);
    let mut playlist = string_of(
        "#EXTM3U\n#EXT-X-VERSION:3\n#EXT-X-TARGETDURATION:5\n#EXT-X-PLAYLIST-TYPE:VOD\n#EXT-X-MEDIA-SEQUENCE:0\n",
    );
    if !push_entries(&mut playlist, cam_id, &sorted) {
        return None;
    }
    push_str(&mut playlist, "#EXT-X-ENDLIST\n");
    Some(Ok(playlist))
}

/// Builds the full playlist of camera `cam_id`: every segment not older than `cutoff`, in
/// time order, closed by an end tag.
pub fn full_playlist(cam_id: i64, segments: &Vec<(i64, String)>, cutoff: i64) -> (r: Result<
    String,
    String,
>)
    requires
        full_in_range(segments_view(segments@), cutoff),
    ensures
        result_view(r) == full_playlist_spec(cam_id, segments_view(segments@), cutoff),
{
    match full_playlist_checked(cam_id, segments, cutoff) {
        Some(r) => r,
        None => Err(String::new()),
    }
}

/// Oldest time a full playlist keeps when it reaches back `max_hours` from `now`, or `None`
/// where `now - max_hours * 3600` leaves `i64`.
pub open spec fn full_cutoff(now: i64, max_hours: i64) -> Option<i64> {
    let c = now - max_hours * 3600;
    if i64::MIN <= max_hours * 3600 <= i64::MAX && i64::MIN <= c <= i64::MAX {
        Some(c as i64)
    } else {
        None
    }
}

/// `now - max_hours * 3600`, or `None` where that leaves `i64`.
pub fn full_playlist_cutoff(now: i64, max_hours: i64) -> (r: Option<i64>)
    ensures
        r == full_cutoff(now, max_hours),
{
    match max_hours.checked_mul(3600) {
        Some(span) => now.checked_sub(span),
        None => None,
    }
}

/// The full playlist of camera `cam_id` as of now, reaching back `max_hours` hours: the
/// current time is read from the clock, and the playlist keeps the segments not older than
/// `now - max_hours * 3600`. `None` where that arithmetic, or a gap between segments,
/// leaves `i64`.
pub fn full_playlist_now(cam_id: i64, segments: &Vec<(i64, String)>, max_hours: i64) -> (r: Option<
    Result<String, String>,
>)
    ensures
        exists|now: i64|
            0 <= now <= latest_timestamp() && match #[trigger] full_cutoff(now, max_hours) {
                None => r is None,
                Some(cutoff) => {
                    &&& (r is None <==> !full_in_range(segments_view(segments@), cutoff))
                    &&& (r matches Some(x) ==> result_view(x) == full_playlist_spec(
                        cam_id,
                        segments_view(segments@),
                        cutoff,
                    ))
                },
            },
{
    let now = now_timestamp();
    match full_playlist_cutoff(now, max_hours) {
        Some(cutoff) => full_playlist_checked(cam_id, segments, cutoff),
        None => None,
    }
}

/// Oldest, newest and their distance, the time span the recordings cover.
pub open spec fn span_of(ts: Seq<i64>) -> Option<(i64, i64, i64)> {
    if ts.len() == 0 {
        None
    } else {
        let lo = choose|m: i64| ts.contains(m) && forall|i: int| 0 <= i < ts.len() ==> m <= #[trigger] ts[i];
        let hi = choose|m: i64| ts.contains(m) && forall|i: int| 0 <= i < ts.len() ==> m >= #[trigger] ts[i];
        Some((lo, hi, (hi - lo) as i64))
    }
}

/// The newest time minus the oldest fits in an `i64` (or there is no time at all).
pub open spec fn span_in_range(ts: Seq<i64>) -> bool {
    forall|i: int, j: int| 0 <= i < ts.len() && 0 <= j < ts.len() ==> #[trigger] ts[j] - #[trigger] ts[i] <= i64::MAX
}

/// Oldest and newest of the segment times and the seconds between them; `None` when there
/// is no segment. The outer `None` stands where the distance leaves `i64`.
pub fn segment_range_checked(timestamps: &Vec<i64>) -> (r: Option<Option<(i64, i64, i64)>>)
    ensures
        r is None <==> !span_in_range(timestamps@),
        r matches Some(x) ==> x == span_of(timestamps@),
{
    if timestamps.len() == 0 {
        return Some(None);
    }
    let ghost ts = timestamps@;
    let mut lo = timestamps[0];
    let mut hi = timestamps[0];
    let mut ilo: usize = 0;
    let mut ihi: usize = 0;
    for i in 1..timestamps.len()
        invariant
            ts == timestamps@,
            ts.len() > 0,
            ilo < ts.len(),
            ihi < ts.len(),
            lo == ts[ilo as int],
            hi == ts[ihi as int],
            forall|k: int| 0 <= k < i ==> lo <= #[trigger] ts[k] && hi >= ts[k],
    {
        let t = timestamps[i];
        if t < lo {
            lo = t;
            ilo = i;
        }
        if t > hi {
            hi = t;
            ihi = i;
        }
    }
    let span: i128 = (hi as i128) - (lo as i128);
    if span > 9223372036854775807i128 {
        assert(ts[ihi as int] - ts[ilo as int] > i64::MAX);
        return None;
    }
    proof {
        assert(ts.contains(lo));
        assert(ts.contains(hi));
        let clo = choose|m: i64| ts.contains(m) && forall|i: int| 0 <= i < ts.len() ==> m <= #[trigger] ts[i];
        let chi = choose|m: i64| ts.contains(m) && forall|i: int| 0 <= i < ts.len() ==> m >= #[trigger] ts[i];
        assert(clo == lo) by {
            let a = choose|a: int| 0 <= a < ts.len() && ts[a] == clo;
            assert(lo <= ts[a]);
            assert(clo <= ts[ilo as int]);
        }
        assert(chi == hi) by {
            let a = choose|a: int| 0 <= a < ts.len() && ts[a] == chi;
            assert(hi >= ts[a]);
            assert(chi >= ts[ihi as int]);
        }
    }
    Some(Some((lo, hi, (hi - lo) as i64)))
}

/// Oldest and newest of the segment times and the seconds between them; `None` when there
/// is no segment.
pub fn segment_range(timestamps: &Vec<i64>) -> (r: Option<(i64, i64, i64)>)
    requires
        span_in_range(timestamps@),
    ensures
        r == span_of(timestamps@),
{
    match segment_range_checked(timestamps) {
        Some(r) => r,
        None => None,
    }
}

/// Window law: a DVR playlist with a start time lists exactly the segments whose time lies
/// in `[start, start + duration]`, in time order.
pub proof fn lemma_dvr_window(
    segs: Seq<(i64, Seq<char>)>,
    start: i64,
    duration: Option<i64>,
    x: (i64, Seq<char>),
)
    ensures
        dvr_selection(segs, Some(start), duration).contains(x) <==> (segs.contains(x) && start
            <= x.0 <= start + window_length(duration)),
        sorted_by_time(dvr_selection(segs, Some(start), duration)),
{
    let o = time_ordered(segs);
    lemma_time_ordered(segs);
    lemma_time_ordering_same_entries(o, segs, x);
    lemma_filter_by(o, within(start, start + window_length(duration)), x);
}

/// Newest-window law: without a start time a DVR playlist lists the newest
/// `latest_count(duration)` segments (all of them when there are fewer), in time order; no
/// segment left out is later than a listed one.
pub proof fn lemma_dvr_newest(segs: Seq<(i64, Seq<char>)>, duration: Option<i64>)
    ensures
        ({
            let o = time_ordered(segs);
            let sel = dvr_selection(segs, None, duration);
            let n = latest_count(window_length(duration));
            &&& sel.len() == if segs.len() > n {
                n as int
            } else {
                segs.len() as int
            }
            &&& sorted_by_time(sel)
            &&& forall|i: int, j: int|
                0 <= i < o.len() - sel.len() && 0 <= j < sel.len() ==> #[trigger] o[i].0
                    <= #[trigger] sel[j].0
            &&& forall|j: int| 0 <= j < sel.len() ==> segs.contains(#[trigger] sel[j])
        }),
{
    let o = time_ordered(segs);
    lemma_time_ordered(segs);
    lemma_time_ordering_len(o, segs);
    let sel = dvr_selection(segs, None, duration);
    let k = o.len() - sel.len();
    assert forall|j: int| 0 <= j < sel.len() implies #[trigger] sel[j] == o[k + j] by {}
    assert forall|j: int| 0 <= j < sel.len() implies segs.contains(#[trigger] sel[j]) by {
        assert(o.contains(o[k + j]));
        lemma_time_ordering_same_entries(o, segs, sel[j]);
    }
}

/// Full-playlist law: a full playlist lists exactly the segments not older than the cutoff,
/// in time order, and as many as there are.
pub proof fn lemma_full_selection(segs: Seq<(i64, Seq<char>)>, cutoff: i64, x: (i64, Seq<char>))
    ensures
        full_selection(segs, cutoff).contains(x) <==> (segs.contains(x) && x.0 >= cutoff),
        sorted_by_time(full_selection(segs, cutoff)),
        full_selection(segs, cutoff).len() == segs.filter(not_before(cutoff)).len(),
{
    let kept = segs.filter(not_before(cutoff));
    lemma_time_ordered(kept);
    lemma_time_ordering_len(time_ordered(kept), kept);
    lemma_time_ordering_same_entries(time_ordered(kept), kept, x);
    lemma_filter_by(segs, not_before(cutoff), x);
}

/// Retention law: at the same moment and for the same rewind window, the cleanup deletes
/// exactly the segments that the full playlist leaves out, and keeps exactly those it lists.
pub proof fn lemma_cleanup_complements_full(
    segs: Seq<(i64, Seq<char>)>,
    now: i64,
    hours: i64,
    x: (i64, Seq<char>),
)
    requires
        retention_spec(now, hours) is Some,
    ensures
        full_cutoff(now, hours) == retention_spec(now, hours),
        segs.filter(older_than(retention_spec(now, hours)->0)).contains(x) <==> (segs.contains(x)
            && !full_selection(segs, retention_spec(now, hours)->0).contains(x)),
{
    let c = retention_spec(now, hours)->0;
    lemma_full_selection(segs, c, x);
    lemma_filter_by(segs, older_than(c), x);
}

/// Live law: a DVR playlist that is not live is the live one followed by the end tag
/// `#EXT-X-ENDLIST`, and where one fails the other fails alike.
pub proof fn lemma_live_then_end(
    cam_id: i64,
    segs: Seq<(i64, Seq<char>)>,
    from_ts: Option<i64>,
    duration: Option<i64>,
)
    ensures
        dvr_playlist_spec(cam_id, segs, from_ts, duration, false) == match dvr_playlist_spec(
            cam_id,
            segs,
            from_ts,
            duration,
            true,
        ) {
            Ok(p) => Ok::<Seq<char>, Seq<char>>(p + "#EXT-X-ENDLIST\n"@),
            Err(e) => Err(e),
        },
{
    let sel = dvr_selection(segs, from_ts, duration);
    assert(dvr_text(cam_id, sel, false) =~= dvr_text(cam_id, sel, true) + "#EXT-X-ENDLIST\n"@);
}

/// The lines of entry `k` of a playlist: a discontinuity tag after a gap, the duration tag
/// and the segment's path.
pub open spec fn entry_lines(cam_id: i64, sel: Seq<(i64, Seq<char>)>, k: int) -> Seq<Seq<char>> {
    (if gap_before(sel, k) {
        seq!["#EXT-X-DISCONTINUITY"@]
    } else {
        Seq::empty()
    }) + seq!["#EXTINF:4.0,"@, segment_uri(cam_id, sel[k].1)]
}

/// The lines of the first `n` entries.
pub open spec fn entries_lines(cam_id: i64, sel: Seq<(i64, Seq<char>)>, n: nat) -> Seq<Seq<char>>
    decreases n,
{
    if n == 0 {
        Seq::empty()
    } else {
        entries_lines(cam_id, sel, (n - 1) as nat) + entry_lines(cam_id, sel, n - 1)
    }
}

/// The lines of a live DVR playlist over the (non-empty) selection `sel`.
pub open spec fn live_lines(cam_id: i64, sel: Seq<(i64, Seq<char>)>) -> Seq<Seq<char>> {
    head_lines(decimal((quarter(sel[0].0) as u64) as nat)) + entries_lines(cam_id, sel, sel.len())
}

/// A line with no line break that does not read as the end tag, even without a trailing
/// carriage return.
pub open spec fn plain_line(l: Seq<char>) -> bool {
    unbroken(l) && without_cr(l) != "#EXT-X-ENDLIST"@
}

proof fn lemma_short_line_plain(l: Seq<char>)
    requires
        unbroken(l),
        l.len() != 14,
        l.len() != 15,
    ensures
        plain_line(l),
{
    reveal_strlit("#EXT-X-ENDLIST");
    assert("#EXT-X-ENDLIST"@.len() == 14);
    assert(without_cr(l).len() == l.len() || without_cr(l).len() == l.len() - 1);
}

proof fn lemma_uri_plain(cam_id: i64, name: Seq<char>)
    requires
        unbroken(name),
    ensures
        plain_line(segment_uri(cam_id, name)),
{
    let pre = "/api/segments/"@;
    reveal_strlit("/api/segments/");
    reveal_strlit("#EXT-X-ENDLIST");
    let num = decimal_int(cam_id as int);
    let n: nat = if cam_id < 0 {
        (-cam_id) as nat
    } else {
        cam_id as nat
    };
    lemma_decimal_digits(n);
    let u = segment_uri(cam_id, name);
    assert(u =~= pre + num + seq!['/'] + name);
    assert forall|i: int| 0 <= i < num.len() implies #[trigger] num[i] != '\n' by {
        if cam_id < 0 {
            if i > 0 {
                assert(num[i] == decimal(n)[i - 1]);
                assert(is_digit(decimal(n)[i - 1]));
            }
        } else {
            assert(is_digit(decimal(n)[i]));
        }
    }
    assert forall|i: int| 0 <= i < u.len() implies #[trigger] u[i] != '\n' by {
        if i < 14 {
            assert(u[i] == pre[i]);
        } else if i < 14 + num.len() {
            assert(u[i] == num[i - 14]);
        } else if i == 14 + num.len() {
        } else {
            assert(u[i] == name[i - 15 - num.len()]);
        }
    }
    assert(without_cr(u)[0] == '/');
}

proof fn lemma_entry_lines(cam_id: i64, sel: Seq<(i64, Seq<char>)>, k: int)
    requires
        0 <= k < sel.len(),
        unbroken(sel[k].1),
    ensures
        lines_text(entry_lines(cam_id, sel, k)) == segment_entry(cam_id, sel, k),
        forall|i: int| 0 <= i < entry_lines(cam_id, sel, k).len() ==> plain_line(
            #[trigger] entry_lines(cam_id, sel, k)[i],
        ),
{
    reveal_strlit("#EXT-X-DISCONTINUITY");
    reveal_strlit("#EXT-X-DISCONTINUITY\n");
    reveal_strlit("#EXTINF:4.0,");
    reveal_strlit("#EXTINF:4.0,\n");
    let d = "#EXT-X-DISCONTINUITY"@;
    let f = "#EXTINF:4.0,"@;
    let u = segment_uri(cam_id, sel[k].1);
    reveal_with_fuel(lines_text, 4);
    let tail = seq![f, u];
    assert(tail.drop_last().drop_last() =~= Seq::<Seq<char>>::empty());
    assert(lines_text(tail) =~= f + seq!['\n'] + u + seq!['\n']);
    if gap_before(sel, k) {
        lemma_lines_text_add(seq![d], tail);
        assert(seq![d].drop_last() =~= Seq::<Seq<char>>::empty());
        assert(lines_text(seq![d]) =~= d + seq!['\n']);
        assert(entry_lines(cam_id, sel, k) =~= seq![d] + tail);
    } else {
        assert(entry_lines(cam_id, sel, k) =~= tail);
    }
    assert(lines_text(entry_lines(cam_id, sel, k)) =~= segment_entry(cam_id, sel, k));
    assert(unbroken(d));
    assert(unbroken(f));
    lemma_short_line_plain(d);
    lemma_short_line_plain(f);
    lemma_uri_plain(cam_id, sel[k].1);
}

proof fn lemma_entries_lines(cam_id: i64, sel: Seq<(i64, Seq<char>)>, n: nat)
    requires
        n <= sel.len(),
        forall|j: int| 0 <= j < sel.len() ==> unbroken(#[trigger] sel[j].1),
    ensures
        lines_text(entries_lines(cam_id, sel, n)) == segment_entries(cam_id, sel, n),
        forall|i: int| 0 <= i < entries_lines(cam_id, sel, n).len() ==> plain_line(
            #[trigger] entries_lines(cam_id, sel, n)[i],
        ),
    decreases n,
{
    if n > 0 {
        let m = (n - 1) as nat;
        lemma_entries_lines(cam_id, sel, m);
        lemma_entry_lines(cam_id, sel, m as int);
        let a = entries_lines(cam_id, sel, m);
        let b = entry_lines(cam_id, sel, m as int);
        lemma_lines_text_add(a, b);
        assert forall|i: int| 0 <= i < (a + b).len() implies plain_line(#[trigger] (a + b)[i]) by {
            if i < a.len() {
                assert((a + b)[i] == a[i]);
            } else {
                assert((a + b)[i] == b[i - a.len()]);
            }
        }
    } else {
        assert(lines_text(entries_lines(cam_id, sel, n)) =~= Seq::<char>::empty());
    }
}

/// The four lines that open a live playlist with media sequence text `dec`.
pub open spec fn head_lines(dec: Seq<char>) -> Seq<Seq<char>> {
    seq![
        "#EXTM3U"@,
        "#EXT-X-VERSION:3"@,
        "#EXT-X-TARGETDURATION:5"@,
        "#EXT-X-MEDIA-SEQUENCE:"@ + dec,
    ]
}

proof fn lemma_head_text(dec: Seq<char>)
    ensures
        lines_text(head_lines(dec)) == playlist_head() + "#EXT-X-MEDIA-SEQUENCE:"@ + dec + seq!['\n'],
{
    reveal_strlit("#EXTM3U\n#EXT-X-VERSION:3\n#EXT-X-TARGETDURATION:5\n");
    reveal_strlit("#EXTM3U");
    reveal_strlit("#EXT-X-VERSION:3");
    reveal_strlit("#EXT-X-TARGETDURATION:5");
    let h = head_lines(dec);
    let l0 = h[0];
    let l1 = h[1];
    let l2 = h[2];
    let l3 = h[3];
    let h1 = seq![l0];
    let h2 = seq![l0, l1];
    let h3 = seq![l0, l1, l2];
    assert(h1.drop_last() =~= Seq::<Seq<char>>::empty());
    assert(lines_text(h1.drop_last()) =~= Seq::<char>::empty());
    assert(lines_text(h1) =~= l0 + seq!['\n']);
    assert(h2.drop_last() =~= h1);
    assert(lines_text(h2) =~= l0 + seq!['\n'] + l1 + seq!['\n']);
    assert(h3.drop_last() =~= h2);
    assert(lines_text(h3) =~= l0 + seq!['\n'] + l1 + seq!['\n'] + l2 + seq!['\n']);
    assert(h.drop_last() =~= h3);
    assert(lines_text(h3) =~= playlist_head());
    assert(lines_text(h) =~= playlist_head() + l3 + seq!['\n']);
}

proof fn lemma_head_plain(dec: Seq<char>)
    requires
        dec.len() > 0,
        forall|i: int| 0 <= i < dec.len() ==> is_digit(#[trigger] dec[i]),
    ensures
        forall|i: int| 0 <= i < head_lines(dec).len() ==> plain_line(#[trigger] head_lines(dec)[i]),
{
    let h = head_lines(dec);
    assert(plain_line(h[0])) by {
        reveal_strlit("#EXTM3U");
        assert(unbroken(h[0]));
        lemma_short_line_plain(h[0]);
    }
    assert(plain_line(h[1])) by {
        reveal_strlit("#EXT-X-VERSION:3");
        assert(unbroken(h[1]));
        lemma_short_line_plain(h[1]);
    }
    assert(plain_line(h[2])) by {
        reveal_strlit("#EXT-X-TARGETDURATION:5");
        assert(unbroken(h[2]));
        lemma_short_line_plain(h[2]);
    }
    assert(plain_line(h[3])) by {
        reveal_strlit("#EXT-X-MEDIA-SEQUENCE:");
        let l3 = h[3];
        assert forall|i: int| 0 <= i < l3.len() implies #[trigger] l3[i] != '\n' by {
            if i >= 22 {
                assert(l3[i] == dec[i - 22]);
                assert(is_digit(dec[i - 22]));
            }
        }
        lemma_short_line_plain(l3);
    }
}

/// A live playlist is made of its lines, and each of them is plain.
proof fn lemma_live_lines(cam_id: i64, sel: Seq<(i64, Seq<char>)>)
    requires
        sel.len() > 0,
        forall|j: int| 0 <= j < sel.len() ==> unbroken(#[trigger] sel[j].1),
    ensures
        dvr_text(cam_id, sel, true) == lines_text(live_lines(cam_id, sel)),
        forall|i: int| 0 <= i < live_lines(cam_id, sel).len() ==> plain_line(
            #[trigger] live_lines(cam_id, sel)[i],
        ),
{
    let dec = decimal((quarter(sel[0].0) as u64) as nat);
    lemma_decimal_digits((quarter(sel[0].0) as u64) as nat);
    let head = head_lines(dec);
    let ents = entries_lines(cam_id, sel, sel.len());
    lemma_entries_lines(cam_id, sel, sel.len());
    lemma_lines_text_add(head, ents);
    lemma_head_text(dec);
    lemma_head_plain(dec);
    assert(live_lines(cam_id, sel) =~= head + ents);
    assert(dvr_text(cam_id, sel, true) =~= lines_text(head) + lines_text(ents));
    assert forall|i: int| 0 <= i < (head + ents).len() implies plain_line(#[trigger] (head + ents)[i]) by {
        if i >= 4 {
            assert((head + ents)[i] == ents[i - 4]);
        } else {
            assert((head + ents)[i] == head[i]);
        }
    }
}

/// Live law, second part: no line of a live DVR playlist (as `str::lines` reads it) is the
/// end tag `#EXT-X-ENDLIST`, where no segment file name holds a line break (a name
/// holding one puts its own lines into the playlist).
pub proof fn lemma_live_has_no_end_line(
    cam_id: i64,
    segs: Seq<(i64, Seq<char>)>,
    from_ts: Option<i64>,
    duration: Option<i64>,
)
    requires
        forall|i: int| 0 <= i < segs.len() ==> unbroken(#[trigger] segs[i].1),
    ensures
        dvr_playlist_spec(cam_id, segs, from_ts, duration, true) matches Ok(p) ==> !text_lines(
            p,
        ).contains("#EXT-X-ENDLIST"@),
{
    if dvr_playlist_spec(cam_id, segs, from_ts, duration, true) is Ok {
        let sel = dvr_selection(segs, from_ts, duration);
        assert forall|j: int| 0 <= j < sel.len() implies unbroken(#[trigger] sel[j].1) by {
            match from_ts {
                Some(start) => {
                    lemma_dvr_window(segs, start, duration, sel[j]);
                },
                None => {
                    lemma_dvr_newest(segs, duration);
                },
            }
            assert(sel.contains(sel[j]));
            assert(segs.contains(sel[j]));
            let i = choose|i: int| 0 <= i < segs.len() && segs[i] == sel[j];
            assert(unbroken(segs[i].1));
        }
        lemma_live_lines(cam_id, sel);
        let ls = live_lines(cam_id, sel);
        assert forall|i: int| 0 <= i < ls.len() implies unbroken(#[trigger] ls[i]) by {
            assert(plain_line(ls[i]));
        }
        lemma_text_lines_of_lines(ls);
        let lines = ls.map_values(|l: Seq<char>| without_cr(l));
        if lines.contains("#EXT-X-ENDLIST"@) {
            let i = choose|i: int| 0 <= i < lines.len() && lines[i] == "#EXT-X-ENDLIST"@;
            assert(plain_line(ls[i]));
        }
    }
}

/// Among entries sorted by time, those not before `c` are the last ones.
proof fn lemma_sorted_recent_suffix(o: Seq<(i64, Seq<char>)>, c: i64) -> (m: int)
    requires
        sorted_by_time(o),
    ensures
        0 <= m <= o.len(),
        o.filter(not_before(c)) == o.skip(m),
    decreases o.len(),
{
    if o.len() == 0 {
        reveal(Seq::filter);
        assert(o.filter(not_before(c)) =~= o.skip(0));
        0
    } else {
        let o0 = o.drop_last();
        let x = o.last();
        assert(o0.push(x) =~= o);
        assert(sorted_by_time(o0));
        o0.lemma_filter_push(x, not_before(c));
        if x.0 >= c {
            let m0 = lemma_sorted_recent_suffix(o0, c);
            assert(o.skip(m0) =~= o0.skip(m0).push(x));
            m0
        } else {
            let pred = not_before(c);
            assert forall|i: int| 0 <= i < o0.len() implies !pred(#[trigger] o0[i]) by {
                assert(o[i].0 <= o[o.len() - 1].0);
            }
            assert(o0.all(|e: (i64, Seq<char>)| !pred(e)));
            o0.lemma_all_neg_filter_empty(pred);
            assert(o.filter(pred) =~= o.skip(o.len() as int));
            o.len() as int
        }
    }
}

/// Rewind law: reaching further back drops no segment. With a longer rewind window at the
/// same moment (`h1 <= h2`), the cutoff is no later, the segments of the full playlist with
/// the shorter window are the newest segments of the one with the longer window (a suffix
/// of them, in the same order), and where the shorter window gives a playlist the longer
/// one gives one too.
pub proof fn lemma_full_rewind_grows(
    cam_id: i64,
    segs: Seq<(i64, Seq<char>)>,
    now: i64,
    h1: i64,
    h2: i64,
)
    requires
        h1 <= h2,
        full_cutoff(now, h1) is Some,
        full_cutoff(now, h2) is Some,
    ensures
        ({
            let c1 = full_cutoff(now, h1)->0;
            let c2 = full_cutoff(now, h2)->0;
            let s1 = full_selection(segs, c1);
            let s2 = full_selection(segs, c2);
            &&& c2 <= c1
            &&& s1.len() <= s2.len()
            &&& s1 == s2.skip(s2.len() - s1.len())
            &&& (full_playlist_spec(cam_id, segs, c1) is Ok ==> full_playlist_spec(cam_id, segs, c2) is Ok)
        }),
{
    let c1 = full_cutoff(now, h1)->0;
    let c2 = full_cutoff(now, h2)->0;
    assert(c2 <= c1) by (nonlinear_arith)
        requires
            h1 <= h2,
            c1 == now - h1 * 3600,
            c2 == now - h2 * 3600,
    ;
    let p1 = not_before(c1);
    let p2 = not_before(c2);
    let k1 = segs.filter(p1);
    let k2 = segs.filter(p2);
    let o2 = time_ordered(k2);
    lemma_time_ordered(k2);
    lemma_time_ordered(k1);
    let f = o2.filter(p1);
    assert(forall|x: (i64, Seq<char>)| #[trigger] p1(x) ==> p2(x));
    lemma_filter_by(o2, p1, (0i64, Seq::empty()));
    assert forall|t: i64| #[trigger] at_time(f, t) == at_time(k1, t) by {
        lemma_filters_commute(o2, p1, stamped::<Seq<char>>(t));
        assert(at_time(o2, t) == at_time(k2, t));
        lemma_filters_commute(k2, p1, stamped::<Seq<char>>(t));
        lemma_filter_narrower(segs, p2, p1);
    }
    assert(is_time_ordering(f, k1));
    lemma_time_ordering_unique(time_ordered(k1), f, k1);
    let m = lemma_sorted_recent_suffix(o2, c1);
    assert(full_selection(segs, c1) == o2.skip(m));
    if k1.len() > 0 {
        let x = k1[0];
        assert(k1.contains(x));
        lemma_filter_by(segs, p1, x);
        lemma_filter_by(segs, p2, x);
        assert(k2.contains(x));
    }
}

/// The times of segments.
pub open spec fn segment_times(segs: Seq<(i64, Seq<char>)>) -> Seq<i64> {
    segs.map_values(|e: (i64, Seq<char>)| e.0)
}

/// Range law: a DVR playlist that starts at the oldest segment time and lasts the duration
/// that the segment range gives lists every segment, each once, in time order.
pub proof fn lemma_range_lists_every_segment(cam_id: i64, segs: Seq<(i64, Seq<char>)>, live: bool)
    requires
        segs.len() > 0,
        span_in_range(segment_times(segs)),
    ensures
        span_of(segment_times(segs)) matches Some((lo, hi, d)) && {
            &&& dvr_in_range(segs, Some(lo), Some(d))
            &&& dvr_selection(segs, Some(lo), Some(d)) == time_ordered(segs)
            &&& dvr_playlist_spec(cam_id, segs, Some(lo), Some(d), live) == Ok::<Seq<char>, Seq<char>>(
                dvr_text(cam_id, time_ordered(segs), live),
            )
        },
{
    let ts = segment_times(segs);
    lemma_span(ts);
    let (lo, hi, d) = span_of(ts)->0;
    let a = choose|a: int| 0 <= a < ts.len() && ts[a] == lo;
    let b = choose|b: int| 0 <= b < ts.len() && ts[b] == hi;
    assert(ts[b] - ts[a] <= i64::MAX);
    assert(lo + d == hi);
    let o = time_ordered(segs);
    lemma_time_ordered(segs);
    lemma_time_ordering_len(o, segs);
    let w = within(lo, lo + window_length(Some(d)));
    assert forall|j: int| 0 <= j < o.len() implies #[trigger] w(o[j]) && lo <= o[j].0 <= hi by {
        assert(o.contains(o[j]));
        lemma_time_ordering_same_entries(o, segs, o[j]);
        let i = choose|i: int| 0 <= i < segs.len() && segs[i] == o[j];
        assert(ts[i] == segs[i].0);
    }
    lemma_filter_keeps_every(o, w);
    assert(dvr_selection(segs, Some(lo), Some(d)) == o);
    assert forall|k: int| 0 < k < o.len() implies #[trigger] o[k].0 - o[k - 1].0 <= i64::MAX by {
        assert(w(o[k]) && w(o[k - 1]));
    }
}

/// Span law: the oldest time is no later than the newest, and the duration is their
/// distance, never negative.
pub proof fn lemma_span(ts: Seq<i64>)
    requires
        ts.len() > 0,
    ensures
        span_of(ts) matches Some((lo, hi, d)) && lo <= hi && ts.contains(lo) && ts.contains(hi)
            && (forall|i: int| 0 <= i < ts.len() ==> lo <= #[trigger] ts[i] <= hi),
{
    let lo = lemma_least(ts, ts.len() as int);
    let hi = lemma_greatest(ts, ts.len() as int);
}

proof fn lemma_least(ts: Seq<i64>, n: int) -> (m: i64)
    requires
        0 < n <= ts.len(),
    ensures
        ts.take(n).contains(m),
        forall|i: int| 0 <= i < n ==> m <= #[trigger] ts[i],
    decreases n,
{
    if n == 1 {
        assert(ts.take(1)[0] == ts[0]);
        ts[0]
    } else {
        let m0 = lemma_least(ts, n - 1);
        let k = choose|k: int| 0 <= k < n - 1 && #[trigger] ts.take(n - 1)[k] == m0;
        assert(ts.take(n)[k] == m0);
        if ts[n - 1] < m0 {
            assert(ts.take(n)[n - 1] == ts[n - 1]);
            ts[n - 1]
        } else {
            m0
        }
    }
}

proof fn lemma_greatest(ts: Seq<i64>, n: int) -> (m: i64)
    requires
        0 < n <= ts.len(),
    ensures
        ts.take(n).contains(m),
        forall|i: int| 0 <= i < n ==> m >= #[trigger] ts[i],
    decreases n,
{
    if n == 1 {
        assert(ts.take(1)[0] == ts[0]);
        ts[0]
    } else {
        let m0 = lemma_greatest(ts, n - 1);
        let k = choose|k: int| 0 <= k < n - 1 && #[trigger] ts.take(n - 1)[k] == m0;
        assert(ts.take(n)[k] == m0);
        if ts[n - 1] > m0 {
            assert(ts.take(n)[n - 1] == ts[n - 1]);
            ts[n - 1]
        } else {
            m0
        }
    }
}

} // verus!
