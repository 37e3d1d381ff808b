use traffic_dvr::dvr::{
    dvr_playlist, dvr_playlist_checked, full_playlist, full_playlist_checked,
    full_playlist_cutoff, full_playlist_now, segment_range, segment_range_checked,
};
use traffic_dvr::live::{rewrite_live_playlist, segment_content_type};
use traffic_dvr::order::sort_by_time;

fn segs(v: &[(i64, &str)]) -> Vec<(i64, String)> {
    v.iter().map(|(t, n)| (*t, n.to_string())).collect()
}

#[test]
fn sort_by_time_is_stable() {
    let input = segs(&[(5, "a"), (3, "b"), (5, "c"), (1, "d"), (3, "e")]);
    let out = sort_by_time(&input);
    assert_eq!(out, segs(&[(1, "d"), (3, "b"), (3, "e"), (5, "a"), (5, "c")]));
    let mut expected = input.clone();
    expected.sort_by_key(|(t, _)| *t);
    assert_eq!(out, expected);
    assert!(sort_by_time(&Vec::new()).is_empty());
}

#[test]
fn dvr_latest_window_lists_newest_segments() {
    let input = segs(&[(120, "seg_3.ts"), (100, "seg_1.ts"), (104, "seg_2.ts")]);
    let p = dvr_playlist(7, &input, None, Some(8), false).unwrap();
    assert_eq!(
        p,
        "#EXTM3U\n#EXT-X-VERSION:3\n#EXT-X-TARGETDURATION:5\n#EXT-X-MEDIA-SEQUENCE:26\n\
#EXTINF:4.0,\n/api/segments/7/seg_2.ts\n#EXT-X-DISCONTINUITY\n#EXTINF:4.0,\n/api/segments/7/seg_3.ts\n\
#EXT-X-ENDLIST\n"
    );
}

#[test]
fn dvr_default_duration_is_one_hour() {
    let input: Vec<(i64, String)> = (0..1000).map(|i| (i * 4, format!("s{}.ts", i))).collect();
    let p = dvr_playlist(1, &input, None, None, true).unwrap();
    assert_eq!(p.matches("#EXTINF:4.0,").count(), 900);
    assert!(p.starts_with("#EXTM3U\n#EXT-X-VERSION:3\n#EXT-X-TARGETDURATION:5\n#EXT-X-MEDIA-SEQUENCE:100\n"));
    assert!(!p.contains("#EXT-X-ENDLIST"));
    assert!(!p.contains("DISCONTINUITY"));
}

#[test]
fn dvr_short_duration_keeps_one_segment() {
    let input = segs(&[(8, "a.ts"), (12, "b.ts")]);
    let p = dvr_playlist(2, &input, None, Some(-30), true).unwrap();
    assert_eq!(
        p,
        "#EXTM3U\n#EXT-X-VERSION:3\n#EXT-X-TARGETDURATION:5\n#EXT-X-MEDIA-SEQUENCE:3\n#EXTINF:4.0,\n/api/segments/2/b.ts\n"
    );
}

#[test]
fn dvr_from_start_lists_window() {
    let input = segs(&[(120, "seg_3.ts"), (100, "seg_1.ts"), (104, "seg_2.ts"), (99, "seg_0.ts")]);
    let p = dvr_playlist(-1, &input, Some(100), Some(4), false).unwrap();
    assert_eq!(
        p,
        "#EXTM3U\n#EXT-X-VERSION:3\n#EXT-X-TARGETDURATION:5\n#EXT-X-MEDIA-SEQUENCE:25\n\
#EXTINF:4.0,\n/api/segments/-1/seg_1.ts\n#EXTINF:4.0,\n/api/segments/-1/seg_2.ts\n#EXT-X-ENDLIST\n"
    );
}

#[test]
fn dvr_errors() {
    assert_eq!(
        dvr_playlist(1, &Vec::new(), None, None, false),
        Err("No segments available".to_string())
    );
    let input = segs(&[(10, "a.ts")]);
    assert_eq!(
        dvr_playlist(1, &input, Some(200), None, false),
        Err("No segments in the requested time range".to_string())
    );
}

#[test]
fn dvr_media_sequence_of_negative_time() {
    let input = segs(&[(-5, "x.ts")]);
    let p = dvr_playlist(0, &input, None, None, true).unwrap();
    assert!(p.contains("#EXT-X-MEDIA-SEQUENCE:18446744073709551615\n"));
    assert_eq!(((-5i64) / 4) as u64, 18446744073709551615u64);
}

#[test]
fn dvr_out_of_range_arithmetic_is_reported() {
    let input = segs(&[(10, "a.ts")]);
    assert_eq!(dvr_playlist_checked(1, &input, Some(i64::MAX), Some(1), false), None);
    let far = segs(&[(i64::MIN, "a.ts"), (i64::MAX, "b.ts")]);
    assert_eq!(dvr_playlist_checked(1, &far, None, Some(8), false), None);
    assert!(dvr_playlist_checked(1, &far, None, Some(4), false).is_some());
    assert_eq!(
        dvr_playlist_checked(1, &Vec::new(), Some(i64::MAX), Some(1), false),
        Some(Err("No segments available".to_string()))
    );
}

#[test]
fn full_playlist_keeps_recent_segments() {
    let input = segs(&[(120, "seg_3.ts"), (100, "seg_1.ts"), (104, "seg_2.ts")]);
    let p = full_playlist(5, &input, 104).unwrap();
    assert_eq!(
        p,
        "#EXTM3U\n#EXT-X-VERSION:3\n#EXT-X-TARGETDURATION:5\n#EXT-X-PLAYLIST-TYPE:VOD\n#EXT-X-MEDIA-SEQUENCE:0\n\
#EXTINF:4.0,\n/api/segments/5/seg_2.ts\n#EXT-X-DISCONTINUITY\n#EXTINF:4.0,\n/api/segments/5/seg_3.ts\n#EXT-X-ENDLIST\n"
    );
    assert_eq!(full_playlist(5, &input, 121), Err("No segments available".to_string()));
    let far = segs(&[(i64::MIN, "a.ts"), (i64::MAX, "b.ts")]);
    assert_eq!(full_playlist_checked(5, &far, i64::MIN), None);
}

#[test]
fn full_playlist_cutoff_arithmetic() {
    assert_eq!(full_playlist_cutoff(1000, 1), Some(-2600));
    assert_eq!(full_playlist_cutoff(1_700_000_000, 24), Some(1_700_000_000 - 86400));
    assert_eq!(full_playlist_cutoff(0, i64::MAX), None);
    assert_eq!(full_playlist_cutoff(-10, i64::MAX / 3600), Some(-10 - (i64::MAX / 3600) * 3600));
    assert_eq!(full_playlist_cutoff(-10_000, i64::MAX / 3600), None);
}

#[test]
fn full_playlist_now_reaches_back() {
    let input = segs(&[(0, "old.ts")]);
    let r = full_playlist_now(1, &input, 1);
    assert_eq!(r, Some(Err("No segments available".to_string())));
    let r = full_playlist_now(1, &input, 1_000_000);
    assert!(r.unwrap().unwrap().contains("/api/segments/1/old.ts"));
    assert_eq!(full_playlist_now(1, &input, i64::MAX), None);
}

#[test]
fn segment_range_spans_oldest_to_newest() {
    assert_eq!(segment_range(&vec![5, 1, 9, 3]), Some((1, 9, 8)));
    assert_eq!(segment_range(&vec![42]), Some((42, 42, 0)));
    assert_eq!(segment_range(&Vec::new()), None);
    assert_eq!(segment_range_checked(&vec![i64::MIN, i64::MAX]), None);
    assert_eq!(segment_range_checked(&vec![]), Some(None));
}

fn rewrite_with_std_lines(content: &str, id: i64) -> String {
    content
        .lines()
        .map(|line| {
            if line.ends_with(".ts") && !line.starts_with('#') {
                let filename = line.rsplit('/').next().unwrap_or(line);
                format!("/api/segments/{}/{}", id, filename)
            } else {
                line.to_string()
            }
        })
        .collect::<Vec<_>>()
        .join("\n")
}

#[test]
fn live_playlist_segments_are_routed() {
    let content = "#EXTM3U\n#EXT-X-VERSION:3\n#EXTINF:4.000000,\nseg_000001.ts\n/abs/path/seg_000002.ts\r\n#EXT-X-ENDLIST\n";
    let out = rewrite_live_playlist(content, 3);
    assert_eq!(
        out,
        "#EXTM3U\n#EXT-X-VERSION:3\n#EXTINF:4.000000,\n/api/segments/3/seg_000001.ts\n/api/segments/3/seg_000002.ts\n#EXT-X-ENDLIST"
    );
    for c in [content, "", "\n", "a\r", "x.ts", "#x.ts\nq/r.ts\r", "dir/\n\n\r\n", "a/b/c.ts\n"] {
        assert_eq!(rewrite_live_playlist(c, 12), rewrite_with_std_lines(c, 12), "content {:?}", c);
    }
}

#[test]
fn served_lines_are_stable() {
    let once = rewrite_live_playlist("a/b/seg_1.ts\n#tag\nseg_2.ts", 9);
    assert_eq!(rewrite_live_playlist(&once, 9), once);
}

#[test]
fn content_types() {
    assert_eq!(segment_content_type("thumb.jpg"), "image/jpeg");
    assert_eq!(segment_content_type("seg_000001.ts"), "video/mp2t");
    assert_eq!(segment_content_type("jpg"), "video/mp2t");
}

fn uris(p: &str) -> Vec<String> {
    p.lines().filter(|l| l.starts_with("/api/segments/")).map(|l| l.to_string()).collect()
}

#[test]
fn non_live_playlist_is_live_plus_end_tag() {
    let input = segs(&[(100, "seg_1.ts"), (104, "seg_2.ts"), (120, "seg_3.ts"), (90, "seg_0.ts")]);
    for (from, dur) in [(None, None), (None, Some(8)), (Some(95), Some(10)), (Some(500), Some(1))] {
        let live = dvr_playlist(7, &input, from, dur, true);
        let vod = dvr_playlist(7, &input, from, dur, false);
        match live {
            Ok(p) => {
                assert!(!p.lines().any(|l| l == "#EXT-X-ENDLIST"));
                assert_eq!(vod, Ok(p + "#EXT-X-ENDLIST\n"));
            }
            Err(e) => assert_eq!(vod, Err(e)),
        }
    }
}

#[test]
fn longer_rewind_lists_a_superset_ending_the_same() {
    let input = segs(&[(10_000, "c.ts"), (2_000, "a.ts"), (6_000, "b.ts"), (9_999, "d.ts")]);
    let now = 10_800;
    let short = full_playlist(1, &input, full_playlist_cutoff(now, 1).unwrap()).unwrap();
    let long = full_playlist(1, &input, full_playlist_cutoff(now, 3).unwrap()).unwrap();
    let (s, l) = (uris(&short), uris(&long));
    assert_eq!(s, vec!["/api/segments/1/d.ts", "/api/segments/1/c.ts"]);
    assert_eq!(l.len(), 4);
    assert_eq!(&l[l.len() - s.len()..], &s[..]);
}

#[test]
fn playlist_over_the_segment_range_lists_every_segment() {
    let input = segs(&[(130, "c.ts"), (100, "a.ts"), (130, "b.ts"), (116, "d.ts")]);
    let times: Vec<i64> = input.iter().map(|(t, _)| *t).collect();
    let (lo, _hi, d) = segment_range(&times).unwrap();
    let p = dvr_playlist(2, &input, Some(lo), Some(d), false).unwrap();
    assert_eq!(
        uris(&p),
        vec!["/api/segments/2/a.ts", "/api/segments/2/d.ts", "/api/segments/2/c.ts", "/api/segments/2/b.ts"]
    );
}
