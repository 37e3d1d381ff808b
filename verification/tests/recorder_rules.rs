use traffic_dvr::recorder::{
    expired_segments, ingest_args, is_segment_file_name, ingest_dir, ingest_playlist, plan_recording,
    plan_recording_checked, recorder_args, recorder_stopped, recording_step, retention_cutoff,
    retention_cutoff_now, segment_dir, segment_file, RecordingStep, RecordingTarget,
};

fn target(source_type: &str, url: Option<&str>, key: Option<&str>, hours: i64) -> RecordingTarget {
    RecordingTarget {
        id: 4,
        name: "cam".into(),
        source_type: source_type.into(),
        stream_url: url.map(|s| s.to_string()),
        stream_key: key.map(|s| s.to_string()),
        rewind_hours: hours,
    }
}

#[test]
fn paths() {
    assert_eq!(segment_dir(12), "DATA/segments/12");
    assert_eq!(segment_file(12, "live.m3u8"), "DATA/segments/12/live.m3u8");
    assert_eq!(ingest_dir("abc"), "DATA/ingest/abc");
    assert_eq!(ingest_playlist("abc"), "DATA/ingest/abc/stream.m3u8");
}

#[test]
fn recorder_arguments() {
    let args = recorder_args("http://cam/live.m3u8", "DATA/segments/4");
    let expected: Vec<String> = [
        "-i", "http://cam/live.m3u8", "-map", "0", "-c", "copy", "-f", "hls", "-hls_time", "4",
        "-hls_list_size", "10", "-hls_flags", "temp_file", "-hls_segment_filename",
        "DATA/segments/4/seg_%06d.ts", "DATA/segments/4/live.m3u8", "-map", "0:v", "-vf",
        "fps=1/10,scale=320:-1", "-update", "1", "DATA/segments/4/thumb.jpg",
    ]
    .iter()
    .map(|s| s.to_string())
    .collect();
    assert_eq!(args, expected);
}

#[test]
fn ingest_arguments() {
    let args = ingest_args("k1", 1935);
    let expected: Vec<String> = [
        "-listen", "1", "-i", "rtmp://0.0.0.0:1935/live/k1", "-c", "copy", "-f", "hls",
        "-hls_time", "4", "-hls_list_size", "900", "-hls_flags", "delete_segments+append_list",
        "-hls_segment_filename", "DATA/ingest/k1/seg_%03d.ts", "DATA/ingest/k1/stream.m3u8",
    ]
    .iter()
    .map(|s| s.to_string())
    .collect();
    assert_eq!(args, expected);
}

#[test]
fn recording_decisions() {
    assert!(matches!(plan_recording(&target("hls", Some("u"), None, 24), true, false), RecordingStep::AlreadyRecording));
    match plan_recording(&target("hls", Some("http://u"), None, 24), false, false) {
        RecordingStep::Start { input_url, out_dir, max_segments } => {
            assert_eq!(input_url, "http://u");
            assert_eq!(out_dir, "DATA/segments/4");
            assert_eq!(max_segments, 24 * 3600 / 4);
        }
        _ => panic!("expected a start"),
    }
    match plan_recording(&target("stream_key", None, Some("kk"), -2), false, true) {
        RecordingStep::Start { input_url, max_segments, .. } => {
            assert_eq!(input_url, "DATA/ingest/kk/stream.m3u8");
            assert_eq!(max_segments, -2 * 3600 / 4);
        }
        _ => panic!("expected a start"),
    }
    assert!(matches!(plan_recording(&target("hls", None, None, 1), false, true), RecordingStep::NoStreamUrl));
    assert!(matches!(plan_recording(&target("stream_key", None, Some("kk"), 1), false, false), RecordingStep::NoIngestYet));
    assert!(matches!(plan_recording(&target("stream_key", None, None, 1), false, true), RecordingStep::NoStreamKey));
    assert!(matches!(plan_recording(&target("rtsp", Some("u"), None, 1), false, true), RecordingStep::UnknownSource));
    assert!(plan_recording_checked(&target("hls", Some("u"), None, i64::MAX), false, false).is_none());
    assert!(plan_recording_checked(&target("hls", None, None, i64::MAX), false, false).is_some());
}

#[test]
fn retention_window() {
    assert_eq!(retention_cutoff(100_000, 24), Some(100_000 - 86_400));
    assert_eq!(retention_cutoff(0, -1), Some(3600));
    assert_eq!(retention_cutoff(0, 2_562_047_788_016), None);
    assert_eq!(retention_cutoff(0, 2_562_047_788_015), None);
    assert_eq!(retention_cutoff(8_210_266_876_799, -1), None);
    assert_eq!(retention_cutoff(8_000_000_000_000, 2_300_000_000), Some(8_000_000_000_000 - 2_300_000_000 * 3600));
    let now = std::time::SystemTime::now().duration_since(std::time::UNIX_EPOCH).unwrap().as_secs() as i64;
    let c = retention_cutoff_now(1).unwrap();
    assert!(c >= now - 3600 - 5 && c <= now - 3600 + 5);
}

#[test]
fn expired_segments_are_older_than_cutoff() {
    let segs: Vec<(i64, String)> = vec![(10, "a.ts".into()), (20, "b.ts".into()), (5, "c.ts".into()), (15, "d.ts".into())];
    assert_eq!(expired_segments(&segs, 15), vec!["a.ts".to_string(), "c.ts".to_string()]);
    assert!(expired_segments(&segs, 5).is_empty());
}

#[test]
fn cleanup_removes_what_the_full_playlist_leaves_out() {
    let segs: Vec<(i64, String)> =
        vec![(100_000, "a.ts".into()), (20_000, "b.ts".into()), (13_600, "c.ts".into()), (13_599, "d.ts".into())];
    let cutoff = retention_cutoff(100_000, 24).unwrap();
    assert_eq!(traffic_dvr::dvr::full_playlist_cutoff(100_000, 24), Some(cutoff));
    let gone = expired_segments(&segs, cutoff);
    assert_eq!(gone, vec!["d.ts".to_string()]);
    let listed = traffic_dvr::dvr::full_playlist(2, &segs, cutoff).unwrap();
    for (_, name) in &segs {
        let in_playlist = listed.contains(&format!("/api/segments/2/{}\n", name));
        assert_ne!(in_playlist, gone.contains(name));
    }
}

#[test]
fn one_recorder_per_camera() {
    let mut active: std::collections::HashSet<i64> = std::collections::HashSet::new();
    let cam = target("hls", Some("http://u"), None, 1);
    assert!(matches!(recording_step(&mut active, &cam, false), Some(RecordingStep::Start { .. })));
    assert!(active.contains(&4));
    assert!(matches!(recording_step(&mut active, &cam, false), Some(RecordingStep::AlreadyRecording)));
    assert_eq!(active.len(), 1);
    let skipped = target("hls", None, None, 1);
    let mut idle: std::collections::HashSet<i64> = std::collections::HashSet::new();
    assert!(matches!(recording_step(&mut idle, &skipped, false), Some(RecordingStep::NoStreamUrl)));
    assert!(idle.is_empty());
    recorder_stopped(&mut active, 4);
    assert!(active.is_empty());
    assert!(matches!(recording_step(&mut active, &cam, false), Some(RecordingStep::Start { .. })));
    let huge = target("hls", Some("u"), None, i64::MAX);
    let mut none: std::collections::HashSet<i64> = std::collections::HashSet::new();
    assert!(recording_step(&mut none, &huge, false).is_none());
    assert!(none.is_empty());
}

#[test]
fn segment_files_have_the_ts_extension() {
    assert!(is_segment_file_name("seg_000001.ts"));
    assert!(is_segment_file_name("a.b.ts"));
    assert!(is_segment_file_name("..ts"));
    assert!(!is_segment_file_name(".ts"));
    assert!(!is_segment_file_name("live.m3u8"));
    assert!(!is_segment_file_name("thumb.jpg"));
    assert!(!is_segment_file_name("seg.TS"));
    assert!(!is_segment_file_name("ts"));
    for name in ["seg_000001.ts", "a.b.ts", "..ts", ".ts", "live.m3u8", "x.tsx", "a.ts.tmp"] {
        let by_path = std::path::Path::new(name).extension().map_or(false, |e| e == "ts");
        assert_eq!(is_segment_file_name(name), by_path, "{}", name);
    }
}
