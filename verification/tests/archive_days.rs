use traffic_dvr::archive::{archive_dates, archive_dates_checked, archive_days_given};

fn names(v: &[&str]) -> Vec<String> {
    v.iter().map(|s| s.to_string()).collect()
}

/// Segments whose times lie outside chrono's range, so that only their names give days.
fn undated(v: &[&str]) -> Vec<(i64, String)> {
    v.iter().map(|s| (i64::MIN, s.to_string())).collect()
}

#[test]
fn archive_days_are_sorted_and_unique() {
    let n = undated(&[
        "seg_20240115_120000.ts",
        "seg_20231231_000000.ts",
        "seg_20240115_130000.ts",
        "seg_000123.ts",
        "other.ts",
        "seg_20241301_000000.ts",
        "seg_2024021",
        "seg_20240229_000000.ts",
        "seg_20230229_000000.ts",
        "seg_20220101_000000.jpg",
    ]);
    assert_eq!(archive_dates(&n), names(&["2023-12-31", "2024-01-15", "2024-02-29"]));
    assert!(archive_dates(&Vec::new()).is_empty());
}

#[test]
fn archive_days_from_unusual_names() {
    assert_eq!(archive_dates(&undated(&["seg_ 2024011x.ts"])), names(&[" 202-40-11"]));
    assert_eq!(archive_dates_checked(&undated(&["seg_2024010\u{e9}_x.ts"])), None);
    assert_eq!(archive_dates_checked(&undated(&["seg_20240101\u{e9}.ts"])), Some(names(&["2024-01-01"])));
    assert_eq!(archive_dates_checked(&undated(&["seg_11\u{3000}1 1.ts"])), None);
    assert_eq!(archive_dates_checked(&undated(&["seg_2024010\u{e9}_x.jpg"])), Some(Vec::new()));
}

#[test]
fn recorder_footage_is_dated_by_its_times() {
    let segs: Vec<(i64, String)> = vec![
        (1_777_420_800, "seg_000003.ts".into()),
        (1_777_395_600, "seg_000001.ts".into()),
        (1_777_420_799, "seg_000002.ts".into()),
        (0, "seg_000000.ts".into()),
        (-1, "thumb.jpg".into()),
        (86_399, "live.m3u8".into()),
    ];
    assert_eq!(archive_dates(&segs), names(&["1970-01-01", "2026-04-28", "2026-04-29"]));
    assert_eq!(archive_dates(&vec![(-1, "a.ts".to_string())]), names(&["1969-12-31"]));
    assert_eq!(archive_dates(&vec![(253_402_300_799, "a.ts".to_string())]), names(&["9999-12-31"]));
}

#[test]
fn times_and_names_both_give_days() {
    let segs: Vec<(i64, String)> = vec![
        (1_777_395_600, "seg_20260427_235959.ts".into()),
        (1_777_395_600, "seg_000001.ts".into()),
    ];
    assert_eq!(archive_dates(&segs), names(&["2026-04-27", "2026-04-28"]));
}

#[test]
fn archive_days_from_given_days_and_verdicts() {
    let segs: Vec<(i64, String)> = vec![
        (5, "seg_20240101_x.ts".into()),
        (6, "seg_000002.ts".into()),
        (7, "seg_20250101_x.jpg".into()),
        (8, "seg_20230101_x.ts".into()),
    ];
    let days = vec![Some("2001-02-03".to_string()), None, Some("1999-01-01".to_string()), Some("2001-02-03".to_string())];
    assert_eq!(
        archive_days_given(&segs, &days, &vec![true, false, true, false]),
        Some(names(&["2001-02-03", "2024-01-01"]))
    );
    assert_eq!(
        archive_days_given(&segs, &days, &vec![false, true, false, false]),
        Some(names(&["0000-02-.t", "2001-02-03"]))
    );
    assert_eq!(
        archive_days_given(&segs, &days, &vec![false, false, false, true]),
        Some(names(&["2001-02-03", "2023-01-01"]))
    );
    let cut: Vec<(i64, String)> = vec![(1, "seg_2024010\u{e9}_x.ts".into())];
    assert_eq!(archive_days_given(&cut, &vec![None], &vec![false]), None);
    let late: Vec<(i64, String)> = vec![(1, "seg_202\u{e9}0101.ts".into())];
    assert_eq!(archive_days_given(&late, &vec![None], &vec![false]), Some(Vec::new()));
    assert_eq!(archive_days_given(&late, &vec![None], &vec![true]), None);
}
