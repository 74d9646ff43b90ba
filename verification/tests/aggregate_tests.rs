use flows::aggregate::{aggregate_app_usages, AppUsage};
use flows::app_name::get_app_name_from_path;

fn b(s: &str) -> Vec<u8> {
    s.as_bytes().to_vec()
}

fn lines(ls: &[&str]) -> Vec<Vec<u8>> {
    ls.iter().map(|l| b(l)).collect()
}

fn interval_sum(u: &AppUsage) -> u64 {
    u.durations.iter().map(|(s, e)| e - s).sum()
}

#[test]
fn test_get_app_name_from_path() {
    assert_eq!(
        get_app_name_from_path(&b("/Applications/MyApp.app")),
        Some(b("MyApp"))
    );
    assert_eq!(get_app_name_from_path(&b("/Applications/")), None);
    assert_eq!(
        get_app_name_from_path(&b("/Users/username/Downloads/MyApp")),
        Some(b("MyApp"))
    );
}

#[test]
fn test_app_name_strips_every_suffix_occurrence() {
    assert_eq!(
        get_app_name_from_path(&b("/Applications/My.appApp.app")),
        Some(b("MyApp"))
    );
    assert_eq!(get_app_name_from_path(&b("stray.exe")), Some(b("stray")));
}

#[test]
fn test_app_name_edge_paths() {
    assert_eq!(get_app_name_from_path(&b("/")), None);
    assert_eq!(get_app_name_from_path(&b("")), None);
    assert_eq!(get_app_name_from_path(&b("/a/..")), None);
    assert_eq!(get_app_name_from_path(&b("//x//y//")), Some(b("y")));
}

#[test]
fn test_app_name_dot_components() {
    // A `.` leading a relative path is a component of its own, so the
    // applications directory is still found behind it; elsewhere `.` is
    // dropped, and a path amounting to `.` names nothing.
    assert_eq!(
        get_app_name_from_path(&b("./Applications/MyApp.app")),
        Some(b("MyApp"))
    );
    assert_eq!(get_app_name_from_path(&b("./x")), Some(b("x")));
    assert_eq!(get_app_name_from_path(&b("a/./b")), Some(b("b")));
    assert_eq!(get_app_name_from_path(&b(".")), None);
}

#[test]
fn test_two_front_changes_open_and_close_intervals() {
    let r = aggregate_app_usages(
        &lines(&["0,1000,/Applications/Alpha.app", "0,2000,/Applications/Beta.app"]),
        0,
        10000,
    );
    assert_eq!(r.len(), 2);
    assert_eq!(r[0].name, b("Alpha"));
    assert_eq!(r[0].durations, vec![(1000, 2000)]);
    assert_eq!(r[0].total_duration_ms, 1000);
    assert_eq!(r[1].name, b("Beta"));
    assert_eq!(r[1].durations, vec![(2000, 2000)]);
    assert_eq!(r[1].total_duration_ms, 0);
}

#[test]
fn test_shutdown_closes_open_interval() {
    let r = aggregate_app_usages(
        &lines(&[
            "0,1000,/Applications/Alpha.app",
            "0,2000,/Applications/Beta.app",
            "1,3000",
        ]),
        0,
        10000,
    );
    assert_eq!(r.len(), 2);
    assert_eq!(r[0].name, b("Alpha"));
    assert_eq!(r[0].durations, vec![(1000, 2000)]);
    assert_eq!(r[1].name, b("Beta"));
    assert_eq!(r[1].durations, vec![(2000, 3000)]);
    assert_eq!(r[1].total_duration_ms, 1000);
}

#[test]
fn test_stop_closes_like_shutdown() {
    let r = aggregate_app_usages(
        &lines(&["0,1000,/Applications/Alpha.app", "2,4000"]),
        0,
        10000,
    );
    assert_eq!(r.len(), 1);
    assert_eq!(r[0].durations, vec![(1000, 4000)]);
    assert_eq!(r[0].total_duration_ms, 3000);
}

#[test]
fn test_events_outside_window_change_nothing() {
    let with_outside = aggregate_app_usages(
        &lines(&[
            "0,1000,/Applications/Early.app",
            "0,2000,/Applications/Inside.app",
            "1,9000",
        ]),
        1500,
        2500,
    );
    let without_outside =
        aggregate_app_usages(&lines(&["0,2000,/Applications/Inside.app"]), 1500, 2500);
    assert_eq!(with_outside, without_outside);
    assert_eq!(with_outside.len(), 1);
    assert_eq!(with_outside[0].name, b("Inside"));
    assert_eq!(with_outside[0].durations, vec![(2000, 2000)]);
}

#[test]
fn test_same_query_twice_is_identical() {
    let ls = lines(&[
        "0,1000,/Applications/Alpha.app",
        "0,2500,/Applications/Beta.app",
        "1,4000",
    ]);
    let r1 = aggregate_app_usages(&ls, 0, 10000);
    let r2 = aggregate_app_usages(&ls, 0, 10000);
    assert_eq!(r1, r2);
}

#[test]
fn test_sort_order_largest_total_first() {
    let r = aggregate_app_usages(
        &lines(&[
            "0,1000,/Applications/Aone.app",
            "0,1500,/Applications/Btwo.app",
            "0,3000,/Applications/Cthree.app",
            "1,3500",
        ]),
        0,
        10000,
    );
    assert_eq!(r.len(), 3);
    assert_eq!(r[0].name, b("Btwo"));
    assert_eq!(r[0].total_duration_ms, 1500);
    assert_eq!(r[1].name, b("Aone"));
    assert_eq!(r[1].total_duration_ms, 500);
    assert_eq!(r[2].name, b("Cthree"));
    assert_eq!(r[2].total_duration_ms, 500);
}

#[test]
fn test_every_total_is_the_sum_of_its_intervals() {
    let r = aggregate_app_usages(
        &lines(&[
            "0,1000,/Applications/Aone.app",
            "0,1500,/Applications/Btwo.app",
            "0,3000,/Applications/Aone.app",
            "1,3500",
            "0,4000,/Applications/Cthree.app",
            "2,4200",
        ]),
        0,
        10000,
    );
    assert!(r.len() == 3);
    for u in &r {
        assert_eq!(u.total_duration_ms, interval_sum(u));
    }
}

#[test]
fn test_malformed_line_does_not_abort_parsing() {
    let with_garbage = aggregate_app_usages(
        &lines(&[
            "0,1000,/Applications/Alpha.app",
            "garbage",
            "0,2000,/Applications/Beta.app",
        ]),
        0,
        10000,
    );
    let without_garbage = aggregate_app_usages(
        &lines(&["0,1000,/Applications/Alpha.app", "0,2000,/Applications/Beta.app"]),
        0,
        10000,
    );
    assert_eq!(with_garbage, without_garbage);
    assert_eq!(with_garbage.len(), 2);
    assert_eq!(with_garbage[1].name, b("Beta"));
}

#[test]
fn test_same_name_keeps_most_recent_path() {
    let r = aggregate_app_usages(
        &lines(&["0,1000,/Applications/Alpha.app", "1,2000", "0,3000,/opt/Alpha"]),
        0,
        10000,
    );
    assert_eq!(r.len(), 1);
    assert_eq!(r[0].name, b("Alpha"));
    assert_eq!(r[0].path, b("/opt/Alpha"));
    assert_eq!(r[0].durations, vec![(1000, 2000), (3000, 3000)]);
    assert_eq!(r[0].total_duration_ms, 1000);
}

#[test]
fn test_unresolvable_path_falls_back_to_unknown() {
    let r = aggregate_app_usages(&lines(&["0,1000,/Applications", "1,2000"]), 0, 10000);
    assert_eq!(r.len(), 1);
    assert_eq!(r[0].name, b("Unknown"));
    assert_eq!(r[0].total_duration_ms, 1000);
}

#[test]
fn test_empty_log_yields_empty_report() {
    let r = aggregate_app_usages(&Vec::new(), 0, 10000);
    assert!(r.is_empty());
    let r2 = aggregate_app_usages(&lines(&["garbage", ""]), 0, 10000);
    assert!(r2.is_empty());
}

#[test]
fn test_backwards_timestamps_count_zero() {
    // The writer keeps timestamps non-decreasing, but nothing validates
    // them on read: an interval closed before it opened counts as zero.
    let r = aggregate_app_usages(
        &lines(&["0,5000,/Applications/Alpha.app", "1,1000"]),
        0,
        10000,
    );
    assert_eq!(r.len(), 1);
    assert_eq!(r[0].durations, vec![(5000, 1000)]);
    assert_eq!(r[0].total_duration_ms, 0);
}

#[test]
fn test_shutdown_with_nothing_tracked_is_harmless() {
    let r = aggregate_app_usages(
        &lines(&["1,500", "0,1000,/Applications/Alpha.app"]),
        0,
        10000,
    );
    assert_eq!(r.len(), 1);
    assert_eq!(r[0].durations, vec![(1000, 1000)]);
}
