use flows::days::{enumerate_day_timestamps, get_current_timestamp, get_day_start_timestamp, log_day_tags};
use flows::event::EventType;
use flows::poller::Poller;

fn b(s: &str) -> Vec<u8> {
    s.as_bytes().to_vec()
}

#[test]
fn test_first_observation_reports_front_change() {
    let mut p = Poller::new(1000);
    let events = p.tick(2000, Some(b("/Applications/Alpha.app")));
    assert_eq!(events.len(), 1);
    assert_eq!(events[0].kind, EventType::CameToFront);
    assert_eq!(events[0].timestamp, 2000);
    assert_eq!(events[0].path, b("/Applications/Alpha.app"));
    assert_eq!(p.previous_path, Some(b("/Applications/Alpha.app")));
    assert_eq!(p.last_check_timestamp, 2000);
}

#[test]
fn test_same_path_is_debounced() {
    let mut p = Poller::new(1000);
    p.tick(2000, Some(b("/Applications/Alpha.app")));
    let events = p.tick(3000, Some(b("/Applications/Alpha.app")));
    assert!(events.is_empty());
}

#[test]
fn test_changed_path_reports_once() {
    let mut p = Poller::new(1000);
    p.tick(2000, Some(b("/Applications/Alpha.app")));
    let events = p.tick(3000, Some(b("/Applications/Beta.app")));
    assert_eq!(events.len(), 1);
    assert_eq!(events[0].kind, EventType::CameToFront);
    assert_eq!(events[0].path, b("/Applications/Beta.app"));
}

#[test]
fn test_heartbeat_gap_emits_shutdown_and_discards_path() {
    let mut p = Poller::new(1000);
    p.tick(2000, Some(b("/Applications/Alpha.app")));
    let events = p.tick(20000, Some(b("/Applications/Alpha.app")));
    assert_eq!(events.len(), 2);
    assert_eq!(events[0].kind, EventType::ShutDown);
    assert_eq!(events[0].timestamp, 20000);
    assert_eq!(events[1].kind, EventType::CameToFront);
    assert_eq!(events[1].path, b("/Applications/Alpha.app"));
}

#[test]
fn test_resolver_failure_is_a_quiet_tick() {
    let mut p = Poller::new(1000);
    p.tick(2000, Some(b("/Applications/Alpha.app")));
    let events = p.tick(3000, None);
    assert!(events.is_empty());
    assert_eq!(p.previous_path, Some(b("/Applications/Alpha.app")));
    assert_eq!(p.last_check_timestamp, 3000);
}

#[test]
fn test_gap_boundary_is_strict() {
    let mut p = Poller::new(1000);
    let events = p.tick(11000, None);
    assert!(events.is_empty());
    let mut q = Poller::new(1000);
    let events2 = q.tick(11001, None);
    assert_eq!(events2.len(), 1);
    assert_eq!(events2[0].kind, EventType::ShutDown);
}

#[test]
fn test_current_timestamp_is_sane() {
    let t = get_current_timestamp();
    assert!(t > 0);
}

#[test]
fn test_probe_timestamps_step_one_day() {
    assert_eq!(
        enumerate_day_timestamps(1000, 86400000 + 86399000),
        vec![1000, 86401000]
    );
    assert_eq!(enumerate_day_timestamps(5000, 4000), Vec::<u64>::new());
    assert_eq!(enumerate_day_timestamps(5000, 5000), vec![5000]);
}

#[test]
fn test_day_start_of_epoch_day_two() {
    // The clock of this machine keeps UTC, so local days begin at
    // multiples of 86,400,000 ms.
    assert_eq!(get_day_start_timestamp(86400000 + 3600000), Some(86400000));
    assert_eq!(get_day_start_timestamp(0), Some(0));
}

#[test]
fn test_window_ending_at_midnight_names_both_days() {
    // A query from within the first epoch day to exactly the first
    // instant of the second must read both days' files.
    let (start_day, end_day_start, tags) = log_day_tags(1000, 86400000).unwrap();
    assert_eq!(start_day, 0);
    assert_eq!(end_day_start, 86400000);
    assert_eq!(tags, vec![b("19700101"), b("19700102")]);
}

#[test]
fn test_start_near_midnight_still_names_both_days() {
    // Probing runs from the start of the window's first day, so a start
    // in the very last second of a day cannot step over the next one.
    let (_, _, tags) = log_day_tags(86399500, 86400000).unwrap();
    assert_eq!(tags, vec![b("19700101"), b("19700102")]);
}

#[test]
fn test_single_day_window_names_one_file() {
    let (_, _, tags) = log_day_tags(3600000, 7200000).unwrap();
    assert_eq!(tags, vec![b("19700101")]);
}
