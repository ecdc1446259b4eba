use dupfinder::progress::{average_ms_per_entry, progress_sample};

#[test]
fn sample_midway() {
    let p = progress_sample(10, 5, 1000).expect("a report is owed");
    assert_eq!(p.done, 5);
    assert_eq!(p.done + 5, 10);
    assert_eq!(p.percent, 50);
    // estimate: 1000ms elapsed * 5 outstanding / 5 done = 1000ms
    assert_eq!(p.eta_seconds, 1);
    assert_eq!(p.eta_millis, 0);
}

#[test]
fn sample_skipped_while_nothing_done() {
    assert!(progress_sample(10, 10, 700).is_none());
}

#[test]
fn sample_skipped_when_nothing_spawned() {
    assert!(progress_sample(0, 0, 700).is_none());
}

#[test]
fn sample_when_all_done() {
    let p = progress_sample(8, 0, 4000).expect("a report is owed");
    assert_eq!(p.done, 8);
    assert_eq!(p.percent, 100);
    assert_eq!(p.eta_seconds, 0);
    assert_eq!(p.eta_millis, 0);
}

#[test]
fn sample_sub_second_estimate() {
    // 900ms elapsed * 1 outstanding / 2 done = 450ms
    let p = progress_sample(3, 1, 900).expect("a report is owed");
    assert_eq!(p.done, 2);
    assert_eq!(p.percent, 66);
    assert_eq!(p.eta_seconds, 0);
    assert_eq!(p.eta_millis, 450);
}

#[test]
fn average_per_entry() {
    assert_eq!(average_ms_per_entry(1000, 4), Some(250));
    assert_eq!(average_ms_per_entry(5, 0), None);
}
