use powdr::profiling::Profiler;

#[test]
fn nested_machines_share_the_time() {
    let mut p = Profiler::new();
    p.record_start("main", 0);
    p.record_start("sub", 10);
    p.record_end("sub", 30);
    p.record_end("main", 100);
    assert!(p.log_is_well_formed());
    let summary = p.take_profile_summary();
    assert_eq!(summary, vec![("main".to_string(), 80), ("sub".to_string(), 20)]);
    // The log is empty afterwards, so there is nothing left to summarize.
    assert!(!p.log_is_well_formed());
}

#[test]
fn time_going_back_is_ignored_and_ties_keep_id_order() {
    let mut p = Profiler::new();
    p.record_start("main", 100);
    p.record_start("sub", 50);
    p.record_end("sub", 70);
    p.record_end("main", 90);
    let summary = p.take_profile_summary();
    assert_eq!(summary, vec![("main".to_string(), 20), ("sub".to_string(), 20)]);
}

#[test]
fn machine_called_twice_accumulates() {
    let mut p = Profiler::new();
    p.record_start("main", 0);
    p.record_start("mem", 5);
    p.record_end("mem", 7);
    p.record_start("mem", 20);
    p.record_end("mem", 60);
    p.record_end("main", 61);
    let summary = p.take_profile_summary();
    assert_eq!(summary, vec![("mem".to_string(), 42), ("main".to_string(), 19)]);
}

#[test]
fn malformed_logs_are_detected() {
    let mut p = Profiler::new();
    p.record_end("main", 0);
    assert!(!p.log_is_well_formed());

    let mut q = Profiler::new();
    q.record_start("main", 0);
    q.record_start("main", 1);
    assert!(!q.log_is_well_formed());

    let mut r = Profiler::new();
    r.record_start("main", 0);
    r.record_start("sub", 1);
    r.record_end("main", 2);
    assert!(!r.log_is_well_formed());

    let mut open = Profiler::new();
    open.record_start("main", 0);
    assert!(!open.log_is_well_formed());
}

#[test]
fn summary_adds_up_to_the_covered_time() {
    let mut p = Profiler::new();
    p.record_start("main", 3);
    p.record_start("a", 10);
    p.record_start("b", 12);
    p.record_end("b", 40);
    p.record_end("a", 41);
    p.record_start("b", 50);
    p.record_end("b", 51);
    p.record_end("main", 77);
    let summary = p.take_profile_summary();
    let total: u128 = summary.iter().map(|(_, t)| *t).sum();
    assert_eq!(total, 77 - 3);
}
