use schedviz_rust::scheduler_core::{
    Process, run_selected, schedule_rr, schedule_srt, validate_processes, TICKS_PER_UNIT,
};

fn ticks(units: f64) -> i64 {
    (units * TICKS_PER_UNIT as f64).round() as i64
}

fn units(ticks: i64) -> f64 {
    ticks as f64 / TICKS_PER_UNIT as f64
}

fn make_example_1() -> Vec<Process> {
    vec![
        Process::new("A", ticks(0.0), ticks(5.0), 0),
        Process::new("B", ticks(2.0), ticks(3.0), 1),
        Process::new("C", ticks(5.0), ticks(7.0), 2),
    ]
}

fn average_normalized_turnaround(result: &schedviz_rust::scheduler_core::ScheduleResult) -> f64 {
    if result.metrics.is_empty() {
        return 0.0;
    }
    let total: f64 = result
        .metrics
        .iter()
        .map(|(_, m)| m.turnaround_time as f64 / m.service_time as f64)
        .sum();
    total / result.metrics.len() as f64
}

#[test]
fn test_example_1_finish_times_all_algorithms() {
    let processes = make_example_1();
    let algos = vec![
        "FCFS".to_string(),
        "RR".to_string(),
        "SPN".to_string(),
        "SRT".to_string(),
        "HRRN".to_string(),
    ];
    let results = run_selected(&processes, &algos, 1).unwrap();

    let get_finish_times = |name: &str| {
        let result = results.get(name).unwrap();
        result
            .metrics
            .iter()
            .map(|(k, v)| (k.clone(), units(v.finish_time)))
            .collect::<std::collections::HashMap<String, f64>>()
    };

    let fcfs = get_finish_times("FCFS");
    assert_eq!(fcfs["A"], 5.0);
    assert_eq!(fcfs["B"], 8.0);
    assert_eq!(fcfs["C"], 15.0);

    let rr = get_finish_times("RR q=1");
    assert_eq!(rr["A"], 9.0);
    assert_eq!(rr["B"], 8.0);
    assert_eq!(rr["C"], 15.0);

    let spn = get_finish_times("SPN");
    assert_eq!(spn["A"], 5.0);
    assert_eq!(spn["B"], 8.0);
    assert_eq!(spn["C"], 15.0);

    let srt = get_finish_times("SRT");
    assert_eq!(srt["A"], 5.0);
    assert_eq!(srt["B"], 8.0);
    assert_eq!(srt["C"], 15.0);

    let hrrn = get_finish_times("HRRN");
    assert_eq!(hrrn["A"], 5.0);
    assert_eq!(hrrn["B"], 8.0);
    assert_eq!(hrrn["C"], 15.0);
}

#[test]
fn test_example_1_average_normalized_turnaround_times() {
    let processes = make_example_1();
    let algos = vec![
        "FCFS".to_string(),
        "RR".to_string(),
        "SPN".to_string(),
        "SRT".to_string(),
        "HRRN".to_string(),
    ];
    let results = run_selected(&processes, &algos, 1).unwrap();

    let check_approx = |val: f64, expected: f64| {
        assert!(
            (val - expected).abs() < 0.01,
            "Expected approx {}, got {}",
            expected,
            val
        );
    };

    check_approx(average_normalized_turnaround(results.get("FCFS").unwrap()), 1.48);
    check_approx(average_normalized_turnaround(results.get("RR q=1").unwrap()), 1.74);
    check_approx(average_normalized_turnaround(results.get("SPN").unwrap()), 1.48);
    check_approx(average_normalized_turnaround(results.get("SRT").unwrap()), 1.48);
    check_approx(average_normalized_turnaround(results.get("HRRN").unwrap()), 1.48);
}

#[test]
fn test_round_robin_same_time_arrival_before_expired_process() {
    let processes = vec![
        Process::new("A", ticks(0.0), ticks(3.0), 0),
        Process::new("B", ticks(1.0), ticks(1.0), 1),
    ];
    let result = schedule_rr(&processes, 1).unwrap();

    let slice_tuples: Vec<(String, f64, f64)> = result
        .slices
        .iter()
        .map(|s| (s.process.clone(), units(s.start), units(s.end)))
        .collect();

    assert_eq!(
        slice_tuples,
        vec![
            ("A".to_string(), 0.0, 1.0),
            ("B".to_string(), 1.0, 2.0),
            ("A".to_string(), 2.0, 4.0),
        ]
    );
}

#[test]
fn test_srt_equal_remaining_time_keeps_current_process() {
    let processes = vec![
        Process::new("A", ticks(0.0), ticks(4.0), 0),
        Process::new("B", ticks(2.0), ticks(2.0), 1),
    ];
    let result = schedule_srt(&processes).unwrap();

    let slice_tuples: Vec<(String, f64, f64)> = result
        .slices
        .iter()
        .map(|s| (s.process.clone(), units(s.start), units(s.end)))
        .collect();

    assert_eq!(
        slice_tuples,
        vec![("A".to_string(), 0.0, 4.0), ("B".to_string(), 4.0, 6.0),]
    );
}

#[test]
fn test_idle_gap_is_skipped_in_timeline_time() {
    let processes = vec![Process::new("A", ticks(3.0), ticks(2.0), 0)];
    let results = run_selected(&processes, &["FCFS".to_string()], 1).unwrap();
    let result = results.get("FCFS").unwrap();

    assert_eq!(units(result.slices[0].start), 3.0);
    assert_eq!(units(result.slices[0].end), 5.0);
    assert_eq!(units(result.total_completion_time), 5.0);
}

#[test]
fn test_validation_errors() {
    let p1 = vec![Process::new("A", ticks(-1.0), ticks(1.0), 0)];
    assert!(validate_processes(&p1).is_err());

    let p2 = vec![Process::new("A", ticks(0.0), ticks(0.0), 0)];
    assert!(validate_processes(&p2).is_err());

    let p3 = vec![
        Process::new("A", ticks(0.0), ticks(1.0), 0),
        Process::new("A", ticks(1.0), ticks(1.0), 1),
    ];
    assert!(validate_processes(&p3).is_err());
}

#[test]
fn test_round_robin_quantum_validation() {
    let processes = make_example_1();
    assert!(schedule_rr(&processes, 7).is_err());
}
