use schedviz_rust::scheduler_core::{
    algo_priority, process_color_rgb, run_selected, schedule_fcfs, schedule_hrrn, schedule_rr,
    schedule_spn, schedule_srt, validate_processes, Process, ScheduleResult, TICKS_PER_UNIT,
};

fn ticks(units: f64) -> i64 {
    (units * TICKS_PER_UNIT as f64).round() as i64
}

fn stallings() -> Vec<Process> {
    vec![
        Process::new("A", ticks(0.0), ticks(3.0), 0),
        Process::new("B", ticks(2.0), ticks(6.0), 1),
        Process::new("C", ticks(4.0), ticks(4.0), 2),
        Process::new("D", ticks(6.0), ticks(5.0), 3),
        Process::new("E", ticks(8.0), ticks(2.0), 4),
    ]
}

fn finish_times(result: &ScheduleResult) -> Vec<(String, i64)> {
    result
        .metrics
        .iter()
        .map(|(name, m)| (name.clone(), m.finish_time / TICKS_PER_UNIT))
        .collect()
}

fn expect(pairs: &[(&str, i64)]) -> Vec<(String, i64)> {
    pairs.iter().map(|(n, f)| (n.to_string(), *f)).collect()
}

fn slices(result: &ScheduleResult) -> Vec<(String, i64, i64)> {
    result
        .slices
        .iter()
        .map(|s| (s.process.clone(), s.start, s.end))
        .collect()
}

#[test]
fn stallings_fcfs_finish_times() {
    let r = schedule_fcfs(&stallings()).unwrap();
    assert_eq!(r.algorithm, "FCFS");
    assert_eq!(
        finish_times(&r),
        expect(&[("A", 3), ("B", 9), ("C", 13), ("D", 18), ("E", 20)])
    );
    assert_eq!(r.total_completion_time, ticks(20.0));
}

#[test]
fn stallings_rr_quantum_1_finish_times() {
    let r = schedule_rr(&stallings(), 1).unwrap();
    assert_eq!(r.algorithm, "RR q=1");
    assert_eq!(
        finish_times(&r),
        expect(&[("A", 4), ("B", 18), ("C", 17), ("D", 20), ("E", 15)])
    );
}

#[test]
fn stallings_rr_quantum_4_finish_times() {
    let r = schedule_rr(&stallings(), 4).unwrap();
    assert_eq!(r.algorithm, "RR q=4");
    assert_eq!(
        finish_times(&r),
        expect(&[("A", 3), ("B", 17), ("C", 11), ("D", 20), ("E", 19)])
    );
}

#[test]
fn stallings_spn_finish_times() {
    let r = schedule_spn(&stallings()).unwrap();
    assert_eq!(r.algorithm, "SPN");
    assert_eq!(
        finish_times(&r),
        expect(&[("A", 3), ("B", 9), ("C", 15), ("D", 20), ("E", 11)])
    );
}

#[test]
fn stallings_srt_finish_times() {
    let r = schedule_srt(&stallings()).unwrap();
    assert_eq!(r.algorithm, "SRT");
    assert_eq!(
        finish_times(&r),
        expect(&[("A", 3), ("B", 15), ("C", 8), ("D", 20), ("E", 10)])
    );
}

#[test]
fn stallings_hrrn_finish_times() {
    let r = schedule_hrrn(&stallings()).unwrap();
    assert_eq!(r.algorithm, "HRRN");
    assert_eq!(
        finish_times(&r),
        expect(&[("A", 3), ("B", 9), ("C", 13), ("D", 20), ("E", 15)])
    );
}

#[test]
fn fcfs_timeline_runs_each_process_once_in_arrival_order() {
    let r = schedule_fcfs(&stallings()).unwrap();
    assert_eq!(
        slices(&r),
        vec![
            ("A".to_string(), 0, 3000),
            ("B".to_string(), 3000, 9000),
            ("C".to_string(), 9000, 13000),
            ("D".to_string(), 13000, 18000),
            ("E".to_string(), 18000, 20000),
        ]
    );
}

#[test]
fn metrics_hold_turnaround_and_service() {
    let r = schedule_hrrn(&stallings()).unwrap();
    let (name, m) = &r.metrics[3];
    assert_eq!(name, "D");
    assert_eq!(m.finish_time, 20000);
    assert_eq!(m.turnaround_time, 14000);
    assert_eq!(m.service_time, 5000);
}

#[test]
fn metrics_are_ordered_by_name_not_by_table() {
    let ps = vec![
        Process::new("zeta", 0, 1000, 0),
        Process::new("alpha", 0, 1000, 1),
        Process::new("Mid", 0, 1000, 2),
    ];
    let r = schedule_fcfs(&ps).unwrap();
    let names: Vec<String> = r.metrics.iter().map(|(n, _)| n.clone()).collect();
    assert_eq!(names, vec!["Mid", "alpha", "zeta"]);
}

#[test]
fn equal_arrivals_follow_table_order() {
    let ps = vec![
        Process::new("B", 0, 2000, 0),
        Process::new("A", 0, 1000, 1),
    ];
    let r = schedule_fcfs(&ps).unwrap();
    assert_eq!(
        slices(&r),
        vec![("B".to_string(), 0, 2000), ("A".to_string(), 2000, 3000)]
    );
}

#[test]
fn fractional_times_are_kept_exactly() {
    let ps = vec![
        Process::new("A", ticks(0.5), ticks(1.25), 0),
        Process::new("B", ticks(0.75), ticks(0.5), 1),
    ];
    let r = schedule_fcfs(&ps).unwrap();
    assert_eq!(
        slices(&r),
        vec![("A".to_string(), 500, 1750), ("B".to_string(), 1750, 2250)]
    );
    assert_eq!(r.total_completion_time, 2250);
}

#[test]
fn srt_preempts_for_shorter_arrival() {
    let ps = vec![
        Process::new("A", 0, 5000, 0),
        Process::new("B", 1000, 1000, 1),
    ];
    let r = schedule_srt(&ps).unwrap();
    assert_eq!(
        slices(&r),
        vec![
            ("A".to_string(), 0, 1000),
            ("B".to_string(), 1000, 2000),
            ("A".to_string(), 2000, 6000),
        ]
    );
}

#[test]
fn hrrn_prefers_higher_response_ratio() {
    // At time 4: B waited 3 for 4 units (ratio 1.75), C waited 0 for 1 unit
    // (ratio 1): B goes first although C is shorter.
    let ps = vec![
        Process::new("A", 0, 4000, 0),
        Process::new("B", 1000, 4000, 1),
        Process::new("C", 4000, 1000, 2),
    ];
    let r = schedule_hrrn(&ps).unwrap();
    assert_eq!(
        slices(&r),
        vec![
            ("A".to_string(), 0, 4000),
            ("B".to_string(), 4000, 8000),
            ("C".to_string(), 8000, 9000),
        ]
    );
    let s = schedule_spn(&ps).unwrap();
    assert_eq!(
        slices(&s),
        vec![
            ("A".to_string(), 0, 4000),
            ("C".to_string(), 4000, 5000),
            ("B".to_string(), 5000, 9000),
        ]
    );
}

#[test]
fn rr_merges_consecutive_slices_of_one_process() {
    let ps = vec![Process::new("A", 0, 3000, 0)];
    let r = schedule_rr(&ps, 1).unwrap();
    assert_eq!(slices(&r), vec![("A".to_string(), 0, 3000)]);
}

#[test]
fn validation_messages() {
    let empty: Vec<Process> = Vec::new();
    assert_eq!(
        validate_processes(&empty).unwrap_err(),
        "At least one process is required."
    );
    assert_eq!(
        validate_processes(&[Process::new("   ", 0, 1000, 0)]).unwrap_err(),
        "Process names must not be empty."
    );
    assert_eq!(
        validate_processes(&[
            Process::new("A", 0, 1000, 0),
            Process::new(" A ", 0, 1000, 1),
        ])
        .unwrap_err(),
        "Process names must be unique: A"
    );
    assert_eq!(
        validate_processes(&[Process::new(" P1", -1, 1000, 0)]).unwrap_err(),
        "Arrival time must be >= 0 for process P1."
    );
    assert_eq!(
        validate_processes(&[Process::new("P2 ", 0, 0, 0)]).unwrap_err(),
        "Service time must be > 0 for process P2."
    );
}

#[test]
fn validation_trims_names_and_keeps_the_rest() {
    let out = validate_processes(&[
        Process::new("  A\t", 1500, 2000, 7),
        Process::new("B", 0, 500, 3),
    ])
    .unwrap();
    assert_eq!(out.len(), 2);
    assert_eq!(out[0].name, "A");
    assert_eq!(out[0].arrival, 1500);
    assert_eq!(out[0].service, 2000);
    assert_eq!(out[0].order, 7);
    assert_eq!(out[1].name, "B");
}

#[test]
fn the_first_problem_is_reported() {
    let err = validate_processes(&[
        Process::new("A", -5, 0, 0),
        Process::new("", 0, 1000, 1),
    ])
    .unwrap_err();
    assert_eq!(err, "Arrival time must be >= 0 for process A.");
}

#[test]
fn rr_quantum_message_comes_first() {
    let err = schedule_rr(&[], 0).unwrap_err();
    assert_eq!(err, "Round Robin quantum must be between 1 and 6.");
    let err = schedule_rr(&[], 3).unwrap_err();
    assert_eq!(err, "At least one process is required.");
}

#[test]
fn run_selected_accepts_any_case_and_files_rr_by_quantum() {
    let results = run_selected(
        &stallings(),
        &["fcfs".to_string(), "Rr".to_string(), "hrrn".to_string()],
        3,
    )
    .unwrap();
    assert_eq!(results.len(), 3);
    assert!(results.get("FCFS").is_some());
    assert!(results.get("RR q=3").is_some());
    assert!(results.get("HRRN").is_some());
    assert!(results.get("RR").is_none());
    assert!(results.get("SPN").is_none());
}

#[test]
fn run_selected_rejects_unknown_algorithm() {
    let err = run_selected(&stallings(), &["FCFS".to_string(), "lottery".to_string()], 1)
        .unwrap_err();
    assert_eq!(err, "Unknown scheduling algorithm: lottery");
}

#[test]
fn run_selected_reports_invalid_processes_first() {
    let ps = vec![Process::new("A", 0, -1, 0)];
    let err = run_selected(&ps, &["lottery".to_string()], 1).unwrap_err();
    assert_eq!(err, "Service time must be > 0 for process A.");
}

#[test]
fn run_selected_rejects_bad_quantum_for_rr() {
    let err = run_selected(&stallings(), &["RR".to_string()], 9).unwrap_err();
    assert_eq!(err, "Round Robin quantum must be between 1 and 6.");
    assert!(run_selected(&stallings(), &["FCFS".to_string()], 9).is_ok());
}

#[test]
fn algo_priority_orders_labels() {
    assert_eq!(algo_priority("FCFS"), 0);
    assert_eq!(algo_priority("RR q=2"), 1);
    assert_eq!(algo_priority("SPN"), 2);
    assert_eq!(algo_priority("SRT (2c)"), 3);
    assert_eq!(algo_priority("HRRN"), 4);
    assert_eq!(algo_priority("lottery"), 5);
}

#[test]
fn process_colors() {
    assert_eq!(process_color_rgb("A"), (76, 120, 168));
    assert_eq!(process_color_rgb("E"), (114, 183, 178));
    assert_eq!(process_color_rgb("I"), (186, 176, 172));
    assert_eq!(process_color_rgb("J"), (107, 114, 128));
    assert_eq!(process_color_rgb("a"), (107, 114, 128));
}
