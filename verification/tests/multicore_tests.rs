use schedviz_rust::scheduler_core::{
    cores_of_process, schedule_multicore, Cores, Migration, MulticoreAlgorithm, MulticoreConfig,
    MulticoreScheduleResult, Process, Quantum, TICKS_PER_UNIT,
};

fn ticks(units: f64) -> i64 {
    (units * TICKS_PER_UNIT as f64).round() as i64
}

fn procs(rows: &[(&str, f64, f64)]) -> Vec<Process> {
    rows.iter()
        .enumerate()
        .map(|(i, (n, a, s))| Process::new(n, ticks(*a), ticks(*s), i))
        .collect()
}

fn config(cores: Cores, algorithm: MulticoreAlgorithm, q: u32, migration: Migration) -> MulticoreConfig {
    MulticoreConfig {
        cores,
        algorithm,
        quantum: Quantum::new(q).unwrap(),
        migration,
    }
}

fn core_slices(r: &MulticoreScheduleResult, c: usize) -> Vec<(String, f64, f64)> {
    r.slices_per_core[c]
        .iter()
        .map(|s| {
            (
                s.process.clone(),
                s.start as f64 / TICKS_PER_UNIT as f64,
                s.end as f64 / TICKS_PER_UNIT as f64,
            )
        })
        .collect()
}

fn sl(n: &str, a: f64, b: f64) -> (String, f64, f64) {
    (n.to_string(), a, b)
}

fn finishes(r: &MulticoreScheduleResult) -> Vec<(String, i64)> {
    r.metrics
        .iter()
        .map(|(n, m)| (n.clone(), m.finish_time / TICKS_PER_UNIT))
        .collect()
}

fn example_8() -> Vec<Process> {
    procs(&[
        ("A", 0.0, 10.0),
        ("B", 4.0, 4.0),
        ("C", 5.0, 8.0),
        ("D", 9.0, 5.0),
        ("E", 12.0, 3.0),
    ])
}

#[test]
fn multicore_csv_includes_cores_and_migration_block() {
    let cfg = config(Cores::Two, MulticoreAlgorithm::Fcfs, 2, Migration::OnIdle);
    let result = schedule_multicore(&example_8(), cfg).unwrap();
    assert!(!result.migrations.is_empty(), "expected migrations for setup");
    assert_eq!(result.metrics.len(), 5);
    for (name, _) in &result.metrics {
        assert!(
            !cores_of_process(&result, name).is_empty(),
            "Cores column must not be empty"
        );
    }
    for ev in &result.migrations {
        let cores = cores_of_process(&result, &ev.process);
        assert!(
            cores.contains(&ev.to),
            "process {} should execute on destination core {} (got {:?})",
            ev.process,
            ev.to,
            cores
        );
    }
}

#[test]
fn example_8_two_cores_fcfs_with_migration() {
    let cfg = config(Cores::Two, MulticoreAlgorithm::Fcfs, 2, Migration::OnIdle);
    let r = schedule_multicore(&example_8(), cfg).unwrap();
    assert_eq!(r.algorithm, "FCFS (2c)");
    assert_eq!(r.cores, 2);
    assert_eq!(r.slices_per_core.len(), 2);
    assert_eq!(
        core_slices(&r, 0),
        vec![sl("A", 0.0, 10.0), sl("D", 10.0, 15.0), sl("E", 15.0, 18.0)]
    );
    assert_eq!(core_slices(&r, 1), vec![sl("B", 4.0, 8.0), sl("C", 8.0, 16.0)]);
    let moves: Vec<(String, u8, u8, i64)> = r
        .migrations
        .iter()
        .map(|m| (m.process.clone(), m.from, m.to, m.at))
        .collect();
    assert_eq!(
        moves,
        vec![
            ("C".to_string(), 0, 1, ticks(8.0)),
            ("D".to_string(), 1, 0, ticks(10.0)),
        ]
    );
    assert_eq!(
        finishes(&r),
        vec![
            ("A".to_string(), 10),
            ("B".to_string(), 8),
            ("C".to_string(), 16),
            ("D".to_string(), 15),
            ("E".to_string(), 18),
        ]
    );
    assert_eq!(r.total_completion_time, ticks(18.0));
    assert_eq!(cores_of_process(&r, "C"), vec![1]);
    assert_eq!(cores_of_process(&r, "D"), vec![0]);
    assert_eq!(cores_of_process(&r, "Z"), Vec::<u8>::new());
}

#[test]
fn example_8_two_cores_fcfs_without_migration() {
    let cfg = config(Cores::Two, MulticoreAlgorithm::Fcfs, 2, Migration::Off);
    let r = schedule_multicore(&example_8(), cfg).unwrap();
    assert!(r.migrations.is_empty());
    // A, C, E are dealt to core 0 and B, D to core 1.
    assert_eq!(
        core_slices(&r, 0),
        vec![sl("A", 0.0, 10.0), sl("C", 10.0, 18.0), sl("E", 18.0, 21.0)]
    );
    assert_eq!(core_slices(&r, 1), vec![sl("B", 4.0, 8.0), sl("D", 9.0, 14.0)]);
    assert_eq!(r.total_completion_time, ticks(21.0));
}

#[test]
fn round_robin_on_two_cores() {
    let ps = procs(&[("A", 0.0, 3.0), ("B", 1.0, 2.0), ("C", 1.0, 1.0)]);
    let cfg = config(Cores::Two, MulticoreAlgorithm::Rr, 1, Migration::Off);
    let r = schedule_multicore(&ps, cfg).unwrap();
    assert_eq!(r.algorithm, "RR q=1 (2c)");
    assert_eq!(
        core_slices(&r, 0),
        vec![sl("A", 0.0, 2.0), sl("C", 2.0, 3.0), sl("A", 3.0, 4.0)]
    );
    assert_eq!(core_slices(&r, 1), vec![sl("B", 1.0, 3.0)]);
    assert_eq!(
        finishes(&r),
        vec![("A".to_string(), 4), ("B".to_string(), 3), ("C".to_string(), 3)]
    );
}

#[test]
fn srt_on_two_cores_moves_the_shortest_to_the_front() {
    let ps = procs(&[("A", 0.0, 5.0), ("B", 1.0, 4.0), ("C", 2.0, 1.0)]);
    let cfg = config(Cores::Two, MulticoreAlgorithm::Srt, 1, Migration::Off);
    let r = schedule_multicore(&ps, cfg).unwrap();
    assert_eq!(r.algorithm, "SRT (2c)");
    assert_eq!(
        core_slices(&r, 0),
        vec![sl("A", 0.0, 2.0), sl("C", 2.0, 3.0), sl("A", 3.0, 6.0)]
    );
    assert_eq!(core_slices(&r, 1), vec![sl("B", 1.0, 5.0)]);
    assert_eq!(r.total_completion_time, ticks(6.0));
}

#[test]
fn four_cores_with_and_without_migration() {
    let ps = procs(&[
        ("A", 0.0, 2.0),
        ("B", 0.0, 3.0),
        ("C", 0.0, 1.0),
        ("D", 0.0, 4.0),
        ("E", 1.0, 1.0),
    ]);
    let r = schedule_multicore(&ps, config(Cores::Four, MulticoreAlgorithm::Fcfs, 1, Migration::Off))
        .unwrap();
    assert_eq!(r.algorithm, "FCFS (4c)");
    assert_eq!(r.cores, 4);
    assert_eq!(core_slices(&r, 0), vec![sl("A", 0.0, 2.0), sl("E", 2.0, 3.0)]);
    assert_eq!(core_slices(&r, 2), vec![sl("C", 0.0, 1.0)]);
    assert_eq!(
        finishes(&r),
        vec![
            ("A".to_string(), 2),
            ("B".to_string(), 3),
            ("C".to_string(), 1),
            ("D".to_string(), 4),
            ("E".to_string(), 3),
        ]
    );

    let m = schedule_multicore(&ps, config(Cores::Four, MulticoreAlgorithm::Fcfs, 1, Migration::OnIdle))
        .unwrap();
    assert_eq!(m.migrations.len(), 1);
    assert_eq!(m.migrations[0].process, "E");
    assert_eq!((m.migrations[0].from, m.migrations[0].to), (0, 2));
    assert_eq!(m.migrations[0].at, ticks(1.0));
    assert_eq!(core_slices(&m, 2), vec![sl("C", 0.0, 1.0), sl("E", 1.0, 2.0)]);
    assert_eq!(m.total_completion_time, ticks(4.0));
}

#[test]
fn every_process_gets_its_service_time_across_cores() {
    let cfg = config(Cores::Two, MulticoreAlgorithm::Rr, 2, Migration::OnIdle);
    let ps = example_8();
    let r = schedule_multicore(&ps, cfg).unwrap();
    for p in &ps {
        let total: i64 = r
            .slices_per_core
            .iter()
            .flat_map(|core| core.iter())
            .filter(|s| s.process == p.name)
            .map(|s| s.end - s.start)
            .sum();
        assert_eq!(total, p.service);
    }
}

#[test]
fn multicore_validation_errors() {
    let cfg = config(Cores::Two, MulticoreAlgorithm::Fcfs, 1, Migration::Off);
    let err = schedule_multicore(&[], cfg).unwrap_err();
    assert_eq!(err, "At least one process is required.");
    let err = schedule_multicore(&[Process::new("A", 0, 0, 0)], cfg).unwrap_err();
    assert_eq!(err, "Service time must be > 0 for process A.");
}

#[test]
fn quantum_range_and_counts() {
    assert!(Quantum::new(0).is_none());
    assert!(Quantum::new(7).is_none());
    assert_eq!(Quantum::new(1).unwrap().get(), 1);
    assert_eq!(Quantum::new(6).unwrap().get(), 6);
    assert_eq!(Cores::Two.count(), 2);
    assert_eq!(Cores::Four.count(), 4);
    let on = config(Cores::Two, MulticoreAlgorithm::Srt, 3, Migration::OnIdle);
    let off = config(Cores::Two, MulticoreAlgorithm::Srt, 3, Migration::Off);
    assert!(on.migration_active());
    assert!(!off.migration_active());
}
