use schedviz_rust::scheduler_core::{
    run_selected, schedule_fcfs, schedule_hrrn, schedule_rr, schedule_spn, schedule_srt,
    schedule_multicore, validate_processes, Cores, Migration, MulticoreAlgorithm, MulticoreConfig,
    Process, Quantum, ScheduleResult, TICKS_PER_UNIT,
};

fn table() -> Vec<Process> {
    let rows = [
        ("A", 0, 3),
        ("B", 2, 6),
        ("C", 4, 4),
        ("D", 6, 5),
        ("E", 8, 2),
        ("F", 8, 1),
    ];
    rows.iter()
        .enumerate()
        .map(|(i, (n, a, s))| Process::new(n, a * TICKS_PER_UNIT, s * TICKS_PER_UNIT, i))
        .collect()
}

fn all_uniprocessor() -> Vec<ScheduleResult> {
    let algos: Vec<String> = ["FCFS", "RR", "SPN", "SRT", "HRRN"]
        .iter()
        .map(|s| s.to_string())
        .collect();
    run_selected(&table(), &algos, 2).unwrap().entries
}

#[test]
fn every_uniprocessor_schedule_serves_each_process_exactly() {
    let ps = table();
    for r in all_uniprocessor() {
        for w in r.slices.windows(2) {
            assert!(w[0].end <= w[1].start, "{} overlaps", r.algorithm);
        }
        for s in &r.slices {
            assert!(s.start < s.end);
            let p = ps.iter().find(|p| p.name == s.process).unwrap();
            assert!(p.arrival <= s.start, "{} runs {} early", r.algorithm, p.name);
        }
        for p in &ps {
            let total: i64 = r
                .slices
                .iter()
                .filter(|s| s.process == p.name)
                .map(|s| s.end - s.start)
                .sum();
            assert_eq!(total, p.service, "{} {}", r.algorithm, p.name);
        }
    }
}

#[test]
fn turnaround_is_at_least_service_everywhere() {
    for r in all_uniprocessor() {
        assert_eq!(r.metrics.len(), 6);
        for (_, m) in &r.metrics {
            assert!(m.turnaround_time >= m.service_time, "{}", r.algorithm);
        }
    }
    for alg in [MulticoreAlgorithm::Fcfs, MulticoreAlgorithm::Rr, MulticoreAlgorithm::Srt] {
        for cores in [Cores::Two, Cores::Four] {
            for migration in [Migration::Off, Migration::OnIdle] {
                let cfg = MulticoreConfig {
                    cores,
                    algorithm: alg,
                    quantum: Quantum::new(1).unwrap(),
                    migration,
                };
                let r = schedule_multicore(&table(), cfg).unwrap();
                for (_, m) in &r.metrics {
                    assert!(m.turnaround_time >= m.service_time, "{}", r.algorithm);
                }
            }
        }
    }
}

#[test]
fn non_preemptive_algorithms_run_each_process_in_one_piece() {
    for r in all_uniprocessor() {
        if r.algorithm == "FCFS" || r.algorithm == "SPN" || r.algorithm == "HRRN" {
            assert_eq!(r.slices.len(), 6, "{}", r.algorithm);
            let mut names: Vec<&String> = r.slices.iter().map(|s| &s.process).collect();
            names.sort();
            names.dedup();
            assert_eq!(names.len(), 6, "{}", r.algorithm);
        }
    }
}

#[test]
fn metrics_are_sorted_by_name_once_each() {
    for r in all_uniprocessor() {
        let names: Vec<&str> = r.metrics.iter().map(|(n, _)| n.as_str()).collect();
        assert_eq!(names, vec!["A", "B", "C", "D", "E", "F"]);
    }
}

#[test]
fn no_process_runs_on_two_cores_at_once() {
    for alg in [MulticoreAlgorithm::Fcfs, MulticoreAlgorithm::Rr, MulticoreAlgorithm::Srt] {
        for cores in [Cores::Two, Cores::Four] {
            let cfg = MulticoreConfig {
                cores,
                algorithm: alg,
                quantum: Quantum::new(2).unwrap(),
                migration: Migration::OnIdle,
            };
            let r = schedule_multicore(&table(), cfg).unwrap();
            for (c1, a) in r.slices_per_core.iter().enumerate() {
                for (c2, b) in r.slices_per_core.iter().enumerate() {
                    if c1 == c2 {
                        continue;
                    }
                    for x in a {
                        for y in b {
                            if x.process == y.process {
                                assert!(x.end <= y.start || y.end <= x.start, "{}", r.algorithm);
                            }
                        }
                    }
                }
            }
            for m in &r.migrations {
                assert_ne!(m.from, m.to);
                assert!((m.from as usize) < r.slices_per_core.len());
                assert!((m.to as usize) < r.slices_per_core.len());
            }
        }
    }
}

#[test]
fn multicore_fcfs_runs_each_process_in_one_piece() {
    for cores in [Cores::Two, Cores::Four] {
        for migration in [Migration::Off, Migration::OnIdle] {
            let cfg = MulticoreConfig {
                cores,
                algorithm: MulticoreAlgorithm::Fcfs,
                quantum: Quantum::new(1).unwrap(),
                migration,
            };
            let ps = table();
            let r = schedule_multicore(&ps, cfg).unwrap();
            let mut names: Vec<&String> = r
                .slices_per_core
                .iter()
                .flat_map(|core| core.iter().map(|s| &s.process))
                .collect();
            assert_eq!(names.len(), ps.len());
            names.sort();
            names.dedup();
            assert_eq!(names.len(), ps.len());
        }
    }
}

fn same_schedule(a: &ScheduleResult, b: &ScheduleResult) -> bool {
    a.algorithm == b.algorithm
        && a.slices == b.slices
        && a.metrics == b.metrics
        && a.total_completion_time == b.total_completion_time
}

#[test]
fn selected_schedules_equal_the_single_schedulers() {
    let ps = table();
    let algos: Vec<String> = ["fcfs", "Rr", "SPN", "srt", "hrrn"]
        .iter()
        .map(|s| s.to_string())
        .collect();
    let all = run_selected(&ps, &algos, 3).unwrap();
    let singles = [
        schedule_fcfs(&ps).unwrap(),
        schedule_rr(&ps, 3).unwrap(),
        schedule_spn(&ps).unwrap(),
        schedule_srt(&ps).unwrap(),
        schedule_hrrn(&ps).unwrap(),
    ];
    assert_eq!(all.len(), 5);
    for single in &singles {
        let entry = all.get(&single.algorithm).unwrap();
        assert!(same_schedule(entry, single), "{} differs", single.algorithm);
    }
}

#[test]
fn validating_a_validated_table_gives_it_back() {
    let raw = vec![
        Process::new("  A ", 0, 3 * TICKS_PER_UNIT, 0),
        Process::new("B\t", 2 * TICKS_PER_UNIT, 6 * TICKS_PER_UNIT, 1),
        Process::new(" C", 4 * TICKS_PER_UNIT, 4 * TICKS_PER_UNIT, 2),
    ];
    let once = validate_processes(&raw).unwrap();
    let twice = validate_processes(&once).unwrap();
    assert_eq!(once.len(), twice.len());
    for (a, b) in once.iter().zip(twice.iter()) {
        assert_eq!(a.name, b.name);
        assert_eq!(a.arrival, b.arrival);
        assert_eq!(a.service, b.service);
        assert_eq!(a.order, b.order);
    }
    assert_eq!(once[0].name, "A");
    assert_eq!(once[1].name, "B");
}
