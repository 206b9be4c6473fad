//! The scheduler's public items in one place.
pub use crate::process::{Process, validate_processes, TICKS_PER_UNIT, MAX_TICKS, MAX_PROCESSES};
pub use crate::timeline::{ExecutionSlice, ProcessMetrics, ScheduleResult};
pub use crate::fcfs::schedule_fcfs;
pub use crate::round_robin::schedule_rr;
pub use crate::priority::{schedule_spn, schedule_hrrn};
pub use crate::srt::schedule_srt;
pub use crate::selection::{ScheduleResults, run_selected, algo_priority};
pub use crate::multicore::{
    MulticoreAlgorithm, Cores, Migration, Quantum, MigrationEvent, MulticoreScheduleResult,
    MulticoreConfig, schedule_multicore, cores_of_process,
};
pub use crate::palette::process_color_rgb;
