//! Short-term CPU scheduling: uniprocessor and multicore schedules of a
//! table of processes, with the timelines and turnaround metrics they give.
pub mod names;
pub mod process;
pub mod order;
pub mod work;
pub mod timeline;
pub mod fcfs;
pub mod round_robin;
pub mod priority;
pub mod srt;
pub mod selection;
pub mod multicore;
pub mod multicore_steps;
pub mod multicore_round;
pub mod multicore_fcfs;
pub mod multicore_run;
pub mod palette;
pub mod examples;
pub mod scheduler_core;
pub mod canvas;
