//! A verified core for a personal daily time tracker.
//!
//! The library records how a day's minutes are spent across named task
//! categories, archives each finished day into an append-only history,
//! and derives weekly and monthly summaries from that history.  The
//! surrounding binary handles prompting, terminal output and the
//! settings file; everything that decides or computes lives here.

pub mod clock;
pub mod date;
pub mod serialization;
pub mod settings;
pub mod stats;
pub mod task;
pub mod time_of_day;
pub mod user_input;

pub use date::Date;
pub use serialization::{decode_settings, encode_settings};
pub use settings::UserSettings;
pub use stats::{monthly_summary, update_task_summary, weekly_summary};
pub use task::{BucketKind, Task, TaskEntry, TaskList, TodaysTasks};
pub use time_of_day::TimeOfDay;
pub use user_input::{parse_task_code, parse_time_input, CodeAction, TimeInput};
