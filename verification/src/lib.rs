//! Pomodoro activity log: a verified record store over a delimited-text
//! file format, and a report engine that buckets records into calendar
//! periods (day, week, month) with exact boundary arithmetic.

pub mod category;
pub mod codec;
pub mod error;
pub mod record;
pub mod report;
pub mod store;
pub mod time;
pub mod timer;

pub use category::PomodoroType;
pub use error::StoreError;
pub use record::Pomodoro;
pub use report::{CategoryTotal, DailyTotal, ReportData};
pub use store::CsvStorage;
pub use time::{Date, Timestamp};
pub use timer::{Settings, TimerData, TimerState, TimerStatus};
