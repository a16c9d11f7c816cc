/// Materialized activity records and the fold that builds them from parsed lines.
pub mod activity;
/// Rendering elapsed spans as compact human strings.
pub mod format_util;
/// Read-only queries over materialized activities: filtering, sorting, grouping.
pub mod getter;
/// The log file grammar: one line parsed to a start, stop, no-op or error.
pub mod line;
/// The listing operations a front end calls, over parsed log lines.
pub mod list;
/// Character, trimming, ordering and substring helpers on plain text.
pub mod textutil;
/// Plain calendar dates and minute-precision timestamps, with their order.
pub mod timestamp;
