//! A personal activity-time tracker: calendar dates with day arithmetic, and
//! a ledger of minutes per activity per date that can be summarized over a
//! range of dates and stored as JSON.
pub mod args;
pub mod codec;
pub mod date;
pub mod keyed;
pub mod text;
pub mod tracker_data;
