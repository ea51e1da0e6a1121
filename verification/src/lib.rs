//! PingBoard core: event log model, statistics, settings normalisation,
//! report formatting and the text processing used by the monitor.
pub mod calendar;
pub mod control;
pub mod events;
pub mod export;
pub mod fonts;
pub mod import;
pub mod model;
pub mod ping;
pub mod report;
pub mod stats;
pub mod text;
