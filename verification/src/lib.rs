//! Trusted local-data core of a personal cycle tracker.
//!
//! The crate has two halves. [`crypto`] and [`storage`] form the encrypted
//! envelope that protects the vault at rest. [`cycles`] and [`prediction`]
//! turn daily flow observations into cycle intervals, statistics and
//! forecasts. [`commands`] ties both to a session that is either locked or
//! unlocked. [`models`] holds the records, [`calendar`] the dates.

pub mod calendar;
pub mod commands;
pub mod crypto;
pub mod cycles;
pub mod models;
pub mod prediction;
pub mod storage;
