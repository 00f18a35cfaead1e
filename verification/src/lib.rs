//! The logic of a terminal audit dashboard for a remote Linux server: what is
//! listening, what is running, where the data is, and what starts on its own.
//!
//! A run goes through four stages, each in modules of its own:
//!
//! - [`ssh`] and [`probe`] say how to reach the machine and what script to run
//!   there, and cut what comes back into sections ([`sudo`] states when that script
//!   may call `sudo`);
//! - [`parse`] reads each section into the facts of [`model`] ([`sizes`] states which
//!   sizes survive being written and read);
//! - [`findings`] ranks what is worth looking at;
//! - [`report`] writes the facts down, and [`tab`], [`rows`], [`app`], [`events`]
//!   and [`ui`] are the dashboard: what is shown, and what a key does to it.
//!
//! Text is a sequence of characters in every contract, and a struct that holds
//! text has a view, named after it, that holds such sequences. Numbers with a
//! fraction are IEEE bit patterns with exact arithmetic on them ([`float`]).
//! Functions whose names begin with `law_` state what holds of several functions
//! together. Where they are many they have modules of their own: [`session`], what a
//! command line says; [`readback`], [`sockets`] and [`columns`], rows that read back as
//! the columns they are made of; [`assembly`], what becomes of a section; [`told`], what
//! is worth a finding; [`written`], what a report holds; [`shown`], what the tables show;
//! and [`keys`], what a key does.

pub mod text;
pub mod lines;
pub mod fmt;
pub mod number;
pub mod natural;
pub mod float;
pub mod reading;
pub mod sorting;
pub mod order;
pub mod gather;

pub mod model;
pub mod ssh;
pub mod session;
pub mod cli;
pub mod probe;
pub mod sudo;
pub mod parse;
pub mod sizes;
pub mod readback;
pub mod sockets;
pub mod columns;
pub mod findings;
pub mod told;
pub mod assembly;
pub mod report;
pub mod written;

pub mod tab;
pub mod rows;
pub mod app;
pub mod events;
pub mod ui;
pub mod shown;
pub mod keys;
