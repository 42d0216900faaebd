use vstd::prelude::*;

pub mod alphabet;
pub mod arabic;
pub mod config;
pub mod bytes;
pub mod calendar;
pub mod candidates;
pub mod charlm;
pub mod cli;
pub mod data;
pub mod dialect;
pub mod hotkey;
pub mod ids;
pub mod json;
pub mod journal;
pub mod keyed;
pub mod keyrouter;
pub mod keys;
pub mod learning_file;
pub mod display;
pub mod normalize;
pub mod oov;
pub mod paths;
pub mod profile;
pub mod search;
pub mod selftrain;
pub mod seed;
pub mod session;
pub mod settings;
pub mod snapshot;
pub mod tashkeel;
pub mod text;
pub mod ui;
pub mod user;

verus! {
} // verus!
