//! Verified core of a disk-usage browser.
//!
//! The library decides and computes; it never touches a disk or a screen. A program
//! around it lists folders, reads volumes and draws windows, and hands what it finds
//! to the functions here.
//!
//! - `types`, `inside`, `wrap`: scanned trees and their totals.
//! - `listing`, `walk`, `contents`, `fanout`, `scanner`, `progress`: walking folders.
//! - `mft`: reading the Master File Table of an NTFS volume.
//! - `scan_all`: scanning several drives side by side.
//! - `analysis`, `ranking`, `search`, `finding`, `sort`, `treemap`: finding files and putting them in order.
//! - `numbering`, `deletion`, `recycle`, `freeing`: deleting from a tree that stays in
//!   place, and what that frees.
//! - `temp`, `tempscan`, `drives`: folders of throwaway files, and volumes.
//! - `rows`, `row_order`, `browse`, `history`, `panel`, `geometry`, `commands`, `palette`,
//!   `toolbar`: what windows show, and what clicks and keys do.
//! - `settings`, `settings_page`, `window_state`: what is kept between runs.
//! - `cli`, `update`: the command line, and checking for a newer release.
//! - `format`, `double`, `decimal`, `datetime`, `path`, `shorten`, `text`, `utf16`,
//!   `bytes`: numbers, times and texts.

pub mod analysis;
pub mod browse;
pub mod bytes;
pub mod cli;
pub mod commands;
pub mod contents;
pub mod datetime;
pub mod decimal;
pub mod deletion;
pub mod double;
pub mod drives;
pub mod fanout;
pub mod finding;
pub mod format;
pub mod freeing;
pub mod geometry;
pub mod history;
pub mod inside;
pub mod listing;
pub mod mft;
pub mod numbering;
pub mod palette;
pub mod panel;
pub mod path;
pub mod progress;
pub mod ranking;
pub mod recycle;
pub mod row_order;
pub mod rows;
pub mod scan_all;
pub mod scanner;
pub mod search;
pub mod settings;
pub mod settings_page;
pub mod shorten;
pub mod sort;
pub mod temp;
pub mod tempscan;
pub mod text;
pub mod toolbar;
pub mod treemap;
pub mod types;
pub mod update;
pub mod utf16;
pub mod walk;
pub mod window_state;
pub mod wrap;
