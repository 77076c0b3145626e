//! Crawl engine and server-version fingerprinting for reconnaissance scans.
//!
//! - `frontier`: the deduplicating work queue of URLs (held in memory, or as
//!   the bookkeeping of an append-only log) and the drains that hand out one
//!   layer of a breadth-first crawl.
//! - `version`: dotted versions, their epochs, and the containment test of an
//!   observed version in a vulnerable specification.
//! - `target` and `scan`: target rules judged against a response's `Server`
//!   header, and the scanner that applies all of them.
//! - `job` and `crawler`: what a worker does with one fetched URL, and the
//!   set-up of a crawl.
//! - `shodan`: the pages and URLs of the host-search source.
//! - `config` and `text`: the run's configuration and shared text helpers.
pub mod text;
pub mod version;
pub mod frontier;
pub mod target;
pub mod scan;
pub mod job;
pub mod config;
pub mod crawler;
pub mod shodan;
