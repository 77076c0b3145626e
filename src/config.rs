//! The run's configuration, as the library consumes it.
use vstd::prelude::*;

use crate::target::TargetOptions;

verus! {

/// Settings shared by every source.
pub struct General {
    /// Where the log goes.
    pub log: String,
    /// How many workers crawl each layer.
    pub threads: usize,
    /// The time allowed for each fetch, in seconds.
    pub timeout: usize,
    /// The names of the target rules to apply.
    pub targets: Vec<String>,
}

/// Where the endpoints to scan come from.
pub enum Source {
    /// The hosts that a host-search query returns.
    Shodan { query: String, modules: Vec<String> },
    /// The endpoints reachable from seed URLs.
    Crawl { seeds: Vec<String>, queue: String },
}

/// A run's configuration.
pub struct Config {
    pub general: General,
    pub source: Source,
    /// The target rules by name.
    pub rules: Vec<(String, TargetOptions)>,
}

} // verus!
