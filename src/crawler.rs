//! The crawler: the frontier, the scanner and the size of the worker pool
//! of a layered crawl.
use vstd::prelude::*;

use crate::config::Config;
use crate::frontier::{
    admitted, empty_state, init_queue, log_text, push_all, Frontier, QueueError,
};
use crate::scan::{rules_for, Scanner};
use crate::text::{lower_of, strings};

verus! {

/// A crawl ready to run: the seeded frontier, the scanner built from the
/// configuration, how many workers drain each layer, and the time allowed
/// for each fetch, in seconds.
pub struct Crawler {
    pub frontier: Frontier,
    pub scanner: Scanner,
    pub threads: usize,
    pub timeout: usize,
}

impl Crawler {
    /// A crawl of `seeds` with the backing named `queue`, configured by
    /// `config`; a backing name other than `memory` or `file`, in any case,
    /// is refused.
    pub fn new(config: &Config, queue: String, seeds: Vec<String>) -> (r: Result<
        Crawler,
        QueueError,
    >)
        ensures
            lower_of(queue@) != "memory"@ && lower_of(queue@) != "file"@ ==> r == Err::<
                Crawler,
                QueueError,
            >(QueueError::UnknownBacking),
            lower_of(queue@) == "memory"@ ==> (r matches Ok(c) && c.frontier matches Frontier::Memory(
                q,
            ) && q@ == push_all(empty_state(), strings(seeds@))),
            lower_of(queue@) == "file"@ ==> (r matches Ok(c) && c.frontier matches Frontier::File(
                f,
                log,
            ) && log@ == log_text(admitted(Set::empty(), strings(seeds@))) && f.length()
                == admitted(Set::empty(), strings(seeds@)).len() && f.seen() == push_all(
                empty_state(),
                strings(seeds@),
            ).seen),
            r matches Ok(c) ==> c.scanner@ == rules_for(
                strings(config.general.targets@),
                config.rules@,
            ) && c.threads == config.general.threads && c.timeout == config.general.timeout,
    {
        let frontier = match init_queue(queue.as_str(), seeds) {
            Ok(frontier) => frontier,
            Err(e) => {
                return Err(e);
            },
        };
        Ok(
            Crawler {
                frontier,
                scanner: Scanner::new(&config.general.targets, &config.rules),
                threads: config.general.threads,
                timeout: config.general.timeout,
            },
        )
    }
}

} // verus!
