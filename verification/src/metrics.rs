//! What a query spent.
use vstd::prelude::*;

verus! {

/// Counters of one operator. They wrap around like the counters of the query
/// engine.
#[derive(Debug, Clone, Copy, PartialEq, Eq, Structural)]
pub struct JevMetrics {
    pub requests: usize,
    pub retries: usize,
    pub cache_hits: usize,
    pub failures: usize,
    pub input_tokens: usize,
    pub output_tokens: usize,
    pub estimated_cost_nano_usd: usize,
    pub unpriced_requests: usize,
}

/// A counter after something was added to it.
pub open spec fn counted(count: usize, more: usize) -> usize {
    count.wrapping_add(more)
}

/// Counters after a request was sent, the first or a later attempt.
pub open spec fn attempted(metrics: JevMetrics, attempt: nat) -> JevMetrics {
    JevMetrics {
        requests: counted(metrics.requests, 1),
        retries: counted(
            metrics.retries,
            if attempt > 0 {
                1
            } else {
                0
            },
        ),
        ..metrics
    }
}

impl JevMetrics {
    /// Counters that have not counted anything.
    pub fn new() -> (metrics: JevMetrics)
        ensures
            metrics == (JevMetrics {
                requests: 0,
                retries: 0,
                cache_hits: 0,
                failures: 0,
                input_tokens: 0,
                output_tokens: 0,
                estimated_cost_nano_usd: 0,
                unpriced_requests: 0,
            }),
    {
        JevMetrics {
            requests: 0,
            retries: 0,
            cache_hits: 0,
            failures: 0,
            input_tokens: 0,
            output_tokens: 0,
            estimated_cost_nano_usd: 0,
            unpriced_requests: 0,
        }
    }

    /// Counts a request that is about to be sent, the first or a later attempt.
    pub fn count_attempt(&mut self, attempt: usize)
        ensures
            *final(self) == attempted(*old(self), attempt as nat),
    {
        if attempt > 0 {
            self.retries = self.retries.wrapping_add(1);
        }
        self.requests = self.requests.wrapping_add(1);
    }
}

} // verus!
