use vstd::prelude::*;

use crate::error::AggregatorError;

verus! {

/// Milliseconds per second.
pub const MILLIS_PER_SEC: u64 = 1000;

/// The milliseconds from `last` to `now`, zero when `now` is earlier.
pub open spec fn elapsed(last: u64, now: u64) -> nat {
    if now >= last {
        (now - last) as nat
    } else {
        0
    }
}

/// A fixed-window request budget: at most `max_requests` requests per
/// window of `interval_secs` seconds. The window restarts on the first check
/// made once a whole interval has passed since it last started. Times are
/// milliseconds from an origin that the caller chooses and keeps.
pub struct RateLimiter {
    max_requests: u32,
    interval_secs: u64,
    requests_made: u32,
    last_reset: u64,
}

impl RateLimiter {
    pub closed spec fn spec_max_requests(&self) -> nat {
        self.max_requests as nat
    }

    pub closed spec fn spec_interval_millis(&self) -> nat {
        (self.interval_secs as nat) * (MILLIS_PER_SEC as nat)
    }

    /// The requests granted in the current window.
    pub closed spec fn spec_requests_made(&self) -> nat {
        self.requests_made as nat
    }

    /// When the current window started.
    pub closed spec fn spec_last_reset(&self) -> u64 {
        self.last_reset
    }

    /// Whether a check at `now` starts a new window.
    pub open spec fn window_over(&self, now: u64) -> bool {
        elapsed(self.spec_last_reset(), now) >= self.spec_interval_millis()
    }

    /// A limiter whose first window starts at `now`, with no request made.
    pub fn new(max_requests: u32, interval_secs: u64, now: u64) -> (r: RateLimiter)
        ensures
            r.spec_max_requests() == max_requests,
            r.spec_interval_millis() == (interval_secs as nat) * (MILLIS_PER_SEC as nat),
            r.spec_requests_made() == 0,
            r.spec_last_reset() == now,
    {
        RateLimiter { max_requests, interval_secs, requests_made: 0, last_reset: now }
    }

    /// Asks for one request at `now`. The window restarts first if a whole
    /// interval has passed since it started; the request is then granted and
    /// counted while the window's budget lasts, and refused otherwise.
    pub fn check_if_rate_limited(&mut self, now: u64) -> (r: Result<(), AggregatorError>)
        ensures
            ({
                let over = old(self).window_over(now);
                let made = if over {
                    0
                } else {
                    old(self).spec_requests_made()
                };
                &&& final(self).spec_max_requests() == old(self).spec_max_requests()
                &&& final(self).spec_interval_millis() == old(self).spec_interval_millis()
                &&& final(self).spec_last_reset() == if over {
                    now
                } else {
                    old(self).spec_last_reset()
                }
                &&& (r is Ok <==> made < old(self).spec_max_requests())
                &&& r is Ok ==> final(self).spec_requests_made() == made + 1
                &&& r is Err ==> final(self).spec_requests_made() == made
                &&& r is Err ==> r->Err_0 is RateLimitExceeded
            }),
    {
        let waited: u64 = if now >= self.last_reset {
            now - self.last_reset
        } else {
            0
        };
        let secs = self.interval_secs;
        assert((secs as nat) * (MILLIS_PER_SEC as nat) <= (u64::MAX as nat) * 1000) by (nonlinear_arith)
            requires
                secs <= u64::MAX,
        ;
        if (waited as u128) >= (secs as u128) * (MILLIS_PER_SEC as u128) {
            self.requests_made = 0;
            self.last_reset = now;
        }
        if self.requests_made < self.max_requests {
            self.requests_made = self.requests_made + 1;
            Ok(())
        } else {
            Err(AggregatorError::RateLimitExceeded("Rate limit exceeded".to_string()))
        }
    }
}

} // verus!
