//! Change detection for the polling loop: the platform clipboard exposes a
//! monotonically increasing change token, and a capture cycle starts exactly
//! when the token moves. The loop itself (sleeping, reading the platform)
//! lives outside the library; this is the decision it consults.

use vstd::prelude::*;

verus! {

/// The poll interval, in milliseconds, used when the caller names none.
pub const DEFAULT_POLL_INTERVAL_MILLIS: u64 = 500;

/// The interval the loop sleeps between checks: a caller-configured value,
/// except that zero means "use the default", never "poll without delay".
pub fn effective_interval(interval_millis: u64) -> (r: u64)
    ensures
        interval_millis == 0 ==> r == DEFAULT_POLL_INTERVAL_MILLIS,
        interval_millis != 0 ==> r == interval_millis,
{
    if interval_millis == 0 {
        DEFAULT_POLL_INTERVAL_MILLIS
    } else {
        interval_millis
    }
}

/// Remembers the change token last seen, so that one capture happens per
/// change: the detector starts at the token current when polling begins, and
/// a cycle captures only when the token has moved since the last check.
pub struct ChangeDetector {
    token: i64,
}

impl ChangeDetector {
    /// The token last seen.
    pub closed spec fn last_token(self) -> i64 {
        self.token
    }

    /// Starts at the token current when polling begins; the state already on
    /// the clipboard is not captured.
    pub fn new(initial_token: i64) -> (r: ChangeDetector)
        ensures
            r.last_token() == initial_token,
    {
        ChangeDetector { token: initial_token }
    }

    /// One poll check: reports whether a capture is due, and remembers the
    /// token either way.
    pub fn observe(&mut self, token: i64) -> (capture: bool)
        ensures
            capture == (token != old(self).last_token()),
            final(self).last_token() == token,
    {
        let changed = token != self.token;
        self.token = token;
        changed
    }

    /// One full poll cycle's decision: a capture happens exactly when the
    /// token moved and the platform reported items. A changed token with no
    /// items available is a benign empty cycle: the token is remembered, but
    /// no event is produced.
    pub fn observe_snapshot(
        &mut self,
        token: i64,
        snapshot: &Option<Vec<Vec<(String, Vec<u8>)>>>,
    ) -> (capture: bool)
        ensures
            capture == (token != old(self).last_token() && snapshot is Some),
            final(self).last_token() == token,
    {
        let changed = self.observe(token);
        changed && snapshot.is_some()
    }
}

} // verus!
