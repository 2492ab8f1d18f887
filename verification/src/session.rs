//! Session-wide state: the session's configuration and the latest rate
//! limits that the model's server reported.
use vstd::prelude::*;

verus! {

/// The state of a session.
#[derive(Debug)]
pub struct SessionState<C, R> {
    pub session_configuration: C,
    pub latest_rate_limits: Option<R>,
}

impl<C, R: Clone> SessionState<C, R> {
    /// The state of a new session: its configuration, and no rate limits yet.
    pub fn new(session_configuration: C) -> (s: Self)
        ensures
            s.session_configuration == session_configuration,
            s.latest_rate_limits is None,
    {
        SessionState { session_configuration, latest_rate_limits: None }
    }

    /// Keeps the latest rate limits.
    pub fn set_rate_limits(&mut self, snapshot: R)
        ensures
            final(self).latest_rate_limits == Some(snapshot),
            final(self).session_configuration == old(self).session_configuration,
    {
        self.latest_rate_limits = Some(snapshot);
    }

    /// A copy of the latest rate limits, if any were reported.
    pub fn rate_limits(&self) -> (r: Option<R>)
        ensures
            copy_of(r, self.latest_rate_limits),
    {
        match &self.latest_rate_limits {
            Some(x) => Some(x.clone()),
            None => None,
        }
    }
}

/// `r` is what cloning `stored` gives: `None` for `None`, and a clone of
/// the stored value otherwise.
pub open spec fn copy_of<R: Clone>(r: Option<R>, stored: Option<R>) -> bool {
    match (r, stored) {
        (Some(a), Some(b)) => cloned(b, a),
        (None, None) => true,
        _ => false,
    }
}

/// For a snapshot type whose clone is an exact copy, a read gives back
/// exactly what is stored: the last snapshot written, or `None` before any.
pub proof fn lemma_read_gives_last_write<R: Clone>(r: Option<R>, stored: Option<R>)
    requires
        forall|x: R, y: R| #[trigger] cloned(x, y) ==> x == y,
        copy_of(r, stored),
    ensures
        r == stored,
{
}

} // verus!
