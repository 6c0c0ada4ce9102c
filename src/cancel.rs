//! Version-based cancellation.
//!
//! One shared cell holds the active request version. Issuing a token stores a
//! new version there, which cancels every token bound to an earlier one.
use vstd::prelude::*;

verus! {

/// The shared cell holding the active request version.
pub struct SearchVersion {
    active: u64,
}

impl SearchVersion {
    /// The version currently active.
    pub closed spec fn active_spec(&self) -> u64 {
        self.active
    }

    /// A fresh cell, at version zero: no live request.
    pub fn new() -> (r: SearchVersion)
        ensures
            r.active_spec() == 0,
    {
        SearchVersion { active: 0 }
    }

    /// The version currently active.
    pub fn active(&self) -> (r: u64)
        ensures
            r == self.active_spec(),
    {
        self.active
    }
}

/// A capability that long-running work polls to learn whether a newer
/// request has superseded it.
#[derive(Clone, Copy, Debug)]
pub struct CancellationToken {
    version: u64,
    /// False for a token bound to a private cell that nothing can advance.
    shared: bool,
}

impl CancellationToken {
    /// The version this token was issued with.
    pub closed spec fn version_spec(&self) -> u64 {
        self.version
    }

    /// Whether this token reads the shared cell (false for `noop` tokens).
    pub closed spec fn is_shared(&self) -> bool {
        self.shared
    }

    /// Whether the token counts as cancelled while `active` is the active version.
    pub open spec fn cancelled_at(&self, active: u64) -> bool {
        self.is_shared() && self.version_spec() != active
    }

    /// A token that can never be cancelled.
    pub fn noop() -> (r: CancellationToken)
        ensures
            !r.is_shared(),
            r.version_spec() == 0,
    {
        CancellationToken { version: 0, shared: false }
    }

    /// Makes `version` the active version and returns a token bound to it.
    /// Versions only increase: `version` must exceed the active one, so that
    /// a superseded token never becomes live again.
    pub fn new(active_version: &mut SearchVersion, version: u64) -> (r: CancellationToken)
        requires
            version > old(active_version).active_spec(),
        ensures
            final(active_version).active_spec() == version,
            r.is_shared(),
            r.version_spec() == version,
    {
        active_version.active = version;
        CancellationToken { version, shared: true }
    }

    /// Whether a newer version has been issued since this token.
    pub fn is_cancelled(&self, active_version: &SearchVersion) -> (r: bool)
        ensures
            r == self.cancelled_at(active_version.active_spec()),
    {
        self.shared && self.version != active_version.active
    }
}

/// A `noop` token is never cancelled, whatever version is active.
pub proof fn lemma_noop_never_cancelled(t: CancellationToken, active: u64)
    requires
        !t.is_shared(),
    ensures
        !t.cancelled_at(active),
{
}

/// A superseded token stays cancelled: once the active version has moved past
/// a token's version, every later issue, which only raises the version, keeps
/// it cancelled.
pub proof fn lemma_cancelled_stays_cancelled(t: CancellationToken, active: u64, v: u64)
    requires
        t.is_shared(),
        t.version_spec() < active,
        v > active,
    ensures
        t.cancelled_at(active),
        t.cancelled_at(v),
{
}

/// The latest issue wins: a token is live right after it is issued, and once a
/// token with another version is issued the earlier one is cancelled while the
/// later one stays live.
pub proof fn lemma_latest_issue_wins(t1: CancellationToken, t2: CancellationToken)
    requires
        t1.is_shared(),
        t2.is_shared(),
        t1.version_spec() != t2.version_spec(),
    ensures
        !t1.cancelled_at(t1.version_spec()),
        t1.cancelled_at(t2.version_spec()),
        !t2.cancelled_at(t2.version_spec()),
{
}

} // verus!
