//! API keys: what a key's permissions allow, expiry, and the per-key
//! request limits.
use vstd::prelude::*;

verus! {

/// What an API key may do on a collection.
#[derive(Debug, Clone, Copy, PartialEq, Eq, Structural)]
pub enum AccessLevel {
    Read,
    Write,
    ReadWrite,
    Admin,
}

impl AccessLevel {
    /// Reading is allowed by `Read`, `ReadWrite` and `Admin`.
    pub fn allows_read(&self) -> (r: bool)
        ensures
            r == (*self == AccessLevel::Read || *self == AccessLevel::ReadWrite || *self
                == AccessLevel::Admin),
    {
        match self {
            AccessLevel::Read | AccessLevel::ReadWrite | AccessLevel::Admin => true,
            AccessLevel::Write => false,
        }
    }

    /// Writing is allowed by `Write`, `ReadWrite` and `Admin`.
    pub fn allows_write(&self) -> (r: bool)
        ensures
            r == (*self == AccessLevel::Write || *self == AccessLevel::ReadWrite || *self
                == AccessLevel::Admin),
    {
        match self {
            AccessLevel::Write | AccessLevel::ReadWrite | AccessLevel::Admin => true,
            AccessLevel::Read => false,
        }
    }

    /// Administration is allowed by `Admin` alone.
    pub fn allows_admin(&self) -> (r: bool)
        ensures
            r == (*self == AccessLevel::Admin),
    {
        match self {
            AccessLevel::Admin => true,
            _ => false,
        }
    }
}

/// Request limits of an API key.
#[derive(Debug, Clone, Copy, PartialEq, Eq, Structural)]
pub struct RateLimit {
    pub requests_per_minute: u32,
    pub max_concurrent: u32,
}

/// An operation whose permission is checked, with its collection and
/// optional vector filter.
#[derive(Debug, Clone)]
pub enum Operation {
    CollectionRead(String),
    CollectionWrite(String),
    CollectionAdmin(String),
    VectorRead(String, Option<String>),
    VectorWrite(String, Option<String>),
}

/// Why a request was refused.
#[derive(Debug, Clone, Copy, PartialEq, Eq, Structural)]
pub enum AuthError {
    InvalidApiKey,
    ExpiredApiKey,
    PermissionDenied,
    RateLimitExceeded,
}

/// A permission held by an API key.
#[derive(Debug, Clone)]
pub enum Permission {
    /// Everything.
    ClusterAdmin,
    /// Every read.
    ClusterRead,
    /// Access to one collection.
    Collection { name: String, access: AccessLevel },
    /// Access to the vectors of one collection; the filter text is kept
    /// for callers and not consulted here.
    Vector { collection: String, filter: Option<String>, access: AccessLevel },
}

pub open spec fn allows_read_spec(a: AccessLevel) -> bool {
    a == AccessLevel::Read || a == AccessLevel::ReadWrite || a == AccessLevel::Admin
}

pub open spec fn allows_write_spec(a: AccessLevel) -> bool {
    a == AccessLevel::Write || a == AccessLevel::ReadWrite || a == AccessLevel::Admin
}

/// Whether permission `p` allows operation `op`.
pub open spec fn grants(p: Permission, op: Operation) -> bool {
    match (p, op) {
        (Permission::ClusterAdmin, _) => true,
        (Permission::ClusterRead, Operation::CollectionRead(_)) => true,
        (Permission::ClusterRead, Operation::VectorRead(_, _)) => true,
        (Permission::Collection { name, access }, Operation::CollectionRead(c)) => name@ == c@ && allows_read_spec(access),
        (Permission::Collection { name, access }, Operation::CollectionWrite(c)) => name@ == c@ && allows_write_spec(access),
        (Permission::Collection { name, access }, Operation::CollectionAdmin(c)) => name@ == c@ && access == AccessLevel::Admin,
        (Permission::Vector { collection, access, .. }, Operation::VectorRead(c, _)) => collection@ == c@ && allows_read_spec(access),
        (Permission::Vector { collection, access, .. }, Operation::VectorWrite(c, _)) => collection@ == c@ && allows_write_spec(access),
        _ => false,
    }
}

fn grants_exec(p: &Permission, op: &Operation) -> (r: bool)
    ensures
        r == grants(*p, *op),
{
    match (p, op) {
        (Permission::ClusterAdmin, _) => true,
        (Permission::ClusterRead, Operation::CollectionRead(_)) => true,
        (Permission::ClusterRead, Operation::VectorRead(_, _)) => true,
        (Permission::Collection { name, access }, Operation::CollectionRead(c)) => *name == *c && access.allows_read(),
        (Permission::Collection { name, access }, Operation::CollectionWrite(c)) => *name == *c && access.allows_write(),
        (Permission::Collection { name, access }, Operation::CollectionAdmin(c)) => *name == *c && access.allows_admin(),
        (Permission::Vector { collection, access, .. }, Operation::VectorRead(c, _)) => *collection == *c && access.allows_read(),
        (Permission::Vector { collection, access, .. }, Operation::VectorWrite(c, _)) => *collection == *c && access.allows_write(),
        _ => false,
    }
}

/// An operation is allowed when some permission of the key grants it;
/// otherwise it is refused with `PermissionDenied`.
pub fn check_permission(permissions: &Vec<Permission>, op: &Operation) -> (r: Result<(), AuthError>)
    ensures
        r is Ok <==> exists|i: int| 0 <= i < permissions@.len() && grants(#[trigger] permissions@[i], *op),
        r matches Err(e) ==> e == AuthError::PermissionDenied,
{
    let mut i: usize = 0;
    while i < permissions.len()
        invariant
            i <= permissions@.len(),
            forall|j: int| 0 <= j < i ==> !grants(#[trigger] permissions@[j], *op),
        decreases permissions@.len() - i,
    {
        if grants_exec(&permissions[i], op) {
            return Ok(());
        }
        i = i + 1;
    }
    Err(AuthError::PermissionDenied)
}

/// A key with an expiry time has expired once the time is past it.
pub fn check_expiry(expires_at: Option<u64>, now: u64) -> (r: Result<(), AuthError>)
    ensures
        r is Err <==> (expires_at matches Some(t) && now > t),
        r matches Err(e) ==> e == AuthError::ExpiredApiKey,
{
    match expires_at {
        Some(t) => {
            if now > t {
                Err(AuthError::ExpiredApiKey)
            } else {
                Ok(())
            }
        },
        None => Ok(()),
    }
}

/// The requests one key made in the last minute, and how many are running.
pub struct RateLimitState {
    pub requests: Vec<u64>,
    pub concurrent: u32,
}

/// The request times still inside the minute before `now`.
pub open spec fn recent(requests: Seq<u64>, now: u64) -> Seq<u64>
    decreases requests.len(),
{
    if requests.len() == 0 {
        Seq::empty()
    } else {
        let rest = recent(requests.drop_last(), now);
        if requests.last() + 60 > now {
            rest.push(requests.last())
        } else {
            rest
        }
    }
}

impl RateLimitState {
    pub fn new() -> (r: Self)
        ensures
            r.requests@.len() == 0,
            r.concurrent == 0,
    {
        RateLimitState { requests: Vec::new(), concurrent: 0 }
    }

    /// Lets a request at `now` through under `limit`: refused with
    /// `RateLimitExceeded` when `max_concurrent` requests are running, or
    /// when `requests_per_minute` were made in the last minute; otherwise
    /// the request is recorded and counted as running. Requests older than a
    /// minute are forgotten either way once the running check passes.
    pub fn check_rate_limit(&mut self, now: u64, limit: &RateLimit) -> (r: Result<(), AuthError>)
        ensures
            old(self).concurrent >= limit.max_concurrent ==> r == Err::<(), AuthError>(AuthError::RateLimitExceeded)
                && final(self).requests@ == old(self).requests@ && final(self).concurrent == old(self).concurrent,
            old(self).concurrent < limit.max_concurrent ==> {
                let kept = recent(old(self).requests@, now);
                if kept.len() >= limit.requests_per_minute {
                    r == Err::<(), AuthError>(AuthError::RateLimitExceeded) && final(self).requests@ == kept
                        && final(self).concurrent == old(self).concurrent
                } else {
                    r is Ok && final(self).requests@ == kept.push(now) && final(self).concurrent == old(self).concurrent + 1
                }
            },
    {
        if self.concurrent >= limit.max_concurrent {
            return Err(AuthError::RateLimitExceeded);
        }
        let mut kept: Vec<u64> = Vec::new();
        let mut i: usize = 0;
        assert(self.requests@.take(0) =~= Seq::<u64>::empty());
        while i < self.requests.len()
            invariant
                i <= self.requests@.len(),
                kept@ == recent(self.requests@.take(i as int), now),
                kept@.len() <= i,
            decreases self.requests@.len() - i,
        {
            let ts = self.requests[i];
            proof {
                let t = self.requests@.take(i + 1);
                assert(t.drop_last() =~= self.requests@.take(i as int));
                assert(t.last() == ts);
            }
            if ts >= now || now - ts < 60 {
                kept.push(ts);
            }
            i = i + 1;
        }
        assert(self.requests@.take(self.requests@.len() as int) =~= self.requests@);
        self.requests = kept;
        if self.requests.len() >= limit.requests_per_minute as usize {
            return Err(AuthError::RateLimitExceeded);
        }
        self.requests.push(now);
        self.concurrent = self.concurrent + 1;
        Ok(())
    }

    /// A running request has finished.
    pub fn complete(&mut self)
        ensures
            final(self).concurrent == if old(self).concurrent > 0 { old(self).concurrent - 1 } else { 0 },
            final(self).requests@ == old(self).requests@,
    {
        if self.concurrent > 0 {
            self.concurrent = self.concurrent - 1;
        }
    }
}

} // verus!
