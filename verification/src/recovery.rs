//! Reconnecting after a failure, within bounds.
//!
//! A transfer that loses its connection is resumed over a fresh one: what was
//! verified before is kept. Only failures that a fresh connection may mend are
//! retried; what failed to verify or to authenticate is not.
use crate::addr::SocketAddr;
use crate::discovery::{ConnectError, DhtError};
use crate::endpoint::MAX_SEEDS;
use crate::transfer::{IoKind, TransferError};
use vstd::arithmetic::power2::{lemma2_to64, lemma_pow2_strictly_increases, pow2};
use vstd::prelude::*;

verus! {

/// A second, in nanoseconds.
pub const SECOND: u128 = 1_000_000_000;

/// The most attempts a policy may allow.
pub const MAX_ATTEMPTS: usize = 32;

/// The longest first pause a policy may ask for, in nanoseconds.
pub const MAX_BACKOFF: u128 = 30_000_000_000;

/// The longest a recovery may be allowed to take, in nanoseconds.
pub const MAX_DEADLINE: u128 = 3_600_000_000_000;

/// The longest pause between two attempts, in nanoseconds.
pub const MAX_PAUSE: u128 = 5_000_000_000;

/// How often a pause is doubled.
pub const MAX_DOUBLINGS: usize = 5;

/// Bounded reconnection policy; times in nanoseconds.
#[derive(Debug, Clone, Copy, PartialEq, Eq, Structural)]
pub struct RecoveryConfig {
    /// How often to try.
    pub attempts: usize,
    /// The pause after the first failure.
    pub backoff: u128,
    /// How long the recovery may take altogether.
    pub deadline: u128,
}

impl Default for RecoveryConfig {
    fn default() -> (r: Self)
        ensures
            r == (RecoveryConfig {
                attempts: 8,
                backoff: 250_000_000,
                deadline: 300_000_000_000,
            }),
    {
        RecoveryConfig { attempts: 8, backoff: 250_000_000, deadline: 300_000_000_000 }
    }
}

/// Why a recovery failed.
#[derive(Debug, Clone, Copy, PartialEq, Eq)]
pub enum RecoveryError {
    /// No connection could be made.
    Connection(ConnectError),
    /// The transfer failed.
    Transfer(TransferError),
    /// The recovery took too long.
    Deadline,
    /// The policy cannot be used.
    InvalidConfig,
}

/// How much longer a pause is after `n` more failures.
pub open spec fn doublings(n: nat) -> nat {
    pow2(
        if n <= MAX_DOUBLINGS {
            n
        } else {
            MAX_DOUBLINGS as nat
        },
    )
}

fn doubled(n: usize) -> (r: u128)
    ensures
        r == doublings(n as nat),
{
    proof {
        lemma2_to64();
    }
    if n == 0 {
        1
    } else if n == 1 {
        2
    } else if n == 2 {
        4
    } else if n == 3 {
        8
    } else if n == 4 {
        16
    } else {
        32
    }
}

impl RecoveryConfig {
    /// Whether the policy can be used.
    pub open spec fn is_valid(&self) -> bool {
        &&& 0 < self.attempts <= MAX_ATTEMPTS
        &&& 0 < self.backoff <= MAX_BACKOFF
        &&& 0 < self.deadline <= MAX_DEADLINE
    }

    /// Check the policy.
    pub fn validate(self) -> (r: Result<Self, RecoveryError>)
        ensures
            r == (if self.is_valid() {
                Ok::<Self, RecoveryError>(self)
            } else {
                Err(RecoveryError::InvalidConfig)
            }),
    {
        if self.attempts == 0 || self.attempts > MAX_ATTEMPTS || self.backoff == 0 || self.backoff
            > MAX_BACKOFF || self.deadline == 0 || self.deadline > MAX_DEADLINE {
            return Err(RecoveryError::InvalidConfig);
        }
        Ok(self)
    }

    /// How long to pause after the failure of an attempt: twice as long each
    /// time, within bounds.
    pub open spec fn pause_after(&self, attempt: nat) -> nat {
        if self.backoff * doublings(attempt) <= MAX_PAUSE {
            (self.backoff * doublings(attempt)) as nat
        } else {
            MAX_PAUSE as nat
        }
    }

    /// How long to pause after the failure of an attempt.
    pub fn pause(&self, attempt: usize) -> (r: u128)
        ensures
            r == self.pause_after(attempt as nat),
    {
        let factor: u128 = doubled(attempt);
        proof {
            lemma2_to64();
        }
        assert(1 <= factor <= 32) by {
            lemma2_to64();
            if attempt < 5 {
                lemma_pow2_strictly_increases(attempt as nat, 5);
            }
            if 0 < attempt {
                if attempt < 5 {
                    lemma_pow2_strictly_increases(0, attempt as nat);
                }
            }
        }
        if self.backoff > MAX_PAUSE {
            assert(self.backoff * factor >= self.backoff) by (nonlinear_arith)
                requires
                    factor >= 1,
            ;
            return MAX_PAUSE;
        }
        assert(self.backoff * factor <= MAX_PAUSE * 32) by (nonlinear_arith)
            requires
                self.backoff <= MAX_PAUSE,
                factor <= 32,
        ;
        let pause: u128 = self.backoff * factor;
        if pause <= MAX_PAUSE {
            pause
        } else {
            MAX_PAUSE
        }
    }
}

/// Whether a fresh connection may mend a failed transfer.
pub open spec fn transfer_retried(e: TransferError) -> bool {
    match e {
        TransferError::Timeout => true,
        TransferError::Io(kind) => kind == IoKind::ConnectionAborted || kind
            == IoKind::ConnectionRefused || kind == IoKind::ConnectionReset || kind
            == IoKind::BrokenPipe || kind == IoKind::UnexpectedEof || kind == IoKind::TimedOut
            || kind == IoKind::NotConnected || kind == IoKind::NetworkUnreachable || kind
            == IoKind::HostUnreachable,
        _ => false,
    }
}

/// Whether a failed connection attempt may succeed if made again.
pub open spec fn connect_retried(e: ConnectError) -> bool {
    match e {
        ConnectError::Authentication(kind) => kind == IoKind::TimedOut || kind
            == IoKind::ConnectionRefused || kind == IoKind::ConnectionAborted || kind
            == IoKind::ConnectionReset || kind == IoKind::UnexpectedEof,
        ConnectError::PeerNotFound => true,
        ConnectError::SignalingTimedOut => true,
        ConnectError::DirectUnavailable => true,
        ConnectError::Deadline => true,
        ConnectError::Busy => true,
        ConnectError::Socket(_) => true,
        ConnectError::Dht(d) => d == DhtError::NetworkChanged || d == DhtError::TimedOut || d
            == DhtError::NoPeers,
        _ => false,
    }
}

/// Whether a failure is worth another attempt.
pub open spec fn retried(e: RecoveryError) -> bool {
    match e {
        RecoveryError::Connection(c) => connect_retried(c),
        RecoveryError::Transfer(t) => transfer_retried(t),
        _ => false,
    }
}

/// Whether a fresh connection may mend a failed transfer.
pub fn retry_transfer(e: &TransferError) -> (r: bool)
    ensures
        r == transfer_retried(*e),
{
    match e {
        TransferError::Timeout => true,
        TransferError::Io(kind) => match kind {
            IoKind::ConnectionAborted => true,
            IoKind::ConnectionRefused => true,
            IoKind::ConnectionReset => true,
            IoKind::BrokenPipe => true,
            IoKind::UnexpectedEof => true,
            IoKind::TimedOut => true,
            IoKind::NotConnected => true,
            IoKind::NetworkUnreachable => true,
            IoKind::HostUnreachable => true,
            _ => false,
        },
        _ => false,
    }
}

/// Whether a failed connection attempt may succeed if made again.
pub fn retry_connect(e: &ConnectError) -> (r: bool)
    ensures
        r == connect_retried(*e),
{
    match e {
        ConnectError::Authentication(kind) => match kind {
            IoKind::TimedOut => true,
            IoKind::ConnectionRefused => true,
            IoKind::ConnectionAborted => true,
            IoKind::ConnectionReset => true,
            IoKind::UnexpectedEof => true,
            _ => false,
        },
        ConnectError::PeerNotFound => true,
        ConnectError::SignalingTimedOut => true,
        ConnectError::DirectUnavailable => true,
        ConnectError::Deadline => true,
        ConnectError::Busy => true,
        ConnectError::Socket(_) => true,
        ConnectError::Dht(d) => match d {
            DhtError::NetworkChanged => true,
            DhtError::TimedOut => true,
            DhtError::NoPeers => true,
            _ => false,
        },
        _ => false,
    }
}

/// A [`Recovery`] as a mathematical value.
pub struct RecoveryView {
    /// The policy.
    pub policy: RecoveryConfig,
    /// The attempt under way, the first being number 0.
    pub attempt: nat,
}

/// Whether an attempt that failed is followed by another.
pub open spec fn goes_on(v: RecoveryView, e: RecoveryError) -> bool {
    retried(e) && v.attempt + 1 < v.policy.attempts
}

/// A recovery under way.
#[derive(Debug, Clone, Copy)]
pub struct Recovery {
    policy: RecoveryConfig,
    attempt: usize,
}

impl View for Recovery {
    type V = RecoveryView;

    closed spec fn view(&self) -> RecoveryView {
        RecoveryView { policy: self.policy, attempt: self.attempt as nat }
    }
}

impl Recovery {
    /// The policy is valid, and allows the attempt under way.
    pub open spec fn wf(&self) -> bool {
        self@.policy.is_valid() && self@.attempt < self@.policy.attempts
    }

    /// Begin, if the policy can be used.
    pub fn start(policy: RecoveryConfig) -> (r: Result<Self, RecoveryError>)
        ensures
            match r {
                Ok(s) => policy.is_valid() && s.wf() && s@ == (RecoveryView { policy, attempt: 0 }),
                Err(e) => !policy.is_valid() && e == RecoveryError::InvalidConfig,
            },
    {
        match policy.validate() {
            Ok(policy) => Ok(Recovery { policy, attempt: 0 }),
            Err(e) => Err(e),
        }
    }

    /// The attempt under way failed: how long to pause before the next, or `None`
    /// if there is none and the failure is final.
    pub fn on_failure(&mut self, e: &RecoveryError) -> (r: Option<u128>)
        requires
            old(self).wf(),
        ensures
            final(self).wf(),
            if goes_on(old(self)@, *e) {
                r is Some && r->Some_0 == old(self)@.policy.pause_after(old(self)@.attempt)
                    && final(self)@ == (RecoveryView {
                    attempt: old(self)@.attempt + 1,
                    ..old(self)@
                })
            } else {
                r is None && final(self)@ == old(self)@
            },
    {
        let retry: bool = match e {
            RecoveryError::Connection(c) => retry_connect(c),
            RecoveryError::Transfer(t) => retry_transfer(t),
            _ => false,
        };
        if !retry || self.attempt + 1 == self.policy.attempts {
            return None;
        }
        let pause: u128 = self.policy.pause(self.attempt);
        self.attempt += 1;
        Some(pause)
    }

    /// How much time is left once `elapsed` nanoseconds have gone by.
    pub fn remaining(&self, elapsed: u128) -> (r: Result<u128, RecoveryError>)
        ensures
            r == (if elapsed < self@.policy.deadline {
                Ok::<u128, RecoveryError>((self@.policy.deadline - elapsed) as u128)
            } else {
                Err(RecoveryError::Deadline)
            }),
    {
        if elapsed < self.policy.deadline {
            Ok(self.policy.deadline - elapsed)
        } else {
            Err(RecoveryError::Deadline)
        }
    }
}

/// What failed to verify is not retried, nor is a peer that proved to be another.
pub proof fn law_verification_failures_are_final(v: RecoveryView, e: crate::sync_msg::SyncError)
    ensures
        !goes_on(v, RecoveryError::Transfer(TransferError::Sync(e))),
        !goes_on(
            v,
            RecoveryError::Connection(ConnectError::Authentication(IoKind::PermissionDenied)),
        ),
        !goes_on(v, RecoveryError::Connection(ConnectError::Authentication(IoKind::InvalidData))),
        !goes_on(v, RecoveryError::Connection(ConnectError::Unauthorized)),
        !goes_on(v, RecoveryError::Connection(ConnectError::InvalidCandidates)),
{
}

/// Each pause is at least as long as the one before, and at most the longest.
pub proof fn law_pauses_grow(policy: RecoveryConfig, a: nat, b: nat)
    requires
        a <= b,
    ensures
        policy.pause_after(a) <= policy.pause_after(b) <= MAX_PAUSE,
{
    let x = if a <= MAX_DOUBLINGS {
        a
    } else {
        MAX_DOUBLINGS as nat
    };
    let y = if b <= MAX_DOUBLINGS {
        b
    } else {
        MAX_DOUBLINGS as nat
    };
    if x < y {
        lemma_pow2_strictly_increases(x, y);
    }
    assert(policy.backoff * doublings(a) <= policy.backoff * doublings(b)) by (nonlinear_arith)
        requires
            doublings(a) <= doublings(b),
            policy.backoff >= 0,
    ;
}

/// No attempt is made beyond those that the policy allows, whatever fails.
pub proof fn law_attempts_run_out(v: RecoveryView, e: RecoveryError)
    requires
        v.attempt + 1 >= v.policy.attempts,
    ensures
        !goes_on(v, e),
{
}

/// Progress of the recovery from changes of the local network.
#[derive(Debug, Clone, PartialEq, Eq)]
pub enum NetworkStatus {
    /// No change has been reported.
    Idle,
    /// A change is being recovered from.
    Recovering,
    /// Recovered, and bound to this address.
    Ready(SocketAddr),
    /// The last attempt failed, for this reason.
    Failed(String),
}

/// The recovery from changes of the local network.
#[derive(Debug, Clone, Copy)]
pub struct NetworkWatch {
    /// The address to bind to.
    pub address: SocketAddr,
    /// How many attempts in a row have failed.
    pub failures: u32,
}

/// Check that changes may be watched with this many nodes to start from.
pub fn may_watch(seeds: usize) -> (r: Result<(), ConnectError>)
    ensures
        r == (if seeds > MAX_SEEDS {
            Err::<(), ConnectError>(ConnectError::InvalidConfig)
        } else {
            Ok(())
        }),
{
    if seeds > MAX_SEEDS {
        Err(ConnectError::InvalidConfig)
    } else {
        Ok(())
    }
}

impl NetworkWatch {
    /// A change was reported: it supersedes whatever was being tried.
    pub fn on_change(address: SocketAddr) -> (r: (Self, NetworkStatus))
        ensures
            r.0 == (NetworkWatch { address, failures: 0 }),
            r.1 is Recovering,
    {
        (NetworkWatch { address, failures: 0 }, NetworkStatus::Recovering)
    }

    /// An attempt succeeded.
    pub fn on_bound(&self, bound: SocketAddr) -> (r: NetworkStatus)
        ensures
            r == NetworkStatus::Ready(bound),
    {
        NetworkStatus::Ready(bound)
    }

    /// An attempt failed: what to report, and how long to wait before the next.
    pub fn on_failed(&mut self, reason: String) -> (r: (NetworkStatus, u128))
        ensures
            r.0 == NetworkStatus::Failed(reason),
            r.1 == SECOND * doublings(old(self).failures as nat),
            *final(self) == (NetworkWatch {
                failures: if old(self).failures < u32::MAX {
                    (old(self).failures + 1) as u32
                } else {
                    u32::MAX
                },
                ..*old(self)
            }),
    {
        let n: usize = if self.failures < 5 {
            self.failures as usize
        } else {
            5
        };
        let factor: u128 = doubled(n);
        proof {
            lemma2_to64();
            if n < 5 {
                lemma_pow2_strictly_increases(n as nat, 5);
            }
        }
        if self.failures < u32::MAX {
            self.failures += 1;
        }
        (NetworkStatus::Failed(reason), SECOND * factor)
    }
}

/// A transfer whose connection is lost, in whatever way, or that is not answered, goes
/// on over a fresh connection while an attempt is left; a channel that failed in any
/// other way ends it.
pub proof fn law_lost_connection_is_retried(v: RecoveryView, kind: IoKind)
    requires
        v.attempt + 1 < v.policy.attempts,
    ensures
        goes_on(v, RecoveryError::Transfer(TransferError::Timeout)),
        goes_on(v, RecoveryError::Transfer(TransferError::Io(kind))) <==> match kind {
            IoKind::ConnectionAborted | IoKind::ConnectionRefused => true,
            IoKind::ConnectionReset | IoKind::BrokenPipe | IoKind::UnexpectedEof => true,
            IoKind::TimedOut | IoKind::NotConnected => true,
            IoKind::NetworkUnreachable | IoKind::HostUnreachable => true,
            IoKind::InvalidData | IoKind::InvalidInput => false,
            IoKind::PermissionDenied | IoKind::Other => false,
        },
{
}

/// A connection attempt that failed because the peer was not reached in time, or not
/// found, or the network changed, is made again while an attempt is left.
pub proof fn law_unreached_peer_is_tried_again(v: RecoveryView, kind: IoKind, n: u64)
    requires
        v.attempt + 1 < v.policy.attempts,
    ensures
        goes_on(v, RecoveryError::Connection(ConnectError::PeerNotFound)),
        goes_on(v, RecoveryError::Connection(ConnectError::SignalingTimedOut)),
        goes_on(v, RecoveryError::Connection(ConnectError::DirectUnavailable)),
        goes_on(v, RecoveryError::Connection(ConnectError::Deadline)),
        goes_on(v, RecoveryError::Connection(ConnectError::Busy)),
        goes_on(v, RecoveryError::Connection(ConnectError::Socket(kind))),
        goes_on(v, RecoveryError::Connection(ConnectError::Dht(DhtError::NetworkChanged))),
        goes_on(v, RecoveryError::Connection(ConnectError::Dht(DhtError::TimedOut))),
        goes_on(v, RecoveryError::Connection(ConnectError::Dht(DhtError::NoPeers))),
        goes_on(v, RecoveryError::Connection(ConnectError::Authentication(kind))) <==> match kind {
            IoKind::TimedOut | IoKind::ConnectionRefused | IoKind::ConnectionAborted => true,
            IoKind::ConnectionReset | IoKind::UnexpectedEof => true,
            _ => false,
        },
        !goes_on(v, RecoveryError::Deadline),
        !goes_on(v, RecoveryError::InvalidConfig),
        !goes_on(v, RecoveryError::Connection(ConnectError::Dht(DhtError::Closed))),
        !goes_on(v, RecoveryError::Connection(ConnectError::Dht(DhtError::EventsLagged(n)))),
        !goes_on(v, RecoveryError::Connection(ConnectError::InvalidConfig)),
{
}

/// The first pause is the one the policy asks for, each one after it is twice as long,
/// and none is longer than the longest.
pub proof fn law_pauses_double(policy: RecoveryConfig, n: nat)
    ensures
        policy.pause_after(0) == if policy.backoff <= MAX_PAUSE {
            policy.backoff as nat
        } else {
            MAX_PAUSE as nat
        },
        n < MAX_DOUBLINGS ==> policy.pause_after(n + 1) == if 2 * policy.pause_after(n)
            <= MAX_PAUSE {
            2 * policy.pause_after(n)
        } else {
            MAX_PAUSE as nat
        },
        n >= MAX_DOUBLINGS ==> policy.pause_after(n) == policy.pause_after(MAX_DOUBLINGS as nat),
{
    lemma2_to64();
    assert(policy.backoff * 1 == policy.backoff);
    if n < MAX_DOUBLINGS {
        vstd::arithmetic::power2::lemma_pow2_unfold(n + 1);
        assert(doublings(n + 1) == 2 * doublings(n));
        assert(policy.backoff * (2 * doublings(n)) == 2 * (policy.backoff * doublings(n)))
            by (nonlinear_arith);
    }
}

/// A failure that calls for another attempt is answered with the pause before it, and
/// counts one attempt; any other ends the recovery and counts none.
pub proof fn law_failure_costs_an_attempt(
    recovery: &mut Recovery,
    e: RecoveryError,
    r: Option<u128>,
)
    requires
        call_ensures(Recovery::on_failure, (recovery, &e), r),
    ensures
        r is Some <==> goes_on(old(recovery)@, e),
        final(recovery)@.policy == old(recovery)@.policy,
        final(recovery)@.attempt == old(recovery)@.attempt + if r is Some {
            1nat
        } else {
            0
        },
        r matches Some(pause) ==> pause == old(recovery)@.policy.pause_after(
            old(recovery)@.attempt,
        ) && pause <= MAX_PAUSE,
{
}

/// The time left and the time spent make up the deadline; once it is reached none is left.
pub proof fn law_time_runs_out(
    recovery: Recovery,
    elapsed: u128,
    r: Result<u128, RecoveryError>,
)
    requires
        call_ensures(Recovery::remaining, (&recovery, elapsed), r),
    ensures
        r is Ok <==> elapsed < recovery@.policy.deadline,
        r matches Ok(left) ==> left + elapsed == recovery@.policy.deadline,
        r matches Err(e) ==> e == RecoveryError::Deadline,
{
}

/// A network that does not come back is tried again after a second, and each time after
/// twice as long, up to the longest pause.
pub proof fn law_network_pauses_double(
    first: &mut NetworkWatch,
    second: &mut NetworkWatch,
    reason: String,
    another: String,
    r: (NetworkStatus, u128),
    s: (NetworkStatus, u128),
)
    requires
        call_ensures(NetworkWatch::on_failed, (first, reason), r),
        call_ensures(NetworkWatch::on_failed, (second, another), s),
        *old(second) == *final(first),
    ensures
        old(first).failures == 0 ==> r.1 == SECOND,
        old(first).failures < MAX_DOUBLINGS ==> s.1 == 2 * r.1,
        old(first).failures >= MAX_DOUBLINGS ==> s.1 == r.1,
        final(first).address == old(first).address,
        r.0 == NetworkStatus::Failed(reason),
{
    lemma2_to64();
    let n = old(first).failures as nat;
    if n < MAX_DOUBLINGS {
        vstd::arithmetic::power2::lemma_pow2_unfold(n + 1);
    }
}

} // verus!
