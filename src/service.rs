use vstd::prelude::*;

use crate::ranges::HashPrefix;

verus! {

/// Physical attempts that one request gets unless told otherwise.
pub const DEFAULT_ATTEMPT_BUDGET: usize = 10;

/// Requests in flight at once unless told otherwise.
pub const DEFAULT_CONCURRENCY: u64 = 1000;

/// Retry policy of one logical request: the number of retries still left
/// after the attempt in progress.
#[derive(Clone, Copy, Debug, PartialEq, Eq, Structural)]
pub struct Attempts(pub usize);

/// What the policy holding `left` retries does after an attempt: `None` to
/// hand the result to the caller, or the policy for the next attempt.
pub open spec fn spec_retry(left: nat, succeeded: bool) -> Option<nat> {
    if succeeded || left == 0 {
        None
    } else {
        Some((left - 1) as nat)
    }
}

/// A request under the policy holding `left` retries, against a fetcher whose
/// attempt number `i` succeeds exactly when `ok(i)`, starting at attempt
/// `i`: whether it ends in success, and after how many attempts in all.
pub open spec fn spec_run(left: nat, ok: spec_fn(nat) -> bool, i: nat) -> (bool, nat)
    decreases left,
{
    if ok(i) {
        (true, i + 1)
    } else {
        match spec_retry(left, false) {
            Some(next) => if next < left {
                spec_run(next, ok, i + 1)
            } else {
                (false, i + 1)
            },
            None => (false, i + 1),
        }
    }
}

impl Attempts {
    /// The policy of a fresh request that may make `max_attempts` attempts.
    pub fn with_budget(max_attempts: usize) -> (r: Attempts)
        requires
            max_attempts >= 1,
        ensures
            r.0 == max_attempts - 1,
    {
        Attempts(max_attempts - 1)
    }

    /// Decides after an attempt: a success is accepted as it is; a failure is
    /// tried again, with one retry fewer, while retries are left.
    pub fn retry(&self, succeeded: bool) -> (r: Option<Attempts>)
        ensures
            r == (match spec_retry(self.0 as nat, succeeded) {
                Some(n) => Some(Attempts(n as usize)),
                None => None::<Attempts>,
            }),
    {
        if succeeded {
            None
        } else if self.0 > 0 {
            Some(Attempts(self.0 - 1))
        } else {
            None
        }
    }

    /// The request to send again: the same shard key.
    pub fn clone_request(&self, req: &HashPrefix) -> (r: Option<HashPrefix>)
        ensures
            r == Some(*req),
    {
        Some(*req)
    }
}

proof fn lemma_run_fails_then_succeeds(left: nat, ok: spec_fn(nat) -> bool, i: nat, k: nat)
    requires
        k <= left,
        forall|j: nat| i <= j < i + k ==> !#[trigger] ok(j),
        ok(i + k),
    ensures
        spec_run(left, ok, i) == (true, i + k + 1),
    decreases k,
{
    if k > 0 {
        lemma_run_fails_then_succeeds((left - 1) as nat, ok, i + 1, (k - 1) as nat);
    }
}

proof fn lemma_run_always_fails(left: nat, ok: spec_fn(nat) -> bool, i: nat)
    requires
        forall|j: nat| i <= j ==> !#[trigger] ok(j),
    ensures
        spec_run(left, ok, i) == (false, i + left + 1),
    decreases left,
{
    assert(!ok(i));
    if left > 0 {
        lemma_run_always_fails((left - 1) as nat, ok, i + 1);
    }
}

/// A request with a budget of `max_attempts` against a fetcher that fails
/// exactly `k` times, with `k` below the budget, and then succeeds, succeeds
/// after exactly `k + 1` attempts.
pub proof fn lemma_retry_succeeds_after_failures(
    max_attempts: nat,
    ok: spec_fn(nat) -> bool,
    k: nat,
)
    requires
        k < max_attempts,
        forall|j: nat| j < k ==> !#[trigger] ok(j),
        ok(k),
    ensures
        spec_run((max_attempts - 1) as nat, ok, 0) == (true, k + 1),
{
    lemma_run_fails_then_succeeds((max_attempts - 1) as nat, ok, 0, k);
}

/// A request with a budget of `max_attempts` against a fetcher that always
/// fails gives up after exactly `max_attempts` attempts.
pub proof fn lemma_retry_gives_up(max_attempts: nat, ok: spec_fn(nat) -> bool)
    requires
        max_attempts >= 1,
        forall|j: nat| !#[trigger] ok(j),
    ensures
        spec_run((max_attempts - 1) as nat, ok, 0) == (false, max_attempts),
{
    lemma_run_always_fails((max_attempts - 1) as nat, ok, 0);
}

} // verus!
