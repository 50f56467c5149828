use crate::utils::{sat_add, sat_add_spec};
use vstd::prelude::*;

verus! {

/// Where one retrying fetch stands: an attempt is out, the fetch sleeps
/// until a deadline before its next attempt, or it is finished.
#[derive(Debug, Clone, Copy)]
pub enum RetryPhase {
    InFlight,
    Backoff { resume_at: u64 },
    Done,
}

/// The wait before the next attempt, after `attempts` attempts have
/// failed: the schedule entry of the last failed attempt, clamped to the
/// schedule's last entry, or zero where the schedule is empty.
pub open spec fn backoff_spec(schedule: Seq<u64>, attempts: nat) -> u64
    recommends
        attempts >= 1,
{
    if schedule.len() == 0 {
        0
    } else if attempts - 1 < schedule.len() {
        schedule[attempts - 1]
    } else {
        schedule.last()
    }
}

/// One descriptor's fetch under a bounded retry budget: attempts are
/// counted, a failed attempt schedules a backoff sleep, and the outcome
/// is recorded once, success or not.
#[derive(Debug)]
pub struct RetryFetcher<T> {
    pub max_attempts: u8,
    pub backoff_ms: Vec<u64>,
    pub attempts: u8,
    pub phase: RetryPhase,
    pub outcome: Option<T>,
}

impl<T> RetryFetcher<T> {
    /// What every reachable state satisfies.
    pub open spec fn wf(self) -> bool {
        &&& self.max_attempts >= 1
        &&& 1 <= self.attempts <= self.max_attempts
        &&& (self.phase is Backoff ==> self.attempts < self.max_attempts)
        &&& (!(self.phase is Done) ==> self.outcome is None)
    }

    /// Start the fetch: the first attempt goes out at once.
    pub fn start(max_attempts: u8, backoff_ms: Vec<u64>) -> (f: Self)
        requires
            max_attempts >= 1,
        ensures
            f.wf(),
            f == (RetryFetcher {
                max_attempts,
                backoff_ms,
                attempts: 1u8,
                phase: RetryPhase::InFlight,
                outcome: None::<T>,
            }),
    {
        RetryFetcher {
            max_attempts,
            backoff_ms,
            attempts: 1,
            phase: RetryPhase::InFlight,
            outcome: None,
        }
    }

    /// The outstanding attempt came back with a value: the fetch is done
    /// at once, and no further attempt is made.
    pub fn on_success(&mut self, value: T)
        requires
            old(self).wf(),
            old(self).phase is InFlight,
        ensures
            final(self).wf(),
            *final(self) == (RetryFetcher {
                phase: RetryPhase::Done,
                outcome: Some(value),
                ..*old(self)
            }),
    {
        self.phase = RetryPhase::Done;
        self.outcome = Some(value);
    }

    /// The outstanding attempt failed. With budget left, the fetch backs
    /// off until `now` plus the scheduled wait; with the budget spent, it
    /// is done, with no value.
    pub fn on_failure(&mut self, now: u64)
        requires
            old(self).wf(),
            old(self).phase is InFlight,
        ensures
            final(self).wf(),
            old(self).attempts == old(self).max_attempts ==> *final(self) == (RetryFetcher {
                phase: RetryPhase::Done,
                ..*old(self)
            }),
            old(self).attempts < old(self).max_attempts ==> *final(self) == (RetryFetcher {
                phase: RetryPhase::Backoff {
                    resume_at: sat_add_spec(
                        now,
                        backoff_spec(old(self).backoff_ms@, old(self).attempts as nat),
                    ),
                },
                ..*old(self)
            }),
    {
        if self.attempts == self.max_attempts {
            self.phase = RetryPhase::Done;
        } else {
            let wait = self.backoff_wait();
            let resume_at = sat_add(now, wait);
            self.phase = RetryPhase::Backoff { resume_at };
        }
    }

    /// The wait the schedule asks for after this many failed attempts.
    pub fn backoff_wait(&self) -> (w: u64)
        requires
            self.attempts >= 1,
        ensures
            w == backoff_spec(self.backoff_ms@, self.attempts as nat),
    {
        let n = self.backoff_ms.len();
        if n == 0 {
            0
        } else if (self.attempts as usize) - 1 < n {
            self.backoff_ms[(self.attempts as usize) - 1]
        } else {
            self.backoff_ms[n - 1]
        }
    }

    /// The backoff deadline has passed: the next attempt goes out.
    pub fn begin_retry(&mut self, now: u64)
        requires
            old(self).wf(),
            old(self).phase matches RetryPhase::Backoff { resume_at } && now >= resume_at,
        ensures
            final(self).wf(),
            *final(self) == (RetryFetcher {
                attempts: (old(self).attempts + 1) as u8,
                phase: RetryPhase::InFlight,
                ..*old(self)
            }),
    {
        self.attempts = self.attempts + 1;
        self.phase = RetryPhase::InFlight;
    }

    /// Whether the fetch has finished, by success or a spent budget.
    pub fn is_done(&self) -> (b: bool)
        ensures
            b == (self.phase is Done),
    {
        match self.phase {
            RetryPhase::Done => true,
            _ => false,
        }
    }

    /// The recorded outcome of a finished fetch.
    pub fn into_outcome(self) -> (r: Option<T>)
        requires
            self.phase is Done,
        ensures
            r == self.outcome,
    {
        self.outcome
    }
}

/// The first `k` entries of the script are failures.
pub open spec fn fails_before<T>(script: Seq<Option<T>>, k: int) -> bool {
    forall|j: int| 0 <= j < k ==> (#[trigger] script[j]) is None
}

/// What a retry run owes: where the script's first success stands at `k`
/// within the budget, the run returns that value after exactly `k + 1`
/// attempts; where every attempt in the budget fails, it returns nothing
/// after exactly `max_attempts` attempts.
pub open spec fn retry_outcome_matches<T>(
    script: Seq<Option<T>>,
    max_attempts: nat,
    outcome: Option<T>,
    attempts: nat,
) -> bool {
    &&& (forall|k: int|
        0 <= k < max_attempts && (#[trigger] script[k]) is Some && fails_before(script, k)
            ==> outcome == script[k] && attempts == k + 1)
    &&& (fails_before(script, max_attempts as int) ==> (outcome is None && attempts
        == max_attempts))
}

/// What a retry run's value owes, said without the attempt count: the
/// script's first success within the budget comes back, and a script that
/// fails the whole budget yields nothing.
pub open spec fn retry_value_matches<T>(
    script: Seq<Option<T>>,
    max_attempts: nat,
    outcome: Option<T>,
) -> bool {
    &&& (forall|k: int|
        0 <= k < max_attempts && (#[trigger] script[k]) is Some && fails_before(script, k)
            ==> outcome == script[k])
    &&& (fails_before(script, max_attempts as int) ==> outcome is None)
}

/// The retrying fetcher run against a scripted transport: entry `i` of the
/// script is what attempt `i + 1` returns. The run stops at the first
/// success and consults no entry past the attempt budget.
pub fn run_with_script<T>(
    max_attempts: u8,
    backoff_ms: Vec<u64>,
    script: Vec<Option<T>>,
    start_ms: u64,
) -> (r: (Option<T>, u8))
    requires
        max_attempts >= 1,
        script@.len() >= max_attempts,
    ensures
        retry_outcome_matches(script@, max_attempts as nat, r.0, r.1 as nat),
{
    let ghost script0 = script@;
    let mut fetcher = RetryFetcher::<T>::start(max_attempts, backoff_ms);
    let mut script = script;
    let mut now = start_ms;
    loop
        invariant
            fetcher.wf(),
            fetcher.max_attempts == max_attempts,
            max_attempts <= script0.len(),
            fetcher.phase is InFlight || fetcher.phase is Done,
            fetcher.phase is InFlight ==> {
                &&& script@ =~= script0.skip(fetcher.attempts as int - 1)
                &&& fails_before(script0, fetcher.attempts as int - 1)
            },
            fetcher.phase is Done ==> retry_outcome_matches(
                script0,
                max_attempts as nat,
                fetcher.outcome,
                fetcher.attempts as nat,
            ),
        ensures
            fetcher.phase is Done,
            retry_outcome_matches(
                script0,
                max_attempts as nat,
                fetcher.outcome,
                fetcher.attempts as nat,
            ),
        decreases script@.len(),
    {
        if fetcher.is_done() {
            break ;
        }
        let ghost pre = fetcher;
        let ghost a = pre.attempts as int;
        assert(script@.len() > 0);
        let o = script.remove(0);
        proof {
            assert(o == script0[a - 1]);
            assert(script@ =~= script0.skip(a));
        }
        match o {
            Some(v) => {
                fetcher.on_success(v);
                proof {
                    assert forall|k: int|
                        0 <= k < max_attempts && (#[trigger] script0[k]) is Some && fails_before(
                            script0,
                            k,
                        ) implies fetcher.outcome == script0[k] && fetcher.attempts == k + 1 by {
                        if k < a - 1 {
                            assert(script0[k] is None);
                        }
                        if k > a - 1 {
                            assert(script0[a - 1] is None);
                        }
                        assert(k == a - 1);
                    }
                    assert(!fails_before(script0, max_attempts as int)) by {
                        assert(script0[a - 1] is Some);
                    }
                }
            },
            None => {
                fetcher.on_failure(now);
                if !fetcher.is_done() {
                    let deadline = match fetcher.phase {
                        RetryPhase::Backoff { resume_at } => resume_at,
                        _ => 0,
                    };
                    now = deadline;
                    fetcher.begin_retry(now);
                    proof {
                        assert forall|j: int|
                            0 <= j < fetcher.attempts as int - 1 implies (#[trigger] script0[j])
                            is None by {
                            if j < a - 1 {
                            } else {
                                assert(j == a - 1);
                            }
                        }
                    }
                } else {
                    proof {
                        assert(fetcher.attempts == max_attempts);
                        assert forall|j: int|
                            0 <= j < max_attempts implies (#[trigger] script0[j]) is None by {
                            if j < a - 1 {
                            } else {
                                assert(j == a - 1);
                            }
                        }
                        assert forall|k: int|
                            0 <= k < max_attempts && (#[trigger] script0[k]) is Some
                                && fails_before(script0, k) implies fetcher.outcome == script0[k]
                            && fetcher.attempts == k + 1 by {
                            assert(script0[k] is None);
                        }
                    }
                }
            },
        }
    }
    let attempts = fetcher.attempts;
    let outcome = fetcher.into_outcome();
    (outcome, attempts)
}

} // verus!
