use crate::retry::{backoff_spec, fails_before, retry_value_matches, RetryFetcher, RetryPhase};
use crate::utils::sat_add_spec;
use vstd::arithmetic::mul::{
    lemma_mul_inequality, lemma_mul_is_commutative, lemma_mul_is_distributive_sub,
};
use vstd::prelude::*;
use vstd::std_specs::vec::vec_index_mut;

verus! {

/// The tuning of one batch run: the retry budget per descriptor, the
/// minimum spacing between admissions, the concurrency cap, and the
/// backoff schedule between retry attempts.
#[derive(Debug, Clone)]
pub struct BatchConfig {
    pub max_attempts: u8,
    pub min_spacing_ms: u64,
    pub max_concurrent: usize,
    pub backoff_ms: Vec<u64>,
}

impl BatchConfig {
    pub open spec fn wf(self) -> bool {
        self.max_attempts >= 1 && self.max_concurrent >= 1
    }
}

impl Default for BatchConfig {
    /// The compiled-in defaults: five attempts per descriptor, 1500 ms
    /// between admissions, five fetches in flight, escalating backoff.
    fn default() -> (c: Self)
        ensures
            c.wf(),
            c.max_attempts == 5,
            c.min_spacing_ms == 1500,
            c.max_concurrent == 5,
            c.backoff_ms@ =~= seq![1200u64, 3000u64, 6000u64, 9000u64],
    {
        let mut backoff_ms: Vec<u64> = Vec::new();
        backoff_ms.push(1200);
        backoff_ms.push(3000);
        backoff_ms.push(6000);
        backoff_ms.push(9000);
        BatchConfig { max_attempts: 5, min_spacing_ms: 1500, max_concurrent: 5, backoff_ms }
    }
}

/// How many of the fetches are still unresolved.
pub open spec fn active_count<T>(s: Seq<RetryFetcher<T>>) -> nat
    decreases s.len(),
{
    if s.len() == 0 {
        0
    } else {
        active_count(s.drop_last()) + (if s.last().phase is Done {
            0nat
        } else {
            1nat
        })
    }
}

/// Successive instants are at least `spacing` apart.
pub open spec fn paced(times: Seq<u64>, spacing: u64) -> bool {
    forall|k: int| 0 <= k < times.len() - 1 ==> #[trigger] times[k] + spacing <= times[k + 1]
}

proof fn lemma_active_count_push<T>(s: Seq<RetryFetcher<T>>, f: RetryFetcher<T>)
    ensures
        active_count(s.push(f)) == active_count(s) + (if f.phase is Done {
            0nat
        } else {
            1nat
        }),
{
    assert(s.push(f).drop_last() =~= s);
}

proof fn lemma_active_count_update<T>(s: Seq<RetryFetcher<T>>, i: int, f: RetryFetcher<T>)
    requires
        0 <= i < s.len(),
    ensures
        active_count(s.update(i, f)) == active_count(s) - (if s[i].phase is Done {
            0nat
        } else {
            1nat
        }) + (if f.phase is Done {
            0nat
        } else {
            1nat
        }),
    decreases s.len(),
{
    if i == s.len() - 1 {
        assert(s.update(i, f).drop_last() =~= s.drop_last());
        assert(s.update(i, f).last() == f);
    } else {
        lemma_active_count_update(s.drop_last(), i, f);
        assert(s.update(i, f).drop_last() =~= s.drop_last().update(i, f));
        assert(s.update(i, f).last() == s.last());
        assert(s.drop_last()[i] == s[i]);
    }
}

/// No fetch is unresolved exactly when every fetch is done.
pub proof fn lemma_active_count_zero<T>(s: Seq<RetryFetcher<T>>)
    ensures
        active_count(s) == 0 <==> (forall|i: int| 0 <= i < s.len() ==> (#[trigger] s[i]).phase
            is Done),
    decreases s.len(),
{
    if s.len() > 0 {
        lemma_active_count_zero(s.drop_last());
        if active_count(s) == 0 {
            assert forall|i: int| 0 <= i < s.len() implies (#[trigger] s[i]).phase is Done by {
                if i < s.len() - 1 {
                    assert(s.drop_last()[i] == s[i]);
                } else {
                    assert(s.last() == s[i]);
                }
            }
        } else {
            if forall|i: int| 0 <= i < s.len() ==> (#[trigger] s[i]).phase is Done {
                assert forall|i: int| 0 <= i < s.drop_last().len() implies (#[trigger] s.drop_last(
                )[i]).phase is Done by {
                    assert(s.drop_last()[i] == s[i]);
                }
                assert(s.last().phase is Done);
            }
        }
    }
}

/// Drives one batch of descriptors. Descriptors are admitted in
/// submission order, one fetcher per descriptor; admission is gated by
/// the pacing interval and the concurrency cap; each delivered outcome
/// lands in its own descriptor's slot, whatever order completions come
/// in; the batch is complete only when every descriptor has resolved.
#[derive(Debug)]
pub struct Orchestrator<T> {
    pub config: BatchConfig,
    pub total: usize,
    pub fetchers: Vec<RetryFetcher<T>>,
    pub admission_times: Vec<u64>,
    pub in_flight: usize,
}

impl<T> Orchestrator<T> {
    /// What every reachable state satisfies: one admission time per
    /// admitted descriptor, well-formed fetchers carrying the batch's own
    /// budget and schedule, an exact count of unresolved fetches that
    /// never passes the concurrency cap, and paced admission times.
    pub open spec fn wf(self) -> bool {
        &&& self.config.wf()
        &&& self.fetchers@.len() == self.admission_times@.len()
        &&& self.fetchers@.len() <= self.total
        &&& (forall|i: int| 0 <= i < self.fetchers@.len() ==> (#[trigger] self.fetchers@[i]).wf())
        &&& (forall|i: int|
            0 <= i < self.fetchers@.len() ==> (#[trigger] self.fetchers@[i]).max_attempts
                == self.config.max_attempts)
        &&& (forall|i: int|
            0 <= i < self.fetchers@.len() ==> (#[trigger] self.fetchers@[i]).backoff_ms@
                == self.config.backoff_ms@)
        &&& self.in_flight == active_count(self.fetchers@)
        &&& self.in_flight <= self.config.max_concurrent
        &&& paced(self.admission_times@, self.config.min_spacing_ms)
    }

    /// A fresh batch of `total` descriptors, none admitted yet.
    pub fn new(total: usize, config: BatchConfig) -> (o: Self)
        requires
            config.wf(),
        ensures
            o.wf(),
            o.config == config,
            o.total == total,
            o.fetchers@.len() == 0,
            o.admission_times@.len() == 0,
            o.in_flight == 0,
    {
        Orchestrator {
            config,
            total,
            fetchers: Vec::new(),
            admission_times: Vec::new(),
            in_flight: 0,
        }
    }

    /// Whether the next descriptor may start now: some descriptor is
    /// left, a concurrency slot is free, and the pacing interval has
    /// passed since the last admission.
    pub open spec fn can_admit_spec(self, now: u64) -> bool {
        &&& self.fetchers@.len() < self.total
        &&& self.in_flight < self.config.max_concurrent
        &&& (self.admission_times@.len() == 0 || self.admission_times@.last()
            + self.config.min_spacing_ms <= now)
    }

    pub fn can_admit(&self, now: u64) -> (b: bool)
        requires
            self.wf(),
        ensures
            b == self.can_admit_spec(now),
    {
        if self.fetchers.len() >= self.total {
            return false;
        }
        if self.in_flight >= self.config.max_concurrent {
            return false;
        }
        let n = self.admission_times.len();
        if n == 0 {
            return true;
        }
        let last = self.admission_times[n - 1];
        now >= last && now - last >= self.config.min_spacing_ms
    }

    /// Admit the next descriptor at `now`: its fetcher starts with
    /// attempt one in flight, and the admission instant is recorded.
    /// The index handed back is the descriptor's position in the batch.
    pub fn admit_next(&mut self, now: u64) -> (idx: usize)
        requires
            old(self).wf(),
            old(self).can_admit_spec(now),
        ensures
            final(self).wf(),
            idx == old(self).fetchers@.len(),
            final(self).config == old(self).config,
            final(self).total == old(self).total,
            final(self).admission_times@ == old(self).admission_times@.push(now),
            final(self).fetchers@.len() == idx + 1,
            forall|i: int|
                0 <= i < idx ==> final(self).fetchers@[i] == old(self).fetchers@[i],
            final(self).fetchers@[idx as int].attempts == 1,
            final(self).fetchers@[idx as int].phase is InFlight,
            final(self).fetchers@[idx as int].outcome is None,
            final(self).in_flight == old(self).in_flight + 1,
    {
        let idx = self.fetchers.len();
        let backoff = self.config.backoff_ms.clone();
        proof {
            assert forall|i: int|
                0 <= i < self.config.backoff_ms@.len() implies backoff@[i]
                == self.config.backoff_ms@[i] by {}
            assert(backoff@ =~= self.config.backoff_ms@);
        }
        let f = RetryFetcher::start(self.config.max_attempts, backoff);
        proof {
            lemma_active_count_push(self.fetchers@, f);
        }
        self.fetchers.push(f);
        self.admission_times.push(now);
        self.in_flight = self.in_flight + 1;
        proof {
            let times = self.admission_times@;
            assert forall|k: int| 0 <= k < times.len() - 1 implies #[trigger] times[k]
                + self.config.min_spacing_ms <= times[k + 1] by {
                if k < times.len() - 2 {
                    assert(old(self).admission_times@[k] == times[k]);
                    assert(old(self).admission_times@[k + 1] == times[k + 1]);
                } else {
                    assert(times[k] == old(self).admission_times@.last());
                    assert(times[k + 1] == now);
                }
            }
        }
        idx
    }

    /// Descriptor `idx`'s outstanding attempt returned a value: record it
    /// in that slot; every other slot is untouched.
    pub fn deliver_success(&mut self, idx: usize, value: T)
        requires
            old(self).wf(),
            idx < old(self).fetchers@.len(),
            old(self).fetchers@[idx as int].phase is InFlight,
        ensures
            final(self).wf(),
            final(self).config == old(self).config,
            final(self).total == old(self).total,
            final(self).admission_times == old(self).admission_times,
            final(self).fetchers@ == old(self).fetchers@.update(
                idx as int,
                (RetryFetcher {
                    phase: RetryPhase::Done,
                    outcome: Some(value),
                    ..old(self).fetchers@[idx as int]
                }),
            ),
            final(self).in_flight == old(self).in_flight - 1,
    {
        proof {
            lemma_active_count_nonzero(self.fetchers@, idx as int);
        }
        let f = vec_index_mut(&mut self.fetchers, idx);
        f.on_success(value);
        self.in_flight = self.in_flight - 1;
        proof {
            lemma_active_count_update(
                old(self).fetchers@,
                idx as int,
                self.fetchers@[idx as int],
            );
        }
    }

    /// Descriptor `idx`'s outstanding attempt failed at `now`: with
    /// budget left its slot backs off for the scheduled wait, otherwise
    /// it resolves empty; every other slot is untouched.
    pub fn deliver_failure(&mut self, idx: usize, now: u64)
        requires
            old(self).wf(),
            idx < old(self).fetchers@.len(),
            old(self).fetchers@[idx as int].phase is InFlight,
        ensures
            final(self).wf(),
            final(self).config == old(self).config,
            final(self).total == old(self).total,
            final(self).admission_times == old(self).admission_times,
            old(self).fetchers@[idx as int].attempts == old(self).config.max_attempts ==> {
                &&& final(self).fetchers@ == old(self).fetchers@.update(
                    idx as int,
                    (RetryFetcher { phase: RetryPhase::Done, ..old(self).fetchers@[idx as int] }),
                )
                &&& final(self).in_flight == old(self).in_flight - 1
            },
            old(self).fetchers@[idx as int].attempts < old(self).config.max_attempts ==> {
                &&& final(self).fetchers@ == old(self).fetchers@.update(
                    idx as int,
                    (RetryFetcher {
                        phase: RetryPhase::Backoff {
                            resume_at: sat_add_spec(
                                now,
                                backoff_spec(
                                    old(self).config.backoff_ms@,
                                    old(self).fetchers@[idx as int].attempts as nat,
                                ),
                            ),
                        },
                        ..old(self).fetchers@[idx as int]
                    }),
                )
                &&& final(self).in_flight == old(self).in_flight
            },
    {
        proof {
            lemma_active_count_nonzero(self.fetchers@, idx as int);
        }
        let f = vec_index_mut(&mut self.fetchers, idx);
        f.on_failure(now);
        let done = f.is_done();
        if done {
            self.in_flight = self.in_flight - 1;
        }
        proof {
            lemma_active_count_update(
                old(self).fetchers@,
                idx as int,
                self.fetchers@[idx as int],
            );
        }
    }

    /// Descriptor `idx`'s backoff deadline has passed at `now`: its next
    /// attempt goes out; every other slot is untouched. A retry occupies
    /// the slot it already holds, so no admission gate applies.
    pub fn resume(&mut self, idx: usize, now: u64)
        requires
            old(self).wf(),
            idx < old(self).fetchers@.len(),
            old(self).fetchers@[idx as int].phase matches RetryPhase::Backoff { resume_at } && now
                >= resume_at,
        ensures
            final(self).wf(),
            final(self).config == old(self).config,
            final(self).total == old(self).total,
            final(self).admission_times == old(self).admission_times,
            final(self).fetchers@ == old(self).fetchers@.update(
                idx as int,
                (RetryFetcher {
                    attempts: (old(self).fetchers@[idx as int].attempts + 1) as u8,
                    phase: RetryPhase::InFlight,
                    ..old(self).fetchers@[idx as int]
                }),
            ),
            final(self).in_flight == old(self).in_flight,
    {
        let f = vec_index_mut(&mut self.fetchers, idx);
        f.begin_retry(now);
        proof {
            lemma_active_count_update(
                old(self).fetchers@,
                idx as int,
                self.fetchers@[idx as int],
            );
        }
    }

    /// How many descriptors have been admitted so far.
    pub fn admitted(&self) -> (n: usize)
        ensures
            n == self.fetchers@.len(),
    {
        self.fetchers.len()
    }

    /// Whether every descriptor has been admitted and resolved.
    pub fn is_complete(&self) -> (b: bool)
        requires
            self.wf(),
        ensures
            b == (self.fetchers@.len() == self.total && active_count(self.fetchers@) == 0),
    {
        self.fetchers.len() == self.total && self.in_flight == 0
    }

    /// The batch's results, one slot per descriptor, in submission order:
    /// slot `i` holds what descriptor `i`'s fetch recorded, present on
    /// success and absent where the budget was spent.
    pub fn into_results(self) -> (r: Vec<Option<T>>)
        requires
            self.wf(),
            self.fetchers@.len() == self.total,
            active_count(self.fetchers@) == 0,
        ensures
            r@.len() == self.total,
            forall|i: int| 0 <= i < r@.len() ==> r@[i] == self.fetchers@[i].outcome,
    {
        proof {
            lemma_active_count_zero(self.fetchers@);
        }
        let ghost fetchers0 = self.fetchers@;
        let mut fetchers = self.fetchers;
        let mut rev: Vec<Option<T>> = Vec::new();
        while fetchers.len() > 0
            invariant
                fetchers@ =~= fetchers0.take(fetchers0.len() - rev@.len()),
                rev@.len() <= fetchers0.len(),
                forall|i: int|
                    0 <= i < fetchers0.len() ==> (#[trigger] fetchers0[i]).phase is Done,
                forall|i: int|
                    0 <= i < rev@.len() ==> rev@[i] == fetchers0[fetchers0.len() - 1 - i].outcome,
            decreases fetchers@.len(),
        {
            let ghost pre = fetchers@;
            let f = fetchers.pop().unwrap();
            proof {
                assert(pre.last() == fetchers0[fetchers0.len() - 1 - rev@.len()]);
                assert(fetchers@ =~= fetchers0.take(fetchers0.len() - (rev@.len() + 1)));
            }
            rev.push(f.into_outcome());
        }
        let mut r: Vec<Option<T>> = Vec::new();
        while rev.len() > 0
            invariant
                r@.len() + rev@.len() == fetchers0.len(),
                forall|i: int|
                    0 <= i < rev@.len() ==> rev@[i] == fetchers0[fetchers0.len() - 1 - i].outcome,
                forall|i: int| 0 <= i < r@.len() ==> r@[i] == fetchers0[i].outcome,
            decreases rev@.len(),
        {
            let o = rev.pop().unwrap();
            proof {
                assert(rev@.push(o).last() == fetchers0[fetchers0.len() - 1 - (rev@.len()
                    as int)].outcome);
            }
            r.push(o);
        }
        r
    }
}

/// A slot that is not done keeps the count of unresolved fetches positive.
proof fn lemma_active_count_nonzero<T>(s: Seq<RetryFetcher<T>>, i: int)
    requires
        0 <= i < s.len(),
        !(s[i].phase is Done),
    ensures
        active_count(s) >= 1,
    decreases s.len(),
{
    if i == s.len() - 1 {
    } else {
        assert(s.drop_last()[i] == s[i]);
        lemma_active_count_nonzero(s.drop_last(), i);
    }
}

/// Admission pacing: any two recorded admission instants of a well-formed
/// orchestrator are at least the pacing interval apart.
pub proof fn lemma_admissions_paced<T>(o: Orchestrator<T>, j: int, k: int)
    requires
        o.wf(),
        0 <= j < k < o.admission_times@.len(),
    ensures
        o.admission_times@[j] + o.config.min_spacing_ms <= o.admission_times@[k],
    decreases k - j,
{
    if j + 1 == k {
        assert(o.admission_times@[j] + o.config.min_spacing_ms <= o.admission_times@[j + 1]);
    } else {
        lemma_admissions_paced(o, j + 1, k);
        assert(o.admission_times@[j] + o.config.min_spacing_ms <= o.admission_times@[j + 1]);
    }
}


/// The batch run against scripted transports: descriptor `i`'s attempts
/// return the entries of `scripts[i]`, in order. Descriptors are admitted
/// under the pacing gate, and the result holds one slot per descriptor, in
/// submission order, each resolving exactly as its own script dictates:
/// its first success within the attempt budget, or nothing where the whole
/// budget fails.
pub fn run_batch_with_scripts<T>(config: BatchConfig, scripts: Vec<Vec<Option<T>>>) -> (r: Vec<
    Option<T>,
>)
    requires
        config.wf(),
        forall|i: int|
            0 <= i < scripts@.len() ==> (#[trigger] scripts@[i])@.len() >= config.max_attempts,
        scripts@.len() * config.min_spacing_ms <= u64::MAX,
    ensures
        r@.len() == scripts@.len(),
        forall|i: int|
            0 <= i < r@.len() ==> retry_value_matches(
                scripts@[i]@,
                config.max_attempts as nat,
                #[trigger] r@[i],
            ),
{
    let ghost scripts0 = scripts@;
    let max_attempts = config.max_attempts;
    let ghost spacing = config.min_spacing_ms;
    let total = scripts.len();
    let mut orch: Orchestrator<T> = Orchestrator::new(total, config);
    let mut scripts = scripts;
    while orch.admitted() < total
        invariant
            orch.wf(),
            orch.total == total,
            total == scripts0.len(),
            orch.config.max_attempts == max_attempts,
            orch.config.min_spacing_ms == spacing,
            total * spacing <= u64::MAX,
            forall|i: int|
                0 <= i < scripts0.len() ==> (#[trigger] scripts0[i])@.len() >= max_attempts,
            scripts@ =~= scripts0.skip(orch.fetchers@.len() as int),
            orch.in_flight == 0,
            forall|i: int|
                0 <= i < orch.fetchers@.len() ==> (#[trigger] orch.fetchers@[i]).phase is Done,
            forall|i: int|
                0 <= i < orch.fetchers@.len() ==> retry_value_matches(
                    scripts0[i]@,
                    max_attempts as nat,
                    (#[trigger] orch.fetchers@[i]).outcome,
                ),
            orch.admission_times@.len() > 0 ==> orch.admission_times@.last() == (
            orch.admission_times@.len() - 1) * spacing,
        decreases total - orch.fetchers@.len(),
    {
        let admitted = orch.admitted();
        let now: u64 = if admitted == 0 {
            0
        } else {
            let last = orch.admission_times[admitted - 1];
            proof {
                assert(admitted * spacing <= total * spacing) by {
                    lemma_mul_inequality(admitted as int, total as int, spacing as int);
                }
                assert((admitted - 1) * spacing + spacing == admitted * spacing) by {
                    lemma_mul_is_distributive_sub(spacing as int, admitted as int, 1);
                    lemma_mul_is_commutative(spacing as int, admitted as int - 1);
                    lemma_mul_is_commutative(spacing as int, admitted as int);
                }
            }
            last + orch.config.min_spacing_ms
        };
        let idx = orch.admit_next(now);
        let mut script = scripts.remove(0);
        let ghost s0i = scripts0[idx as int]@;
        let ghost times_after = orch.admission_times@;
        proof {
            assert(script@ =~= s0i);
            assert(scripts@ =~= scripts0.skip(idx as int + 1));
        }
        loop
            invariant
                orch.wf(),
                orch.total == total,
                orch.config.max_attempts == max_attempts,
                orch.config.min_spacing_ms == spacing,
                orch.fetchers@.len() == idx + 1,
                idx < total,
                s0i == scripts0[idx as int]@,
                s0i.len() >= max_attempts,
                orch.admission_times@ == times_after,
                forall|i: int|
                    0 <= i < idx ==> (#[trigger] orch.fetchers@[i]).phase is Done,
                forall|i: int|
                    0 <= i < idx ==> retry_value_matches(
                        scripts0[i]@,
                        max_attempts as nat,
                        (#[trigger] orch.fetchers@[i]).outcome,
                    ),
                orch.fetchers@[idx as int].phase is InFlight || orch.fetchers@[idx as int].phase
                    is Done,
                orch.in_flight == (if orch.fetchers@[idx as int].phase is Done {
                    0int
                } else {
                    1int
                }),
                orch.fetchers@[idx as int].phase is InFlight ==> {
                    &&& script@ =~= s0i.skip(orch.fetchers@[idx as int].attempts as int - 1)
                    &&& fails_before(s0i, orch.fetchers@[idx as int].attempts as int - 1)
                },
                orch.fetchers@[idx as int].phase is Done ==> retry_value_matches(
                    s0i,
                    max_attempts as nat,
                    orch.fetchers@[idx as int].outcome,
                ),
            ensures
                orch.wf(),
                orch.total == total,
                orch.config.max_attempts == max_attempts,
                orch.config.min_spacing_ms == spacing,
                orch.fetchers@.len() == idx + 1,
                orch.admission_times@ == times_after,
                orch.in_flight == 0,
                forall|i: int|
                    0 <= i < idx + 1 ==> (#[trigger] orch.fetchers@[i]).phase is Done,
                forall|i: int|
                    0 <= i < idx + 1 ==> retry_value_matches(
                        scripts0[i]@,
                        max_attempts as nat,
                        (#[trigger] orch.fetchers@[i]).outcome,
                    ),
            decreases script@.len(),
        {
            if orch.fetchers[idx].is_done() {
                break ;
            }
            let ghost pre = orch.fetchers@[idx as int];
            let ghost a = pre.attempts as int;
            assert(script@.len() > 0);
            let o = script.remove(0);
            proof {
                assert(o == s0i[a - 1]);
                assert(script@ =~= s0i.skip(a));
            }
            match o {
                Some(v) => {
                    orch.deliver_success(idx, v);
                    proof {
                        let outcome = orch.fetchers@[idx as int].outcome;
                        assert forall|k: int|
                            0 <= k < max_attempts && (#[trigger] s0i[k]) is Some && fails_before(
                                s0i,
                                k,
                            ) implies outcome == s0i[k] by {
                            if k < a - 1 {
                                assert(s0i[k] is None);
                            }
                            if k > a - 1 {
                                assert(s0i[a - 1] is None);
                            }
                            assert(k == a - 1);
                        }
                        assert(!fails_before(s0i, max_attempts as int)) by {
                            assert(s0i[a - 1] is Some);
                        }
                    }
                },
                None => {
                    orch.deliver_failure(idx, 0);
                    if orch.fetchers[idx].is_done() {
                        proof {
                            let outcome = orch.fetchers@[idx as int].outcome;
                            assert(outcome is None);
                            assert forall|j: int|
                                0 <= j < max_attempts implies (#[trigger] s0i[j]) is None by {
                                if j < a - 1 {
                                } else {
                                    assert(j == a - 1);
                                }
                            }
                            assert forall|k: int|
                                0 <= k < max_attempts && (#[trigger] s0i[k]) is Some
                                    && fails_before(s0i, k) implies outcome == s0i[k] by {
                                assert(s0i[k] is None);
                            }
                        }
                    } else {
                        let deadline = match orch.fetchers[idx].phase {
                            RetryPhase::Backoff { resume_at } => resume_at,
                            _ => 0,
                        };
                        orch.resume(idx, deadline);
                        proof {
                            assert forall|j: int|
                                0 <= j < orch.fetchers@[idx as int].attempts as int - 1 implies (
                            #[trigger] s0i[j]) is None by {
                                if j < a - 1 {
                                } else {
                                    assert(j == a - 1);
                                }
                            }
                        }
                    }
                },
            }
        }
    }
    proof {
        assert(orch.fetchers@.len() == total);
        lemma_active_count_zero(orch.fetchers@);
    }
    orch.into_results()
}

} // verus!
