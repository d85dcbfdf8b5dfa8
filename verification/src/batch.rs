//! Batching and retry: grouping parsed rows into fixed-size batches while
//! propagating the first row failure, and the bounded-retry state machine
//! with exponential backoff that drives each batch's transfer.

use vstd::prelude::*;

use vstd::arithmetic::div_mod::lemma_fundamental_div_mod_converse;

use crate::errors::LoaderError;

verus! {

/// Batch processing configuration: sizes in rows, times in milliseconds.
#[derive(Debug, Clone)]
pub struct BatchConfig {
    pub batch_size: usize,
    pub max_retries: usize,
    pub initial_backoff_ms: u64,
    pub max_backoff_ms: u64,
}

impl Default for BatchConfig {
    /// Ten thousand rows a batch, three retries, one second of initial
    /// backoff capped at one minute.
    fn default() -> (r: Self)
        ensures
            r.batch_size == 10000,
            r.max_retries == 3,
            r.initial_backoff_ms == 1000,
            r.max_backoff_ms == 60000,
    {
        Self { batch_size: 10000, max_retries: 3, initial_backoff_ms: 1000, max_backoff_ms: 60000 }
    }
}

/// Where one batch's retry loop stands: how many retries were already taken
/// and how long the next wait would be.
#[derive(Debug, Clone, Copy, PartialEq, Eq, Structural)]
pub struct RetryState {
    pub retries: usize,
    pub backoff_ms: u64,
}

/// What to do after a failed transfer attempt: wait and try again in the
/// given state, or give up carrying the retry count taken.
#[derive(Debug, Clone, Copy, PartialEq, Eq, Structural)]
pub enum RetryDecision {
    Retry { delay_ms: u64, next: RetryState },
    GiveUp { retries: usize },
}

/// The retry policy around one batch transfer.
pub struct BatchProcessor {
    pub config: BatchConfig,
}

impl BatchProcessor {
    pub fn new(config: BatchConfig) -> (r: Self)
        ensures
            r.config == config,
    {
        Self { config }
    }

    /// The state a batch's first attempt starts from.
    pub open spec fn spec_initial_state(self) -> RetryState {
        RetryState { retries: 0, backoff_ms: self.config.initial_backoff_ms }
    }

    pub fn initial_state(&self) -> (r: RetryState)
        ensures
            r == self.spec_initial_state(),
    {
        RetryState { retries: 0, backoff_ms: self.config.initial_backoff_ms }
    }

    /// The backoff after one wait: doubled, capped at the configured maximum.
    pub open spec fn spec_next_backoff(self, b: u64) -> u64 {
        if 2 * b <= self.config.max_backoff_ms {
            (2 * b) as u64
        } else {
            self.config.max_backoff_ms
        }
    }

    /// What a failed attempt leads to: with the retry budget spent the batch
    /// is given up, otherwise the loader waits the current backoff and tries
    /// again with the backoff doubled (capped).
    pub open spec fn spec_on_failure(self, st: RetryState) -> RetryDecision {
        if st.retries >= self.config.max_retries {
            RetryDecision::GiveUp { retries: st.retries }
        } else {
            RetryDecision::Retry {
                delay_ms: st.backoff_ms,
                next: RetryState {
                    retries: (st.retries + 1) as usize,
                    backoff_ms: self.spec_next_backoff(st.backoff_ms),
                },
            }
        }
    }

    /// Decide the next step after a failed transfer attempt.
    pub fn on_failure(&self, st: &RetryState) -> (d: RetryDecision)
        ensures
            d == self.spec_on_failure(*st),
    {
        if st.retries >= self.config.max_retries {
            RetryDecision::GiveUp { retries: st.retries }
        } else {
            let doubled: u64 = if st.backoff_ms <= u64::MAX / 2 {
                st.backoff_ms * 2
            } else {
                u64::MAX
            };
            let nb: u64 = if doubled <= self.config.max_backoff_ms {
                doubled
            } else {
                self.config.max_backoff_ms
            };
            proof {
                assert(nb == self.spec_next_backoff(st.backoff_ms));
            }
            RetryDecision::Retry {
                delay_ms: st.backoff_ms,
                next: RetryState { retries: st.retries + 1, backoff_ms: nb },
            }
        }
    }
}

/// The state reached after `n` failed attempts against a sink that never
/// succeeds, starting from the initial state.
pub open spec fn spec_state_after_failures(p: BatchProcessor, n: nat) -> RetryState
    decreases n,
{
    if n == 0 {
        p.spec_initial_state()
    } else {
        match p.spec_on_failure(spec_state_after_failures(p, (n - 1) as nat)) {
            RetryDecision::Retry { delay_ms, next } => next,
            RetryDecision::GiveUp { retries } => spec_state_after_failures(p, (n - 1) as nat),
        }
    }
}

/// While the budget lasts, the trace counts its failures: after `n` of them
/// exactly `n` retries are recorded.
pub proof fn lemma_retry_count(p: BatchProcessor, n: nat)
    requires
        n <= p.config.max_retries,
    ensures
        spec_state_after_failures(p, n).retries == n,
    decreases n,
{
    if n > 0 {
        lemma_retry_count(p, (n - 1) as nat);
    }
}

/// Retries are bounded: a sink that always fails is given up on right after
/// the retry budget is spent — `max_retries + 1` attempts in all — and the
/// report carries the full retry count.
pub proof fn lemma_gives_up_after_max_retries(p: BatchProcessor)
    ensures
        p.spec_on_failure(spec_state_after_failures(p, p.config.max_retries as nat))
            == (RetryDecision::GiveUp { retries: p.config.max_retries }),
        forall|n: nat|
            n < p.config.max_retries ==> p.spec_on_failure(
                #[trigger] spec_state_after_failures(p, n),
            ) is Retry,
{
    lemma_retry_count(p, p.config.max_retries as nat);
    assert forall|n: nat| n < p.config.max_retries implies p.spec_on_failure(
        #[trigger] spec_state_after_failures(p, n),
    ) is Retry by {
        lemma_retry_count(p, n);
    }
}

/// With a budget of two retries against a sink that fails twice and then
/// succeeds, the loader waits the initial backoff and then its capped double
/// — exact doubling — and a third failure would give the batch up after
/// three attempts in all, reporting two retries.
pub proof fn lemma_two_retries_trace(p: BatchProcessor)
    requires
        p.config.max_retries == 2,
    ensures
        p.spec_on_failure(spec_state_after_failures(p, 0)) == (RetryDecision::Retry {
            delay_ms: p.config.initial_backoff_ms,
            next: spec_state_after_failures(p, 1),
        }),
        p.spec_on_failure(spec_state_after_failures(p, 1)) == (RetryDecision::Retry {
            delay_ms: p.spec_next_backoff(p.config.initial_backoff_ms),
            next: spec_state_after_failures(p, 2),
        }),
        p.spec_on_failure(spec_state_after_failures(p, 2)) == (RetryDecision::GiveUp {
            retries: 2,
        }),
{
    lemma_retry_count(p, 2);
}

/// The sequence of batches a row sequence is cut into: full batches of `n`
/// rows, and whatever remains as the last batch.
pub open spec fn spec_batches<T>(rows: Seq<T>, n: nat) -> Seq<Seq<T>>
    decreases rows.len(),
    when n > 0
{
    if rows.len() == 0 {
        Seq::empty()
    } else if rows.len() <= n {
        seq![rows]
    } else {
        seq![rows.take(n as int)] + spec_batches(rows.skip(n as int), n)
    }
}

/// The batches laid end to end.
pub open spec fn concat_batches<T>(bs: Seq<Seq<T>>) -> Seq<T>
    decreases bs.len(),
{
    if bs.len() == 0 {
        Seq::empty()
    } else {
        bs[0] + concat_batches(bs.skip(1))
    }
}

/// One pull takes the next up-to-`n` rows and leaves the rest: exactly the
/// step the batch iterator's `next` makes on an error-free source.
pub proof fn lemma_batches_head<T>(rows: Seq<T>, n: nat)
    requires
        n > 0,
        rows.len() > 0,
    ensures
        ({
            let stop = if n <= rows.len() {
                n as int
            } else {
                rows.len() as int
            };
            spec_batches(rows, n)[0] == rows.take(stop) && spec_batches(rows, n).skip(1)
                == spec_batches(rows.skip(stop), n)
        }),
{
    let stop = if n <= rows.len() {
        n as int
    } else {
        rows.len() as int
    };
    if rows.len() <= n {
        assert(rows.take(stop) =~= rows);
        assert(rows.skip(stop) =~= Seq::<T>::empty());
        assert(seq![rows].skip(1) =~= Seq::<Seq<T>>::empty());
    } else {
        assert((seq![rows.take(stop)] + spec_batches(rows.skip(stop), n)).skip(1)
            =~= spec_batches(rows.skip(stop), n));
    }
}

/// Batching partitions the input exactly: concatenating the batches gives
/// back the rows, with nothing dropped, duplicated or reordered.
pub proof fn lemma_batches_partition<T>(rows: Seq<T>, n: nat)
    requires
        n > 0,
    ensures
        concat_batches(spec_batches(rows, n)) == rows,
    decreases rows.len(),
{
    if rows.len() == 0 {
        assert(concat_batches(spec_batches(rows, n)) =~= rows);
    } else if rows.len() <= n {
        reveal_with_fuel(concat_batches, 2);
        assert(seq![rows].skip(1) =~= Seq::<Seq<T>>::empty());
        assert(concat_batches(spec_batches(rows, n)) =~= rows);
    } else {
        lemma_batches_partition(rows.skip(n as int), n);
        assert((seq![rows.take(n as int)] + spec_batches(rows.skip(n as int), n)).skip(1)
            =~= spec_batches(rows.skip(n as int), n));
        assert(rows.take(n as int) + rows.skip(n as int) =~= rows);
    }
}

/// Batch count and sizes: `M` rows cut into batches of `n` give
/// `ceil(M / n)` batches; every batch but the last holds exactly `n` rows,
/// and the last holds `M mod n` rows, or `n` when `n` divides `M`.
pub proof fn lemma_batches_sizes<T>(rows: Seq<T>, n: nat)
    requires
        n > 0,
    ensures
        spec_batches(rows, n).len() == (rows.len() + n - 1) as int / n as int,
        forall|i: int|
            0 <= i < spec_batches(rows, n).len() - 1 ==> (#[trigger] spec_batches(rows, n)[i]).len()
                == n,
        rows.len() > 0 ==> spec_batches(rows, n).last().len() == (if rows.len() as int % n as int
            == 0 {
            n as int
        } else {
            rows.len() as int % n as int
        }),
    decreases rows.len(),
{
    let bs = spec_batches(rows, n);
    let m = rows.len() as int;
    let d = n as int;
    if rows.len() == 0 {
        lemma_fundamental_div_mod_converse(m + d - 1, d, 0, m + d - 1);
    } else if rows.len() <= n {
        assert(bs.len() == 1);
        lemma_fundamental_div_mod_converse(m + d - 1, d, 1, m - 1);
        if m < d {
            vstd::arithmetic::div_mod::lemma_small_mod(m as nat, d as nat);
        } else {
            lemma_fundamental_div_mod_converse(m, d, 1, 0);
        }
    } else {
        lemma_batches_sizes(rows.skip(d), n);
        let rest = spec_batches(rows.skip(d), n);
        assert(bs.len() == 1 + rest.len());
        assert(rest.len() == (m - d + d - 1) / d);
        assert((m - 1) / d + 1 == (m - 1 + d) / d) by {
            vstd::arithmetic::div_mod::lemma_fundamental_div_mod(m - 1, d);
            vstd::arithmetic::div_mod::lemma_mod_bound(m - 1, d);
            assert(((m - 1) / d + 1) * d == ((m - 1) / d) * d + d) by (nonlinear_arith);
            lemma_fundamental_div_mod_converse(m - 1 + d, d, (m - 1) / d + 1, (m - 1) % d);
        }
        assert forall|i: int| 0 <= i < bs.len() - 1 implies (#[trigger] bs[i]).len() == n by {
            if i == 0 {
                assert(bs[0] == rows.take(d));
            } else {
                assert(bs[i] == rest[i - 1]);
            }
        }
        assert(bs.last() == rest.last());
        assert((m - d) % d == m % d) by {
            vstd::arithmetic::div_mod::lemma_fundamental_div_mod(m - d, d);
            vstd::arithmetic::div_mod::lemma_mod_bound(m - d, d);
            assert(((m - d) / d + 1) * d == ((m - d) / d) * d + d) by (nonlinear_arith);
            lemma_fundamental_div_mod_converse(m, d, (m - d) / d + 1, (m - d) % d);
        }
    }
}

/// Index of the first failed row among the next `stop` rows, or `stop` when
/// none fails there.
pub open spec fn first_err(rows: Seq<Result<Vec<String>, LoaderError>>, stop: int) -> int
    decreases rows.len(),
{
    if stop <= 0 || rows.len() == 0 {
        0
    } else if rows[0] is Err {
        0
    } else {
        1 + first_err(rows.skip(1), stop - 1)
    }
}

proof fn lemma_first_err_at(rows: Seq<Result<Vec<String>, LoaderError>>, stop: int, k: int)
    requires
        0 <= k <= stop <= rows.len(),
        forall|j: int| 0 <= j < k ==> (#[trigger] rows[j]) is Ok,
        k == stop || rows[k] is Err,
    ensures
        first_err(rows, stop) == k,
    decreases k,
{
    if k == 0 {
        if stop > 0 && rows.len() > 0 && rows[0] is Ok {
            assert(rows[0] is Err || 0 == stop);
        }
    } else {
        assert(rows[0] is Ok);
        assert forall|j: int| 0 <= j < k - 1 implies (#[trigger] rows.skip(1)[j]) is Ok by {
            assert(rows.skip(1)[j] == rows[j + 1]);
        }
        if k < stop {
            assert(rows.skip(1)[k - 1] == rows[k]);
        }
        lemma_first_err_at(rows.skip(1), stop - 1, k - 1);
    }
}

/// Cuts a sequence of fallible rows into batches of a fixed upper size. A
/// failed row fails its batch immediately — the partial batch is discarded —
/// and stops batch production; an exhausted source ends the sequence, a
/// final short batch included.
pub struct BatchIterator {
    stack: Vec<Result<Vec<String>, LoaderError>>,
    batch_size: usize,
}

impl BatchIterator {
    /// The rows not yet handed out, in order.
    pub closed spec fn remaining(self) -> Seq<Result<Vec<String>, LoaderError>> {
        Seq::new(self.stack@.len(), |i: int| self.stack@[self.stack@.len() - 1 - i])
    }

    pub closed spec fn spec_batch_size(self) -> usize {
        self.batch_size
    }

    /// Take ownership of the rows to batch.
    pub fn new(rows: Vec<Result<Vec<String>, LoaderError>>, batch_size: usize) -> (r: Self)
        ensures
            r.remaining() == rows@,
            r.spec_batch_size() == batch_size,
    {
        let ghost all = rows@;
        let mut src = rows;
        let mut stack: Vec<Result<Vec<String>, LoaderError>> = Vec::new();
        while src.len() > 0
            invariant
                src@ == all.take(src@.len() as int),
                forall|t: int|
                    0 <= t < stack@.len() ==> #[trigger] stack@[t] == all[all.len() - 1 - t],
                stack@.len() + src@.len() == all.len(),
            decreases src.len(),
        {
            match src.pop() {
                Some(x) => {
                    proof {
                        assert(x == all[src@.len() as int]);
                    }
                    stack.push(x);
                }
                None => {
                    proof {
                        assert(false);
                    }
                },
            }
        }
        let r = BatchIterator { stack, batch_size };
        proof {
            assert(r.remaining() =~= all);
        }
        r
    }

    /// Pull the next batch: up to `batch_size` rows; the first failure
    /// instead fails the whole pull and ends batch production — the rows
    /// collected before it are discarded, and so is everything after it, so
    /// every later pull yields the end of the sequence.
    #[verifier::loop_isolation(false)]
    pub fn next(&mut self) -> (r: Option<Result<Vec<Vec<String>>, LoaderError>>)
        ensures
            final(self).spec_batch_size() == old(self).spec_batch_size(),
            ({
                let rem = old(self).remaining();
                let bs = old(self).spec_batch_size() as int;
                let stop = if bs <= rem.len() {
                    bs
                } else {
                    rem.len() as int
                };
                let fe = first_err(rem, stop);
                &&& (bs == 0 || rem.len() == 0 ==> r is None && final(self).remaining() == rem)
                &&& (bs > 0 && rem.len() > 0 && fe < stop ==> (r matches Some(Err(e)) && e
                    == rem[fe]->Err_0 && final(self).remaining().len() == 0))
                &&& (bs > 0 && rem.len() > 0 && fe == stop ==> (r matches Some(Ok(batch)) && batch@
                    == Seq::new(stop as nat, |j: int| (rem[j]->Ok_0)) && final(self).remaining()
                    == rem.skip(stop)))
            }),
    {
        let ghost rem = old(self).remaining();
        if self.batch_size == 0 {
            return None;
        }
        let rem_len = self.stack.len();
        let stop: usize = if self.batch_size <= rem_len {
            self.batch_size
        } else {
            rem_len
        };
        let mut batch: Vec<Vec<String>> = Vec::new();
        let mut k: usize = 0;
        while k < stop
            invariant
                k <= stop,
                self.batch_size == old(self).batch_size,
                self.stack@.len() == rem_len - k,
                self.stack@ == old(self).stack@.take(rem_len - k),
                batch@.len() == k,
                forall|j: int|
                    0 <= j < k ==> (#[trigger] rem[j]) is Ok && batch@[j] == rem[j]->Ok_0,
            decreases stop - k,
        {
            proof {
                assert(self.stack@.last() == rem[k as int]);
            }
            match self.stack.pop() {
                Some(row_or_err) => {
                    match row_or_err {
                        Ok(row) => {
                            batch.push(row);
                        },
                        Err(e) => {
                            // The failure ends batch production for good.
                            self.stack.clear();
                            proof {
                                lemma_first_err_at(rem, stop as int, k as int);
                            }
                            return Some(Err(e));
                        },
                    }
                },
                None => {
                    proof {
                        assert(false);
                    }
                },
            }
            k = k + 1;
        }
        proof {
            lemma_first_err_at(rem, stop as int, stop as int);
        }
        if stop == 0 {
            proof {
                assert(final(self).remaining() =~= rem);
            }
            return None;
        }
        proof {
            assert(batch@ =~= Seq::new(stop as nat, |j: int| (rem[j]->Ok_0)));
            assert(final(self).remaining() =~= rem.skip(stop as int));
        }
        Some(Ok(batch))
    }
}

} // verus!
