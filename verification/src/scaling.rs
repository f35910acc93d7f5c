//! The scaling decisions of a worker pool: how many workers to spawn or to
//! ask to stop, from the current number of workers and a correction `delta`.

use vstd::prelude::*;

verus! {

/// What one scaling round asks of the pool.
#[derive(Debug, Clone, Copy, PartialEq, Eq)]
pub enum ScaleAction {
    /// Nothing to do.
    Keep,
    /// Spawn this many workers.
    Spawn(usize),
    /// Send this many stop requests.
    Kill(usize),
}

/// The scaling state of a pool: its bounds, its queue target and the stop
/// requests that workers have not acknowledged yet.
#[derive(Debug, Clone, Copy, PartialEq, Eq)]
pub struct Scaler {
    /// The pool never scales below this many workers.
    pub min_workers: usize,
    /// Growth stops at this many workers.
    pub max_workers: usize,
    /// Stop requests sent and not yet acknowledged.
    pub kill_pending: usize,
    /// The queue length the pool aims at.
    pub target_queue_size: usize,
}

/// `a - b`, or `0` when `b > a`.
pub open spec fn sat_sub(a: int, b: int) -> int {
    if a >= b {
        a - b
    } else {
        0
    }
}

/// What a scaling round decides, from the number of `workers`, the pending
/// stop requests (after the acknowledgements) and the correction `delta`:
/// the action and the pending stop requests afterwards.
pub open spec fn scale_decision(
    min_workers: int,
    max_workers: int,
    pending: int,
    workers: int,
    delta: int,
) -> (ScaleAction, int) {
    if workers < min_workers {
        (ScaleAction::Spawn((min_workers - workers) as usize), pending)
    } else if delta > 0 {
        let target = if workers + delta <= max_workers {
            workers + delta
        } else {
            max_workers
        };
        let added = sat_sub(target, workers);
        if added > 0 {
            (ScaleAction::Spawn(added as usize), pending)
        } else {
            (ScaleAction::Keep, pending)
        }
    } else if delta < 0 {
        let target = if workers + delta >= min_workers {
            workers + delta
        } else {
            min_workers
        };
        let removed = sat_sub(sat_sub(workers, target), pending);
        if removed > 0 {
            (ScaleAction::Kill(removed as usize), pending + removed)
        } else {
            (ScaleAction::Keep, pending)
        }
    } else {
        (ScaleAction::Keep, pending)
    }
}

/// A scaling round counts the stop requests it sends: afterwards the pending
/// stop requests are those pending before it (after the acknowledgements)
/// plus the ones it asks for; a round that asks for none leaves them as they
/// were.
pub proof fn lemma_scale_counts_stops(min_workers: int, max_workers: int, pending: int, workers: int, delta: int)
    requires
        0 <= min_workers,
        0 <= pending,
        0 <= workers <= usize::MAX,
    ensures
        ({
            let (action, after) = scale_decision(min_workers, max_workers, pending, workers, delta);
            &&& action matches ScaleAction::Kill(n) ==> after == pending + n
            &&& !(action is Kill) ==> after == pending
        }),
{
}

impl Scaler {
    /// A scaler with the pool defaults: one to eight workers, a queue target
    /// of two, no pending stop request.
    pub fn new() -> (s: Self)
        ensures
            s.min_workers == 1,
            s.max_workers == 8,
            s.kill_pending == 0,
            s.target_queue_size == 2,
    {
        Scaler { min_workers: 1, max_workers: 8, kill_pending: 0, target_queue_size: 2 }
    }

    /// Sets the minimum number of workers.
    pub fn with_min_workers(self, min_workers: usize) -> (s: Self)
        ensures
            s == (Scaler { min_workers, ..self }),
    {
        Scaler { min_workers, ..self }
    }

    /// Sets the maximum number of workers.
    pub fn with_max_workers(self, max_workers: usize) -> (s: Self)
        ensures
            s == (Scaler { max_workers, ..self }),
    {
        Scaler { max_workers, ..self }
    }

    /// Sets the queue length the pool aims at.
    pub fn with_target_queue_size(self, target_queue_size: usize) -> (s: Self)
        ensures
            s == (Scaler { target_queue_size, ..self }),
    {
        Scaler { target_queue_size, ..self }
    }

    /// How far the queue is above its target (negative when below).
    pub fn queue_error(&self, queued: usize) -> (e: isize)
        requires
            queued <= isize::MAX,
            self.target_queue_size <= isize::MAX,
        ensures
            e == queued - self.target_queue_size,
    {
        queued as isize - self.target_queue_size as isize
    }

    /// One scaling round: takes `acks` acknowledged stop requests off the
    /// pending ones, then decides from the number of `workers` and the
    /// correction `delta` whether to spawn workers or to ask some to stop.
    ///
    /// Below `min_workers` the pool is filled up to it; a positive `delta`
    /// grows the pool by at most `delta`, up to `max_workers`; a negative one
    /// shrinks it by at most `-delta`, down to `min_workers`, counting the
    /// stop requests still pending.
    pub fn scale(&mut self, workers: usize, acks: usize, delta: isize) -> (a: ScaleAction)
        requires
            workers <= isize::MAX,
            delta > 0 ==> workers + delta <= usize::MAX,
        ensures
            final(self).min_workers == old(self).min_workers,
            final(self).max_workers == old(self).max_workers,
            final(self).target_queue_size == old(self).target_queue_size,
            ({
                let pending = sat_sub(old(self).kill_pending as int, acks as int);
                let (action, after) = scale_decision(
                    old(self).min_workers as int,
                    old(self).max_workers as int,
                    pending,
                    workers as int,
                    delta as int,
                );
                a == action && final(self).kill_pending == if after <= usize::MAX {
                    after
                } else {
                    usize::MAX as int
                }
            }),
            a matches ScaleAction::Spawn(n) ==> workers < old(self).min_workers ==> workers + n
                == old(self).min_workers,
            a matches ScaleAction::Spawn(n) ==> workers >= old(self).min_workers ==> workers + n
                <= old(self).max_workers,
            a matches ScaleAction::Kill(n) ==> workers - n - sat_sub(
                old(self).kill_pending as int,
                acks as int,
            ) >= old(self).min_workers,
            a matches ScaleAction::Kill(n) ==> final(self).kill_pending == if sat_sub(
                old(self).kill_pending as int,
                acks as int,
            ) + n <= usize::MAX {
                sat_sub(old(self).kill_pending as int, acks as int) + n
            } else {
                usize::MAX as int
            },
            !(a is Kill) ==> final(self).kill_pending == sat_sub(
                old(self).kill_pending as int,
                acks as int,
            ),
    {
        proof {
            lemma_scale_counts_stops(
                old(self).min_workers as int,
                old(self).max_workers as int,
                sat_sub(old(self).kill_pending as int, acks as int),
                workers as int,
                delta as int,
            );
        }
        let pending = self.kill_pending.saturating_sub(acks);
        self.kill_pending = pending;
        if workers < self.min_workers {
            ScaleAction::Spawn(self.min_workers - workers)
        } else if delta > 0 {
            let grown = workers + delta as usize;
            let target = if grown <= self.max_workers {
                grown
            } else {
                self.max_workers
            };
            let added = target.saturating_sub(workers);
            if added > 0 {
                ScaleAction::Spawn(added)
            } else {
                ScaleAction::Keep
            }
        } else if delta < 0 {
            let shrunk = workers as isize + delta;
            let target = if shrunk >= self.min_workers as isize {
                shrunk as usize
            } else {
                self.min_workers
            };
            let removed = workers.saturating_sub(target).saturating_sub(pending);
            if removed > 0 {
                self.kill_pending = pending.saturating_add(removed);
                ScaleAction::Kill(removed)
            } else {
                ScaleAction::Keep
            }
        } else {
            ScaleAction::Keep
        }
    }
}

} // verus!
