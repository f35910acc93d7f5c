//! The walk over historical updates that answers a request for the proofs of
//! an interval: from the newest update back to the oldest one asked for, one
//! step per update read from the history store.

use vstd::prelude::*;

use crate::hash::Hash32;
use crate::merkle::opening::hash_eq;

verus! {

/// A historical update as the walk reads it: its position in the history,
/// its root and the root before it.
#[derive(Debug, Clone, Copy)]
pub struct UpdateLink {
    pub uuid: u64,
    pub root: Hash32,
    pub previous: Hash32,
}

/// What the walk does once the proof of the current update was fetched.
#[derive(Debug)]
pub enum WalkStep {
    /// Go on with the update stored for the previous root.
    Continue(UpdateLink),
    /// The interval is complete.
    Stop,
    /// The history is broken: an update before the first one asked for is missing.
    Fail,
}

/// Whether the walk fetches the proof of `to`: it goes back while `to` is
/// not older than `from`.
pub fn walk_fetches(from: &UpdateLink, to: &UpdateLink) -> (r: bool)
    ensures
        r == (from.uuid <= to.uuid),
{
    from.uuid <= to.uuid
}

/// The step after fetching the proof of `to`, given the update stored for
/// its previous root: go on with it; without one, stop when `to` is `from`
/// and fail otherwise.
pub fn walk_next(from: &UpdateLink, to: &UpdateLink, previous: Option<UpdateLink>) -> (s: WalkStep)
    ensures
        match previous {
            Some(u) => s matches WalkStep::Continue(v) && v == u,
            None => if to.root@ == from.root@ {
                s matches WalkStep::Stop
            } else {
                s matches WalkStep::Fail
            },
        },
{
    match previous {
        Some(u) => WalkStep::Continue(u),
        None => {
            if hash_eq(&to.root, &from.root) {
                WalkStep::Stop
            } else {
                WalkStep::Fail
            }
        },
    }
}

/// The proofs in the order of the history: the walk collects them newest
/// first.
pub fn oldest_first<T>(collected: Vec<T>) -> (r: Vec<T>)
    ensures
        r@ == collected@.reverse(),
{
    let mut r: Vec<T> = Vec::new();
    let mut rest = collected;
    let ghost all = rest@;
    while rest.len() > 0
        invariant
            all.len() == r@.len() + rest@.len(),
            rest@ == all.subrange(0, rest@.len() as int),
            r@ == all.subrange(rest@.len() as int, all.len() as int).reverse(),
        decreases rest@.len(),
    {
        let x = rest.pop().unwrap();
        r.push(x);
        assert(r@ =~= all.subrange(rest@.len() as int, all.len() as int).reverse());
        assert(rest@ =~= all.subrange(0, rest@.len() as int));
    }
    assert(r@ =~= all.reverse());
    r
}

/// Why a walk over historical updates failed: an update before the first
/// one asked for is missing.
#[derive(Debug, Clone, Copy, PartialEq, Eq)]
pub enum WalkFailure {
    Broken,
}

/// A walk over historical updates, from the newest update asked for back to
/// the oldest one, collecting the proof of each update it goes through.
pub struct BulkWalk<P> {
    /// The oldest update asked for.
    pub from: UpdateLink,
    /// The update whose proof comes next.
    pub current: UpdateLink,
    /// The proofs collected, newest first.
    pub proofs: Vec<P>,
    /// Whether the walk is over.
    pub done: bool,
    /// The updates whose proofs were collected, newest first.
    pub visited: Ghost<Seq<UpdateLink>>,
}

impl<P> BulkWalk<P> {
    /// The walk is consistent: one proof per update it went through, none of
    /// them older than `from`, and the next update not older either while
    /// the walk goes on.
    pub open spec fn wf(&self) -> bool {
        &&& self.proofs@.len() == self.visited@.len()
        &&& forall|i: int| 0 <= i < self.visited@.len() ==> self.from.uuid <= #[trigger] self.visited@[i].uuid
        &&& !self.done ==> self.from.uuid <= self.current.uuid
    }

    /// A walk from `to` back to `from`; it is over at once when `to` is older
    /// than `from`.
    pub fn new(from: UpdateLink, to: UpdateLink) -> (w: Self)
        ensures
            w.wf(),
            w.from == from,
            w.current == to,
            w.proofs@.len() == 0,
            w.visited@.len() == 0,
            w.done == !(from.uuid <= to.uuid),
    {
        let done = !walk_fetches(&from, &to);
        BulkWalk { from, current: to, proofs: Vec::new(), done, visited: Ghost(Seq::empty()) }
    }

    /// The root whose proof the walk needs next, unless it is over.
    pub fn next_root(&self) -> (r: Option<Hash32>)
        ensures
            self.done ==> r is None,
            !self.done ==> r == Some(self.current.root),
    {
        if self.done {
            None
        } else {
            Some(self.current.root)
        }
    }

    /// Collects the proof of the current update and goes on with the update
    /// stored for its previous root: the walk is over when that update is
    /// older than `from`, or when there is none and the current update is
    /// `from`; without one otherwise, the history is broken.
    pub fn record(&mut self, proof: P, previous: Option<UpdateLink>) -> (r: Result<(), WalkFailure>)
        requires
            old(self).wf(),
            !old(self).done,
        ensures
            final(self).wf(),
            final(self).from == old(self).from,
            final(self).visited@ == old(self).visited@.push(old(self).current),
            final(self).proofs@ == old(self).proofs@.push(proof),
            match previous {
                Some(u) => r is Ok && final(self).current == u && final(self).done == !(old(self).from.uuid
                    <= u.uuid),
                None => if old(self).current.root@ == old(self).from.root@ {
                    r is Ok && final(self).done
                } else {
                    r == Err::<(), WalkFailure>(WalkFailure::Broken) && final(self).done
                },
            },
    {
        let ghost before = self.visited@;
        self.proofs.push(proof);
        let cur = self.current;
        self.visited = Ghost(before.push(cur));
        match walk_next(&self.from, &cur, previous) {
            WalkStep::Continue(u) => {
                self.done = !walk_fetches(&self.from, &u);
                self.current = u;
                Ok(())
            },
            WalkStep::Stop => {
                self.done = true;
                Ok(())
            },
            WalkStep::Fail => {
                self.done = true;
                Err(WalkFailure::Broken)
            },
        }
    }

    /// The proofs collected, oldest first.
    pub fn finish(self) -> (r: Vec<P>)
        ensures
            r@ == self.proofs@.reverse(),
    {
        oldest_first(self.proofs)
    }
}

} // verus!
