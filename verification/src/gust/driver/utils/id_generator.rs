//! The generator of node ids: 64-bit numbers made of a time in milliseconds,
//! the number of the worker that made them and a sequence number within the
//! millisecond. A generator never hands out an id twice.

use vstd::prelude::*;
use crate::errors::GitError;

verus! {

/// The number of sequence numbers within one millisecond.
pub const SEQUENCES: u64 = 4096;

/// The number of workers.
pub const WORKERS: u64 = 1024;

/// The first time that does not fit an id: 2^41 milliseconds.
pub const TIME_LIMIT: u64 = 0x200_0000_0000;

/// The id that is made of a time, a worker and a sequence number.
pub open spec fn id_of(time: u64, worker: u64, sequence: u64) -> int {
    time * 4_194_304 + worker * 4096 + sequence
}

/// The state of a generator: the worker it makes ids for, and the time and
/// the sequence number of the id it made last.
#[derive(Clone, Copy, Debug)]
pub struct IdGenerator {
    worker: u64,
    time: u64,
    sequence: u64,
    used: bool,
}

impl IdGenerator {
    #[verifier::type_invariant]
    pub closed spec fn wf(self) -> bool {
        self.worker < WORKERS && self.sequence < SEQUENCES && self.time < TIME_LIMIT
    }

    /// The worker that the generator makes ids for.
    pub closed spec fn worker(self) -> u64 {
        self.worker
    }

    /// The time of the id that the generator made last.
    pub closed spec fn time(self) -> u64 {
        self.time
    }

    /// The sequence number of the id that the generator made last.
    pub closed spec fn sequence(self) -> u64 {
        self.sequence
    }

    /// Whether the generator has made an id.
    pub closed spec fn used(self) -> bool {
        self.used
    }

    /// The id that the generator made last, or -1 where it has made none.
    pub open spec fn last_id(self) -> int {
        if self.used() {
            id_of(self.time(), self.worker(), self.sequence())
        } else {
            -1
        }
    }

    /// The time and the sequence number of the next id at the time `now`: the
    /// clock where it has moved on, else the next sequence number of the
    /// same millisecond, and the next millisecond once those are used up.
    pub open spec fn upcoming(self, now: u64) -> (u64, u64) {
        if !self.used() || now > self.time() {
            (if now > self.time() {
                now
            } else {
                self.time()
            }, 0)
        } else if self.sequence() + 1 < SEQUENCES {
            (self.time(), (self.sequence() + 1) as u64)
        } else {
            ((self.time() + 1) as u64, 0)
        }
    }

    /// The id that the generator makes next at the time `now`, if the time
    /// still fits an id.
    pub open spec fn next(self, now: u64) -> Option<i64> {
        let (time, sequence) = self.upcoming(now);
        if time < TIME_LIMIT {
            Some(id_of(time, self.worker(), sequence) as i64)
        } else {
            None
        }
    }

    /// The generator after it has made its next id at the time `now`.
    pub closed spec fn after(self, now: u64) -> IdGenerator {
        let (time, sequence) = self.upcoming(now);
        if time < TIME_LIMIT {
            IdGenerator { worker: self.worker, time, sequence, used: true }
        } else {
            self
        }
    }

    /// A generator for the given worker that has made no id yet.
    pub fn new(worker: u64) -> (r: Option<IdGenerator>)
        ensures
            r is Some <==> worker < WORKERS,
            r matches Some(g) ==> g.wf() && g.worker() == worker && !g.used() && g.time() == 0
                && g.sequence() == 0,
    {
        if worker < WORKERS {
            Some(IdGenerator { worker, time: 0, sequence: 0, used: false })
        } else {
            None
        }
    }

    /// Makes the next id. The id is larger than every id that the generator
    /// has made before, so no id is made twice. `None` means that the time
    /// no longer fits an id; the generator is then left as it was.
    pub fn next_id(&mut self, now: u64) -> (r: Option<i64>)
        ensures
            r == old(self).next(now),
            *final(self) == old(self).after(now),
            final(self).wf(),
            final(self).worker() == old(self).worker(),
            r matches Some(id) ==> id > old(self).last_id() && final(self).last_id() == id
                && final(self).used() && final(self).time() == old(self).upcoming(now).0
                && final(self).sequence() == old(self).upcoming(now).1,
            r is None ==> *final(self) == *old(self),
    {
        proof {
            use_type_invariant(&*self);
        }
        let (time, sequence) = if !self.used || now > self.time {
            (if now > self.time {
                now
            } else {
                self.time
            }, 0)
        } else if self.sequence + 1 < SEQUENCES {
            (self.time, self.sequence + 1)
        } else {
            (self.time + 1, 0)
        };
        if time >= TIME_LIMIT {
            return None;
        }
        let id = time * 4_194_304 + self.worker * 4096 + sequence;
        *self = IdGenerator { worker: self.worker, time, sequence, used: true };
        Some(id as i64)
    }
}

/// The ids of a generator ascend: the next id is larger than the last one,
/// and it is the last one afterwards. Where no id is left, the generator
/// stays as it is.
pub proof fn lemma_ids_ascend(g: IdGenerator, now: u64)
    requires
        g.wf(),
    ensures
        g.after(now).wf(),
        g.after(now).worker() == g.worker(),
        g.last_id() >= -1,
        g.next(now) matches Some(id) ==> id > g.last_id() && g.after(now).last_id() == id
            && g.after(now).used() && g.after(now).time() == g.upcoming(now).0 && g.after(
            now,
        ).sequence() == g.upcoming(now).1,
        g.next(now) is None ==> g.after(now) == g,
{
}

/// A generator with the settings that the driver uses: worker 1.
pub fn set_up_options() -> (r: Result<IdGenerator, GitError>)
    ensures
        r matches Ok(g) && g.wf() && g.worker() == 1 && !g.used() && g.time() == 0 && g.sequence()
            == 0,
{
    match IdGenerator::new(1) {
        Some(g) => Ok(g),
        None => Err(GitError::IdSpaceExhausted),
    }
}

} // verus!
