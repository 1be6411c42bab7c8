use crate::types::Timestamped;
use std::collections::VecDeque;
use vstd::prelude::*;

verus! {

/// Timestamps that strictly increase from front to back.
pub open spec fn strictly_increasing(s: Seq<u64>) -> bool {
    forall|i: int, j: int| 0 <= i < j < s.len() ==> s[i] < s[j]
}

/// `b` is set whenever `a` is, and is no smaller.
pub open spec fn no_earlier(a: Option<u64>, b: Option<u64>) -> bool {
    match a {
        Some(x) => match b {
            Some(y) => x <= y,
            None => false,
        },
        None => true,
    }
}

/// A queue of messages for one key, whose timestamps strictly increase.
///
/// Each entry keeps the timestamp that was read from the message when it
/// was admitted. `last_ts` is the greatest timestamp ever admitted; it
/// survives pops, so a popped message still forbids a later one with an
/// equal or smaller timestamp.
pub struct Buffer<T> {
    buffer: VecDeque<(u64, T)>,
    last_ts: Option<u64>,
}

impl<T> Buffer<T> {
    /// The stored entries, front first: the timestamp read at admission
    /// and the message.
    pub closed spec fn entries(&self) -> Seq<(u64, T)> {
        self.buffer@
    }

    /// The greatest timestamp ever admitted, if any.
    pub closed spec fn last(&self) -> Option<u64> {
        self.last_ts
    }

    pub open spec fn stamps(&self) -> Seq<u64> {
        self.entries().map_values(|e: (u64, T)| e.0)
    }

    pub open spec fn messages(&self) -> Seq<T> {
        self.entries().map_values(|e: (u64, T)| e.1)
    }

    /// Timestamps strictly increase, and `last` is the timestamp of the
    /// back entry when there is one.
    pub open spec fn wf(&self) -> bool {
        &&& strictly_increasing(self.stamps())
        &&& self.entries().len() > 0 ==> self.last() == Some(self.stamps().last())
        &&& self.last() is None ==> self.entries().len() == 0
    }

    /// Whether a message with timestamp `ts` would be admitted.
    pub open spec fn admits(&self, ts: u64) -> bool {
        match self.last() {
            Some(l) => l < ts,
            None => true,
        }
    }

    /// What pushing `item` with timestamp `ts` onto `self` gives: `new`
    /// and the result `r`.
    pub open spec fn push_outcome(&self, new: Self, ts: u64, item: T, r: Result<(), T>) -> bool {
        if self.admits(ts) {
            &&& r is Ok
            &&& new.entries() == self.entries().push((ts, item))
            &&& new.last() == Some(ts)
        } else {
            &&& r == Err::<(), T>(item)
            &&& new == *self
        }
    }

    /// `new` is `self` with its first `n` entries removed.
    pub open spec fn popped(&self, new: Self, n: int) -> bool {
        &&& 0 <= n <= self.entries().len()
        &&& new.entries() == self.entries().skip(n)
        &&& new.last() == self.last()
    }

    pub fn with_capacity(capacity: usize) -> (r: Self)
        ensures
            r.wf(),
            r.entries() == Seq::<(u64, T)>::empty(),
            r.last() is None,
    {
        Buffer { buffer: VecDeque::with_capacity(capacity), last_ts: None }
    }

    pub fn len(&self) -> (r: usize)
        ensures
            r == self.entries().len(),
    {
        self.buffer.len()
    }

    pub fn is_empty(&self) -> (r: bool)
        ensures
            r == (self.entries().len() == 0),
    {
        self.buffer.len() == 0
    }

    pub fn front(&self) -> (r: Option<&T>)
        ensures
            r == (if self.entries().len() > 0 {
                Some(&self.entries()[0].1)
            } else {
                None
            }),
    {
        if self.buffer.len() > 0 {
            Some(&self.buffer[0].1)
        } else {
            None
        }
    }

    pub fn back(&self) -> (r: Option<&T>)
        ensures
            r == (if self.entries().len() > 0 {
                Some(&self.entries().last().1)
            } else {
                None
            }),
    {
        let n = self.buffer.len();
        if n > 0 {
            Some(&self.buffer[n - 1].1)
        } else {
            None
        }
    }

    /// The timestamp of the front entry.
    pub fn front_ts(&self) -> (r: Option<u64>)
        ensures
            r == (if self.entries().len() > 0 {
                Some(self.stamps()[0])
            } else {
                None
            }),
    {
        if self.buffer.len() > 0 {
            Some(self.buffer[0].0)
        } else {
            None
        }
    }

    /// The timestamp of the back entry.
    pub fn back_ts(&self) -> (r: Option<u64>)
        ensures
            r == (if self.entries().len() > 0 {
                Some(self.stamps().last())
            } else {
                None
            }),
    {
        let n = self.buffer.len();
        if n > 0 {
            Some(self.buffer[n - 1].0)
        } else {
            None
        }
    }

    /// The greatest timestamp ever admitted.
    pub fn last_ts(&self) -> (r: Option<u64>)
        ensures
            r == self.last(),
    {
        self.last_ts
    }

    pub fn pop_front(&mut self) -> (r: Option<T>)
        requires
            old(self).wf(),
        ensures
            final(self).wf(),
            match r {
                Some(m) => {
                    &&& old(self).entries().len() > 0
                    &&& m == old(self).entries()[0].1
                    &&& old(self).popped(*final(self), 1)
                },
                None => {
                    &&& old(self).entries().len() == 0
                    &&& old(self).popped(*final(self), 0)
                },
            },
    {
        match self.buffer.pop_front() {
            Some(e) => {
                proof {
                    assert(self.stamps() =~= old(self).stamps().skip(1));
                    assert(self.entries() =~= old(self).entries().skip(1));
                }
                Some(e.1)
            },
            None => {
                proof {
                    assert(self.entries() =~= old(self).entries().skip(0));
                }
                None
            },
        }
    }

    /// Appends `item`, whose timestamp is `ts`, when `ts` is strictly
    /// greater than every timestamp admitted before; otherwise hands the
    /// item back and leaves the buffer unchanged.
    pub fn try_push_at(&mut self, ts: u64, item: T) -> (r: Result<(), T>)
        requires
            old(self).wf(),
        ensures
            final(self).wf(),
            old(self).push_outcome(*final(self), ts, item, r),
    {
        match self.last_ts {
            Some(l) => {
                if l >= ts {
                    return Err(item);
                }
            },
            None => {},
        }
        self.last_ts = Some(ts);
        self.buffer.push_back((ts, item));
        proof {
            assert(self.stamps() =~= old(self).stamps().push(ts));
        }
        Ok(())
    }

    /// Borrows the front entry, which the caller may then take or leave.
    pub fn front_entry(&mut self) -> (r: Option<FrontEntry<'_, T>>)
        requires
            old(self).wf(),
        ensures
            match r {
                Some(e) => {
                    &&& old(self).entries().len() > 0
                    &&& e.inv()
                    &&& e.target() == *old(self)
                    &&& *final(e.buffer) == *final(self)
                },
                None => {
                    &&& old(self).entries().len() == 0
                    &&& *final(self) == *old(self)
                },
            },
    {
        if self.buffer.len() > 0 {
            Some(FrontEntry { buffer: self })
        } else {
            None
        }
    }

    /// Drops the entries whose timestamps are below `ts` and returns how
    /// many were dropped. Entries at `ts` or later stay.
    pub fn drop_before(&mut self, ts: u64) -> (r: usize)
        requires
            old(self).wf(),
        ensures
            final(self).wf(),
            old(self).popped(*final(self), r as int),
            forall|i: int| 0 <= i < r ==> old(self).stamps()[i] < ts,
            forall|i: int| r <= i < old(self).entries().len() ==> old(self).stamps()[i] >= ts,
    {
        let total = self.buffer.len();
        let mut count: usize = 0;
        proof {
            assert(old(self).entries().skip(0) =~= old(self).entries());
        }
        loop
            invariant
                self.wf(),
                old(self).wf(),
                count <= old(self).entries().len(),
                total == old(self).entries().len(),
                old(self).popped(*self, count as int),
                forall|i: int| 0 <= i < count ==> old(self).stamps()[i] < ts,
            ensures
                self.wf(),
                count <= old(self).entries().len(),
                old(self).popped(*self, count as int),
                forall|i: int| 0 <= i < count ==> old(self).stamps()[i] < ts,
                count == old(self).entries().len() || old(self).stamps()[count as int] >= ts,
            decreases self.entries().len(),
        {
            let entry = match self.front_entry() {
                Some(e) => e,
                None => break,
            };
            proof {
                assert(entry.target().stamps()[0] == old(self).stamps()[count as int]);
                assert(count < old(self).entries().len());
            }
            if entry.ts() >= ts {
                break;
            }
            let _ = entry.take();
            proof {
                assert(old(self).entries().skip(count + 1) =~= old(self).entries().skip(count as int).skip(1));
            }
            count = count + 1;
        }
        count
    }
}

/// Over time a buffer admits timestamps in strictly increasing order: of
/// two admitted messages, with anything in between that keeps the last
/// admitted timestamp from going back, the later one has the greater
/// timestamp.
pub proof fn lemma_admitted_in_order<T>(
    b0: Buffer<T>,
    b1: Buffer<T>,
    t1: u64,
    m1: T,
    r1: Result<(), T>,
    b2: Buffer<T>,
    b3: Buffer<T>,
    t2: u64,
    m2: T,
    r2: Result<(), T>,
)
    requires
        b0.push_outcome(b1, t1, m1, r1),
        r1 is Ok,
        no_earlier(b1.last(), b2.last()),
        b2.push_outcome(b3, t2, m2, r2),
        r2 is Ok,
    ensures
        t1 < t2,
{
}

/// Removing entries from the front never moves the last admitted timestamp
/// back, nor does a push.
pub proof fn lemma_last_never_decreases<T>(b0: Buffer<T>, b1: Buffer<T>, n: int, t: u64, m: T, r: Result<(), T>)
    ensures
        b0.popped(b1, n) ==> no_earlier(b0.last(), b1.last()),
        b0.push_outcome(b1, t, m, r) ==> no_earlier(b0.last(), b1.last()),
{
}

/// The front entry of a buffer, borrowed: `take` removes it, and leaving it
/// keeps it in place.
pub struct FrontEntry<'a, T> {
    pub buffer: &'a mut Buffer<T>,
}

impl<'a, T> FrontEntry<'a, T> {
    /// The buffer as it is now.
    pub closed spec fn target(&self) -> Buffer<T> {
        *self.buffer
    }

    pub open spec fn inv(&self) -> bool {
        &&& self.target().wf()
        &&& self.target().entries().len() > 0
    }

    pub fn value(&self) -> (r: &T)
        requires
            self.inv(),
        ensures
            *r == self.target().entries()[0].1,
    {
        &self.buffer.buffer[0].1
    }

    /// The timestamp of the entry.
    pub fn ts(&self) -> (r: u64)
        requires
            self.inv(),
        ensures
            r == self.target().stamps()[0],
    {
        self.buffer.buffer[0].0
    }

    pub fn take(self) -> (r: T)
        requires
            self.inv(),
        ensures
            r == self.target().entries()[0].1,
            self.target().popped(*final(self.buffer), 1),
            final(self.buffer).wf(),
    {
        match self.buffer.pop_front() {
            Some(m) => m,
            None => vstd::pervasive::unreached(),
        }
    }
}

impl<T: Timestamped> Buffer<T> {
    /// Tries to append a message; its timestamp is read once, here. The
    /// message is admitted only when that timestamp is strictly greater than
    /// every timestamp admitted before; otherwise it is handed back and the
    /// buffer is unchanged.
    pub fn try_push(&mut self, item: T) -> (r: Result<(), T>)
        requires
            old(self).wf(),
        ensures
            final(self).wf(),
            exists|ts: u64| old(self).push_outcome(*final(self), ts, item, r),
    {
        let ts = item.timestamp();
        self.try_push_at(ts, item)
    }
}

} // verus!
