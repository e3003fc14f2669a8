//! How a thread finds the bucket of a key while other threads may replace the table.
//!
//! A thread that has locked a bucket looks again whether its table still is the latest
//! one, and starts over if it is not. A thread that replaces the table locks all of its
//! buckets first. [`TableOp`] decides what a thread does next from what it has just read;
//! the laws say what follows for all threads together.

use vstd::arithmetic::power2::pow2;
use vstd::prelude::*;

use crate::hash_table::{hash, hash_of, lemma_hash_range, LOAD_FACTOR};

verus! {

/// What a thread does next about the table. A table is known by its number.
#[derive(Clone, Copy, Debug, PartialEq, Eq, Structural)]
pub enum TableStage {
    /// Nothing.
    Idle,
    /// Read which table is the latest.
    Read,
    /// Lock a bucket of a table.
    Lock(usize, usize),
    /// Look whether the table of the locked bucket still is the latest.
    Check(usize, usize),
    /// Unlock the bucket and start over.
    Drop(usize, usize),
    /// Nothing: the thread has the bucket of its key.
    Use(usize, usize),
    /// Unlock the bucket, as the thread is done with it.
    Leave(usize, usize),
    /// Read which table is the latest, to replace it if it is too small.
    GrowRead,
    /// Lock the next bucket of the table.
    GrowLock(usize, usize),
    /// Look whether the table still is the latest.
    GrowCheck(usize),
    /// Unlock the next bucket of the table, to start over.
    GrowBack(usize, usize),
    /// Put a new table in the place of this one.
    Publish(usize),
    /// Unlock the next bucket of the table that was replaced.
    GrowUnlock(usize, usize),
}

/// A thread that looks for the bucket of a key, or that wants a table for a number of
/// threads.
#[derive(Clone, Copy, Debug, PartialEq, Eq, Structural)]
pub struct TableOp {
    pub stage: TableStage,
    pub key: usize,
    pub threads: usize,
}

impl TableOp {
    /// What a thread does once it has read which table is the latest.
    pub open spec fn on_read(self, table: usize, size: int, bits: u32) -> TableOp {
        let stage = match self.stage {
            TableStage::Read => TableStage::Lock(table, hash_of(self.key, bits) as usize),
            TableStage::GrowRead => if size >= LOAD_FACTOR * self.threads {
                TableStage::Idle
            } else {
                TableStage::GrowLock(table, 0)
            },
            other => other,
        };
        TableOp { stage, ..self }
    }

    /// What a thread does once it has locked a bucket of a table with `size` buckets.
    pub open spec fn on_locked(self, size: int) -> TableOp {
        let stage = match self.stage {
            TableStage::Lock(t, b) => TableStage::Check(t, b),
            TableStage::GrowLock(t, b) => if b + 1 == size {
                TableStage::GrowCheck(t)
            } else {
                TableStage::GrowLock(t, (b + 1) as usize)
            },
            other => other,
        };
        TableOp { stage, ..self }
    }

    /// What a thread does once it has looked again which table is the latest.
    pub open spec fn on_checked(self, latest: usize) -> TableOp {
        let stage = match self.stage {
            TableStage::Check(t, b) => if t == latest {
                TableStage::Use(t, b)
            } else {
                TableStage::Drop(t, b)
            },
            TableStage::GrowCheck(t) => if t == latest {
                TableStage::Publish(t)
            } else {
                TableStage::GrowBack(t, 0)
            },
            other => other,
        };
        TableOp { stage, ..self }
    }

    /// What a thread does once it has unlocked a bucket of a table with `size` buckets.
    pub open spec fn on_unlocked(self, size: int) -> TableOp {
        let stage = match self.stage {
            TableStage::Drop(_, _) => TableStage::Read,
            TableStage::Leave(_, _) => TableStage::Idle,
            TableStage::GrowBack(t, b) => if b + 1 == size {
                TableStage::GrowRead
            } else {
                TableStage::GrowBack(t, (b + 1) as usize)
            },
            TableStage::GrowUnlock(t, b) => if b + 1 == size {
                TableStage::Idle
            } else {
                TableStage::GrowUnlock(t, (b + 1) as usize)
            },
            other => other,
        };
        TableOp { stage, ..self }
    }

    /// What a thread does once it has put a new table in the place of another.
    pub open spec fn on_published(self) -> TableOp {
        let stage = match self.stage {
            TableStage::Publish(t) => TableStage::GrowUnlock(t, 0),
            other => other,
        };
        TableOp { stage, ..self }
    }

    /// A thread that looks for the bucket of a key.
    pub fn find(key: usize) -> (op: TableOp)
        ensures
            op == (TableOp { stage: TableStage::Read, key, threads: 0 }),
    {
        TableOp { stage: TableStage::Read, key, threads: 0 }
    }

    /// A thread that wants a table for a number of threads.
    pub fn grow(threads: usize) -> (op: TableOp)
        ensures
            op == (TableOp { stage: TableStage::GrowRead, key: 0, threads }),
    {
        TableOp { stage: TableStage::GrowRead, key: 0, threads }
    }

    /// The latest table, its size and its bits have been read.
    pub fn read(&mut self, table: usize, size: usize, bits: u32)
        requires
            1 <= bits <= 31,
            LOAD_FACTOR * old(self).threads <= usize::MAX,
        ensures
            *final(self) == old(self).on_read(table, size as int, bits),
    {
        match self.stage {
            TableStage::Read => {
                self.stage = TableStage::Lock(table, hash(self.key, bits));
            },
            TableStage::GrowRead => {
                if size >= LOAD_FACTOR * self.threads {
                    self.stage = TableStage::Idle;
                } else {
                    self.stage = TableStage::GrowLock(table, 0);
                }
            },
            _ => {},
        }
    }

    /// The bucket has been locked; its table has `size` buckets.
    pub fn locked(&mut self, size: usize)
        requires
            old(self).stage matches TableStage::GrowLock(_, b) ==> b < size,
        ensures
            *final(self) == old(self).on_locked(size as int),
    {
        match self.stage {
            TableStage::Lock(t, b) => {
                self.stage = TableStage::Check(t, b);
            },
            TableStage::GrowLock(t, b) => {
                if b + 1 == size {
                    self.stage = TableStage::GrowCheck(t);
                } else {
                    self.stage = TableStage::GrowLock(t, b + 1);
                }
            },
            _ => {},
        }
    }

    /// It has been looked again which table is the latest.
    pub fn checked(&mut self, latest: usize)
        ensures
            *final(self) == old(self).on_checked(latest),
    {
        match self.stage {
            TableStage::Check(t, b) => {
                // If no other thread has replaced the table before we grabbed the lock
                // then we are good to go! The lock we grabbed prevents any replacement.
                if t == latest {
                    self.stage = TableStage::Use(t, b);
                } else {
                    self.stage = TableStage::Drop(t, b);
                }
            },
            TableStage::GrowCheck(t) => {
                if t == latest {
                    self.stage = TableStage::Publish(t);
                } else {
                    self.stage = TableStage::GrowBack(t, 0);
                }
            },
            _ => {},
        }
    }

    /// The bucket has been unlocked; its table has `size` buckets.
    pub fn unlocked(&mut self, size: usize)
        requires
            old(self).stage matches TableStage::GrowBack(_, b) ==> b < size,
            old(self).stage matches TableStage::GrowUnlock(_, b) ==> b < size,
        ensures
            *final(self) == old(self).on_unlocked(size as int),
    {
        match self.stage {
            TableStage::Drop(_, _) => {
                self.stage = TableStage::Read;
            },
            TableStage::Leave(_, _) => {
                self.stage = TableStage::Idle;
            },
            TableStage::GrowBack(t, b) => {
                if b + 1 == size {
                    self.stage = TableStage::GrowRead;
                } else {
                    self.stage = TableStage::GrowBack(t, b + 1);
                }
            },
            TableStage::GrowUnlock(t, b) => {
                if b + 1 == size {
                    self.stage = TableStage::Idle;
                } else {
                    self.stage = TableStage::GrowUnlock(t, b + 1);
                }
            },
            _ => {},
        }
    }

    /// The new table has been put in its place.
    pub fn published(&mut self)
        ensures
            *final(self) == old(self).on_published(),
    {
        if let TableStage::Publish(t) = self.stage {
            self.stage = TableStage::GrowUnlock(t, 0);
        }
    }

    /// The thread is done with the bucket that it has.
    pub fn leave(&mut self)
        ensures
            *final(self) == (match old(self).stage {
                TableStage::Use(t, b) => TableOp { stage: TableStage::Leave(t, b), ..*old(self) },
                _ => *old(self),
            }),
    {
        if let TableStage::Use(t, b) = self.stage {
            self.stage = TableStage::Leave(t, b);
        }
    }
}

/// All tables that there have ever been, by the bits of their hash functions, the owners of
/// their locked buckets, and what every thread is about to do. The latest table is the last.
#[verifier::ext_equal]
pub struct TableSys {
    pub bits: Seq<u32>,
    pub owner: Map<(int, int), int>,
    pub ops: Seq<TableOp>,
}

/// Something that a thread does about the table.
pub enum TableEvent {
    /// An idle thread looks for the bucket of a key.
    Find(int, usize),
    /// An idle thread wants a table for a number of threads.
    Grow(int, usize),
    /// A thread is done with the bucket that it has.
    Leave(int),
    /// A thread takes its next step. A new table has that many bits.
    Step(int, u32),
}

impl TableSys {
    /// The number of the latest table.
    pub open spec fn latest(self) -> int {
        self.bits.len() - 1
    }

    /// How many buckets a table has.
    pub open spec fn size(self, t: int) -> int {
        pow2(self.bits[t] as nat) as int
    }

    /// Thread `i` has the bucket locked.
    pub open spec fn owns(self, i: int, t: int, b: int) -> bool {
        self.owner.dom().contains((t, b)) && self.owner[(t, b)] == i
    }

    /// Thread `i` has the buckets of a table from one on up to another locked.
    pub open spec fn owns_range(self, i: int, t: int, from: int, to: int) -> bool {
        forall|b: int| from <= b < to ==> #[trigger] self.owns(i, t, b)
    }

    /// There is such a bucket.
    pub open spec fn has_bucket(self, t: usize, b: usize) -> bool {
        t < self.bits.len() && b < self.size(t as int)
    }

    /// A thread has the locks that it should have.
    pub open spec fn op_ok(self, i: int) -> bool {
        let op = self.ops[i];
        &&& LOAD_FACTOR * op.threads <= 0x8000_0000
        &&& match op.stage {
            TableStage::Idle => true,
            TableStage::Read => true,
            TableStage::Lock(t, b) => self.has_bucket(t, b),
            TableStage::Check(t, b) => self.has_bucket(t, b) && self.owns(i, t as int, b as int),
            TableStage::Drop(t, b) => self.has_bucket(t, b) && self.owns(i, t as int, b as int),
            TableStage::Use(t, b) => {
                &&& self.has_bucket(t, b)
                &&& self.owns(i, t as int, b as int)
                &&& t == self.latest()
                &&& b == hash_of(op.key, self.bits[t as int])
            },
            TableStage::Leave(t, b) => {
                &&& self.has_bucket(t, b)
                &&& self.owns(i, t as int, b as int)
                &&& t == self.latest()
            },
            TableStage::GrowRead => true,
            TableStage::GrowLock(t, b) => self.has_bucket(t, b) && self.owns_range(
                i,
                t as int,
                0,
                b as int,
            ),
            TableStage::GrowCheck(t) => t < self.bits.len() && self.owns_range(
                i,
                t as int,
                0,
                self.size(t as int),
            ),
            TableStage::GrowBack(t, b) => self.has_bucket(t, b) && self.owns_range(
                i,
                t as int,
                b as int,
                self.size(t as int),
            ),
            TableStage::Publish(t) => t == self.latest() && self.owns_range(
                i,
                t as int,
                0,
                self.size(t as int),
            ),
            TableStage::GrowUnlock(t, b) => self.has_bucket(t, b) && t < self.latest()
                && self.owns_range(i, t as int, b as int, self.size(t as int)),
        }
    }

    /// Where a thread that looks for a key has a bucket, it is the one of the key.
    pub open spec fn right_bucket(self, i: int) -> bool {
        let op = self.ops[i];
        match op.stage {
            TableStage::Lock(t, b) => b == hash_of(op.key, self.bits[t as int]),
            TableStage::Check(t, b) => b == hash_of(op.key, self.bits[t as int]),
            _ => true,
        }
    }

    /// What holds of the tables at every moment.
    pub open spec fn safe(self) -> bool {
        &&& 0 < self.bits.len() <= usize::MAX
        &&& (forall|t: int| 0 <= t < self.bits.len() ==> 1 <= #[trigger] self.bits[t] <= 31)
        &&& (forall|i: int| 0 <= i < self.ops.len() ==> #[trigger] self.op_ok(i))
        &&& (forall|i: int| 0 <= i < self.ops.len() ==> #[trigger] self.right_bucket(i))
    }

    /// The event can happen.
    pub open spec fn allows(self, event: TableEvent) -> bool {
        match event {
            TableEvent::Find(i, _) => 0 <= i < self.ops.len() && self.ops[i].stage is Idle,
            TableEvent::Grow(i, threads) => {
                &&& 0 <= i < self.ops.len()
                &&& self.ops[i].stage is Idle
                &&& LOAD_FACTOR * threads <= 0x8000_0000
            },
            TableEvent::Leave(i) => 0 <= i < self.ops.len(),
            TableEvent::Step(i, bits) => {
                &&& 0 <= i < self.ops.len()
                &&& 1 <= bits <= 31
                &&& self.ops[i].stage is Publish ==> {
                    &&& pow2(bits as nat) >= LOAD_FACTOR * self.ops[i].threads
                    &&& self.bits.len() < usize::MAX
                }
            },
        }
    }

    /// What the next step of thread `i` makes of the tables.
    pub open spec fn step(self, i: int, bits: u32) -> TableSys {
        let op = self.ops[i];
        let now = self.latest();
        match op.stage {
            TableStage::Idle => self,
            TableStage::Use(_, _) => self,
            TableStage::Read => TableSys {
                ops: self.ops.update(i, op.on_read(now as usize, self.size(now), self.bits[now])),
                ..self
            },
            TableStage::GrowRead => TableSys {
                ops: self.ops.update(i, op.on_read(now as usize, self.size(now), self.bits[now])),
                ..self
            },
            TableStage::Lock(t, b) => self.lock_step(i, t as int, b as int),
            TableStage::GrowLock(t, b) => self.lock_step(i, t as int, b as int),
            TableStage::Check(_, _) => TableSys {
                ops: self.ops.update(i, op.on_checked(now as usize)),
                ..self
            },
            TableStage::GrowCheck(_) => TableSys {
                ops: self.ops.update(i, op.on_checked(now as usize)),
                ..self
            },
            TableStage::Drop(t, b) => self.unlock_step(i, t as int, b as int),
            TableStage::Leave(t, b) => self.unlock_step(i, t as int, b as int),
            TableStage::GrowBack(t, b) => self.unlock_step(i, t as int, b as int),
            TableStage::GrowUnlock(t, b) => self.unlock_step(i, t as int, b as int),
            TableStage::Publish(_) => TableSys {
                bits: self.bits.push(bits),
                ops: self.ops.update(i, op.on_published()),
                ..self
            },
        }
    }

    /// A thread locks a bucket, unless it is locked.
    pub open spec fn lock_step(self, i: int, t: int, b: int) -> TableSys {
        if self.owner.dom().contains((t, b)) {
            self
        } else {
            TableSys {
                owner: self.owner.insert((t, b), i),
                ops: self.ops.update(i, self.ops[i].on_locked(self.size(t))),
                ..self
            }
        }
    }

    /// A thread unlocks a bucket.
    pub open spec fn unlock_step(self, i: int, t: int, b: int) -> TableSys {
        TableSys {
            owner: self.owner.remove((t, b)),
            ops: self.ops.update(i, self.ops[i].on_unlocked(self.size(t))),
            ..self
        }
    }

    /// What the event makes of the tables.
    pub open spec fn after(self, event: TableEvent) -> TableSys {
        match event {
            TableEvent::Find(i, key) => TableSys {
                ops: self.ops.update(i, TableOp { stage: TableStage::Read, key, threads: 0 }),
                ..self
            },
            TableEvent::Grow(i, threads) => TableSys {
                ops: self.ops.update(
                    i,
                    TableOp { stage: TableStage::GrowRead, key: 0, threads },
                ),
                ..self
            },
            TableEvent::Leave(i) => match self.ops[i].stage {
                TableStage::Use(t, b) => TableSys {
                    ops: self.ops.update(
                        i,
                        TableOp { stage: TableStage::Leave(t, b), ..self.ops[i] },
                    ),
                    ..self
                },
                _ => self,
            },
            TableEvent::Step(i, bits) => self.step(i, bits),
        }
    }

    /// All events of the schedule can happen, one after the other.
    pub open spec fn allows_all(self, schedule: Seq<TableEvent>) -> bool
        decreases schedule.len(),
    {
        schedule.len() > 0 ==> self.allows(schedule[0]) && self.after(schedule[0]).allows_all(
            schedule.skip(1),
        )
    }

    /// What the events of the schedule make of the tables, one after the other.
    pub open spec fn after_all(self, schedule: Seq<TableEvent>) -> TableSys
        decreases schedule.len(),
    {
        if schedule.len() == 0 {
            self
        } else {
            self.after(schedule[0]).after_all(schedule.skip(1))
        }
    }
}

/// Every event keeps the tables safe.
pub proof fn law_table_event(s: TableSys, event: TableEvent)
    requires
        s.safe(),
        s.allows(event),
    ensures
        s.after(event).safe(),
{
    let s2 = s.after(event);
    match event {
        TableEvent::Step(i, bits) => {
            let now = s.latest();
            assert(s.op_ok(i));
            assert(s.right_bucket(i));
            lemma_hash_range(s.ops[i].key, s.bits[now]);
            lemma_size(s.bits[now]);
            assert forall|j: int| 0 <= j < s2.ops.len() implies #[trigger] s2.op_ok(j) by {
                assert(s.op_ok(j));
                lemma_step_op(s, i, bits, j);
            }
            assert forall|t: int| 0 <= t < s2.bits.len() implies 1 <= #[trigger] s2.bits[t]
                <= 31 by {
                if t < s.bits.len() {
                    assert(s2.bits[t] == s.bits[t]);
                }
            }
            assert forall|j: int| 0 <= j < s2.ops.len() implies #[trigger] s2.right_bucket(j) by {
                assert(s.right_bucket(j));
                assert(s.op_ok(j));
            }
        },
        _ => {
            lemma_owns_frame(s, s2);
            assert forall|j: int| 0 <= j < s2.ops.len() implies #[trigger] s2.op_ok(j) by {
                assert(s.op_ok(j));
            }
            assert forall|j: int| 0 <= j < s2.ops.len() implies #[trigger] s2.right_bucket(j) by {
                assert(s.right_bucket(j));
            }
        },
    }
}

/// A table has at least one bucket, and not too many for a word.
proof fn lemma_size(bits: u32)
    requires
        bits <= 31,
    ensures
        0 < pow2(bits as nat) <= 0x8000_0000,
{
    vstd::arithmetic::power2::lemma_pow2_pos(bits as nat);
    vstd::arithmetic::power2::lemma2_to64();
    if bits < 31 {
        vstd::arithmetic::power2::lemma_pow2_strictly_increases(bits as nat, 31);
    }
}

/// Where no lock changes, every thread has the locks that it had.
proof fn lemma_owns_frame(a: TableSys, b: TableSys)
    requires
        b.owner == a.owner,
    ensures
        forall|i: int, t: int, x: int, y: int| #[trigger]
            b.owns_range(i, t, x, y) == a.owns_range(i, t, x, y),
{
    assert forall|i: int, t: int, x: int, y: int| #[trigger]
        b.owns_range(i, t, x, y) == a.owns_range(i, t, x, y) by {
        if a.owns_range(i, t, x, y) {
            assert forall|c: int| x <= c < y implies #[trigger] b.owns(i, t, c) by {
                assert(a.owns(i, t, c));
            }
        }
        if b.owns_range(i, t, x, y) {
            assert forall|c: int| x <= c < y implies #[trigger] a.owns(i, t, c) by {
                assert(b.owns(i, t, c));
            }
        }
    }
}

/// A step of a thread leaves every thread with the locks that it should have.
proof fn lemma_step_op(s: TableSys, i: int, bits: u32, j: int)
    requires
        s.safe(),
        s.allows(TableEvent::Step(i, bits)),
        0 <= j < s.ops.len(),
        0 < s.size(s.latest()) <= 0x8000_0000,
        0 <= hash_of(s.ops[i].key, s.bits[s.latest()]) < s.size(s.latest()),
    ensures
        s.step(i, bits).op_ok(j),
{
    let s2 = s.step(i, bits);
    assert(s.op_ok(i));
    assert(s.op_ok(j));
    assert(s.right_bucket(i));
    if s.ops[i].stage is Publish && j != i {
        // A thread that has a bucket of the latest table would own it, too.
        let t = s.latest();
        match s.ops[j].stage {
            TableStage::Use(_, b) => {
                assert(s.owns(i, t, b as int));
            },
            TableStage::Leave(_, b) => {
                assert(s.owns(i, t, b as int));
            },
            TableStage::Publish(_) => {
                assert(s.owns(i, t, 0));
                assert(s.owns(j, t, 0));
            },
            _ => {},
        }
    }
    // What another thread owns stays its own; what thread `i` locks or unlocks was not its.
    assert forall|t: int, b: int| j != i && #[trigger] s.owns(j, t, b) implies s2.owns(j, t, b) by {
        match s.ops[i].stage {
            TableStage::GrowBack(t2, b2) => {
                assert(s.owns(i, t2 as int, b2 as int));
            },
            TableStage::GrowUnlock(t2, b2) => {
                assert(s.owns(i, t2 as int, b2 as int));
            },
            _ => {},
        }
    }
    assert forall|t: int, from: int, to: int| j != i && #[trigger] s.owns_range(
        j,
        t,
        from,
        to,
    ) implies s2.owns_range(j, t, from, to) by {
        assert forall|b: int| from <= b < to implies #[trigger] s2.owns(j, t, b) by {
            assert(s.owns(j, t, b));
        }
    }
    if s2.owner == s.owner {
        lemma_owns_frame(s, s2);
    }
    assert forall|t: int| 0 <= t < s.bits.len() implies s2.size(t) == s.size(t) by {}
    if j != i {
        assert(s2.ops[j] == s.ops[j]);
        assert(s2.op_ok(j));
    }
    if j == i {
        match s.ops[i].stage {
            TableStage::GrowLock(t, b) => {
                lemma_size(s.bits[t as int]);
                assert forall|c: int| 0 <= c < b + 1 && !s.owner.dom().contains(
                    (t as int, b as int),
                ) implies #[trigger] s2.owns(i, t as int, c) by {
                    if c < b {
                        assert(s.owns(i, t as int, c));
                    }
                }
            },
            TableStage::GrowBack(t, b) => {
                lemma_size(s.bits[t as int]);
                assert forall|c: int| b + 1 <= c < s.size(t as int) implies #[trigger] s2.owns(
                    i,
                    t as int,
                    c,
                ) by {
                    assert(s.owns(i, t as int, c));
                }
            },
            TableStage::GrowUnlock(t, b) => {
                lemma_size(s.bits[t as int]);
                assert forall|c: int| b + 1 <= c < s.size(t as int) implies #[trigger] s2.owns(
                    i,
                    t as int,
                    c,
                ) by {
                    assert(s.owns(i, t as int, c));
                }
            },
            TableStage::GrowCheck(t) => {
                lemma_size(s.bits[t as int]);
                assert forall|c: int| 0 <= c < s.size(t as int) implies #[trigger] s2.owns(
                    i,
                    t as int,
                    c,
                ) by {
                    assert(s.owns(i, t as int, c));
                }
            },
            TableStage::Publish(t) => {
                lemma_size(s.bits[t as int]);
                assert forall|c: int| 0 <= c < s.size(t as int) implies #[trigger] s2.owns(
                    i,
                    t as int,
                    c,
                ) by {
                    assert(s.owns(i, t as int, c));
                }
            },
            _ => {},
        }
    }
}

/// Whatever threads do about the table, and in whatever order their steps come, the tables
/// stay safe.
pub proof fn law_any_table_schedule(s: TableSys, schedule: Seq<TableEvent>)
    requires
        s.safe(),
        s.allows_all(schedule),
    ensures
        s.after_all(schedule).safe(),
    decreases schedule.len(),
{
    if schedule.len() > 0 {
        law_table_event(s, schedule[0]);
        law_any_table_schedule(s.after(schedule[0]), schedule.skip(1));
    }
}

/// A thread that has the bucket of its key has it in the latest table: the lock that it
/// grabbed prevents the table from being replaced. No two threads have the same bucket.
pub proof fn law_bucket_is_current(s: TableSys, i: int, j: int)
    requires
        s.safe(),
        0 <= i < s.ops.len(),
        0 <= j < s.ops.len(),
    ensures
        s.ops[i].stage matches TableStage::Use(t, b) ==> {
            &&& t == s.latest()
            &&& b == hash_of(s.ops[i].key, s.bits[s.latest()])
            &&& s.ops[j].stage == s.ops[i].stage ==> i == j
        },
{
    assert(s.op_ok(i));
    assert(s.op_ok(j));
}

/// While a thread puts a new table in the place of the latest one, no other thread has a
/// bucket of it, and none replaces it.
pub proof fn law_alone_at_replacement(s: TableSys, i: int, j: int)
    requires
        s.safe(),
        0 <= i < s.ops.len(),
        0 <= j < s.ops.len(),
        i != j,
        s.ops[i].stage is Publish,
    ensures
        !(s.ops[j].stage is Use),
        !(s.ops[j].stage is Publish),
{
    assert(s.op_ok(i));
    assert(s.op_ok(j));
    let t = s.latest();
    vstd::arithmetic::power2::lemma_pow2_pos(s.bits[t] as nat);
    assert(s.owns(i, t, 0));
    match s.ops[j].stage {
        TableStage::Use(_, b) => {
            assert(s.owns(i, t, b as int));
        },
        TableStage::Publish(_) => {
            assert(s.owns(j, t, 0));
        },
        _ => {},
    }
}

} // verus!
