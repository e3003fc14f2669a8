//! What holds of a word-sized lock while any number of threads lock and unlock it.

use vstd::prelude::*;

use crate::word_model::{
    locked, queue_head, queue_locked, scan_chain, with_queue_head, word_next, Waiter, WordMem,
    WordOp, WordStage,
};

verus! {

/// The thread has the lock.
pub open spec fn holds(op: WordOp) -> bool {
    op.stage is Held || op.stage is Release
}

/// The thread has the queue lock.
pub open spec fn holds_queue(op: WordOp) -> bool {
    match op.stage {
        WordStage::Scan => true,
        WordStage::DropQueue => true,
        WordStage::TakeLast => true,
        WordStage::TakeTail => true,
        _ => false,
    }
}

/// The thread has filled in the links from the waiter that it found at the front.
pub open spec fn scanned(op: WordOp) -> bool {
    op.stage is DropQueue || op.stage is TakeLast || op.stage is TakeTail
}

/// A lock with the threads that use it. `queue` is the waiters from front to end, and
/// `mark` is where in it the links towards the front begin.
#[verifier::ext_equal]
pub struct WordSys {
    pub mem: WordMem,
    pub ops: Seq<WordOp>,
    pub queue: Seq<int>,
    pub mark: int,
}

impl WordSys {
    /// A free lock that `threads` threads use.
    pub open spec fn begin(threads: nat) -> WordSys {
        WordSys {
            mem: WordMem { word: 0, waiters: Seq::new(threads, |i: int| Waiter::fresh()) },
            ops: Seq::new(threads, |i: int| WordOp::idle()),
            queue: Seq::empty(),
            mark: 0,
        }
    }

    /// The waiter has a thread, and its place in the queue.
    pub open spec fn queued(self, q: int) -> bool {
        let n = self.ops.len();
        &&& 0 <= self.queue[q] < n
        &&& self.ops[self.queue[q]].stage is Asleep
        &&& self.mem.waiters[self.queue[q]].parker.futex != 0
        &&& q + 1 < self.queue.len() ==> self.mem.waiters[self.queue[q]].next == Some(
            self.queue[q + 1] as usize,
        )
        &&& q < self.mark ==> self.mem.waiters[self.queue[q]].queue_tail is None
        &&& q == self.mark ==> self.mem.waiters[self.queue[q]].queue_tail == Some(
            self.queue.last() as usize,
        )
        &&& q <= self.mark ==> self.mem.waiters[self.queue[q]].prev is None
        &&& q > self.mark ==> self.mem.waiters[self.queue[q]].prev == Some(
            self.queue[q - 1] as usize,
        )
    }

    /// The queue is threaded through the records as it should be.
    pub open spec fn queue_ok(self) -> bool {
        &&& (forall|q: int| 0 <= q < self.queue.len() ==> #[trigger] self.queued(q))
        &&& (forall|q: int, r: int|
            0 <= q < r < self.queue.len() ==> #[trigger] self.queue[q] != #[trigger] self.queue[r])
        &&& queue_head(self.mem.word) == (if self.queue.len() == 0 {
            None::<usize>
        } else {
            Some(self.queue[0] as usize)
        })
        &&& self.queue.len() > 0 ==> 0 <= self.mark < self.queue.len()
    }

    /// What a thread knows of the lock.
    pub open spec fn op_ok(self, i: int) -> bool {
        let op = self.ops[i];
        &&& op.stage is Acquire ==> !locked(op.state)
        &&& op.stage is Enqueue ==> locked(op.state)
        &&& op.stage is GrabQueue ==> !queue_locked(op.state) && queue_head(op.state) is Some
        &&& holds(op) ==> locked(self.mem.word)
        &&& holds_queue(op) ==> {
            &&& queue_locked(self.mem.word)
            &&& self.queue.len() > 0
            &&& queue_head(op.state) is Some
        }
        &&& op.stage is Scan ==> exists|j: int|
            0 <= j <= self.mark && #[trigger] self.queue[j] == queue_head(op.state)->0
        &&& scanned(op) ==> self.queue[self.mark] == queue_head(op.state)->0 && self.queue.last()
            == op.tail
        &&& op.stage is DropQueue ==> locked(op.state)
        &&& op.stage is TakeLast ==> self.mark == self.queue.len() - 1 && !locked(op.state)
        &&& op.stage is TakeTail ==> self.mark < self.queue.len() - 1
        &&& op.stage is Wake ==> self.woken_by(i)
    }

    /// The waiter that thread `i` is about to wake up sleeps and is off the queue.
    pub open spec fn woken_by(self, i: int) -> bool {
        let t = self.ops[i].tail as int;
        &&& 0 <= t < self.ops.len()
        &&& self.ops[t].stage is Asleep
        &&& self.mem.waiters[t].parker.futex != 0
        &&& !self.queue.contains(t)
    }

    /// Two threads do not both have the lock, nor both the queue lock, nor do they wake
    /// up one waiter.
    pub open spec fn apart(self, i: int, j: int) -> bool {
        let a = self.ops[i];
        let b = self.ops[j];
        &&& !(holds(a) && holds(b))
        &&& !(holds_queue(a) && holds_queue(b))
        &&& !(a.stage is Wake && b.stage is Wake && a.tail == b.tail)
    }

    /// What holds of the lock at every moment.
    pub open spec fn safe(self) -> bool {
        &&& self.ops.len() == self.mem.waiters.len()
        &&& 4 * (self.ops.len() + 1) <= usize::MAX
        &&& self.queue_ok()
        &&& (forall|i: int| 0 <= i < self.ops.len() ==> #[trigger] self.op_ok(i))
        &&& (forall|i: int, j: int| 0 <= i < j < self.ops.len() ==> #[trigger] self.apart(i, j))
    }

    /// Some thread has the lock.
    pub open spec fn has_holder(self) -> bool {
        exists|i: int| 0 <= i < self.ops.len() && holds(#[trigger] self.ops[i])
    }

    /// Some thread has the queue lock.
    pub open spec fn has_queue_holder(self) -> bool {
        exists|i: int| 0 <= i < self.ops.len() && holds_queue(#[trigger] self.ops[i])
    }

    /// Thread `i` runs, and either tries for the lock or sees to it that a waiter will.
    pub open spec fn rousing(self, i: int) -> bool {
        match self.ops[i].stage {
            WordStage::Fast => true,
            WordStage::Load => true,
            WordStage::Acquire => true,
            WordStage::Enqueue => true,
            WordStage::Asleep => self.mem.waiters[i].parker.futex == 0,
            WordStage::UnlockLoad => true,
            WordStage::GrabQueue => true,
            WordStage::Wake => true,
            _ => holds_queue(self.ops[i]),
        }
    }

    /// Some thread tries for the lock or sees to it that a waiter will.
    pub open spec fn has_rouser(self) -> bool {
        exists|i: int| 0 <= i < self.ops.len() && #[trigger] self.rousing(i)
    }

    /// Some thread is about to wake up thread `i`.
    pub open spec fn being_woken(self, i: int) -> bool {
        exists|j: int|
            0 <= j < self.ops.len() && (#[trigger] self.ops[j]).stage is Wake && self.ops[j].tail
                == i
    }

    /// A thread that sleeps is in the queue, or somebody is about to wake it up.
    pub open spec fn accounted(self, i: int) -> bool {
        self.ops[i].stage is Asleep && self.mem.waiters[i].parker.futex != 0
            ==> self.queue.contains(i) || self.being_woken(i)
    }

    /// No bit of the word outlives its owner, no sleeper is forgotten, and while the lock
    /// is free and somebody waits for it, somebody is at work on it.
    pub open spec fn live(self) -> bool {
        &&& locked(self.mem.word) ==> self.has_holder()
        &&& queue_locked(self.mem.word) ==> self.has_queue_holder()
        &&& (forall|i: int| 0 <= i < self.ops.len() ==> #[trigger] self.accounted(i))
        &&& !locked(self.mem.word) && self.queue.len() > 0 ==> self.has_rouser()
    }

    /// The lock, the queue and the waiters after the next access of thread `i`.
    pub open spec fn step(self, i: int, spurious: bool) -> WordSys {
        let op = self.ops[i];
        let (mem, next) = word_next(self.mem, op, i, spurious);
        let hit = !spurious && self.mem.word == op.state;
        let ops = self.ops.update(i, next);
        match op.stage {
            WordStage::Enqueue => if hit {
                WordSys {
                    mem,
                    ops,
                    queue: seq![i] + self.queue,
                    mark: if self.queue.len() == 0 {
                        0
                    } else {
                        self.mark + 1
                    },
                }
            } else {
                WordSys { mem, ops, ..self }
            },
            WordStage::Scan => WordSys {
                mem,
                ops,
                mark: self.queue.index_of(queue_head(op.state)->0 as int),
                ..self
            },
            WordStage::TakeLast => if hit {
                WordSys { mem, ops, queue: self.queue.drop_last(), ..self }
            } else {
                WordSys { mem, ops, ..self }
            },
            WordStage::TakeTail => WordSys { mem, ops, queue: self.queue.drop_last(), ..self },
            _ => WordSys { mem, ops, ..self },
        }
    }
}

/// Steps that change neither the word's queue nor any record keep the queue in order.
proof fn lemma_queue_frame(s: WordSys, s2: WordSys, i: int)
    requires
        s.queue_ok(),
        s2.queue == s.queue,
        s2.mark == s.mark,
        s2.ops.len() == s.ops.len(),
        0 <= i < s.ops.len(),
        queue_head(s2.mem.word) == queue_head(s.mem.word),
        forall|j: int| 0 <= j < s.ops.len() && j != i ==> s2.ops[j] == s.ops[j],
        forall|j: int| 0 <= j < s.ops.len() && j != i ==> s2.mem.waiters[j] == s.mem.waiters[j],
        s.ops[i].stage is Asleep && s.mem.waiters[i].parker.futex != 0 ==> s2.ops[i].stage is Asleep
            && s2.mem.waiters[i] == s.mem.waiters[i],
    ensures
        s2.queue_ok(),
{
    assert forall|q: int| 0 <= q < s2.queue.len() implies #[trigger] s2.queued(q) by {
        assert(s.queued(q));
    }
}

/// Where thread `i` alone changed, and the queue and the waiters did not, the other
/// threads know what they knew.
proof fn lemma_ops_frame(s: WordSys, s2: WordSys, i: int)
    requires
        s.safe(),
        s2.queue == s.queue,
        s2.mark == s.mark,
        s2.ops.len() == s.ops.len(),
        s2.mem.waiters.len() == s.mem.waiters.len(),
        0 <= i < s.ops.len(),
        forall|j: int| 0 <= j < s.ops.len() && j != i ==> s2.ops[j] == s.ops[j],
        forall|j: int| 0 <= j < s.ops.len() && j != i ==> s2.mem.waiters[j] == s.mem.waiters[j],
        s.ops[i].stage is Asleep && s.mem.waiters[i].parker.futex != 0 ==> s2.ops[i].stage is Asleep
            && s2.mem.waiters[i] == s.mem.waiters[i],
        s2.queue_ok(),
        s2.op_ok(i),
        locked(s.mem.word) && !holds(s.ops[i]) ==> locked(s2.mem.word),
        queue_locked(s.mem.word) && !holds_queue(s.ops[i]) ==> queue_locked(s2.mem.word),
        holds(s2.ops[i]) ==> holds(s.ops[i]) || !locked(s.mem.word),
        holds_queue(s2.ops[i]) ==> holds_queue(s.ops[i]) || !queue_locked(s.mem.word),
        s2.ops[i].stage !is Wake,
    ensures
        s2.safe(),
{
    assert forall|j: int| 0 <= j < s2.ops.len() implies #[trigger] s2.op_ok(j) by {
        if j != i {
            assert(s.op_ok(j));
            if i < j {
                assert(s.apart(i, j));
            } else {
                assert(s.apart(j, i));
            }
        }
    }
    assert forall|j: int, k: int| 0 <= j < k < s2.ops.len() implies #[trigger] s2.apart(j, k) by {
        assert(s.apart(j, k));
        assert(s.op_ok(j) && s.op_ok(k));
    }
}

/// A step that only reads, or moves on by itself, keeps the lock safe.
proof fn lemma_plain_step(s: WordSys, i: int, spurious: bool)
    requires
        s.safe(),
        0 <= i < s.ops.len(),
        match s.ops[i].stage {
            WordStage::Enqueue => spurious || s.mem.word != s.ops[i].state,
            WordStage::Scan => false,
            WordStage::TakeLast => spurious || s.mem.word != s.ops[i].state,
            WordStage::TakeTail => false,
            WordStage::Wake => false,
            _ => true,
        },
    ensures
        s.step(i, spurious).safe(),
{
    let s2 = s.step(i, spurious);
    let op = s.ops[i];
    assert(s.op_ok(i));
    if s.queue.len() > 0 {
        assert(s.queued(0));
        assert(s.queued(s.mark));
    }
    lemma_queue_frame(s, s2, i);
    assert(s2.op_ok(i)) by {
        if s2.ops[i].stage is Scan {
            assert(s2.queue[0] == queue_head(s2.ops[i].state)->0);
        }
    }
    lemma_ops_frame(s, s2, i);
}

/// Putting itself at the front of the queue.
proof fn lemma_enqueue(s: WordSys, i: int)
    requires
        s.safe(),
        0 <= i < s.ops.len(),
        s.ops[i].stage is Enqueue,
        s.mem.word == s.ops[i].state,
    ensures
        s.step(i, false).safe(),
{
    let s2 = s.step(i, false);
    let op = s.ops[i];
    assert(s.op_ok(i));
    assert(s2.mem.word == with_queue_head(op.state, i));
    assert(queue_head(s2.mem.word) == Some(i as usize));
    assert forall|q: int| 0 <= q < s.queue.len() implies #[trigger] s.queue[q] != i by {
        assert(s.queued(q));
    }
    assert forall|q: int| 0 <= q < s2.queue.len() implies #[trigger] s2.queued(q) by {
        if q > 0 {
            assert(s.queued(q - 1));
            assert(s2.queue[q] == s.queue[q - 1]);
            if q + 1 < s2.queue.len() {
                assert(s2.queue[q + 1] == s.queue[q]);
            }
            assert(s2.queue.last() == s.queue.last());
            if q > s2.mark {
                assert(s2.queue[q - 1] == s.queue[q - 2]);
            }
        } else {
            assert(s2.queue[0] == i);
            if s.queue.len() > 0 {
                assert(s2.queue[1] == s.queue[0]);
            }
        }
    }
    assert forall|q: int, r: int| 0 <= q < r < s2.queue.len() implies #[trigger] s2.queue[q]
        != #[trigger] s2.queue[r] by {
        assert(s2.queue[r] == s.queue[r - 1]);
        if q > 0 {
            assert(s2.queue[q] == s.queue[q - 1]);
        }
    }
    assert(s2.queue_ok());
    assert forall|j: int| 0 <= j < s2.ops.len() implies #[trigger] s2.op_ok(j) by {
        assert(s.op_ok(j));
        if j != i {
            let o = s.ops[j];
            if o.stage is Scan {
                let k = choose|k: int|
                    0 <= k <= s.mark && #[trigger] s.queue[k] == queue_head(o.state)->0;
                assert(s2.queue[k + 1] == s.queue[k]);
            }
            if scanned(o) {
                assert(s2.queue[s2.mark] == s.queue[s.mark]);
                assert(s2.queue.last() == s.queue.last());
            }
            if o.stage is Wake {
                let t = o.tail as int;
                assert(t != i);
                if s2.queue.contains(t) {
                    let q = choose|q: int| 0 <= q < s2.queue.len() && s2.queue[q] == t;
                    assert(s2.queue[q] == s.queue[q - 1]);
                    assert(s.queue.contains(t));
                }
            }
        }
    }
    assert forall|j: int, k: int| 0 <= j < k < s2.ops.len() implies #[trigger] s2.apart(j, k) by {
        assert(s.apart(j, k));
    }
}

/// The place of a waiter in the queue.
pub proof fn lemma_index_of(s: WordSys, j: int)
    requires
        s.queue_ok(),
        0 <= j < s.queue.len(),
    ensures
        s.queue.index_of(s.queue[j]) == j,
{
    let k = s.queue.index_of(s.queue[j]);
    assert(s.queue.contains(s.queue[j]));
    assert(0 <= k < s.queue.len() && s.queue[k] == s.queue[j]);
    if k < j {
        assert(s.queue[k] != s.queue[j]);
    }
    if j < k {
        assert(s.queue[j] != s.queue[k]);
    }
}

/// A record once the links of the waiters behind place `at`, up to place `upto`, have been
/// filled in.
pub open spec fn filled_in(s: WordSys, at: int, upto: int, j: int) -> Waiter {
    let q = s.queue.index_of(j);
    if s.queue.contains(j) && at < q <= upto {
        Waiter { prev: Some(s.queue[q - 1] as usize), ..s.mem.waiters[j] }
    } else {
        s.mem.waiters[j]
    }
}

/// Following the queue fills in the links towards the front up to the mark, and nothing
/// else, and finds the end.
pub proof fn lemma_scan_chain(s: WordSys, ws: Seq<Waiter>, at: int, from: int, fuel: nat)
    requires
        s.queue_ok(),
        s.ops.len() == s.mem.waiters.len(),
        s.ops.len() <= usize::MAX,
        0 <= at <= from <= s.mark < s.queue.len(),
        fuel >= s.queue.len() - from,
        ws == Seq::new(s.ops.len(), |j: int| filled_in(s, at, from, j)),
    ensures
        scan_chain(ws, s.queue[from], fuel) == (
            Seq::new(s.ops.len(), |j: int| filled_in(s, at, s.mark, j)),
            s.queue.last() as usize,
        ),
    decreases s.mark - from,
{
    let c = s.queue[from];
    assert(s.queued(from));
    lemma_index_of(s, from);
    assert(ws[c].queue_tail == s.mem.waiters[c].queue_tail);
    assert(ws[c].next == s.mem.waiters[c].next);
    if from < s.mark {
        assert(s.queued(from + 1));
        let n = s.queue[from + 1];
        lemma_index_of(s, from + 1);
        assert(s.queue.contains(n));
        assert(ws[n] == s.mem.waiters[n]);
        let ws2 = ws.update(n, Waiter { prev: Some(c as usize), ..ws[n] });
        assert forall|j: int| 0 <= j < s.ops.len() implies #[trigger] ws2[j] == filled_in(
            s,
            at,
            from + 1,
            j,
        ) by {
            if j != n && s.queue.contains(j) {
                let q = s.queue.index_of(j);
                assert(s.queue[q] == j);
            }
        }
        assert(ws2 =~= Seq::new(s.ops.len(), |j: int| filled_in(s, at, from + 1, j)));
        lemma_scan_chain(s, ws2, at, from + 1, (fuel - 1) as nat);
    }
}

/// Filling in links and finding the end of the queue.
proof fn lemma_scan(s: WordSys, i: int, spurious: bool)
    requires
        s.safe(),
        0 <= i < s.ops.len(),
        s.ops[i].stage is Scan,
    ensures
        s.step(i, spurious).safe(),
        forall|j: int|
            0 <= j < s.ops.len() ==> (#[trigger] s.step(i, spurious).mem.waiters[j]).parker
                == s.mem.waiters[j].parker,
{
    let s2 = s.step(i, spurious);
    let op = s.ops[i];
    assert(s.op_ok(i));
    let j = choose|j: int| 0 <= j <= s.mark && #[trigger] s.queue[j] == queue_head(op.state)->0;
    lemma_index_of(s, j);
    assert(s.queued(j));
    assert(s2.mark == j);
    assert(s.queue.len() <= s.ops.len()) by {
        lemma_queue_fits(s);
    }
    assert(s.mem.waiters =~= Seq::new(s.ops.len(), |k: int| filled_in(s, j, j, k)));
    lemma_scan_chain(s, s.mem.waiters, j, j, s.mem.waiters.len());
    let head = s.queue[j];
    let (out, tail) = scan_chain(s.mem.waiters, head, s.mem.waiters.len());
    let last = s.queue.len() - 1;
    assert(s.queued(last));
    assert forall|q: int| 0 <= q < s.queue.len() implies #[trigger] out[s.queue[q]] == (if j < q
        <= s.mark {
        Waiter { prev: Some(s.queue[q - 1] as usize), ..s.mem.waiters[s.queue[q]] }
    } else {
        s.mem.waiters[s.queue[q]]
    }) by {
        assert(s.queued(q));
        lemma_index_of(s, q);
        assert(s.queue.contains(s.queue[q]));
    }
    assert forall|q: int| 0 <= q < s2.queue.len() implies #[trigger] s2.queued(q) by {
        assert(s.queued(q));
        assert(out[s.queue[q]] == (if j < q <= s.mark {
            Waiter { prev: Some(s.queue[q - 1] as usize), ..s.mem.waiters[s.queue[q]] }
        } else {
            s.mem.waiters[s.queue[q]]
        }));
        if q != j {
            if q < j {
                assert(s.queue[q] != s.queue[j]);
            } else {
                assert(s.queue[j] != s.queue[q]);
            }
        }
    }
    assert(s2.queue_ok());
    assert forall|k: int| 0 <= k < s.ops.len() implies (#[trigger] s2.mem.waiters[k]).parker
        == s.mem.waiters[k].parker by {
        assert(out[k] == filled_in(s, j, s.mark, k));
    }
    assert(out[s.queue[last]].prev is None <==> last <= j);
    assert forall|k: int| 0 <= k < s2.ops.len() implies #[trigger] s2.op_ok(k) by {
        assert(s.op_ok(k));
        if k != i {
            if i < k {
                assert(s.apart(i, k));
            } else {
                assert(s.apart(k, i));
            }
        }
    }
    assert forall|a: int, b: int| 0 <= a < b < s2.ops.len() implies #[trigger] s2.apart(a, b) by {
        assert(s.apart(a, b));
    }
}

/// No more threads wait than there are.
pub proof fn lemma_queue_fits(s: WordSys)
    requires
        s.queue_ok(),
    ensures
        s.queue.len() <= s.ops.len(),
{
    let n = s.ops.len() as int;
    assert(s.queue.no_duplicates());
    s.queue.unique_seq_to_set();
    let all = vstd::set_lib::set_int_range(0, n);
    vstd::set_lib::lemma_int_range(0, n);
    assert(s.queue.to_set().subset_of(all)) by {
        assert forall|x: int| s.queue.to_set().contains(x) implies all.contains(x) by {
            let q = choose|q: int| 0 <= q < s.queue.len() && s.queue[q] == x;
            assert(s.queued(q));
        }
    }
    vstd::set_lib::lemma_len_subset(s.queue.to_set(), all);
}

/// Taking the only waiter off the queue.
proof fn lemma_take_last(s: WordSys, i: int)
    requires
        s.safe(),
        0 <= i < s.ops.len(),
        s.ops[i].stage is TakeLast,
        s.mem.word == s.ops[i].state,
    ensures
        s.step(i, false).safe(),
{
    let s2 = s.step(i, false);
    let op = s.ops[i];
    assert(s.op_ok(i));
    assert(s.queued(s.queue.len() - 1));
    assert(s.queue.len() == 1) by {
        assert(s.queued(0));
        assert(s.queue[0] == s.queue[s.mark]);
    }
    assert(s2.queue_ok());
    assert forall|k: int| 0 <= k < s2.ops.len() implies #[trigger] s2.op_ok(k) by {
        assert(s.op_ok(k));
        if k != i {
            if i < k {
                assert(s.apart(i, k));
            } else {
                assert(s.apart(k, i));
            }
        }
    }
    assert forall|a: int, b: int| 0 <= a < b < s2.ops.len() implies #[trigger] s2.apart(a, b) by {
        assert(s.apart(a, b));
        assert(s.op_ok(a) && s.op_ok(b));
        assert(s.queue.contains(s.queue.last()));
    }
}

/// Taking the waiter at the end off the queue.
proof fn lemma_take_tail(s: WordSys, i: int, spurious: bool)
    requires
        s.safe(),
        0 <= i < s.ops.len(),
        s.ops[i].stage is TakeTail,
    ensures
        s.step(i, spurious).safe(),
{
    let s2 = s.step(i, spurious);
    let op = s.ops[i];
    let last = s.queue.len() - 1;
    assert(s.op_ok(i));
    assert(s.queued(last));
    assert(s.queued(last - 1));
    assert(s.queued(s.mark));
    assert(s2.queue.last() == s.queue[last - 1]);
    assert forall|q: int| 0 <= q < s2.queue.len() implies #[trigger] s2.queued(q) by {
        assert(s.queued(q));
        assert(s2.queue[q] == s.queue[q]);
        if q < s.mark {
            assert(s.queue[q] != s.queue[s.mark]);
        }
        if s.mark < q {
            assert(s.queue[s.mark] != s.queue[q]);
        }
    }
    assert(s2.queue_ok());
    assert(!s2.queue.contains(s.queue[last])) by {
        if s2.queue.contains(s.queue[last]) {
            let q = choose|q: int| 0 <= q < s2.queue.len() && s2.queue[q] == s.queue[last];
            assert(s.queue[q] != s.queue[last]);
        }
    }
    assert forall|k: int| 0 <= k < s2.ops.len() implies #[trigger] s2.op_ok(k) by {
        assert(s.op_ok(k));
        if k != i {
            if i < k {
                assert(s.apart(i, k));
            } else {
                assert(s.apart(k, i));
            }
            if s.ops[k].stage is Wake {
                let t = s.ops[k].tail as int;
                if s2.queue.contains(t) {
                    let q = choose|q: int| 0 <= q < s2.queue.len() && s2.queue[q] == t;
                    assert(s.queue[q] == t);
                }
            }
        }
    }
    assert forall|a: int, b: int| 0 <= a < b < s2.ops.len() implies #[trigger] s2.apart(a, b) by {
        assert(s.apart(a, b));
        assert(s.op_ok(a) && s.op_ok(b));
        assert(s.queue.contains(s.queue.last()));
    }
}

/// Waking up the waiter that was taken off.
proof fn lemma_wake(s: WordSys, i: int, spurious: bool)
    requires
        s.safe(),
        0 <= i < s.ops.len(),
        s.ops[i].stage is Wake,
    ensures
        s.step(i, spurious).safe(),
{
    let s2 = s.step(i, spurious);
    let t = s.ops[i].tail as int;
    assert(s.op_ok(i));
    assert forall|q: int| 0 <= q < s2.queue.len() implies #[trigger] s2.queued(q) by {
        assert(s.queued(q));
        assert(s.queue[q] != t) by {
            if s.queue[q] == t {
                assert(s.queue.contains(t));
            }
        }
    }
    assert forall|k: int| 0 <= k < s2.ops.len() implies #[trigger] s2.op_ok(k) by {
        assert(s.op_ok(k));
        if k != i {
            if i < k {
                assert(s.apart(i, k));
            } else {
                assert(s.apart(k, i));
            }
        }
    }
    assert forall|a: int, b: int| 0 <= a < b < s2.ops.len() implies #[trigger] s2.apart(a, b) by {
        assert(s.apart(a, b));
    }
}

/// Every step of every thread keeps the lock safe.
pub proof fn lemma_step_keeps_safe(s: WordSys, i: int, spurious: bool)
    requires
        s.safe(),
        0 <= i < s.ops.len(),
    ensures
        s.step(i, spurious).safe(),
{
    let hit = !spurious && s.mem.word == s.ops[i].state;
    match s.ops[i].stage {
        WordStage::Enqueue => {
            if hit {
                lemma_enqueue(s, i);
            } else {
                lemma_plain_step(s, i, spurious);
            }
        },
        WordStage::Scan => lemma_scan(s, i, spurious),
        WordStage::TakeLast => {
            if hit {
                lemma_take_last(s, i);
            } else {
                lemma_plain_step(s, i, spurious);
            }
        },
        WordStage::TakeTail => lemma_take_tail(s, i, spurious),
        WordStage::Wake => lemma_wake(s, i, spurious),
        _ => lemma_plain_step(s, i, spurious),
    }
}

/// A bit that a step leaves set has an owner if it had one.
proof fn lemma_step_bits(s: WordSys, i: int, spurious: bool)
    requires
        s.safe(),
        0 <= i < s.ops.len(),
    ensures
        ({
            let s2 = s.step(i, spurious);
            let op = s.ops[i];
            let op2 = s2.ops[i];
            &&& s2.ops == s.ops.update(i, op2)
            &&& locked(s2.mem.word) ==> holds(op2) || (locked(s.mem.word) && !holds(op))
            &&& queue_locked(s2.mem.word) ==> holds_queue(op2) || (queue_locked(s.mem.word)
                && !holds_queue(op))
        }),
{
    assert(s.op_ok(i));
    if s.queue.len() > 0 {
        assert(s.queued(0));
    }
}

/// A step lets only the waiter sleep on or wake up that it is about.
proof fn lemma_step_sleepers(s: WordSys, i: int, spurious: bool)
    requires
        s.safe(),
        0 <= i < s.ops.len(),
    ensures
        ({
            let s2 = s.step(i, spurious);
            let op = s.ops[i];
            &&& (forall|j: int|
                0 <= j < s.ops.len() && j != i && (#[trigger] s2.mem.waiters[j]).parker.futex
                    != s.mem.waiters[j].parker.futex ==> op.stage is Wake && op.tail == j
                    && s2.mem.waiters[j].parker.futex == 0)
            &&& op.stage is Wake ==> s2.mem.waiters[op.tail as int].parker.futex == 0
            &&& op.stage is Asleep ==> s2.mem.waiters[i] == s.mem.waiters[i]
        }),
{
    assert(s.op_ok(i));
    if s.ops[i].stage is Scan {
        lemma_scan(s, i, spurious);
    } else if s.ops[i].stage is TakeTail {
        assert(s.queued(s.mark));
    }
}

/// A waiter leaves the queue only to be woken up.
proof fn lemma_step_queue(s: WordSys, i: int, spurious: bool)
    requires
        s.safe(),
        0 <= i < s.ops.len(),
    ensures
        ({
            let s2 = s.step(i, spurious);
            let op = s.ops[i];
            let op2 = s2.ops[i];
            &&& op2.stage is Asleep && op.stage !is Asleep ==> s2.queue.contains(i)
            &&& (forall|j: int| #[trigger]
                s.queue.contains(j) ==> s2.queue.contains(j) || (op2.stage is Wake && op2.tail
                    == j))
        }),
{
    let s2 = s.step(i, spurious);
    let op = s.ops[i];
    assert(s.op_ok(i));
    let hit = !spurious && s.mem.word == op.state;
    if op.stage is Enqueue && hit {
        assert(s2.queue[0] == i);
    }
    assert forall|j: int| #[trigger] s.queue.contains(j) implies s2.queue.contains(j) || (
    s2.ops[i].stage is Wake && s2.ops[i].tail == j) by {
        let q = choose|q: int| 0 <= q < s.queue.len() && s.queue[q] == j;
        if op.stage is Enqueue && hit {
            assert(s2.queue[q + 1] == j);
        } else if q < s2.queue.len() {
            assert(s2.queue[q] == j);
        }
    }
}

/// Every step of every thread leaves somebody at work on a free lock that is waited for,
/// and forgets no sleeper.
pub proof fn lemma_step_keeps_live(s: WordSys, i: int, spurious: bool)
    requires
        s.safe(),
        s.live(),
        0 <= i < s.ops.len(),
    ensures
        s.step(i, spurious).live(),
{
    let s2 = s.step(i, spurious);
    let op = s.ops[i];
    let op2 = s2.ops[i];
    lemma_step_bits(s, i, spurious);
    lemma_step_sleepers(s, i, spurious);
    lemma_step_queue(s, i, spurious);
    lemma_step_keeps_safe(s, i, spurious);
    assert(s.op_ok(i));
    assert(s2.op_ok(i));
    if locked(s2.mem.word) {
        if !holds(op2) {
            let h = choose|h: int| 0 <= h < s.ops.len() && holds(#[trigger] s.ops[h]);
            assert(holds(s2.ops[h]));
        }
        assert(s2.has_holder());
    }
    if queue_locked(s2.mem.word) {
        if !holds_queue(op2) {
            let h = choose|h: int| 0 <= h < s.ops.len() && holds_queue(#[trigger] s.ops[h]);
            assert(holds_queue(s2.ops[h]));
        }
        assert(s2.has_queue_holder());
    }
    assert forall|j: int| 0 <= j < s2.ops.len() implies #[trigger] s2.accounted(j) by {
        assert(s.accounted(j));
        if s2.ops[j].stage is Asleep && s2.mem.waiters[j].parker.futex != 0 {
            if !(op.stage !is Asleep && j == i) {
                if s.queue.contains(j) {
                    if !s2.queue.contains(j) {
                        assert(s2.ops[i].stage is Wake && s2.ops[i].tail == j);
                    }
                } else {
                    let k = choose|k: int|
                        0 <= k < s.ops.len() && (#[trigger] s.ops[k]).stage is Wake
                            && s.ops[k].tail == j;
                    if k == i {
                        assert(s2.mem.waiters[j].parker.futex == 0);
                    } else {
                        assert(s2.ops[k].stage is Wake && s2.ops[k].tail == j);
                    }
                }
            }
        }
    }
    if !locked(s2.mem.word) && s2.queue.len() > 0 {
        lemma_rouser_remains(s, i, spurious);
    }
}

/// While the lock is free and waited for, the work on it is handed on.
proof fn lemma_rouser_remains(s: WordSys, i: int, spurious: bool)
    requires
        s.safe(),
        s.live(),
        0 <= i < s.ops.len(),
        !locked(s.step(i, spurious).mem.word),
        s.step(i, spurious).queue.len() > 0,
        s.step(i, spurious).safe(),
    ensures
        s.step(i, spurious).has_rouser(),
{
    let s2 = s.step(i, spurious);
    let op = s.ops[i];
    lemma_step_bits(s, i, spurious);
    lemma_step_sleepers(s, i, spurious);
    lemma_step_queue(s, i, spurious);
    assert(s.op_ok(i));
    if s2.rousing(i) {
        assert(s2.has_rouser());
    } else if op.stage is Wake {
        let t = op.tail as int;
        assert(s2.rousing(t));
    } else if queue_locked(s.mem.word) && !holds_queue(op) {
        let h = choose|h: int| 0 <= h < s.ops.len() && holds_queue(#[trigger] s.ops[h]);
        assert(s2.ops[h] == s.ops[h]);
        assert(s2.rousing(h));
    } else {
        assert(!locked(s.mem.word));
        assert(s.queue.len() > 0);
        let r = choose|r: int| 0 <= r < s.ops.len() && #[trigger] s.rousing(r);
        assert(r != i);
        assert(s2.ops[r] == s.ops[r]);
        assert(s2.rousing(r));
    }
}

} // verus!
