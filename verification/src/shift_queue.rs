//! A first-in first-out queue as a list of nodes.
//!
//! With the queue to itself, a thread pushes and pops in one call each. [`RawQueue`] and
//! [`ShiftQueue`] also take a push or a pop one access at a time, so that any number of
//! threads may be at it at once; [`ShiftThreads`] keeps the pushes and pops of such threads.

use vstd::prelude::*;

use crate::shift_guard::{pg, pg_with, processors, PtrGuard};
use crate::shift_model::{
    one_less, shift_pop_next, shift_push_next, Node, ShiftMem, ShiftPop, ShiftPopStage, ShiftPush,
    ShiftPushStage,
};
use crate::shift_proof::{
    law_shift_event, lemma_chain, lemma_chain_fits, lemma_nobody_counted, lemma_walk, locking,
    pops_inside, pops_retiring, pushes_inside, pushes_unlinked, tally, took, unlinked, values,
    walk, Role, ShiftEvent, ShiftSys,
};

verus! {

impl<T> Node<T> {
    /// A node with a value and nothing behind it.
    pub fn new(val: T) -> (node: Node<T>)
        ensures
            node == Node::fresh(val),
    {
        Node { data: Some(val), next: None, live: true }
    }

    /// The node behind this one.
    pub fn next(&self) -> (next: Option<usize>)
        ensures
            next == self.next,
    {
        self.next
    }
}

impl<T> Default for Node<T> {
    /// A node without a value.
    fn default() -> (node: Node<T>)
        ensures
            node == Node::<T>::blank(),
    {
        Node { data: None, next: None, live: true }
    }
}

impl<T> ShiftPop<T> {
    /// Whether the pop has locked the guard: the thread that pops owns it meanwhile.
    pub fn holds_guard(&self) -> (holds: bool)
        ensures
            holds == locking(*self),
    {
        match self.stage {
            ShiftPopStage::Keep => true,
            ShiftPopStage::Look => true,
            ShiftPopStage::Defer => true,
            ShiftPopStage::Clear => true,
            ShiftPopStage::FreeOld => true,
            ShiftPopStage::Release => true,
            _ => false,
        }
    }
}

/// The list of nodes, with the guard of those that were taken off beside it.
#[derive(Debug)]
pub struct RawQueue<T> {
    /// The node that is the head.
    head: usize,
    /// The node that is the tail.
    tail: usize,
    /// The nodes.
    nodes: Vec<Node<T>>,
    /// The places of nodes that were freed, to be used again.
    free: Vec<usize>,
    /// How many pushes and pops are among the nodes.
    users: usize,
    /// Nodes that were taken off.
    pop_guard: PtrGuard<usize>,
    /// Nodes that were taken off while that guard was full and could not be cleared.
    late: Vec<usize>,
}

/// The queue in memory is that of the system, and no push and no pop is under way.
pub open spec fn at_rest<T>(s: ShiftSys<T>, m: ShiftMem<T>) -> bool {
    &&& s.safe()
    &&& s.mem == m
    &&& s.pushes.len() == 0
    &&& s.pops.len() == 0
}

/// The values in a queue, the first first.
pub open spec fn content<T>(m: ShiftMem<T>) -> Seq<T> {
    values(m.nodes, walk(m.nodes, m.head, m.nodes.len()))
}

/// What a push with the queue to itself does with the nodes: the new one gets the place of one
/// that was freed, if there is one, and all others stay where they are.
pub open spec fn pushed_on<T>(before: ShiftMem<T>, after: ShiftMem<T>) -> bool {
    &&& after.head == before.head
    &&& after.tail == before.next_place()
    &&& after.guard == before.guard
    &&& after.late == before.late
    &&& after.users == before.users
    &&& after.locked == before.locked
    &&& if before.free.len() > 0 {
        after.free == before.free.drop_last() && after.nodes.len() == before.nodes.len()
    } else {
        after.free == before.free && after.nodes.len() == before.nodes.len() + 1
    }
}

/// The free places once the nodes in the guard and those beside it are freed too, the last
/// first.
pub open spec fn cleared<T>(m: ShiftMem<T>) -> Seq<usize> {
    m.free + m.guard.reverse() + m.late.reverse()
}

/// What a pop with the queue to itself does with the nodes: the next one becomes the head, and
/// the old head goes into the guard. If the guard is full, all nodes in it and beside it are
/// freed, and the old head with them.
pub open spec fn taken_off<T>(before: ShiftMem<T>, after: ShiftMem<T>) -> bool {
    &&& before.nodes[before.head as int].next == Some(after.head)
    &&& after.tail == before.tail
    &&& after.users == before.users
    &&& after.locked == before.locked
    &&& after.nodes.len() == before.nodes.len()
    &&& if before.guard.len() < before.cap {
        &&& after.guard == before.guard.push(before.head)
        &&& after.late == before.late
        &&& after.free == before.free
    } else {
        &&& after.guard == Seq::<usize>::empty()
        &&& after.late == Seq::<usize>::empty()
        &&& after.free == cleared(before).push(before.head)
    }
}

/// The system without its pushes and pops, which are over.
pub open spec fn settled<T>(s: ShiftSys<T>) -> ShiftSys<T> {
    ShiftSys {
        pushes: Seq::empty(),
        pops: Seq::empty(),
        vals: Seq::empty(),
        put: Seq::empty(),
        got: Seq::empty(),
        linked: Seq::new(s.linked.len(), |k: int| -1int),
        swung: Seq::new(s.swung.len(), |k: int| -1int),
        ..s
    }
}

/// Walking from the head on finds what was given and not taken.
proof fn lemma_content<T>(s: ShiftSys<T>)
    requires
        s.safe(),
    ensures
        content(s.mem) == s.rest(),
        content(s.mem) == s.given.skip(s.taken.len() as int),
{
    lemma_chain(s);
    lemma_chain_fits(s.mem.nodes, s.chain());
    lemma_walk(s.mem.nodes, s.chain(), s.mem.nodes.len());
}

/// Once all pushes and pops are over, the queue is at rest.
proof fn lemma_settled<T>(s: ShiftSys<T>)
    requires
        s.safe(),
        s.over(),
    ensures
        at_rest(settled(s), s.mem),
{
    let r = settled(s);
    lemma_nobody_counted(s);
    assert(tally(pushes_inside(r.pushes)) == 0);
    assert(tally(pops_inside(r.pops)) == 0);
    assert(tally(pushes_unlinked(r.pushes)) == 0);
    assert(tally(pops_retiring(r.pops)) == 0);
    if s.holder >= 0 {
        assert(s.pop_ok(s.holder));
    }
    if s.tail_num < s.line.len() - 1 {
        assert(s.pushes[s.linked[s.line.len() - 2]].stage is Done);
    }
    assert forall|p: int| 0 <= p < r.mem.nodes.len() implies #[trigger] r.place_ok(p) by {
        assert(s.place_ok(p));
    }
    assert forall|k: int| r.taken.len() <= k < r.line.len() implies #[trigger] r.line_ok(k) by {
        assert(s.line_ok(k));
    }
    assert forall|j: int| 0 <= j < r.mem.guard.len() implies #[trigger] r.guard_ok(j) by {
        assert(s.guard_ok(j));
    }
    assert forall|j: int| 0 <= j < r.mem.late.len() implies #[trigger] r.late_ok(j) by {
        assert(s.late_ok(j));
    }
    assert forall|j: int| 0 <= j < r.mem.free.len() implies #[trigger] r.free_ok(j) by {
        assert(s.free_ok(j));
    }
}

impl<T> RawQueue<T> {
    /// What the queue is in memory.
    pub closed spec fn mem(&self) -> ShiftMem<T> {
        ShiftMem {
            head: self.head,
            tail: self.tail,
            nodes: self.nodes@,
            free: self.free@,
            users: self.users,
            guard: self.pop_guard@,
            cap: self.pop_guard.capacity() as nat,
            locked: self.pop_guard.is_locked(),
            late: self.late@,
        }
    }

    /// Everything that is pointed to is there.
    pub closed spec fn sound(&self) -> bool {
        &&& self.mem().sound()
        &&& self.pop_guard.wf()
    }

    /// No push and no pop is under way.
    pub open spec fn wf(&self) -> bool {
        self.sound() && exists|s: ShiftSys<T>| #[trigger] at_rest(s, self.mem())
    }

    /// How many nodes that were taken off are kept before they are freed.
    pub open spec fn threads(&self) -> nat {
        self.mem().cap
    }

    /// How many places for nodes there are.
    pub open spec fn places(&self) -> nat {
        self.mem().nodes.len()
    }

    /// An empty queue, for as many threads as there are processors.
    pub fn new() -> (queue: RawQueue<T>)
        ensures
            queue.wf(),
            queue@ == Seq::<T>::empty(),
            queue.threads() >= 1,
            exists|n: usize| #[trigger] processors(n) && queue.threads() == n,
            queue.places() == 1,
            queue.mem().users == 0,
            !queue.mem().locked,
    {
        RawQueue::with_guard(pg())
    }

    /// An empty queue for a number of threads.
    pub fn with_threads(threads: usize) -> (queue: RawQueue<T>)
        ensures
            queue.wf(),
            queue@ == Seq::<T>::empty(),
            queue.threads() == threads,
            queue.places() == 1,
            queue.mem().users == 0,
            !queue.mem().locked,
    {
        RawQueue::with_guard(pg_with(threads))
    }

    /// An empty queue with the given guard.
    fn with_guard(pop_guard: PtrGuard<usize>) -> (queue: RawQueue<T>)
        requires
            pop_guard.wf(),
            pop_guard@.len() == 0,
            !pop_guard.is_locked(),
        ensures
            queue.wf(),
            queue@ == Seq::<T>::empty(),
            queue.threads() == pop_guard.capacity(),
            queue.places() == 1,
            queue.mem().users == 0,
            !queue.mem().locked,
    {
        let mut nodes: Vec<Node<T>> = Vec::new();
        nodes.push(Node::default());
        let queue = RawQueue {
            head: 0,
            tail: 0,
            nodes,
            free: Vec::new(),
            users: 0,
            pop_guard,
            late: Vec::new(),
        };
        proof {
            let s = ShiftSys {
                mem: queue.mem(),
                pushes: Seq::empty(),
                pops: Seq::empty(),
                role: seq![Role::Line(0)],
                claim: seq![-1int],
                line: seq![0usize],
                tail_num: 0,
                holder: -1,
                vals: Seq::empty(),
                given: Seq::empty(),
                taken: Seq::empty(),
                put: Seq::empty(),
                got: Seq::empty(),
                linked: Seq::empty(),
                swung: Seq::empty(),
            };
            assert(s.taken =~= s.given.take(0));
            assert(s.place_ok(0));
            assert(s.line_ok(0));
            assert(s.safe());
            assert(at_rest(s, queue.mem()));
            lemma_content(s);
            assert(s.given.skip(0) =~= Seq::<T>::empty());
        }
        queue
    }

    /// Whether nothing is behind the head.
    pub fn is_empty(&self) -> (empty: bool)
        requires
            self.sound(),
        ensures
            empty == (self.mem().nodes[self.mem().head as int].next is None),
            self.wf() ==> empty == (self@.len() == 0),
    {
        proof {
            if self.wf() {
                let s = choose|s: ShiftSys<T>| at_rest(s, self.mem());
                lemma_content(s);
                assert(s.line_ok(s.taken.len() as int));
                assert(s.place_ok(s.mem.head as int));
            }
        }
        self.nodes[self.head].next().is_none()
    }

    /// Begins a push of a value. Its node gets the place of one that was freed, if there is
    /// one.
    pub fn start_push(&mut self, val: T) -> (op: ShiftPush)
        requires
            old(self).sound(),
        ensures
            final(self).sound(),
            final(self).mem() == old(self).mem().with_new(val),
            op == ShiftPush::start(old(self).mem().next_place()),
            op.sound(final(self).mem().nodes.len()),
    {
        let new: usize = match self.free.pop() {
            Some(place) => {
                assert(old(self).mem().free.last() == place);
                self.nodes[place] = Node::new(val);
                place
            },
            None => {
                let place: usize = self.nodes.len();
                self.nodes.push(Node::new(val));
                place
            },
        };
        proof {
            assert forall|i: int| 0 <= i < self.nodes@.len() implies ((
            #[trigger] self.nodes@[i]).next matches Some(next) ==> next < self.nodes@.len()) by {
                if i != new {
                    assert(self.nodes@[i] == old(self).nodes@[i]);
                    assert(old(self).mem().nodes[i].next == old(self).nodes@[i].next);
                }
            }
            assert forall|j: int| 0 <= j < self.free@.len() implies #[trigger] self.free@[j]
                < self.nodes@.len() by {
                assert(self.free@[j] == old(self).mem().free[j]);
            }
            assert(self.mem() =~= old(self).mem().with_new(val));
        }
        ShiftPush { stage: ShiftPushStage::Enter, new, tail: 0, next: 0 }
    }

    /// Begins a pop.
    pub fn start_pop() -> (op: ShiftPop<T>)
        ensures
            op == ShiftPop::<T>::start(),
    {
        ShiftPop { stage: ShiftPopStage::Enter, head: 0, tail: 0, next: 0, result: None }
    }

    /// Takes the next access of a push.
    pub fn push_step(&mut self, op: &mut ShiftPush)
        requires
            old(self).sound(),
            old(op).sound(old(self).mem().nodes.len()),
        ensures
            final(self).sound(),
            final(op).sound(final(self).mem().nodes.len()),
            (final(self).mem(), *final(op)) == shift_push_next(old(self).mem(), *old(op)),
    {
        match op.stage {
            ShiftPushStage::Enter => {
                if self.users < usize::MAX {
                    self.users = self.users + 1;
                    op.stage = ShiftPushStage::LoadTail;
                }
            },
            ShiftPushStage::LoadTail => {
                op.tail = self.tail;
                op.stage = ShiftPushStage::LoadNext;
            },
            ShiftPushStage::LoadNext => {
                assert(self.mem().nodes[op.tail as int] == self.nodes@[op.tail as int]);
                match self.nodes[op.tail].next() {
                    // Another push is half way through an insert
                    Some(next) => {
                        op.next = next;
                        op.stage = ShiftPushStage::Help;
                    },
                    None => {
                        op.stage = ShiftPushStage::Link;
                    },
                }
            },
            ShiftPushStage::Help => {
                // Finish the process by making the tail point to the node behind it
                if self.tail == op.tail {
                    self.tail = op.next;
                }
                op.stage = ShiftPushStage::LoadTail;
            },
            ShiftPushStage::Link => {
                if self.nodes[op.tail].next().is_none() {
                    self.nodes[op.tail].next = Some(op.new);
                    op.stage = ShiftPushStage::Swing;
                } else {
                    op.stage = ShiftPushStage::LoadTail;
                }
            },
            ShiftPushStage::Swing => {
                if self.tail == op.tail {
                    self.tail = op.new;
                }
                op.stage = ShiftPushStage::Leave;
            },
            ShiftPushStage::Leave => {
                self.users = self.users.saturating_sub(1);
                op.stage = ShiftPushStage::Done;
            },
            ShiftPushStage::Done => {},
        }
        proof {
            let (m, n) = (old(self).mem(), self.mem());
            assert forall|i: int| 0 <= i < n.nodes.len() implies ((
            #[trigger] n.nodes[i]).next matches Some(next) ==> next < n.nodes.len()) by {
                assert(m.nodes[i].next matches Some(next) ==> next < m.nodes.len());
            }
            assert forall|j: int| 0 <= j < n.free.len() implies #[trigger] n.free[j]
                < n.nodes.len() by {
                assert(m.free[j] < m.nodes.len());
            }
            assert forall|j: int| 0 <= j < n.late.len() implies #[trigger] n.late[j]
                < n.nodes.len() by {
                assert(m.late[j] < m.nodes.len());
            }
        }
    }

    /// Takes the next access of a pop.
    pub fn pop_step(&mut self, op: &mut ShiftPop<T>)
        requires
            old(self).sound(),
            old(op).sound(old(self).mem().nodes.len()),
        ensures
            final(self).sound(),
            final(op).sound(final(self).mem().nodes.len()),
            (final(self).mem(), *final(op)) == shift_pop_next(old(self).mem(), *old(op)),
    {
        match op.stage {
            ShiftPopStage::Enter => {
                if self.users < usize::MAX {
                    self.users = self.users + 1;
                    op.stage = ShiftPopStage::LoadHead;
                }
            },
            ShiftPopStage::LoadHead => {
                op.head = self.head;
                op.stage = ShiftPopStage::LoadTail;
            },
            ShiftPopStage::LoadTail => {
                op.tail = self.tail;
                op.stage = ShiftPopStage::LoadNext;
            },
            ShiftPopStage::LoadNext => {
                assert(self.mem().nodes[op.head as int] == self.nodes@[op.head as int]);
                match self.nodes[op.head].next() {
                    Some(next) => {
                        op.next = next;
                        op.stage = if op.head == op.tail {
                            ShiftPopStage::Help
                        } else {
                            ShiftPopStage::Swing
                        };
                    },
                    None => {
                        op.stage = ShiftPopStage::Leave;
                    },
                }
            },
            ShiftPopStage::Help => {
                if self.tail == op.tail {
                    self.tail = op.next;
                }
                op.stage = ShiftPopStage::LoadHead;
            },
            ShiftPopStage::Swing => {
                if self.head == op.head {
                    self.head = op.next;
                    op.stage = ShiftPopStage::Read;
                } else {
                    op.stage = ShiftPopStage::LoadHead;
                }
            },
            ShiftPopStage::Read => {
                op.result = self.nodes[op.next].data.take();
                op.stage = ShiftPopStage::Leave;
            },
            ShiftPopStage::Leave => {
                self.users = self.users.saturating_sub(1);
                op.stage = if op.result.is_some() {
                    ShiftPopStage::Lock
                } else {
                    ShiftPopStage::Done
                };
            },
            ShiftPopStage::Lock => {
                if self.pop_guard.try_take() {
                    op.stage = ShiftPopStage::Keep;
                }
            },
            ShiftPopStage::Keep => {
                // The guard acts as garbage collector
                op.stage = match self.pop_guard.push(op.head) {
                    Ok(()) => ShiftPopStage::Release,
                    Err(_) => ShiftPopStage::Look,
                };
            },
            ShiftPopStage::Look => {
                op.stage = if self.users == 0 {
                    ShiftPopStage::Clear
                } else {
                    ShiftPopStage::Defer
                };
            },
            ShiftPopStage::Defer => {
                self.late.push(op.head);
                op.stage = ShiftPopStage::Release;
            },
            ShiftPopStage::Clear => {
                match self.pop_guard.pop() {
                    Ok(node) => {
                        assert(old(self).mem().guard.last() == node);
                        self.free_node(node);
                    },
                    Err(()) => match self.late.pop() {
                        Some(node) => {
                            assert(old(self).mem().late.last() == node);
                            proof {
                                let (m, n) = (old(self).mem(), self.mem());
                                assert forall|j: int| 0 <= j < n.late.len() implies
                                    #[trigger] n.late[j] < n.nodes.len() by {
                                    assert(m.late[j] < m.nodes.len());
                                }
                            }
                            self.free_node(node);
                        },
                        None => {
                            op.stage = ShiftPopStage::FreeOld;
                        },
                    },
                }
            },
            ShiftPopStage::FreeOld => {
                self.free_node(op.head);
                op.stage = ShiftPopStage::Release;
            },
            ShiftPopStage::Release => {
                self.pop_guard.give_back();
                op.stage = ShiftPopStage::Done;
            },
            ShiftPopStage::Done => {},
        }
        proof {
            let (m, n) = (old(self).mem(), self.mem());
            assert forall|i: int| 0 <= i < n.nodes.len() implies ((
            #[trigger] n.nodes[i]).next matches Some(next) ==> next < n.nodes.len()) by {
                assert(m.nodes[i].next matches Some(next) ==> next < m.nodes.len());
            }
            assert forall|j: int| 0 <= j < n.free.len() implies #[trigger] n.free[j]
                < n.nodes.len() by {
                if j < m.free.len() {
                    assert(m.free[j] < m.nodes.len());
                }
            }
            assert forall|j: int| 0 <= j < n.late.len() implies #[trigger] n.late[j]
                < n.nodes.len() by {
                if j < m.late.len() {
                    assert(m.late[j] < m.nodes.len());
                }
            }
        }
    }

    /// Frees a node: its place can be used again.
    fn free_node(&mut self, node: usize)
        requires
            old(self).sound(),
            node < old(self).mem().nodes.len(),
        ensures
            final(self).sound(),
            final(self).mem() == old(self).mem().without(node),
    {
        self.nodes[node].live = false;
        self.free.push(node);
        proof {
            assert(self.mem() =~= old(self).mem().without(node));
            assert forall|i: int| 0 <= i < self.nodes@.len() implies ((
            #[trigger] self.nodes@[i]).next matches Some(next) ==> next < self.nodes@.len()) by {
                assert(self.nodes@[i].next == old(self).mem().nodes[i].next);
            }
            assert forall|j: int| 0 <= j < self.free@.len() implies #[trigger] self.free@[j]
                < self.nodes@.len() by {
                if j < old(self).free@.len() {
                    assert(self.free@[j] == old(self).mem().free[j]);
                }
            }
        }
    }

    /// Pushes a value to the end of the queue.
    pub fn push(&mut self, val: T)
        requires
            old(self).wf(),
        ensures
            final(self).wf(),
            final(self)@ == old(self)@.push(val),
            final(self).threads() == old(self).threads(),
            pushed_on(old(self).mem(), final(self).mem()),
    {
        let ghost s0 = choose|s: ShiftSys<T>| at_rest(s, self.mem());
        proof {
            lemma_content(s0);
            lemma_nobody_counted(s0);
            assert(self.nodes@.len() == self.nodes.len());
            law_shift_event(s0, ShiftEvent::BeginPush(val));
        }
        let mut op = self.start_push(val);
        let ghost mut s = s0.after(ShiftEvent::BeginPush(val));
        assert(s.pushes =~= seq![op]);
        loop
            invariant
                self.sound(),
                op.sound(self.mem().nodes.len()),
                s.safe(),
                s.mem == self.mem(),
                s.pushes == seq![op],
                s.pops.len() == 0,
                s.vals == seq![val],
                s.taken == s0.taken,
                s.given == (if unlinked(op) {
                    s0.given
                } else {
                    s0.given.push(val)
                }),
                op.stage !is Help,
                op.stage is LoadNext || op.stage is Link || op.stage is Swing ==> op.tail
                    == s.mem.tail,
                s.mem.cap == s0.mem.cap,
                s0.mem == old(self).mem(),
                s0.safe(),
                s0.over(),
                pushed_on(
                    s0.mem,
                    ShiftMem {
                        tail: op.new,
                        users: if op.stage is Enter || op.stage is Done {
                            s.mem.users
                        } else {
                            one_less(s.mem.users)
                        },
                        ..s.mem
                    },
                ),
                op.new == s0.mem.next_place(),
                s.mem.tail == (if op.stage is Leave || op.stage is Done {
                    op.new
                } else {
                    s0.mem.tail
                }),
                s0.taken.len() <= s0.given.len(),
            ensures
                op.stage is Done,
            decreases push_rank(op.stage),
        {
            if let ShiftPushStage::Done = op.stage {
                break;
            }
            let ghost before = s;
            proof {
                law_shift_event(s, ShiftEvent::StepPush(0));
                assert(s.push_ok(0));
                reveal_with_fuel(tally, 2);
                assert(s.line_ok(s.tail_num));
                assert(s.place_ok(s.mem.tail as int));
                assert(s.place_ok(op.new as int));
                if s.line.len() > 1 && s.tail_num < s.line.len() - 1 {
                    assert(s.linked_ok(s.line.len() - 2));
                }
            }
            self.push_step(&mut op);
            proof {
                s = s.after(ShiftEvent::StepPush(0));
                assert(s.pushes =~= seq![op]);
            }
        }
        proof {
            lemma_settled(s);
            lemma_content(s);
            assert(s.given.skip(s.taken.len() as int) =~= s0.given.skip(
                s0.taken.len() as int,
            ).push(val));
        }
    }

    /// Pops the value at the front of the queue, if there is one.
    pub fn try_pop(&mut self) -> (popped: Option<T>)
        requires
            old(self).wf(),
        ensures
            final(self).wf(),
            old(self)@.len() == 0 ==> popped is None && final(self)@ == old(self)@,
            old(self)@.len() > 0 ==> popped == Some(old(self)@[0]) && final(self)@ == old(
                self,
            )@.skip(1),
            final(self).threads() == old(self).threads(),
            popped is None ==> final(self).mem() == old(self).mem(),
            popped is Some ==> taken_off(old(self).mem(), final(self).mem()),
    {
        let ghost s0 = choose|s: ShiftSys<T>| at_rest(s, self.mem());
        proof {
            lemma_content(s0);
            lemma_nobody_counted(s0);
            law_shift_event(s0, ShiftEvent::BeginPop);
            assert(s0.mem.head < s0.mem.nodes.len());
            if s0.mem.locked {
                assert(s0.pop_ok(s0.holder));
            }
        }
        let mut op = RawQueue::start_pop();
        let ghost mut s = s0.after(ShiftEvent::BeginPop);
        assert(s.pops =~= seq![op]);
        loop
            invariant
                self.sound(),
                op.sound(self.mem().nodes.len()),
                s.safe(),
                s.mem == self.mem(),
                s.pops == seq![op],
                s.pushes.len() == 0,
                s.given == s0.given,
                s0.taken.len() <= s0.given.len(),
                took(op) ==> s0.taken.len() < s0.given.len() && s.taken
                    == s0.taken.push(s0.given[s0.taken.len() as int]) && s.got[0]
                    == s0.taken.len(),
                !took(op) ==> s.taken == s0.taken,
                op.stage is Leave || op.stage is Done ==> (op.result is None ==> s0.taken.len()
                    == s0.given.len()),
                op.stage !is Help,
                op.stage is LoadTail || op.stage is LoadNext || op.stage is Swing ==> op.head
                    == s.mem.head,
                op.stage is LoadNext || op.stage is Swing ==> op.tail == s.mem.tail,
                s0.mem == old(self).mem(),
                s0.mem.users == 0,
                !s0.mem.locked,
                pop_progress(s0.mem, s.mem, op),
            ensures
                op.stage is Done,
            decreases pop_rank(op.stage), s.mem.guard.len() + s.mem.late.len(),
        {
            if let ShiftPopStage::Done = op.stage {
                break;
            }
            proof {
                law_shift_event(s, ShiftEvent::StepPop(0));
                assert(s.pop_ok(0));
                reveal_with_fuel(tally, 2);
                assert(pops_inside(s.pops) =~= seq![op.inside()]);
                assert(s.line_ok(s.tail_num));
                assert(s.line_ok(s.taken.len() as int));
                assert(s.place_ok(s.mem.tail as int));
                assert(s.place_ok(s.mem.head as int));
                if op.stage is Swing {
                    assert(s.line_ok(s.taken.len() as int + 1));
                    assert(s.place_ok(op.next as int));
                }
            }
            proof {
                lemma_pop_progress(s0.mem, s.mem, op);
            }
            self.pop_step(&mut op);
            proof {
                s = s.after(ShiftEvent::StepPop(0));
                assert(s.pops =~= seq![op]);
            }
        }
        proof {
            lemma_settled(s);
            lemma_content(s);
            assert(s.pop_ok(0));
            if op.result is Some {
                assert(s.given.skip(s0.taken.len() as int + 1) =~= s0.given.skip(
                    s0.taken.len() as int,
                ).skip(1));
            }
        }
        op.result
    }

    /// Takes the queue apart: what is left in it, the first first.
    pub fn into_remaining(self) -> (rest: Vec<T>)
        requires
            self.wf(),
        ensures
            rest@ == self@,
    {
        let mut queue = self;
        let mut rest: Vec<T> = Vec::new();
        let ghost all = self@;
        assert(rest@ + queue@ =~= all);
        loop
            invariant
                queue.wf(),
                rest@ + queue@ == all,
            ensures
                rest@ == all,
            decreases queue@.len(),
        {
            match queue.try_pop() {
                Some(val) => {
                    rest.push(val);
                    assert(rest@ + queue@ =~= all);
                },
                None => {
                    assert(rest@ + queue@ =~= rest@);
                    break;
                },
            }
        }
        rest
    }
}

/// How many steps a push has at most ahead of it, with the queue to itself.
spec fn push_rank(stage: ShiftPushStage) -> nat {
    match stage {
        ShiftPushStage::Enter => 6,
        ShiftPushStage::LoadTail => 5,
        ShiftPushStage::LoadNext => 4,
        ShiftPushStage::Link => 3,
        ShiftPushStage::Swing => 2,
        ShiftPushStage::Leave => 1,
        _ => 0,
    }
}

/// How many kinds of steps a pop has at most ahead of it, with the queue to itself.
spec fn pop_rank(stage: ShiftPopStage) -> nat {
    match stage {
        ShiftPopStage::Enter => 13,
        ShiftPopStage::LoadHead => 12,
        ShiftPopStage::LoadTail => 11,
        ShiftPopStage::LoadNext => 10,
        ShiftPopStage::Swing => 9,
        ShiftPopStage::Read => 8,
        ShiftPopStage::Leave => 7,
        ShiftPopStage::Lock => 6,
        ShiftPopStage::Keep => 5,
        ShiftPopStage::Look => 4,
        ShiftPopStage::Defer => 3,
        ShiftPopStage::Clear => 3,
        ShiftPopStage::FreeOld => 2,
        ShiftPopStage::Release => 1,
        _ => 0,
    }
}

/// Where a pop from `m0` has come, with the queue to itself.
spec fn pop_progress<T>(m0: ShiftMem<T>, m: ShiftMem<T>, op: ShiftPop<T>) -> bool {
    &&& op.stage !is Defer
    &&& m.cap == m0.cap
    &&& m.tail == m0.tail
    &&& m.nodes.len() == m0.nodes.len()
    &&& m.users == (if op.inside() {
        1int
    } else {
        0
    })
    &&& m.locked == (1 <= pop_rank(op.stage) <= 5)
    &&& if took(op) {
        &&& op.head == m0.head
        &&& m0.nodes[m0.head as int].next == Some(op.next)
        &&& m.head == op.next
    } else {
        &&& m.head == m0.head
        &&& m.nodes == m0.nodes
        &&& op.stage is Swing ==> m0.nodes[m0.head as int].next == Some(op.next)
    }
    &&& if pop_rank(op.stage) >= 5 || !took(op) {
        m.guard == m0.guard && m.late == m0.late && m.free == m0.free
    } else if op.stage is Look {
        &&& m.guard == m0.guard && m.late == m0.late && m.free == m0.free
        &&& m.guard.len() >= m.cap
    } else if op.stage is Clear {
        cleared(m) == cleared(m0) && m0.guard.len() >= m0.cap
    } else if op.stage is FreeOld {
        &&& m0.guard.len() >= m0.cap
        &&& m.guard == Seq::<usize>::empty()
        &&& m.late == Seq::<usize>::empty()
        &&& m.free == cleared(m0)
    } else {
        taken_off(m0, ShiftMem { locked: false, ..m })
    }
}

/// A pop that has the queue to itself comes from one such state to the next.
proof fn lemma_pop_progress<T>(m0: ShiftMem<T>, m: ShiftMem<T>, op: ShiftPop<T>)
    requires
        pop_progress(m0, m, op),
        m0.users == 0,
        !m0.locked,
        m.sound(),
        op.sound(m.nodes.len()),
        op.stage !is Help,
        op.stage !is Done,
        pop_rank(op.stage) <= 6 ==> op.result is Some,
        pop_rank(op.stage) > 7 ==> op.result is None,
        op.stage is LoadTail || op.stage is LoadNext || op.stage is Swing ==> op.head == m.head,
        op.stage is LoadNext ==> (m.nodes[op.head as int].next is Some ==> op.head != op.tail),
        op.stage is Read ==> m.nodes[op.next as int].data is Some,
    ensures
        ({
            let (m2, op2) = shift_pop_next(m, op);
            pop_progress(m0, m2, op2)
        }),
{
    if op.stage is Clear {
        let m2 = shift_pop_next(m, op).0;
        if m.guard.len() > 0 {
            assert(m2.free + m2.guard.reverse() =~= m.free + m.guard.reverse());
        } else if m.late.len() > 0 {
            assert(m2.guard.reverse() =~= m.guard.reverse());
            assert(cleared(m2) =~= cleared(m));
        } else {
            assert(cleared(m) =~= m.free);
            assert(m.guard =~= Seq::<usize>::empty());
            assert(m.late =~= Seq::<usize>::empty());
        }
    } else if op.stage is Look {
        assert(cleared(m) == cleared(m0));
    }
}

impl<T> View for RawQueue<T> {
    type V = Seq<T>;

    /// The values in the queue, the first first.
    open spec fn view(&self) -> Seq<T> {
        content(self.mem())
    }
}

impl<T> Default for RawQueue<T> {
    fn default() -> (queue: RawQueue<T>)
        ensures
            queue.wf(),
            queue@ == Seq::<T>::empty(),
            queue.threads() >= 1,
            exists|n: usize| #[trigger] processors(n) && queue.threads() == n,
            queue.places() == 1,
    {
        RawQueue::new()
    }
}

/// A call that can be made to a queue.
pub enum ShiftCall<T> {
    Push(T),
    TryPop,
    Pop,
    IsEmpty,
}

/// What comes back from a call.
pub enum ShiftAnswer<T> {
    Pushed,
    Tried(Option<T>),
    Popped(T),
    Empty(bool),
}

/// What a call does to the values in a queue, and what it answers.
pub open spec fn made<T>(
    call: ShiftCall<T>,
    before: Seq<T>,
    after: Seq<T>,
    answer: ShiftAnswer<T>,
) -> bool {
    match call {
        ShiftCall::Push(val) => after == before.push(val) && answer == ShiftAnswer::<T>::Pushed,
        ShiftCall::TryPop => if before.len() == 0 {
            after == before && answer == ShiftAnswer::Tried(None::<T>)
        } else {
            after == before.skip(1) && answer == ShiftAnswer::Tried(Some(before[0]))
        },
        ShiftCall::Pop => {
            &&& before.len() > 0
            &&& after == before.skip(1)
            &&& answer == ShiftAnswer::Popped(before[0])
        },
        ShiftCall::IsEmpty => after == before && answer == ShiftAnswer::<T>::Empty(
            before.len() == 0,
        ),
    }
}

/// The calls were made to a queue one after the other: it went through these states and gave
/// these answers.
pub open spec fn all_made<T>(
    calls: Seq<ShiftCall<T>>,
    states: Seq<ShiftQueue<T>>,
    answers: Seq<ShiftAnswer<T>>,
) -> bool {
    &&& states.len() == calls.len() + 1
    &&& answers.len() == calls.len()
    &&& forall|i: int|
        0 <= i < calls.len() ==> made(
            #[trigger] calls[i],
            states[i]@,
            states[i + 1]@,
            answers[i],
        )
}

/// A first-in first-out queue.
#[derive(Debug)]
pub struct ShiftQueue<T> {
    raw: RawQueue<T>,
}

impl<T> View for ShiftQueue<T> {
    type V = Seq<T>;

    /// The values in the queue, the first first.
    closed spec fn view(&self) -> Seq<T> {
        self.raw@
    }
}

impl<T> ShiftQueue<T> {
    /// No push and no pop is under way.
    pub closed spec fn wf(&self) -> bool {
        self.raw.wf()
    }

    /// What the queue is in memory.
    pub closed spec fn mem(&self) -> ShiftMem<T> {
        self.raw.mem()
    }

    /// Everything that is pointed to is there.
    pub closed spec fn sound(&self) -> bool {
        self.raw.sound()
    }

    /// How many threads the queue was made for.
    pub open spec fn threads(&self) -> nat {
        self.mem().cap
    }

    /// How many places for nodes there are.
    pub open spec fn places(&self) -> nat {
        self.mem().nodes.len()
    }

    /// An empty queue that was made for that many threads.
    pub open spec fn fresh(&self, threads: nat) -> bool {
        &&& self.wf()
        &&& self@ == Seq::<T>::empty()
        &&& self.threads() == threads
        &&& self.places() == 1
        &&& self.mem().users == 0
        &&& !self.mem().locked
    }

    /// Creates a `ShiftQueue` with the number of processors as the thread count.
    ///
    /// `ShiftQueue` can be acted upon by `threads` number of threads. This is an
    /// optimization so getting the number wrong is not catastrophic.
    pub fn new() -> (queue: ShiftQueue<T>)
        ensures
            exists|n: usize| #[trigger] processors(n) && n >= 1 && queue.fresh(n as nat),
    {
        ShiftQueue { raw: RawQueue::new() }
    }

    /// Creates `ShiftQueue` that can be acted upon by `threads` number of threads. This is
    /// an optimization so getting the number wrong is not catastrophic.
    pub fn with_threads(threads: usize) -> (queue: ShiftQueue<T>)
        ensures
            queue.fresh(threads as nat),
    {
        ShiftQueue { raw: RawQueue::with_threads(threads) }
    }

    /// Whether there are no values in the queue.
    pub fn is_empty(&self) -> (empty: bool)
        requires
            self.wf(),
        ensures
            made(ShiftCall::IsEmpty, self@, self@, ShiftAnswer::Empty(empty)),
    {
        self.raw.is_empty()
    }

    /// Whether nothing is behind the head just now, while others may push and pop.
    pub fn seems_empty(&self) -> (empty: bool)
        requires
            self.sound(),
        ensures
            empty == (self.mem().nodes[self.mem().head as int].next is None),
    {
        self.raw.is_empty()
    }

    /// Pushes a value to the end of the queue.
    pub fn push(&mut self, val: T)
        requires
            old(self).wf(),
        ensures
            final(self).wf(),
            made(ShiftCall::Push(val), old(self)@, final(self)@, ShiftAnswer::Pushed),
            final(self).threads() == old(self).threads(),
            pushed_on(old(self).mem(), final(self).mem()),
    {
        self.raw.push(val)
    }

    /// Pops the value at the front of the queue, if there is one.
    pub fn try_pop(&mut self) -> (popped: Option<T>)
        requires
            old(self).wf(),
        ensures
            final(self).wf(),
            made(ShiftCall::TryPop, old(self)@, final(self)@, ShiftAnswer::Tried(popped)),
            final(self).threads() == old(self).threads(),
            popped is None ==> final(self).mem() == old(self).mem(),
            popped is Some ==> taken_off(old(self).mem(), final(self).mem()),
    {
        self.raw.try_pop()
    }

    /// Pops the value at the front of the queue. With the queue to itself, a thread could
    /// not wait for a value.
    #[must_use]
    pub fn pop(&mut self) -> (popped: T)
        requires
            old(self).wf(),
            old(self)@.len() > 0,
        ensures
            final(self).wf(),
            made(ShiftCall::Pop, old(self)@, final(self)@, ShiftAnswer::Popped(popped)),
            final(self).threads() == old(self).threads(),
            taken_off(old(self).mem(), final(self).mem()),
    {
        let popped = self.raw.try_pop();
        popped.unwrap()
    }

    /// Begins a push of a value, which is to be taken step by step.
    pub fn start_push(&mut self, val: T) -> (op: ShiftPush)
        requires
            old(self).sound(),
        ensures
            final(self).sound(),
            final(self).mem() == old(self).mem().with_new(val),
            op == ShiftPush::start(old(self).mem().next_place()),
            op.sound(final(self).mem().nodes.len()),
    {
        self.raw.start_push(val)
    }

    /// Begins a pop, which is to be taken step by step.
    pub fn start_pop() -> (op: ShiftPop<T>)
        ensures
            op == ShiftPop::<T>::start(),
    {
        RawQueue::start_pop()
    }

    /// Takes the next access of a push.
    pub fn push_step(&mut self, op: &mut ShiftPush)
        requires
            old(self).sound(),
            old(op).sound(old(self).mem().nodes.len()),
        ensures
            final(self).sound(),
            final(op).sound(final(self).mem().nodes.len()),
            (final(self).mem(), *final(op)) == shift_push_next(old(self).mem(), *old(op)),
    {
        self.raw.push_step(op)
    }

    /// Takes the next access of a pop.
    pub fn pop_step(&mut self, op: &mut ShiftPop<T>)
        requires
            old(self).sound(),
            old(op).sound(old(self).mem().nodes.len()),
        ensures
            final(self).sound(),
            final(op).sound(final(self).mem().nodes.len()),
            (final(self).mem(), *final(op)) == shift_pop_next(old(self).mem(), *old(op)),
    {
        self.raw.pop_step(op)
    }

    /// Takes the queue apart: what is left in it, the first first.
    pub fn into_remaining(self) -> (rest: Vec<T>)
        requires
            self.wf(),
        ensures
            rest@ == self@,
    {
        self.raw.into_remaining()
    }
}

impl<T> Default for ShiftQueue<T> {
    fn default() -> (queue: ShiftQueue<T>)
        ensures
            exists|n: usize| #[trigger] processors(n) && n >= 1 && queue.fresh(n as nat),
    {
        ShiftQueue::new()
    }
}

/// Two queues with the same values give the same answers to the same calls, of any number,
/// whatever the number of threads that either was made for.
pub proof fn law_same_answers<T>(
    calls: Seq<ShiftCall<T>>,
    a: Seq<ShiftQueue<T>>,
    x: Seq<ShiftAnswer<T>>,
    b: Seq<ShiftQueue<T>>,
    y: Seq<ShiftAnswer<T>>,
)
    requires
        all_made(calls, a, x),
        all_made(calls, b, y),
        a[0]@ == b[0]@,
    ensures
        x == y,
        forall|i: int| 0 <= i < a.len() ==> (#[trigger] a[i])@ == b[i]@,
    decreases calls.len(),
{
    if calls.len() > 0 {
        let n = calls.len() - 1;
        let fewer = calls.take(n);
        assert forall|i: int| 0 <= i < n implies made(
            #[trigger] fewer[i],
            a.take(n + 1)[i]@,
            a.take(n + 1)[i + 1]@,
            x.take(n)[i],
        ) && made(fewer[i], b.take(n + 1)[i]@, b.take(n + 1)[i + 1]@, y.take(n)[i]) by {
            assert(fewer[i] == calls[i]);
        }
        law_same_answers(fewer, a.take(n + 1), x.take(n), b.take(n + 1), y.take(n));
        assert(a.take(n + 1)[n]@ == b.take(n + 1)[n]@);
        assert(made(calls[n], a[n]@, a[n + 1]@, x[n]));
        assert forall|i: int| 0 <= i < a.len() implies (#[trigger] a[i])@ == b[i]@ by {
            if i <= n {
                assert(a.take(n + 1)[i]@ == b.take(n + 1)[i]@);
            }
        }
        assert forall|i: int| 0 <= i < x.len() implies x[i] == y[i] by {
            if i < n {
                assert(x.take(n)[i] == y.take(n)[i]);
            }
        }
    }
    assert(x =~= y);
}

/// Every one of the calls is a try to pop.
pub open spec fn all_tries<T>(calls: Seq<ShiftCall<T>>) -> bool {
    forall|i: int| 0 <= i < calls.len() ==> (#[trigger] calls[i]) is TryPop
}

/// Tries to pop give the values of a queue in order, and nothing once there is none left.
pub proof fn law_drained_in_order<T>(
    calls: Seq<ShiftCall<T>>,
    states: Seq<ShiftQueue<T>>,
    answers: Seq<ShiftAnswer<T>>,
)
    requires
        all_made(calls, states, answers),
        all_tries(calls),
    ensures
        forall|i: int|
            0 <= i < answers.len() ==> #[trigger] answers[i] == ShiftAnswer::Tried(
                if i < states[0]@.len() {
                    Some(states[0]@[i])
                } else {
                    None
                },
            ),
        calls.len() <= states[0]@.len() ==> states.last()@ == states[0]@.skip(calls.len() as int),
        calls.len() > states[0]@.len() ==> states.last()@.len() == 0,
    decreases calls.len(),
{
    if calls.len() == 0 {
        assert(states[0]@.skip(0) =~= states[0]@);
    } else {
        let n = calls.len() - 1;
        let (fewer, less, given) = (calls.take(n), states.take(n + 1), answers.take(n));
        assert forall|i: int| 0 <= i < n implies made(
            #[trigger] fewer[i],
            less[i]@,
            less[i + 1]@,
            given[i],
        ) && fewer[i] is TryPop by {
            assert(fewer[i] == calls[i]);
        }
        law_drained_in_order(fewer, less, given);
        assert(made(calls[n], states[n]@, states[n + 1]@, answers[n]));
        assert(less.last() == states[n]);
        assert forall|i: int| 0 <= i < answers.len() implies #[trigger] answers[i]
            == ShiftAnswer::Tried(
            if i < states[0]@.len() {
                Some(states[0]@[i])
            } else {
                None
            },
        ) by {
            if i < n {
                assert(given[i] == answers[i]);
            }
        }
        if n < states[0]@.len() {
            assert(states[0]@.skip(n).skip(1) =~= states[0]@.skip(n + 1));
        }
    }
}

/// A value that is pushed comes out behind all that were in the queue before, however many,
/// after which tries to pop find nothing.
pub proof fn law_push_comes_last<T>(
    before: ShiftQueue<T>,
    val: T,
    calls: Seq<ShiftCall<T>>,
    states: Seq<ShiftQueue<T>>,
    answers: Seq<ShiftAnswer<T>>,
)
    requires
        made(ShiftCall::Push(val), before@, states[0]@, ShiftAnswer::Pushed),
        all_made(calls, states, answers),
        all_tries(calls),
        calls.len() == before@.len() + 2,
    ensures
        forall|i: int|
            0 <= i < before@.len() ==> #[trigger] answers[i] == ShiftAnswer::Tried(
                Some(before@[i]),
            ),
        answers[before@.len() as int] == ShiftAnswer::Tried(Some(val)),
        answers[before@.len() as int + 1] == ShiftAnswer::Tried(None::<T>),
        states.last()@.len() == 0,
{
    law_drained_in_order(calls, states, answers);
}

/// A pop gives what a try would have given, and leaves what a try would have left; it can be
/// made exactly if the queue is not empty.
pub proof fn law_pop_as_try<T>(before: ShiftQueue<T>, after: ShiftQueue<T>, val: T)
    ensures
        made(ShiftCall::Pop, before@, after@, ShiftAnswer::Popped(val)) <==> made(
            ShiftCall::TryPop,
            before@,
            after@,
            ShiftAnswer::Tried(Some(val)),
        ),
        made(ShiftCall::Pop, before@, after@, ShiftAnswer::Popped(val)) ==> before@ == seq![val]
            + after@,
{
    if before@.len() > 0 && val == before@[0] && after@ == before@.skip(1) {
        assert(before@ =~= seq![val] + after@);
    }
}

/// A call is answered in its own way, and says all that it does to the values: a push adds one at
/// the end, a look changes nothing and says whether there is none, and a try takes the first.
pub proof fn law_what_calls_do<T>(
    before: Seq<T>,
    after: Seq<T>,
    val: T,
    empty: bool,
    popped: Option<T>,
)
    ensures
        made(ShiftCall::Push(val), before, after, ShiftAnswer::Pushed) ==> after.len()
            == before.len() + 1 && after.last() == val && after.drop_last() == before,
        made(ShiftCall::IsEmpty, before, after, ShiftAnswer::Empty(empty)) ==> after == before && (
        empty <==> before.len() == 0),
        made(ShiftCall::TryPop, before, after, ShiftAnswer::Tried(popped)) ==> match popped {
            Some(first) => before == seq![first] + after,
            None => before.len() == 0 && after.len() == 0,
        },
{
    assert(before.push(val).drop_last() =~= before);
    if before.len() > 0 {
        assert(before =~= seq![before[0]] + before.skip(1));
    }
}

/// A new queue is empty, keeps no node but the one without a value, and is used by nobody.
pub proof fn law_fresh_queue<T>(queue: ShiftQueue<T>, threads: nat)
    requires
        queue.fresh(threads),
    ensures
        queue@ == Seq::<T>::empty(),
        queue.threads() == threads,
        queue.places() == 1,
        queue.mem().guard.len() == 0,
        queue.mem().late.len() == 0,
        queue.mem().free.len() == 0,
        queue.mem().users == 0,
        !queue.mem().locked,
{
    law_places_accounted(queue);
}

/// With the queue to itself, a push takes up a new place only if none is free, and a pop keeps
/// the old head while there is room in the guard and else frees all that was kept; so no more
/// places are taken up than are in use.
pub proof fn law_places_used_again<T>(before: ShiftMem<T>, after: ShiftMem<T>)
    ensures
        pushed_on(before, after) ==> {
            &&& before.free.len() > 0 ==> after.nodes.len() == before.nodes.len()
                && after.free.len() == before.free.len() - 1
            &&& before.free.len() == 0 ==> after.nodes.len() == before.nodes.len() + 1
                && after.free.len() == 0
            &&& after.guard == before.guard
            &&& after.late == before.late
            &&& after.head == before.head
        },
        taken_off(before, after) ==> {
            &&& after.nodes.len() == before.nodes.len()
            &&& after.tail == before.tail
            &&& before.nodes[before.head as int].next == Some(after.head)
            &&& before.guard.len() < before.cap ==> after.guard == before.guard.push(before.head)
                && after.free == before.free && after.late == before.late
            &&& before.guard.len() >= before.cap ==> {
                &&& after.guard.len() == 0
                &&& after.late.len() == 0
                &&& after.free.len() == before.free.len() + before.guard.len() + before.late.len()
                    + 1
                &&& after.free.contains(before.head)
                &&& forall|j: int|
                    0 <= j < before.guard.len() ==> after.free.contains(
                        #[trigger] before.guard[j],
                    )
                &&& forall|j: int|
                    0 <= j < before.late.len() ==> after.free.contains(#[trigger] before.late[j])
            }
        },
{
    if taken_off(before, after) && before.guard.len() >= before.cap {
        let (f, g, l) = (before.free.len(), before.guard.len(), before.late.len());
        assert(after.free[(f + g + l) as int] == before.head);
        assert forall|j: int| 0 <= j < g implies after.free.contains(#[trigger] before.guard[j]) by {
            assert(after.free[f + g - 1 - j] == before.guard[j]);
        }
        assert forall|j: int| 0 <= j < l implies after.free.contains(#[trigger] before.late[j]) by {
            assert(after.free[f + g + l - 1 - j] == before.late[j]);
        }
    }
}

/// With no push and no pop under way, there is a place for each value in the queue, one for
/// the node without a value, and one for each of the nodes that were taken off and are kept:
/// in the guard no more than the queue was made for, and those that came late. All others are
/// free, to be used again.
pub proof fn law_places_accounted<T>(queue: ShiftQueue<T>)
    requires
        queue.wf(),
    ensures
        queue.places() == queue@.len() + 1 + queue.mem().guard.len() + queue.mem().late.len()
            + queue.mem().free.len(),
        queue.mem().guard.len() <= queue.threads(),
{
    let s = choose|s: ShiftSys<T>| at_rest(s, queue.mem());
    lemma_content(s);
    lemma_nobody_counted(s);
}

/// The number of threads that a queue is made for never shows in what it answers.
pub proof fn law_threads_never_show<T>(
    n: nat,
    m: nat,
    calls: Seq<ShiftCall<T>>,
    a: Seq<ShiftQueue<T>>,
    x: Seq<ShiftAnswer<T>>,
    b: Seq<ShiftQueue<T>>,
    y: Seq<ShiftAnswer<T>>,
)
    requires
        all_made(calls, a, x),
        all_made(calls, b, y),
        a[0].fresh(n),
        b[0].fresh(m),
    ensures
        x == y,
{
    law_same_answers(calls, a, x, b, y);
}

/// A queue that was made without a number of threads answers as one does that was made for as
/// many threads as there are processors.
pub proof fn law_new_as_with_threads<T>(
    n: usize,
    calls: Seq<ShiftCall<T>>,
    a: Seq<ShiftQueue<T>>,
    x: Seq<ShiftAnswer<T>>,
    b: Seq<ShiftQueue<T>>,
    y: Seq<ShiftAnswer<T>>,
)
    requires
        all_made(calls, a, x),
        all_made(calls, b, y),
        exists|m: usize| #[trigger] processors(m) && a[0].fresh(m as nat),
        b[0].fresh(n as nat),
    ensures
        x == y,
{
    law_same_answers(calls, a, x, b, y);
}

/// A queue is empty exactly if the next pop that is tried finds nothing; neither the look nor
/// such a pop changes what the queue holds.
pub proof fn law_empty_or_popped<T>(
    before: ShiftQueue<T>,
    looked: ShiftQueue<T>,
    tried: ShiftQueue<T>,
    empty: bool,
    popped: Option<T>,
)
    requires
        made(ShiftCall::IsEmpty, before@, looked@, ShiftAnswer::Empty(empty)),
        made(ShiftCall::TryPop, looked@, tried@, ShiftAnswer::Tried(popped)),
    ensures
        empty <==> popped is None,
        looked@ == before@,
        popped is None ==> tried@ == before@,
{
}

/// A queue that any number of threads push to and pop from at once. Their steps may come in
/// any order.
pub struct ShiftThreads<T> {
    queue: RawQueue<T>,
    pushes: Vec<ShiftPush>,
    pops: Vec<ShiftPop<T>>,
    trace: Ghost<ShiftSys<T>>,
}

impl<T> ShiftThreads<T> {
    /// The queue, what the threads are about to do, and what they have done.
    pub closed spec fn sys(&self) -> ShiftSys<T> {
        self.trace@
    }

    /// The queue is safe.
    pub closed spec fn wf(&self) -> bool {
        let s = self.trace@;
        &&& self.queue.sound()
        &&& s.safe()
        &&& s.mem == self.queue.mem()
        &&& s.pushes == self.pushes@
        &&& s.pops == self.pops@
    }

    /// An empty queue for a number of threads.
    pub fn with_threads(threads: usize) -> (all: ShiftThreads<T>)
        ensures
            all.wf(),
            all.sys().safe(),
            all.sys().pushes.len() == 0,
            all.sys().pops.len() == 0,
            all.sys().given == all.sys().taken,
            all.sys().mem.cap == threads,
    {
        let queue: RawQueue<T> = RawQueue::with_threads(threads);
        let ghost s = choose|s: ShiftSys<T>| at_rest(s, queue.mem());
        proof {
            lemma_content(s);
            assert(s.given.skip(s.taken.len() as int).len() == 0);
            assert(s.given =~= s.taken);
        }
        let all = ShiftThreads {
            queue,
            pushes: Vec::new(),
            pops: Vec::new(),
            trace: Ghost(s),
        };
        assert(all.pushes@ =~= s.pushes);
        assert(all.pops@ =~= s.pops);
        all
    }

    /// A thread begins to push a value. Returns the number of its push.
    pub fn begin_push(&mut self, val: T) -> (i: usize)
        requires
            old(self).wf(),
        ensures
            final(self).wf(),
            final(self).sys() == old(self).sys().after(ShiftEvent::BeginPush(val)),
            i == old(self).sys().pushes.len(),
    {
        let i: usize = self.pushes.len();
        proof {
            assert(self.queue.nodes@.len() == self.queue.nodes.len());
            law_shift_event(self.trace@, ShiftEvent::BeginPush(val));
        }
        let op = self.queue.start_push(val);
        self.pushes.push(op);
        proof {
            self.trace@ = self.trace@.after(ShiftEvent::BeginPush(val));
        }
        i
    }

    /// The thread of a push takes its next step. Returns whether the push is over.
    pub fn step_push(&mut self, i: usize) -> (over: bool)
        requires
            old(self).wf(),
            i < old(self).sys().pushes.len(),
        ensures
            final(self).wf(),
            final(self).sys() == old(self).sys().after(ShiftEvent::StepPush(i as int)),
            over == (final(self).sys().pushes[i as int].stage is Done),
    {
        proof {
            law_shift_event(self.trace@, ShiftEvent::StepPush(i as int));
            assert(self.trace@.push_ok(i as int));
        }
        let mut op = self.pushes[i];
        self.queue.push_step(&mut op);
        self.pushes.set(i, op);
        proof {
            self.trace@ = self.trace@.after(ShiftEvent::StepPush(i as int));
        }
        if let ShiftPushStage::Done = op.stage {
            true
        } else {
            false
        }
    }

    /// A thread begins to pop. Returns the number of its pop.
    pub fn begin_pop(&mut self) -> (i: usize)
        requires
            old(self).wf(),
        ensures
            final(self).wf(),
            final(self).sys() == old(self).sys().after(ShiftEvent::BeginPop),
            i == old(self).sys().pops.len(),
    {
        let i: usize = self.pops.len();
        proof {
            law_shift_event(self.trace@, ShiftEvent::BeginPop);
        }
        self.pops.push(RawQueue::start_pop());
        proof {
            self.trace@ = self.trace@.after(ShiftEvent::BeginPop);
        }
        i
    }

    /// The thread of a pop takes its next step. Returns whether the pop is over.
    pub fn step_pop(&mut self, i: usize) -> (over: bool)
        requires
            old(self).wf(),
            i < old(self).sys().pops.len(),
        ensures
            final(self).wf(),
            final(self).sys() == old(self).sys().after(ShiftEvent::StepPop(i as int)),
            over == (final(self).sys().pops[i as int].stage is Done),
    {
        proof {
            law_shift_event(self.trace@, ShiftEvent::StepPop(i as int));
            assert(self.trace@.pop_ok(i as int));
        }
        self.queue.pop_step(&mut self.pops[i]);
        proof {
            self.trace@ = self.trace@.after(ShiftEvent::StepPop(i as int));
        }
        if let ShiftPopStage::Done = self.pops[i].stage {
            true
        } else {
            false
        }
    }

    /// What a pop gave.
    pub fn popped(&self, i: usize) -> (popped: Option<&T>)
        requires
            self.wf(),
            i < self.sys().pops.len(),
        ensures
            match self.sys().pops[i as int].result {
                Some(val) => popped == Some(&val),
                None => popped is None,
            },
    {
        self.pops[i].result.as_ref()
    }

    /// The queue, once all pushes and pops are over.
    pub fn into_queue(self) -> (queue: ShiftQueue<T>)
        requires
            self.wf(),
            self.sys().over(),
        ensures
            queue.wf(),
            queue.mem() == self.sys().mem,
            queue@ == self.sys().rest(),
            self.sys().given == self.sys().taken + queue@,
    {
        proof {
            lemma_settled(self.trace@);
            lemma_content(self.trace@);
            lemma_chain(self.trace@);
        }
        ShiftQueue { raw: self.queue }
    }
}

} // verus!
