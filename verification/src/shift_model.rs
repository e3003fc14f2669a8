//! What each shared access of a push and of a pop does to a linked queue.
//!
//! The queue is a list of nodes whose first node holds no value any more. A push links a
//! new node behind the last one and then moves the tail; a pop moves the head. Whoever
//! finds the tail behind moves it first. A node that was taken off is kept in a guard. Who
//! finds the guard full frees the nodes in it, if no push and no pop is among the nodes; else
//! its node waits beside the guard. The places of freed nodes are used again.

use vstd::prelude::*;

verus! {

/// A node of the list.
#[derive(Debug)]
pub struct Node<T> {
    /// The value, until it is popped.
    pub data: Option<T>,
    /// The node behind this one.
    pub next: Option<usize>,
    /// Whether the node has not been freed.
    pub live: bool,
}

impl<T> Node<T> {
    /// A node with a value and nothing behind it.
    pub open spec fn fresh(val: T) -> Node<T> {
        Node { data: Some(val), next: None, live: true }
    }

    /// A node without a value and with nothing behind it.
    pub open spec fn blank() -> Node<T> {
        Node { data: None, next: None, live: true }
    }
}

/// A queue in memory.
#[verifier::ext_equal]
pub struct ShiftMem<T> {
    pub head: usize,
    pub tail: usize,
    pub nodes: Seq<Node<T>>,
    /// The places of nodes that were freed.
    pub free: Seq<usize>,
    /// How many pushes and pops are among the nodes.
    pub users: usize,
    /// The nodes that were taken off, and how many there may be.
    pub guard: Seq<usize>,
    pub cap: nat,
    pub locked: bool,
    /// The nodes that were taken off while the guard was full and could not be cleared.
    pub late: Seq<usize>,
}

impl<T> ShiftMem<T> {
    /// The memory with a node replaced.
    pub open spec fn with(self, i: int, node: Node<T>) -> ShiftMem<T> {
        ShiftMem { nodes: self.nodes.update(i, node), ..self }
    }

    /// The memory with a node freed.
    pub open spec fn without(self, i: usize) -> ShiftMem<T> {
        ShiftMem {
            nodes: self.nodes.update(i as int, Node { live: false, ..self.nodes[i as int] }),
            free: self.free.push(i),
            ..self
        }
    }

    /// There is a place for another node.
    pub open spec fn has_place(self) -> bool {
        self.free.len() > 0 || self.nodes.len() <= usize::MAX
    }

    /// The place that the next node gets: one of a freed node, or else a new one.
    pub open spec fn next_place(self) -> usize {
        if self.free.len() > 0 {
            self.free.last()
        } else {
            self.nodes.len() as usize
        }
    }

    /// The memory with a new node for a value.
    pub open spec fn with_new(self, val: T) -> ShiftMem<T> {
        if self.free.len() > 0 {
            ShiftMem {
                nodes: self.nodes.update(self.free.last() as int, Node::fresh(val)),
                free: self.free.drop_last(),
                ..self
            }
        } else {
            ShiftMem { nodes: self.nodes.push(Node::fresh(val)), ..self }
        }
    }

    /// Everything that is pointed to is there.
    pub open spec fn sound(self) -> bool {
        let n = self.nodes.len();
        &&& self.head < n
        &&& self.tail < n
        &&& self.guard.len() <= self.cap
        &&& (forall|i: int| 0 <= i < self.guard.len() ==> #[trigger] self.guard[i] < n)
        &&& (forall|i: int| 0 <= i < self.free.len() ==> #[trigger] self.free[i] < n)
        &&& (forall|i: int| 0 <= i < self.late.len() ==> #[trigger] self.late[i] < n)
        &&& (forall|i: int|
            0 <= i < n ==> ((#[trigger] self.nodes[i]).next matches Some(next) ==> next < n))
    }
}

/// The count without one of those counted.
pub open spec fn one_less(users: usize) -> usize {
    if users > 0 {
        (users - 1) as usize
    } else {
        0
    }
}

/// What a push does next.
#[derive(Clone, Copy, Debug, PartialEq, Eq, Structural)]
pub enum ShiftPushStage {
    /// Make itself known as one that is among the nodes, once there are not too many.
    Enter,
    /// Read the tail.
    LoadTail,
    /// Read what is behind the tail.
    LoadNext,
    /// The tail lags behind: move it to the node behind it.
    Help,
    /// Link the new node behind the tail.
    Link,
    /// Move the tail to the new node, unless another thread has moved it.
    Swing,
    /// Be among the nodes no more.
    Leave,
    /// Nothing: the value has been pushed.
    Done,
}

/// A push that has begun.
#[derive(Clone, Copy, Debug, PartialEq, Eq, Structural)]
pub struct ShiftPush {
    pub stage: ShiftPushStage,
    /// The new node.
    pub new: usize,
    /// The tail as last read.
    pub tail: usize,
    /// The node that was behind it.
    pub next: usize,
}

impl ShiftPush {
    /// A push of a new node that has just begun.
    pub open spec fn start(new: usize) -> ShiftPush {
        ShiftPush { stage: ShiftPushStage::Enter, new, tail: 0, next: 0 }
    }

    /// The nodes that the push knows of are there.
    pub open spec fn sound(self, n: nat) -> bool {
        &&& self.new < n
        &&& self.tail < n
        &&& self.next < n
    }

    /// The push is among the nodes.
    pub open spec fn inside(self) -> bool {
        !(self.stage is Enter || self.stage is Done)
    }
}

/// The memory and the push after its next access. A change of a pointer that may fail for
/// no reason is not among them.
pub open spec fn shift_push_next<T>(m: ShiftMem<T>, op: ShiftPush) -> (ShiftMem<T>, ShiftPush) {
    let behind = m.nodes[op.tail as int];
    match op.stage {
        ShiftPushStage::Enter => if m.users < usize::MAX {
            (
                ShiftMem { users: (m.users + 1) as usize, ..m },
                ShiftPush { stage: ShiftPushStage::LoadTail, ..op },
            )
        } else {
            (m, op)
        },
        ShiftPushStage::LoadTail => (
            m,
            ShiftPush { tail: m.tail, stage: ShiftPushStage::LoadNext, ..op },
        ),
        ShiftPushStage::LoadNext => match behind.next {
            Some(next) => (m, ShiftPush { next, stage: ShiftPushStage::Help, ..op }),
            None => (m, ShiftPush { stage: ShiftPushStage::Link, ..op }),
        },
        ShiftPushStage::Help => (
            ShiftMem {
                tail: if m.tail == op.tail {
                    op.next
                } else {
                    m.tail
                },
                ..m
            },
            ShiftPush { stage: ShiftPushStage::LoadTail, ..op },
        ),
        ShiftPushStage::Link => if behind.next is None {
            (
                m.with(op.tail as int, Node { next: Some(op.new), ..behind }),
                ShiftPush { stage: ShiftPushStage::Swing, ..op },
            )
        } else {
            (m, ShiftPush { stage: ShiftPushStage::LoadTail, ..op })
        },
        ShiftPushStage::Swing => (
            ShiftMem {
                tail: if m.tail == op.tail {
                    op.new
                } else {
                    m.tail
                },
                ..m
            },
            ShiftPush { stage: ShiftPushStage::Leave, ..op },
        ),
        ShiftPushStage::Leave => (
            ShiftMem { users: one_less(m.users), ..m },
            ShiftPush { stage: ShiftPushStage::Done, ..op },
        ),
        ShiftPushStage::Done => (m, op),
    }
}

/// What a pop does next.
#[derive(Clone, Copy, Debug, PartialEq, Eq, Structural)]
pub enum ShiftPopStage {
    /// Make itself known as one that is among the nodes, once there are not too many.
    Enter,
    /// Read the head.
    LoadHead,
    /// Read the tail.
    LoadTail,
    /// Read what is behind the head.
    LoadNext,
    /// The tail lags behind: move it to the node behind it.
    Help,
    /// Move the head to the node behind it.
    Swing,
    /// Take the value of the new head.
    Read,
    /// Be among the nodes no more.
    Leave,
    /// Lock the guard of the nodes that were taken off. While it is locked, no one else
    /// touches the guard.
    Lock,
    /// Put the old head into that guard, if there is room.
    Keep,
    /// See whether a push or a pop is among the nodes.
    Look,
    /// Put the old head beside the guard.
    Defer,
    /// Free the nodes in the guard and those beside it, one after the other.
    Clear,
    /// Free the old head.
    FreeOld,
    /// Unlock the guard.
    Release,
    /// Nothing: the pop is over.
    Done,
}

/// A pop that has begun.
#[derive(Debug)]
pub struct ShiftPop<T> {
    pub stage: ShiftPopStage,
    /// The head as last read.
    pub head: usize,
    /// The tail as last read.
    pub tail: usize,
    /// The node behind the head.
    pub next: usize,
    /// The value that was popped.
    pub result: Option<T>,
}

impl<T> ShiftPop<T> {
    /// A pop that has just begun.
    pub open spec fn start() -> ShiftPop<T> {
        ShiftPop { stage: ShiftPopStage::Enter, head: 0, tail: 0, next: 0, result: None }
    }

    /// The nodes that the pop knows of are there.
    pub open spec fn sound(self, n: nat) -> bool {
        &&& self.head < n
        &&& self.tail < n
        &&& self.next < n
    }

    /// The pop is among the nodes.
    pub open spec fn inside(self) -> bool {
        match self.stage {
            ShiftPopStage::LoadHead => true,
            ShiftPopStage::LoadTail => true,
            ShiftPopStage::LoadNext => true,
            ShiftPopStage::Help => true,
            ShiftPopStage::Swing => true,
            ShiftPopStage::Read => true,
            ShiftPopStage::Leave => true,
            _ => false,
        }
    }
}

/// The memory and the pop after its next access.
pub open spec fn shift_pop_next<T>(m: ShiftMem<T>, op: ShiftPop<T>) -> (ShiftMem<T>, ShiftPop<T>) {
    match op.stage {
        ShiftPopStage::Enter => if m.users < usize::MAX {
            (
                ShiftMem { users: (m.users + 1) as usize, ..m },
                ShiftPop { stage: ShiftPopStage::LoadHead, ..op },
            )
        } else {
            (m, op)
        },
        ShiftPopStage::LoadHead => (
            m,
            ShiftPop { head: m.head, stage: ShiftPopStage::LoadTail, ..op },
        ),
        ShiftPopStage::LoadTail => (
            m,
            ShiftPop { tail: m.tail, stage: ShiftPopStage::LoadNext, ..op },
        ),
        ShiftPopStage::LoadNext => match m.nodes[op.head as int].next {
            Some(next) => (
                m,
                ShiftPop {
                    next,
                    stage: if op.head == op.tail {
                        ShiftPopStage::Help
                    } else {
                        ShiftPopStage::Swing
                    },
                    ..op
                },
            ),
            None => (m, ShiftPop { stage: ShiftPopStage::Leave, ..op }),
        },
        ShiftPopStage::Help => (
            ShiftMem {
                tail: if m.tail == op.tail {
                    op.next
                } else {
                    m.tail
                },
                ..m
            },
            ShiftPop { stage: ShiftPopStage::LoadHead, ..op },
        ),
        ShiftPopStage::Swing => if m.head == op.head {
            (ShiftMem { head: op.next, ..m }, ShiftPop { stage: ShiftPopStage::Read, ..op })
        } else {
            (m, ShiftPop { stage: ShiftPopStage::LoadHead, ..op })
        },
        ShiftPopStage::Read => (
            m.with(op.next as int, Node { data: None, ..m.nodes[op.next as int] }),
            ShiftPop {
                result: m.nodes[op.next as int].data,
                stage: ShiftPopStage::Leave,
                ..op
            },
        ),
        ShiftPopStage::Leave => (
            ShiftMem { users: one_less(m.users), ..m },
            ShiftPop {
                stage: if op.result is Some {
                    ShiftPopStage::Lock
                } else {
                    ShiftPopStage::Done
                },
                ..op
            },
        ),
        ShiftPopStage::Lock => if m.locked {
            (m, op)
        } else {
            (ShiftMem { locked: true, ..m }, ShiftPop { stage: ShiftPopStage::Keep, ..op })
        },
        ShiftPopStage::Keep => if m.guard.len() < m.cap {
            (
                ShiftMem { guard: m.guard.push(op.head), ..m },
                ShiftPop { stage: ShiftPopStage::Release, ..op },
            )
        } else {
            (m, ShiftPop { stage: ShiftPopStage::Look, ..op })
        },
        ShiftPopStage::Look => (
            m,
            ShiftPop {
                stage: if m.users == 0 {
                    ShiftPopStage::Clear
                } else {
                    ShiftPopStage::Defer
                },
                ..op
            },
        ),
        ShiftPopStage::Defer => (
            ShiftMem { late: m.late.push(op.head), ..m },
            ShiftPop { stage: ShiftPopStage::Release, ..op },
        ),
        ShiftPopStage::Clear => if m.guard.len() > 0 {
            (ShiftMem { guard: m.guard.drop_last(), ..m.without(m.guard.last()) }, op)
        } else if m.late.len() > 0 {
            (ShiftMem { late: m.late.drop_last(), ..m.without(m.late.last()) }, op)
        } else {
            (m, ShiftPop { stage: ShiftPopStage::FreeOld, ..op })
        },
        ShiftPopStage::FreeOld => (
            m.without(op.head),
            ShiftPop { stage: ShiftPopStage::Release, ..op },
        ),
        ShiftPopStage::Release => (
            ShiftMem { locked: false, ..m },
            ShiftPop { stage: ShiftPopStage::Done, ..op },
        ),
        ShiftPopStage::Done => (m, op),
    }
}

} // verus!
