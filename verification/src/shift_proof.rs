//! What holds of a linked queue while any number of threads push and pop.

use vstd::prelude::*;

use crate::shift_model::{
    shift_pop_next, shift_push_next, Node, ShiftMem, ShiftPop, ShiftPopStage, ShiftPush,
    ShiftPushStage,
};

verus! {

/// The nodes of the chain are linked one behind the other, are live and distinct, and
/// nothing is behind the last of them.
pub open spec fn chained<T>(nodes: Seq<Node<T>>, chain: Seq<usize>) -> bool {
    &&& chain.len() > 0
    &&& chain.no_duplicates()
    &&& forall|i: int| 0 <= i < chain.len() ==> #[trigger] link_of(nodes, chain, i)
}

/// A node of the chain is live, and the next node of the chain is behind it.
pub open spec fn link_of<T>(nodes: Seq<Node<T>>, chain: Seq<usize>, i: int) -> bool {
    &&& chain[i] < nodes.len()
    &&& nodes[chain[i] as int].live
    &&& nodes[chain[i] as int].next == (if i + 1 < chain.len() {
        Some(chain[i + 1])
    } else {
        None
    })
    &&& i > 0 ==> nodes[chain[i] as int].data is Some
}

/// The values of the chain: those of all nodes but the first.
pub open spec fn values<T>(nodes: Seq<Node<T>>, chain: Seq<usize>) -> Seq<T> {
    Seq::new((chain.len() - 1) as nat, |i: int| nodes[chain[i + 1] as int].data->0)
}

/// The nodes that follow each other from a node on.
pub open spec fn walk<T>(nodes: Seq<Node<T>>, from: usize, fuel: nat) -> Seq<usize>
    decreases fuel,
{
    if fuel == 0 || nodes[from as int].next is None {
        seq![from]
    } else {
        seq![from] + walk(nodes, nodes[from as int].next->0, (fuel - 1) as nat)
    }
}

/// Walking along a chain finds the chain.
pub proof fn lemma_walk<T>(nodes: Seq<Node<T>>, chain: Seq<usize>, fuel: nat)
    requires
        chained(nodes, chain),
        fuel + 1 >= chain.len(),
    ensures
        walk(nodes, chain[0], fuel) == chain,
    decreases fuel,
{
    assert(link_of(nodes, chain, 0));
    if chain.len() == 1 {
        assert(walk(nodes, chain[0], fuel) =~= chain);
    } else {
        let rest = chain.skip(1);
        assert forall|i: int| 0 <= i < rest.len() implies #[trigger] link_of(nodes, rest, i) by {
            assert(link_of(nodes, chain, i + 1));
        }
        assert(chained(nodes, rest));
        lemma_walk(nodes, rest, (fuel - 1) as nat);
        assert(walk(nodes, chain[0], fuel) =~= chain);
    }
}

/// There are no more nodes in a chain than there are nodes.
pub proof fn lemma_chain_fits<T>(nodes: Seq<Node<T>>, chain: Seq<usize>)
    requires
        chained(nodes, chain),
    ensures
        chain.len() <= nodes.len(),
{
    let numbers = chain.map_values(|c: usize| c as int);
    assert(numbers.no_duplicates()) by {
        assert forall|i: int, j: int|
            0 <= i < numbers.len() && 0 <= j < numbers.len() && i != j implies numbers[i]
            != numbers[j] by {
            assert(chain[i] != chain[j]);
        }
    }
    numbers.unique_seq_to_set();
    let all = vstd::set_lib::set_int_range(0, nodes.len() as int);
    vstd::set_lib::lemma_int_range(0, nodes.len() as int);
    assert(numbers.to_set().subset_of(all)) by {
        assert forall|x: int| numbers.to_set().contains(x) implies all.contains(x) by {
            let i = choose|i: int| 0 <= i < numbers.len() && numbers[i] == x;
            assert(link_of(nodes, chain, i));
        }
    }
    vstd::set_lib::lemma_len_subset(numbers.to_set(), all);
}

/// What the node at a place is to the queue.
pub enum Role {
    /// Freed: the place is in the list of free places, there.
    Free(int),
    /// The new node of that push, not linked yet.
    New(int),
    /// Linked, as the node of that number, counted from the first node that there ever was.
    Line(int),
    /// Taken off by that pop, which still has to put it away.
    Old(int),
    /// Taken off and kept in the guard, there.
    Kept(int),
    /// Taken off and kept beside the guard, there.
    Late(int),
}

/// A queue with any number of pushes and pops under way.
#[verifier::ext_equal]
pub struct ShiftSys<T> {
    pub mem: ShiftMem<T>,
    pub pushes: Seq<ShiftPush>,
    pub pops: Seq<ShiftPop<T>>,
    /// The role of the node at each place.
    pub role: Seq<Role>,
    /// Which pop is to read the value of the node at each place.
    pub claim: Seq<int>,
    /// All nodes that were ever linked, in their order.
    pub line: Seq<usize>,
    /// The number of the node that is the tail.
    pub tail_num: int,
    /// The pop that has locked the guard, or -1.
    pub holder: int,
    /// The value of each push.
    pub vals: Seq<T>,
    /// The values that were linked, in their order.
    pub given: Seq<T>,
    /// The values past which the head was moved, in their order.
    pub taken: Seq<T>,
    /// Where among the values given that of each push is, or -1.
    pub put: Seq<int>,
    /// Where among the values taken that of each pop is, or -1.
    pub got: Seq<int>,
    /// Which push gave each value, or -1 for those that were there before.
    pub linked: Seq<int>,
    /// Which pop took each value, or -1 for those that were taken before.
    pub swung: Seq<int>,
}

/// Something that a thread does.
pub enum ShiftEvent<T> {
    /// A thread begins to push a value.
    BeginPush(T),
    /// The thread of that push takes its next step.
    StepPush(int),
    /// A thread begins to pop.
    BeginPop,
    /// The thread of that pop takes its next step.
    StepPop(int),
}

/// The push has a node that is not linked yet.
pub open spec fn unlinked(push: ShiftPush) -> bool {
    match push.stage {
        ShiftPushStage::Swing => false,
        ShiftPushStage::Leave => false,
        ShiftPushStage::Done => false,
        _ => true,
    }
}

/// The push works on the tail that it has read.
pub open spec fn at_tail(push: ShiftPush) -> bool {
    match push.stage {
        ShiftPushStage::LoadNext => true,
        ShiftPushStage::Help => true,
        ShiftPushStage::Link => true,
        ShiftPushStage::Swing => true,
        _ => false,
    }
}

/// The pop works on the head that it has read.
pub open spec fn at_head<T>(pop: ShiftPop<T>) -> bool {
    match pop.stage {
        ShiftPopStage::LoadTail => true,
        ShiftPopStage::LoadNext => true,
        ShiftPopStage::Help => true,
        ShiftPopStage::Swing => true,
        _ => false,
    }
}

/// The pop has moved the head.
pub open spec fn took<T>(pop: ShiftPop<T>) -> bool {
    pop.stage is Read || pop.result is Some
}

/// The pop has an old head that it has not put away yet.
pub open spec fn retiring<T>(pop: ShiftPop<T>) -> bool {
    match pop.stage {
        ShiftPopStage::Read => true,
        ShiftPopStage::Leave => pop.result is Some,
        ShiftPopStage::Lock => true,
        ShiftPopStage::Keep => true,
        ShiftPopStage::Look => true,
        ShiftPopStage::Defer => true,
        ShiftPopStage::Clear => true,
        ShiftPopStage::FreeOld => true,
        _ => false,
    }
}

/// The pop has locked the guard.
pub open spec fn locking<T>(pop: ShiftPop<T>) -> bool {
    match pop.stage {
        ShiftPopStage::Keep => true,
        ShiftPopStage::Look => true,
        ShiftPopStage::Defer => true,
        ShiftPopStage::Clear => true,
        ShiftPopStage::FreeOld => true,
        ShiftPopStage::Release => true,
        _ => false,
    }
}

/// The pop frees nodes.
pub open spec fn clearing<T>(pop: ShiftPop<T>) -> bool {
    pop.stage is Clear || pop.stage is FreeOld
}

/// How many of them are true.
pub open spec fn tally(flags: Seq<bool>) -> nat
    decreases flags.len(),
{
    if flags.len() == 0 {
        0
    } else {
        tally(flags.drop_last()) + (if flags.last() {
            1nat
        } else {
            0
        })
    }
}

/// Which pushes are among the nodes.
pub open spec fn pushes_inside(pushes: Seq<ShiftPush>) -> Seq<bool> {
    Seq::new(pushes.len(), |i: int| pushes[i].inside())
}

/// Which pops are among the nodes.
pub open spec fn pops_inside<T>(pops: Seq<ShiftPop<T>>) -> Seq<bool> {
    Seq::new(pops.len(), |i: int| pops[i].inside())
}

/// Which pushes have a node that is not linked yet.
pub open spec fn pushes_unlinked(pushes: Seq<ShiftPush>) -> Seq<bool> {
    Seq::new(pushes.len(), |i: int| unlinked(pushes[i]))
}

/// Which pops have an old head that they have not put away yet.
pub open spec fn pops_retiring<T>(pops: Seq<ShiftPop<T>>) -> Seq<bool> {
    Seq::new(pops.len(), |i: int| retiring(pops[i]))
}

/// A sequence with one more or one other element.
pub open spec fn set_place<A>(s: Seq<A>, i: int, a: A) -> Seq<A> {
    if i < s.len() {
        s.update(i, a)
    } else {
        s.push(a)
    }
}

impl<T> ShiftSys<T> {
    /// All pushes and pops are over.
    pub open spec fn over(self) -> bool {
        &&& forall|i: int| 0 <= i < self.pushes.len() ==> (#[trigger] self.pushes[i]).stage is Done
        &&& forall|i: int| 0 <= i < self.pops.len() ==> (#[trigger] self.pops[i]).stage is Done
    }

    /// The event can happen.
    pub open spec fn allows(self, event: ShiftEvent<T>) -> bool {
        match event {
            ShiftEvent::BeginPush(_) => self.mem.has_place(),
            ShiftEvent::StepPush(i) => 0 <= i < self.pushes.len(),
            ShiftEvent::BeginPop => true,
            ShiftEvent::StepPop(i) => 0 <= i < self.pops.len(),
        }
    }

    /// What the next step of a push makes of the queue.
    pub open spec fn push_stepped(self, i: int) -> ShiftSys<T> {
        let op = self.pushes[i];
        let (mem, next) = shift_push_next(self.mem, op);
        let s = ShiftSys { mem, pushes: self.pushes.update(i, next), ..self };
        if op.stage is Link && next.stage is Swing {
            ShiftSys {
                role: self.role.update(op.new as int, Role::Line(self.line.len() as int)),
                line: self.line.push(op.new),
                given: self.given.push(self.mem.nodes[op.new as int].data->0),
                put: self.put.update(i, self.given.len() as int),
                linked: self.linked.push(i),
                ..s
            }
        } else if (op.stage is Help || op.stage is Swing) && self.mem.tail == op.tail {
            ShiftSys { tail_num: self.tail_num + 1, ..s }
        } else {
            s
        }
    }

    /// What the next step of a pop makes of the queue.
    pub open spec fn pop_stepped(self, i: int) -> ShiftSys<T> {
        let op = self.pops[i];
        let (mem, next) = shift_pop_next(self.mem, op);
        let s = ShiftSys { mem, pops: self.pops.update(i, next), ..self };
        if op.stage is Help && self.mem.tail == op.tail {
            ShiftSys { tail_num: self.tail_num + 1, ..s }
        } else if op.stage is Swing && next.stage is Read {
            ShiftSys {
                role: self.role.update(op.head as int, Role::Old(i)),
                claim: self.claim.update(op.next as int, i),
                taken: self.taken.push(self.mem.nodes[op.next as int].data->0),
                got: self.got.update(i, self.taken.len() as int),
                swung: self.swung.push(i),
                ..s
            }
        } else if op.stage is Lock && next.stage is Keep {
            ShiftSys { holder: i, ..s }
        } else if op.stage is Keep && next.stage is Release {
            ShiftSys {
                role: self.role.update(op.head as int, Role::Kept(self.mem.guard.len() as int)),
                ..s
            }
        } else if op.stage is Defer {
            ShiftSys {
                role: self.role.update(op.head as int, Role::Late(self.mem.late.len() as int)),
                ..s
            }
        } else if op.stage is Clear && self.mem.guard.len() > 0 {
            ShiftSys {
                role: self.role.update(
                    self.mem.guard.last() as int,
                    Role::Free(self.mem.free.len() as int),
                ),
                ..s
            }
        } else if op.stage is Clear && self.mem.late.len() > 0 {
            ShiftSys {
                role: self.role.update(
                    self.mem.late.last() as int,
                    Role::Free(self.mem.free.len() as int),
                ),
                ..s
            }
        } else if op.stage is FreeOld {
            ShiftSys {
                role: self.role.update(op.head as int, Role::Free(self.mem.free.len() as int)),
                ..s
            }
        } else if op.stage is Release {
            ShiftSys { holder: -1, ..s }
        } else {
            s
        }
    }

    /// What the event makes of the queue.
    pub open spec fn after(self, event: ShiftEvent<T>) -> ShiftSys<T> {
        match event {
            ShiftEvent::BeginPush(val) => {
                let place = self.mem.next_place();
                ShiftSys {
                    mem: self.mem.with_new(val),
                    pushes: self.pushes.push(ShiftPush::start(place)),
                    role: set_place(self.role, place as int, Role::New(self.pushes.len() as int)),
                    claim: set_place(self.claim, place as int, -1),
                    vals: self.vals.push(val),
                    put: self.put.push(-1),
                    ..self
                }
            },
            ShiftEvent::StepPush(i) => self.push_stepped(i),
            ShiftEvent::BeginPop => ShiftSys {
                pops: self.pops.push(ShiftPop::start()),
                got: self.got.push(-1),
                ..self
            },
            ShiftEvent::StepPop(i) => self.pop_stepped(i),
        }
    }

    /// The nodes that are linked, from the head on.
    pub open spec fn chain(self) -> Seq<usize> {
        self.line.skip(self.taken.len() as int)
    }

    /// The values that are linked and not popped yet, the first first.
    pub open spec fn rest(self) -> Seq<T> {
        values(self.mem.nodes, self.chain())
    }

    /// A pop frees nodes: those in the guard and its own old head.
    pub open spec fn freeing(self) -> bool {
        self.holder >= 0 && clearing(self.pops[self.holder])
    }

    /// The node at the place can be used: it is not freed, and about to be freed only if
    /// nobody among the nodes knows of it.
    pub open spec fn usable(self, p: usize) -> bool {
        &&& p < self.mem.nodes.len()
        &&& self.role[p as int] !is Free
        &&& self.role[p as int] !is New
        &&& self.freeing() ==> self.role[p as int] !is Kept && self.role[p as int] !is Late
            && self.role[p as int] != Role::Old(self.holder)
    }

    /// A node is what its role says.
    pub open spec fn place_ok(self, p: int) -> bool {
        let node = self.mem.nodes[p];
        match self.role[p] {
            Role::Free(j) => {
                &&& !node.live
                &&& 0 <= j < self.mem.free.len()
                &&& self.mem.free[j] == p
            },
            Role::New(i) => {
                &&& node.live
                &&& node.next is None
                &&& 0 <= i < self.pushes.len()
                &&& node.data == Some(self.vals[i])
                &&& self.claim[p] == -1
                &&& self.pushes[i].new == p
                &&& unlinked(self.pushes[i])
            },
            Role::Line(k) => {
                &&& node.live
                &&& self.taken.len() <= k < self.line.len()
                &&& self.line[k] == p
                &&& node.next == (if k + 1 < self.line.len() {
                    Some(self.line[k + 1])
                } else {
                    None
                })
                &&& k > self.taken.len() ==> node.data == Some(self.given[k - 1]) && self.claim[p]
                    == -1
            },
            Role::Old(i) => {
                &&& node.live
                &&& node.next is Some
                &&& 0 <= i < self.pops.len()
                &&& self.pops[i].head == p
                &&& retiring(self.pops[i])
            },
            Role::Kept(j) => {
                &&& node.live
                &&& node.next is Some
                &&& 0 <= j < self.mem.guard.len()
                &&& self.mem.guard[j] == p
            },
            Role::Late(j) => {
                &&& node.live
                &&& node.next is Some
                &&& 0 <= j < self.mem.late.len()
                &&& self.mem.late[j] == p
            },
        }
    }

    /// The node of a number is linked there.
    pub open spec fn line_ok(self, k: int) -> bool {
        &&& self.line[k] < self.mem.nodes.len()
        &&& self.role[self.line[k] as int] == Role::Line(k)
    }

    /// A node in the guard is kept there.
    pub open spec fn guard_ok(self, j: int) -> bool {
        &&& self.mem.guard[j] < self.mem.nodes.len()
        &&& self.role[self.mem.guard[j] as int] == Role::Kept(j)
    }

    /// A node beside the guard is kept there.
    pub open spec fn late_ok(self, j: int) -> bool {
        &&& self.mem.late[j] < self.mem.nodes.len()
        &&& self.role[self.mem.late[j] as int] == Role::Late(j)
    }

    /// A free place is free.
    pub open spec fn free_ok(self, j: int) -> bool {
        &&& self.mem.free[j] < self.mem.nodes.len()
        &&& self.role[self.mem.free[j] as int] == Role::Free(j)
    }

    /// What the thread of a push knows of the queue.
    pub open spec fn push_ok(self, i: int) -> bool {
        let op = self.pushes[i];
        let nodes = self.mem.nodes;
        &&& op.sound(nodes.len())
        &&& unlinked(op) ==> self.role[op.new as int] == Role::New(i) && self.put[i] == -1
        &&& !unlinked(op) ==> {
            &&& 0 <= self.put[i] < self.given.len()
            &&& self.linked[self.put[i]] == i
            &&& self.given[self.put[i]] == self.vals[i]
        }
        &&& at_tail(op) ==> {
            &&& self.usable(op.tail)
            &&& self.role[op.tail as int] matches Role::Line(k) ==> k <= self.tail_num
        }
        &&& op.stage is Help ==> nodes[op.tail as int].next == Some(op.next)
        &&& op.stage is Swing ==> nodes[op.tail as int].next == Some(op.new)
    }

    /// What the thread of a pop knows of the queue.
    pub open spec fn pop_ok(self, i: int) -> bool {
        let op = self.pops[i];
        let nodes = self.mem.nodes;
        let first = self.taken.len() as int;
        &&& op.sound(nodes.len())
        &&& at_head(op) ==> {
            &&& self.usable(op.head)
            &&& self.role[op.head as int] matches Role::Line(k) ==> k == first
        }
        &&& op.stage is LoadNext || op.stage is Swing ==> (self.role[op.head as int] is Line
            && op.head != op.tail ==> self.tail_num > first)
        &&& op.stage is Help ==> op.head == op.tail && nodes[op.head as int].next == Some(op.next)
        &&& op.stage is Swing ==> op.head != op.tail && nodes[op.head as int].next == Some(op.next)
        &&& op.stage is Read ==> {
            &&& self.usable(op.next)
            &&& self.claim[op.next as int] == i
            &&& nodes[op.next as int].data == Some(self.taken[self.got[i]])
        }
        &&& op.stage is Read || op.stage is Enter || op.stage is LoadHead || at_head(op)
            ==> op.result is None
        &&& op.stage is Lock || locking(op) ==> op.result is Some
        &&& took(op) ==> 0 <= self.got[i] < first && self.swung[self.got[i]] == i
        &&& !took(op) ==> self.got[i] == -1
        &&& op.result matches Some(val) ==> val == self.taken[self.got[i]]
        &&& retiring(op) ==> self.role[op.head as int] == Role::Old(i)
        &&& locking(op) <==> self.holder == i
        &&& op.stage is FreeOld ==> self.mem.guard.len() == 0 && self.mem.late.len() == 0
    }

    /// The value given there is that of a push that has linked its node, and of no other.
    pub open spec fn linked_ok(self, k: int) -> bool {
        let i = self.linked[k];
        i != -1 ==> 0 <= i < self.pushes.len() && self.put[i] == k && !unlinked(self.pushes[i])
    }

    /// The value taken there is that of a pop that has moved the head, and of no other.
    pub open spec fn swung_ok(self, k: int) -> bool {
        let i = self.swung[k];
        i != -1 ==> 0 <= i < self.pops.len() && self.got[i] == k && took(self.pops[i])
    }

    /// The sequences are as long as they are to be.
    pub open spec fn shaped(self) -> bool {
        &&& self.role.len() == self.mem.nodes.len()
        &&& self.claim.len() == self.mem.nodes.len()
        &&& self.line.len() == self.given.len() + 1
        &&& self.taken.len() <= self.given.len()
        &&& self.vals.len() == self.pushes.len()
        &&& self.put.len() == self.pushes.len()
        &&& self.got.len() == self.pops.len()
        &&& self.linked.len() == self.given.len()
        &&& self.swung.len() == self.taken.len()
    }

    /// The tail is the last node, or else the one before it, while the push that linked the
    /// last node has yet to move the tail.
    pub open spec fn tail_ok(self) -> bool {
        let last = self.line.len() - 1;
        &&& self.taken.len() <= self.tail_num <= last
        &&& self.mem.tail == self.line[self.tail_num]
        &&& self.tail_num < last ==> {
            &&& self.tail_num == last - 1
            &&& 0 <= self.linked[last - 1] < self.pushes.len()
            &&& self.pushes[self.linked[last - 1]].stage is Swing
            &&& self.pushes[self.linked[last - 1]].tail == self.mem.tail
        }
    }

    /// The guard is locked while a pop has locked it, and the count is right.
    pub open spec fn counts_ok(self) -> bool {
        &&& -1 <= self.holder < self.pops.len()
        &&& self.mem.locked == (self.holder >= 0)
        &&& self.mem.users == tally(pushes_inside(self.pushes)) + tally(pops_inside(self.pops))
    }

    /// Every place is accounted for: it is free, or its node is in the guard, linked, new or
    /// about to be put away.
    pub open spec fn places_ok(self) -> bool {
        self.mem.nodes.len() == self.mem.free.len() + self.mem.guard.len() + self.mem.late.len() + (
        self.line.len() - self.taken.len()) + tally(pushes_unlinked(self.pushes)) + tally(
            pops_retiring(self.pops),
        )
    }

    /// What holds of the queue at every moment. No node is used after it has been freed.
    pub open spec fn safe(self) -> bool {
        &&& self.mem.sound()
        &&& self.mem.nodes.len() <= usize::MAX + 1
        &&& self.shaped()
        &&& self.counts_ok()
        &&& self.places_ok()
        &&& self.tail_ok()
        &&& self.mem.head == self.line[self.taken.len() as int]
        &&& self.taken == self.given.take(self.taken.len() as int)
        &&& (forall|p: int| 0 <= p < self.mem.nodes.len() ==> #[trigger] self.place_ok(p))
        &&& (forall|k: int| self.taken.len() <= k < self.line.len() ==> #[trigger] self.line_ok(k))
        &&& (forall|j: int| 0 <= j < self.mem.guard.len() ==> #[trigger] self.guard_ok(j))
        &&& (forall|j: int| 0 <= j < self.mem.late.len() ==> #[trigger] self.late_ok(j))
        &&& (forall|j: int| 0 <= j < self.mem.free.len() ==> #[trigger] self.free_ok(j))
        &&& (forall|i: int| 0 <= i < self.pushes.len() ==> #[trigger] self.push_ok(i))
        &&& (forall|i: int| 0 <= i < self.pops.len() ==> #[trigger] self.pop_ok(i))
        &&& (forall|k: int| 0 <= k < self.linked.len() ==> #[trigger] self.linked_ok(k))
        &&& (forall|k: int| 0 <= k < self.swung.len() ==> #[trigger] self.swung_ok(k))
    }

    /// The value of the push is among those that were linked, once and as the push's.
    pub open spec fn given_once(self, i: int) -> bool {
        &&& 0 <= self.put[i] < self.given.len()
        &&& self.given[self.put[i]] == self.vals[i]
        &&& forall|k: int| 0 <= k < self.linked.len() ==> (#[trigger] self.linked[k] == i <==> k
            == self.put[i])
    }

    /// The pop gave a value that was taken, once and as the pop's.
    pub open spec fn taken_once(self, i: int) -> bool {
        &&& 0 <= self.got[i] < self.taken.len()
        &&& self.pops[i].result == Some(self.taken[self.got[i]])
        &&& forall|k: int| 0 <= k < self.swung.len() ==> (#[trigger] self.swung[k] == i <==> k
            == self.got[i])
    }

    /// All events of the schedule can happen, one after the other.
    pub open spec fn allows_all(self, schedule: Seq<ShiftEvent<T>>) -> bool
        decreases schedule.len(),
    {
        schedule.len() > 0 ==> self.allows(schedule[0]) && self.after(schedule[0]).allows_all(
            schedule.skip(1),
        )
    }

    /// What the events of the schedule make of the queue, one after the other.
    pub open spec fn after_all(self, schedule: Seq<ShiftEvent<T>>) -> ShiftSys<T>
        decreases schedule.len(),
    {
        if schedule.len() == 0 {
            self
        } else {
            self.after(schedule[0]).after_all(schedule.skip(1))
        }
    }
}

proof fn lemma_tally_update(flags: Seq<bool>, i: int, flag: bool)
    requires
        0 <= i < flags.len(),
    ensures
        tally(flags.update(i, flag)) + (if flags[i] {
            1int
        } else {
            0
        }) == tally(flags) + (if flag {
            1int
        } else {
            0
        }),
    decreases flags.len(),
{
    let after = flags.update(i, flag);
    if i == flags.len() - 1 {
        assert(after.drop_last() =~= flags.drop_last());
    } else {
        lemma_tally_update(flags.drop_last(), i, flag);
        assert(after.drop_last() =~= flags.drop_last().update(i, flag));
    }
}

proof fn lemma_tally_some(flags: Seq<bool>, i: int)
    requires
        0 <= i < flags.len(),
        flags[i],
    ensures
        tally(flags) > 0,
    decreases flags.len(),
{
    if i < flags.len() - 1 {
        lemma_tally_some(flags.drop_last(), i);
    }
}

/// A step that changes nothing but the push itself, the tail and the count.
proof fn lemma_push_local<T>(s: ShiftSys<T>, s2: ShiftSys<T>, i: int)
    requires
        s.safe(),
        0 <= i < s.pushes.len(),
        s2 == (ShiftSys {
            mem: ShiftMem { users: s2.mem.users, tail: s2.mem.tail, ..s.mem },
            pushes: s.pushes.update(i, s2.pushes[i]),
            tail_num: s2.tail_num,
            ..s
        }),
        s2.tail_num >= s.tail_num,
        s2.mem.tail < s.mem.nodes.len(),
        s2.tail_ok(),
        s2.counts_ok(),
        s2.places_ok(),
        unlinked(s2.pushes[i]) == unlinked(s.pushes[i]),
        s2.pushes[i].new == s.pushes[i].new,
        s2.push_ok(i),
    ensures
        s2.safe(),
{
    assert forall|p: int| 0 <= p < s2.mem.nodes.len() implies #[trigger] s2.place_ok(p) by {
        assert(s.place_ok(p));
    }
    assert forall|k: int| s2.taken.len() <= k < s2.line.len() implies #[trigger] s2.line_ok(k) by {
        assert(s.line_ok(k));
    }
    assert forall|j: int| 0 <= j < s2.mem.guard.len() implies #[trigger] s2.guard_ok(j) by {
        assert(s.guard_ok(j));
    }
    assert forall|j: int| 0 <= j < s2.mem.late.len() implies #[trigger] s2.late_ok(j) by {
        assert(s.late_ok(j));
    }
    assert forall|j: int| 0 <= j < s2.mem.free.len() implies #[trigger] s2.free_ok(j) by {
        assert(s.free_ok(j));
    }
    assert forall|j: int| 0 <= j < s2.pushes.len() implies #[trigger] s2.push_ok(j) by {
        assert(s.push_ok(j));
    }
    assert forall|j: int| 0 <= j < s2.pops.len() implies #[trigger] s2.pop_ok(j) by {
        assert(s.pop_ok(j));
    }
    assert forall|k: int| 0 <= k < s2.linked.len() implies #[trigger] s2.linked_ok(k) by {
        assert(s.linked_ok(k));
    }
    assert forall|k: int| 0 <= k < s2.swung.len() implies #[trigger] s2.swung_ok(k) by {
        assert(s.swung_ok(k));
    }
}

/// A step that changes nothing but the pop itself, the tail, the count and the lock.
proof fn lemma_pop_local<T>(s: ShiftSys<T>, s2: ShiftSys<T>, i: int)
    requires
        s.safe(),
        0 <= i < s.pops.len(),
        s2 == (ShiftSys {
            mem: ShiftMem {
                users: s2.mem.users,
                tail: s2.mem.tail,
                locked: s2.mem.locked,
                ..s.mem
            },
            pops: s.pops.update(i, s2.pops[i]),
            tail_num: s2.tail_num,
            holder: s2.holder,
            ..s
        }),
        s2.tail_num >= s.tail_num,
        s2.mem.tail < s.mem.nodes.len(),
        s2.tail_ok(),
        s2.counts_ok(),
        s2.places_ok(),
        s2.holder == s.holder || s2.holder == i || (s.holder == i && s2.holder == -1),
        s.holder == -1 || s.holder == i || s2.holder == s.holder,
        took(s2.pops[i]) == took(s.pops[i]),
        retiring(s2.pops[i]) == retiring(s.pops[i]),
        retiring(s.pops[i]) ==> s2.pops[i].head == s.pops[i].head,
        s2.freeing() ==> s.freeing() || s.mem.users == 0,
        s2.pop_ok(i),
    ensures
        s2.safe(),
{
    if s.mem.users == 0 {
        lemma_nobody_inside(s);
    }
    assert forall|p: int| 0 <= p < s2.mem.nodes.len() implies #[trigger] s2.place_ok(p) by {
        assert(s.place_ok(p));
    }
    assert forall|k: int| s2.taken.len() <= k < s2.line.len() implies #[trigger] s2.line_ok(k) by {
        assert(s.line_ok(k));
    }
    assert forall|j: int| 0 <= j < s2.mem.guard.len() implies #[trigger] s2.guard_ok(j) by {
        assert(s.guard_ok(j));
    }
    assert forall|j: int| 0 <= j < s2.mem.late.len() implies #[trigger] s2.late_ok(j) by {
        assert(s.late_ok(j));
    }
    assert forall|j: int| 0 <= j < s2.mem.free.len() implies #[trigger] s2.free_ok(j) by {
        assert(s.free_ok(j));
    }
    assert forall|j: int| 0 <= j < s2.pushes.len() implies #[trigger] s2.push_ok(j) by {
        assert(s.push_ok(j));
    }
    assert forall|j: int| 0 <= j < s2.pops.len() implies #[trigger] s2.pop_ok(j) by {
        assert(s.pop_ok(j));
    }
    assert forall|k: int| 0 <= k < s2.linked.len() implies #[trigger] s2.linked_ok(k) by {
        assert(s.linked_ok(k));
    }
    assert forall|k: int| 0 <= k < s2.swung.len() implies #[trigger] s2.swung_ok(k) by {
        assert(s.swung_ok(k));
    }
}

/// While nobody is counted, nobody is among the nodes.
proof fn lemma_nobody_inside<T>(s: ShiftSys<T>)
    requires
        s.counts_ok(),
        s.mem.users == 0,
    ensures
        forall|i: int| 0 <= i < s.pushes.len() ==> !(#[trigger] s.pushes[i]).inside(),
        forall|i: int| 0 <= i < s.pops.len() ==> !(#[trigger] s.pops[i]).inside(),
{
    assert forall|i: int| 0 <= i < s.pushes.len() implies !(#[trigger] s.pushes[i]).inside() by {
        if s.pushes[i].inside() {
            lemma_tally_some(pushes_inside(s.pushes), i);
        }
    }
    assert forall|i: int| 0 <= i < s.pops.len() implies !(#[trigger] s.pops[i]).inside() by {
        if s.pops[i].inside() {
            lemma_tally_some(pops_inside(s.pops), i);
        }
    }
}

/// The count stays right when a push takes its next step.
proof fn lemma_push_counts<T>(s: ShiftSys<T>, i: int)
    requires
        s.counts_ok(),
        0 <= i < s.pushes.len(),
    ensures
        ({
            let (mem, op) = shift_push_next(s.mem, s.pushes[i]);
            mem.users == tally(pushes_inside(s.pushes.update(i, op))) + tally(
                pops_inside(s.pops),
            )
        }),
{
    let flags = pushes_inside(s.pushes);
    let (mem, op) = shift_push_next(s.mem, s.pushes[i]);
    lemma_tally_update(flags, i, op.inside());
    assert(pushes_inside(s.pushes.update(i, op)) =~= flags.update(i, op.inside()));
    assert(flags[i] == s.pushes[i].inside());
    if flags[i] {
        lemma_tally_some(flags, i);
    }
}

/// The count stays right when a pop takes its next step.
proof fn lemma_pop_counts<T>(s: ShiftSys<T>, i: int)
    requires
        s.counts_ok(),
        0 <= i < s.pops.len(),
    ensures
        ({
            let (mem, op) = shift_pop_next(s.mem, s.pops[i]);
            mem.users == tally(pushes_inside(s.pushes)) + tally(
                pops_inside(s.pops.update(i, op)),
            )
        }),
{
    let flags = pops_inside(s.pops);
    let (mem, op) = shift_pop_next(s.mem, s.pops[i]);
    lemma_tally_update(flags, i, op.inside());
    assert(pops_inside(s.pops.update(i, op)) =~= flags.update(i, op.inside()));
    assert(flags[i] == s.pops[i].inside());
    if flags[i] {
        lemma_tally_some(flags, i);
    }
}

/// Every place stays accounted for when a push takes its next step.
proof fn lemma_push_places<T>(s: ShiftSys<T>, i: int)
    requires
        s.shaped(),
        s.places_ok(),
        0 <= i < s.pushes.len(),
        s.push_ok(i),
    ensures
        s.push_stepped(i).places_ok(),
{
    let s2 = s.push_stepped(i);
    let flags = pushes_unlinked(s.pushes);
    lemma_tally_update(flags, i, unlinked(s2.pushes[i]));
    assert(pushes_unlinked(s2.pushes) =~= flags.update(i, unlinked(s2.pushes[i])));
    assert(flags[i] == unlinked(s.pushes[i]));
}

/// Every place stays accounted for when a pop takes its next step.
proof fn lemma_pop_places<T>(s: ShiftSys<T>, i: int)
    requires
        s.shaped(),
        s.places_ok(),
        0 <= i < s.pops.len(),
        s.pop_ok(i),
        s.mem.sound(),
    ensures
        s.pop_stepped(i).places_ok(),
{
    let s2 = s.pop_stepped(i);
    let flags = pops_retiring(s.pops);
    lemma_tally_update(flags, i, retiring(s2.pops[i]));
    assert(pops_retiring(s2.pops) =~= flags.update(i, retiring(s2.pops[i])));
    assert(flags[i] == retiring(s.pops[i]));
}

/// A push links its node behind the last one.
proof fn lemma_linked<T>(s: ShiftSys<T>, i: int)
    requires
        s.safe(),
        0 <= i < s.pushes.len(),
        s.pushes[i].stage is Link,
        s.mem.nodes[s.pushes[i].tail as int].next is None,
    ensures
        s.push_stepped(i).safe(),
{
    let s2 = s.push_stepped(i);
    let op = s.pushes[i];
    let last = s.line.len() - 1;
    assert(s.push_ok(i));
    assert(s.place_ok(op.tail as int));
    assert(s.place_ok(op.new as int));
    assert(s.role[op.tail as int] == Role::Line(last));
    assert(s.line_ok(last));
    assert(s.tail_num == last);
    lemma_push_counts(s, i);
    lemma_push_places(s, i);
    assert(s2.taken =~= s2.given.take(s2.taken.len() as int));
    assert forall|p: int| 0 <= p < s2.mem.nodes.len() implies #[trigger] s2.place_ok(p) by {
        assert(s.place_ok(p));
    }
    assert forall|k: int| s2.taken.len() <= k < s2.line.len() implies #[trigger] s2.line_ok(k) by {
        if k <= last {
            assert(s.line_ok(k));
        }
    }
    assert forall|j: int| 0 <= j < s2.mem.guard.len() implies #[trigger] s2.guard_ok(j) by {
        assert(s.guard_ok(j));
    }
    assert forall|j: int| 0 <= j < s2.mem.late.len() implies #[trigger] s2.late_ok(j) by {
        assert(s.late_ok(j));
    }
    assert forall|j: int| 0 <= j < s2.mem.free.len() implies #[trigger] s2.free_ok(j) by {
        assert(s.free_ok(j));
    }
    assert forall|j: int| 0 <= j < s2.pushes.len() implies #[trigger] s2.push_ok(j) by {
        assert(s.push_ok(j));
        if j != i && unlinked(s.pushes[j]) {
            assert(s.pushes[j].new != op.new);
        }
    }
    assert forall|j: int| 0 <= j < s2.pops.len() implies #[trigger] s2.pop_ok(j) by {
        assert(s.pop_ok(j));
        if s.pops[j].stage is Read {
            assert(s.pops[j].next != op.new);
        }
    }
    assert forall|k: int| 0 <= k < s2.linked.len() implies #[trigger] s2.linked_ok(k) by {
        if k < s.linked.len() {
            assert(s.linked_ok(k));
        }
    }
    assert forall|k: int| 0 <= k < s2.swung.len() implies #[trigger] s2.swung_ok(k) by {
        assert(s.swung_ok(k));
    }
}

/// Every step of a push keeps the queue safe.
proof fn lemma_push_stepped<T>(s: ShiftSys<T>, i: int)
    requires
        s.safe(),
        0 <= i < s.pushes.len(),
    ensures
        s.push_stepped(i).safe(),
{
    let s2 = s.push_stepped(i);
    let op = s.pushes[i];
    let last = s.line.len() - 1;
    assert(s.push_ok(i));
    lemma_push_counts(s, i);
    lemma_push_places(s, i);
    assert(s.line_ok(s.tail_num));
    assert(s.place_ok(s.mem.tail as int));
    if op.stage is Link {
        if s.mem.nodes[op.tail as int].next is None {
            lemma_linked(s, i);
        } else {
            lemma_push_local(s, s2, i);
        }
    } else {
        if s.tail_num < last {
            assert(s.push_ok(s.linked[last - 1]));
        }
        if (op.stage is Help || op.stage is Swing) && s.mem.tail == op.tail {
            assert(s.tail_num < last);
            assert(s.line_ok(last));
        }
        lemma_push_local(s, s2, i);
    }
}

/// A pop moves the head to the node behind it.
proof fn lemma_swung<T>(s: ShiftSys<T>, i: int)
    requires
        s.safe(),
        0 <= i < s.pops.len(),
        s.pops[i].stage is Swing,
        s.mem.head == s.pops[i].head,
    ensures
        s.pop_stepped(i).safe(),
{
    let s2 = s.pop_stepped(i);
    let op = s.pops[i];
    let first = s.taken.len() as int;
    assert(s.pop_ok(i));
    assert(s.line_ok(first));
    assert(s.place_ok(op.head as int));
    assert(op.next == s.line[first + 1]);
    assert(s.line_ok(first + 1));
    assert(s.place_ok(op.next as int));
    assert(s.place_ok(s.mem.tail as int));
    assert(s.line_ok(s.tail_num));
    lemma_pop_counts(s, i);
    lemma_pop_places(s, i);
    assert(s2.taken =~= s2.given.take(s2.taken.len() as int));
    assert forall|p: int| 0 <= p < s2.mem.nodes.len() implies #[trigger] s2.place_ok(p) by {
        assert(s.place_ok(p));
    }
    assert forall|k: int| s2.taken.len() <= k < s2.line.len() implies #[trigger] s2.line_ok(k) by {
        assert(s.line_ok(k));
    }
    assert forall|j: int| 0 <= j < s2.mem.guard.len() implies #[trigger] s2.guard_ok(j) by {
        assert(s.guard_ok(j));
    }
    assert forall|j: int| 0 <= j < s2.mem.late.len() implies #[trigger] s2.late_ok(j) by {
        assert(s.late_ok(j));
    }
    assert forall|j: int| 0 <= j < s2.mem.free.len() implies #[trigger] s2.free_ok(j) by {
        assert(s.free_ok(j));
    }
    assert forall|j: int| 0 <= j < s2.pushes.len() implies #[trigger] s2.push_ok(j) by {
        assert(s.push_ok(j));
    }
    assert forall|j: int| 0 <= j < s2.pops.len() implies #[trigger] s2.pop_ok(j) by {
        assert(s.pop_ok(j));
        if j != i && s.pops[j].stage is Read {
            assert(s.pops[j].next != op.next);
        }
        if j != i && at_head(s.pops[j]) {
            assert(s.place_ok(s.pops[j].head as int));
        }
    }
    assert forall|k: int| 0 <= k < s2.linked.len() implies #[trigger] s2.linked_ok(k) by {
        assert(s.linked_ok(k));
    }
    assert forall|k: int| 0 <= k < s2.swung.len() implies #[trigger] s2.swung_ok(k) by {
        if k < s.swung.len() {
            assert(s.swung_ok(k));
        }
    }
}

/// A pop takes the value of the node to which it has moved the head.
proof fn lemma_read<T>(s: ShiftSys<T>, i: int)
    requires
        s.safe(),
        0 <= i < s.pops.len(),
        s.pops[i].stage is Read,
    ensures
        s.pop_stepped(i).safe(),
{
    let s2 = s.pop_stepped(i);
    let op = s.pops[i];
    assert(s.pop_ok(i));
    assert(s.place_ok(op.next as int));
    lemma_pop_counts(s, i);
    lemma_pop_places(s, i);
    assert forall|p: int| 0 <= p < s2.mem.nodes.len() implies #[trigger] s2.place_ok(p) by {
        assert(s.place_ok(p));
    }
    assert forall|k: int| s2.taken.len() <= k < s2.line.len() implies #[trigger] s2.line_ok(k) by {
        assert(s.line_ok(k));
    }
    assert forall|j: int| 0 <= j < s2.mem.guard.len() implies #[trigger] s2.guard_ok(j) by {
        assert(s.guard_ok(j));
    }
    assert forall|j: int| 0 <= j < s2.mem.late.len() implies #[trigger] s2.late_ok(j) by {
        assert(s.late_ok(j));
    }
    assert forall|j: int| 0 <= j < s2.mem.free.len() implies #[trigger] s2.free_ok(j) by {
        assert(s.free_ok(j));
    }
    assert forall|j: int| 0 <= j < s2.pushes.len() implies #[trigger] s2.push_ok(j) by {
        assert(s.push_ok(j));
    }
    assert forall|j: int| 0 <= j < s2.pops.len() implies #[trigger] s2.pop_ok(j) by {
        assert(s.pop_ok(j));
        if j != i && s.pops[j].stage is Read {
            assert(s.pops[j].next != op.next);
        }
    }
    assert forall|k: int| 0 <= k < s2.linked.len() implies #[trigger] s2.linked_ok(k) by {
        assert(s.linked_ok(k));
    }
    assert forall|k: int| 0 <= k < s2.swung.len() implies #[trigger] s2.swung_ok(k) by {
        assert(s.swung_ok(k));
    }
}

/// A pop puts its old head into the guard.
proof fn lemma_kept<T>(s: ShiftSys<T>, i: int)
    requires
        s.safe(),
        0 <= i < s.pops.len(),
        s.pops[i].stage is Keep,
        s.mem.guard.len() < s.mem.cap,
    ensures
        s.pop_stepped(i).safe(),
{
    let s2 = s.pop_stepped(i);
    let op = s.pops[i];
    assert(s.pop_ok(i));
    assert(s.place_ok(op.head as int));
    lemma_pop_counts(s, i);
    lemma_pop_places(s, i);
    assert forall|p: int| 0 <= p < s2.mem.nodes.len() implies #[trigger] s2.place_ok(p) by {
        assert(s.place_ok(p));
    }
    assert forall|k: int| s2.taken.len() <= k < s2.line.len() implies #[trigger] s2.line_ok(k) by {
        assert(s.line_ok(k));
    }
    assert forall|j: int| 0 <= j < s2.mem.guard.len() implies #[trigger] s2.guard_ok(j) by {
        if j < s.mem.guard.len() {
            assert(s.guard_ok(j));
        }
    }
    assert forall|j: int| 0 <= j < s2.mem.late.len() implies #[trigger] s2.late_ok(j) by {
        assert(s.late_ok(j));
    }
    assert forall|j: int| 0 <= j < s2.mem.free.len() implies #[trigger] s2.free_ok(j) by {
        assert(s.free_ok(j));
    }
    assert forall|j: int| 0 <= j < s2.pushes.len() implies #[trigger] s2.push_ok(j) by {
        assert(s.push_ok(j));
    }
    assert forall|j: int| 0 <= j < s2.pops.len() implies #[trigger] s2.pop_ok(j) by {
        assert(s.pop_ok(j));
    }
    assert forall|k: int| 0 <= k < s2.linked.len() implies #[trigger] s2.linked_ok(k) by {
        assert(s.linked_ok(k));
    }
    assert forall|k: int| 0 <= k < s2.swung.len() implies #[trigger] s2.swung_ok(k) by {
        assert(s.swung_ok(k));
    }
}

/// A pop puts its old head beside the guard.
proof fn lemma_deferred<T>(s: ShiftSys<T>, i: int)
    requires
        s.safe(),
        0 <= i < s.pops.len(),
        s.pops[i].stage is Defer,
    ensures
        s.pop_stepped(i).safe(),
{
    let s2 = s.pop_stepped(i);
    let op = s.pops[i];
    assert(s.pop_ok(i));
    assert(s.place_ok(op.head as int));
    lemma_pop_counts(s, i);
    lemma_pop_places(s, i);
    assert forall|p: int| 0 <= p < s2.mem.nodes.len() implies #[trigger] s2.place_ok(p) by {
        assert(s.place_ok(p));
    }
    assert forall|k: int| s2.taken.len() <= k < s2.line.len() implies #[trigger] s2.line_ok(k) by {
        assert(s.line_ok(k));
    }
    assert forall|j: int| 0 <= j < s2.mem.guard.len() implies #[trigger] s2.guard_ok(j) by {
        assert(s.guard_ok(j));
    }
    assert forall|j: int| 0 <= j < s2.mem.late.len() implies #[trigger] s2.late_ok(j) by {
        if j < s.mem.late.len() {
            assert(s.late_ok(j));
        }
    }
    assert forall|j: int| 0 <= j < s2.mem.free.len() implies #[trigger] s2.free_ok(j) by {
        assert(s.free_ok(j));
    }
    assert forall|j: int| 0 <= j < s2.pushes.len() implies #[trigger] s2.push_ok(j) by {
        assert(s.push_ok(j));
    }
    assert forall|j: int| 0 <= j < s2.pops.len() implies #[trigger] s2.pop_ok(j) by {
        assert(s.pop_ok(j));
    }
    assert forall|k: int| 0 <= k < s2.linked.len() implies #[trigger] s2.linked_ok(k) by {
        assert(s.linked_ok(k));
    }
    assert forall|k: int| 0 <= k < s2.swung.len() implies #[trigger] s2.swung_ok(k) by {
        assert(s.swung_ok(k));
    }
}

/// A pop frees the last node in the guard.
proof fn lemma_cleared<T>(s: ShiftSys<T>, i: int)
    requires
        s.safe(),
        0 <= i < s.pops.len(),
        s.pops[i].stage is Clear,
        s.mem.guard.len() > 0,
    ensures
        s.pop_stepped(i).safe(),
{
    let s2 = s.pop_stepped(i);
    let op = s.pops[i];
    let x = s.mem.guard.last();
    assert(s.pop_ok(i));
    assert(s.guard_ok(s.mem.guard.len() - 1));
    assert(s.place_ok(x as int));
    lemma_pop_counts(s, i);
    lemma_pop_places(s, i);
    assert forall|p: int| 0 <= p < s2.mem.nodes.len() implies #[trigger] s2.place_ok(p) by {
        assert(s.place_ok(p));
    }
    assert forall|k: int| s2.taken.len() <= k < s2.line.len() implies #[trigger] s2.line_ok(k) by {
        assert(s.line_ok(k));
    }
    assert forall|j: int| 0 <= j < s2.mem.guard.len() implies #[trigger] s2.guard_ok(j) by {
        assert(s.guard_ok(j));
    }
    assert forall|j: int| 0 <= j < s2.mem.late.len() implies #[trigger] s2.late_ok(j) by {
        assert(s.late_ok(j));
    }
    assert forall|j: int| 0 <= j < s2.mem.free.len() implies #[trigger] s2.free_ok(j) by {
        if j < s.mem.free.len() {
            assert(s.free_ok(j));
        }
    }
    assert forall|j: int| 0 <= j < s2.pushes.len() implies #[trigger] s2.push_ok(j) by {
        assert(s.push_ok(j));
    }
    assert forall|j: int| 0 <= j < s2.pops.len() implies #[trigger] s2.pop_ok(j) by {
        assert(s.pop_ok(j));
    }
    assert forall|k: int| 0 <= k < s2.linked.len() implies #[trigger] s2.linked_ok(k) by {
        assert(s.linked_ok(k));
    }
    assert forall|k: int| 0 <= k < s2.swung.len() implies #[trigger] s2.swung_ok(k) by {
        assert(s.swung_ok(k));
    }
}

/// A pop frees the last node beside the guard.
proof fn lemma_late_cleared<T>(s: ShiftSys<T>, i: int)
    requires
        s.safe(),
        0 <= i < s.pops.len(),
        s.pops[i].stage is Clear,
        s.mem.guard.len() == 0,
        s.mem.late.len() > 0,
    ensures
        s.pop_stepped(i).safe(),
{
    let s2 = s.pop_stepped(i);
    let op = s.pops[i];
    let x = s.mem.late.last();
    assert(s.pop_ok(i));
    assert(s.late_ok(s.mem.late.len() - 1));
    assert(s.place_ok(x as int));
    lemma_pop_counts(s, i);
    lemma_pop_places(s, i);
    assert forall|p: int| 0 <= p < s2.mem.nodes.len() implies #[trigger] s2.place_ok(p) by {
        assert(s.place_ok(p));
    }
    assert forall|k: int| s2.taken.len() <= k < s2.line.len() implies #[trigger] s2.line_ok(k) by {
        assert(s.line_ok(k));
    }
    assert forall|j: int| 0 <= j < s2.mem.guard.len() implies #[trigger] s2.guard_ok(j) by {
        assert(s.guard_ok(j));
    }
    assert forall|j: int| 0 <= j < s2.mem.late.len() implies #[trigger] s2.late_ok(j) by {
        assert(s.late_ok(j));
    }
    assert forall|j: int| 0 <= j < s2.mem.free.len() implies #[trigger] s2.free_ok(j) by {
        if j < s.mem.free.len() {
            assert(s.free_ok(j));
        }
    }
    assert forall|j: int| 0 <= j < s2.pushes.len() implies #[trigger] s2.push_ok(j) by {
        assert(s.push_ok(j));
    }
    assert forall|j: int| 0 <= j < s2.pops.len() implies #[trigger] s2.pop_ok(j) by {
        assert(s.pop_ok(j));
    }
    assert forall|k: int| 0 <= k < s2.linked.len() implies #[trigger] s2.linked_ok(k) by {
        assert(s.linked_ok(k));
    }
    assert forall|k: int| 0 <= k < s2.swung.len() implies #[trigger] s2.swung_ok(k) by {
        assert(s.swung_ok(k));
    }
}

/// A pop frees its old head.
proof fn lemma_freed_old<T>(s: ShiftSys<T>, i: int)
    requires
        s.safe(),
        0 <= i < s.pops.len(),
        s.pops[i].stage is FreeOld,
    ensures
        s.pop_stepped(i).safe(),
{
    let s2 = s.pop_stepped(i);
    let op = s.pops[i];
    assert(s.pop_ok(i));
    assert(s.place_ok(op.head as int));
    lemma_pop_counts(s, i);
    lemma_pop_places(s, i);
    assert forall|p: int| 0 <= p < s2.mem.nodes.len() implies #[trigger] s2.place_ok(p) by {
        assert(s.place_ok(p));
    }
    assert forall|k: int| s2.taken.len() <= k < s2.line.len() implies #[trigger] s2.line_ok(k) by {
        assert(s.line_ok(k));
    }
    assert forall|j: int| 0 <= j < s2.mem.guard.len() implies #[trigger] s2.guard_ok(j) by {
        assert(s.guard_ok(j));
    }
    assert forall|j: int| 0 <= j < s2.mem.late.len() implies #[trigger] s2.late_ok(j) by {
        assert(s.late_ok(j));
    }
    assert forall|j: int| 0 <= j < s2.mem.free.len() implies #[trigger] s2.free_ok(j) by {
        if j < s.mem.free.len() {
            assert(s.free_ok(j));
        }
    }
    assert forall|j: int| 0 <= j < s2.pushes.len() implies #[trigger] s2.push_ok(j) by {
        assert(s.push_ok(j));
    }
    assert forall|j: int| 0 <= j < s2.pops.len() implies #[trigger] s2.pop_ok(j) by {
        assert(s.pop_ok(j));
    }
    assert forall|k: int| 0 <= k < s2.linked.len() implies #[trigger] s2.linked_ok(k) by {
        assert(s.linked_ok(k));
    }
    assert forall|k: int| 0 <= k < s2.swung.len() implies #[trigger] s2.swung_ok(k) by {
        assert(s.swung_ok(k));
    }
}

/// Every step of a pop keeps the queue safe.
proof fn lemma_pop_stepped<T>(s: ShiftSys<T>, i: int)
    requires
        s.safe(),
        0 <= i < s.pops.len(),
    ensures
        s.pop_stepped(i).safe(),
{
    let s2 = s.pop_stepped(i);
    let op = s.pops[i];
    let last = s.line.len() - 1;
    assert(s.pop_ok(i));
    lemma_pop_counts(s, i);
    lemma_pop_places(s, i);
    assert(s.line_ok(s.tail_num));
    assert(s.place_ok(s.mem.tail as int));
    assert(s.line_ok(s.taken.len() as int));
    if op.stage is Swing && s.mem.head == op.head {
        lemma_swung(s, i);
    } else if op.stage is Read {
        lemma_read(s, i);
    } else if op.stage is Keep && s.mem.guard.len() < s.mem.cap {
        lemma_kept(s, i);
    } else if op.stage is Defer {
        lemma_deferred(s, i);
    } else if op.stage is Clear && s.mem.guard.len() > 0 {
        lemma_cleared(s, i);
    } else if op.stage is Clear && s.mem.late.len() > 0 {
        lemma_late_cleared(s, i);
    } else if op.stage is FreeOld {
        lemma_freed_old(s, i);
    } else {
        if op.stage is LoadTail || op.stage is LoadNext {
            assert(s.place_ok(op.head as int));
        }
        if op.stage is Help && s.mem.tail == op.tail {
            assert(s.tail_num < last);
            assert(s.line_ok(last));
        }
        lemma_pop_local(s, s2, i);
    }
}

/// A new push keeps the queue safe.
proof fn lemma_begin_push<T>(s: ShiftSys<T>, val: T)
    requires
        s.safe(),
        s.allows(ShiftEvent::BeginPush(val)),
    ensures
        s.after(ShiftEvent::BeginPush(val)).safe(),
{
    let s2 = s.after(ShiftEvent::BeginPush(val));
    let place = s.mem.next_place();
    if s.mem.free.len() > 0 {
        assert(s.free_ok(s.mem.free.len() - 1));
        assert(s.place_ok(place as int));
    }
    let flags = pushes_inside(s2.pushes);
    assert(flags.drop_last() =~= pushes_inside(s.pushes));
    assert(pushes_unlinked(s2.pushes).drop_last() =~= pushes_unlinked(s.pushes));
    assert(s.line_ok(s.tail_num));
    assert(s.line_ok(s.taken.len() as int));
    assert forall|p: int| 0 <= p < s2.mem.nodes.len() implies ((
    #[trigger] s2.mem.nodes[p]).next matches Some(next) ==> next < s2.mem.nodes.len()) by {
        if p != place {
            assert(s2.mem.nodes[p] == s.mem.nodes[p]);
        }
    }
    assert forall|p: int| 0 <= p < s2.mem.nodes.len() implies #[trigger] s2.place_ok(p) by {
        if p != place {
            assert(s.place_ok(p));
            assert(s2.mem.nodes[p] == s.mem.nodes[p]);
            assert(s2.role[p] == s.role[p]);
        }
    }
    assert forall|k: int| s2.taken.len() <= k < s2.line.len() implies #[trigger] s2.line_ok(k) by {
        assert(s.line_ok(k));
    }
    assert forall|j: int| 0 <= j < s2.mem.guard.len() implies #[trigger] s2.guard_ok(j) by {
        assert(s.guard_ok(j));
    }
    assert forall|j: int| 0 <= j < s2.mem.late.len() implies #[trigger] s2.late_ok(j) by {
        assert(s.late_ok(j));
    }
    assert forall|j: int| 0 <= j < s2.mem.free.len() implies #[trigger] s2.free_ok(j) by {
        assert(s.free_ok(j));
    }
    assert forall|j: int| 0 <= j < s2.pushes.len() implies #[trigger] s2.push_ok(j) by {
        if j < s.pushes.len() {
            assert(s.push_ok(j));
        }
    }
    assert forall|j: int| 0 <= j < s2.pops.len() implies #[trigger] s2.pop_ok(j) by {
        assert(s.pop_ok(j));
    }
    assert forall|k: int| 0 <= k < s2.linked.len() implies #[trigger] s2.linked_ok(k) by {
        assert(s.linked_ok(k));
    }
    assert forall|k: int| 0 <= k < s2.swung.len() implies #[trigger] s2.swung_ok(k) by {
        assert(s.swung_ok(k));
    }
}

/// A new pop keeps the queue safe.
proof fn lemma_begin_pop<T>(s: ShiftSys<T>)
    requires
        s.safe(),
        s.allows(ShiftEvent::BeginPop),
    ensures
        s.after(ShiftEvent::BeginPop).safe(),
{
    let s2 = s.after(ShiftEvent::BeginPop);
    let flags = pops_inside(s2.pops);
    assert(flags.drop_last() =~= pops_inside(s.pops));
    assert(pops_retiring(s2.pops).drop_last() =~= pops_retiring(s.pops));
    assert(s.line_ok(s.taken.len() as int));
    assert forall|p: int| 0 <= p < s2.mem.nodes.len() implies #[trigger] s2.place_ok(p) by {
        assert(s.place_ok(p));
    }
    assert forall|k: int| s2.taken.len() <= k < s2.line.len() implies #[trigger] s2.line_ok(k) by {
        assert(s.line_ok(k));
    }
    assert forall|j: int| 0 <= j < s2.mem.guard.len() implies #[trigger] s2.guard_ok(j) by {
        assert(s.guard_ok(j));
    }
    assert forall|j: int| 0 <= j < s2.mem.late.len() implies #[trigger] s2.late_ok(j) by {
        assert(s.late_ok(j));
    }
    assert forall|j: int| 0 <= j < s2.mem.free.len() implies #[trigger] s2.free_ok(j) by {
        assert(s.free_ok(j));
    }
    assert forall|j: int| 0 <= j < s2.pushes.len() implies #[trigger] s2.push_ok(j) by {
        assert(s.push_ok(j));
    }
    assert forall|j: int| 0 <= j < s2.pops.len() implies #[trigger] s2.pop_ok(j) by {
        if j < s.pops.len() {
            assert(s.pop_ok(j));
        }
    }
    assert forall|k: int| 0 <= k < s2.linked.len() implies #[trigger] s2.linked_ok(k) by {
        assert(s.linked_ok(k));
    }
    assert forall|k: int| 0 <= k < s2.swung.len() implies #[trigger] s2.swung_ok(k) by {
        assert(s.swung_ok(k));
    }
}

/// Every event keeps the queue safe.
pub proof fn law_shift_event<T>(s: ShiftSys<T>, event: ShiftEvent<T>)
    requires
        s.safe(),
        s.allows(event),
    ensures
        s.after(event).safe(),
{
    match event {
        ShiftEvent::BeginPush(val) => lemma_begin_push(s, val),
        ShiftEvent::StepPush(i) => lemma_push_stepped(s, i),
        ShiftEvent::BeginPop => lemma_begin_pop(s),
        ShiftEvent::StepPop(i) => lemma_pop_stepped(s, i),
    }
}

/// Whatever threads push and pop, and in whatever order their steps come, the queue stays
/// safe: no node is used after it has been freed.
pub proof fn law_any_shift_schedule<T>(s: ShiftSys<T>, schedule: Seq<ShiftEvent<T>>)
    requires
        s.safe(),
        s.allows_all(schedule),
    ensures
        s.after_all(schedule).safe(),
    decreases schedule.len(),
{
    if schedule.len() > 0 {
        law_shift_event(s, schedule[0]);
        law_any_shift_schedule(s.after(schedule[0]), schedule.skip(1));
    }
}

/// The nodes from the head on are a chain, and hold what was given and not taken.
pub proof fn lemma_chain<T>(s: ShiftSys<T>)
    requires
        s.safe(),
    ensures
        chained(s.mem.nodes, s.chain()),
        s.mem.head == s.chain()[0],
        s.rest() == s.given.skip(s.taken.len() as int),
        s.given == s.taken + s.rest(),
{
    let chain = s.chain();
    let first = s.taken.len() as int;
    assert forall|i: int| 0 <= i < chain.len() implies #[trigger] link_of(
        s.mem.nodes,
        chain,
        i,
    ) by {
        assert(s.line_ok(first + i));
        assert(s.place_ok(chain[i] as int));
    }
    assert forall|i: int, j: int|
        0 <= i < chain.len() && 0 <= j < chain.len() && i != j implies chain[i] != chain[j] by {
        assert(s.line_ok(first + i));
        assert(s.line_ok(first + j));
    }
    let rest = s.rest();
    assert forall|i: int| 0 <= i < rest.len() implies rest[i] == s.given.skip(first)[i] by {
        assert(s.line_ok(first + i + 1));
        assert(s.place_ok(chain[i + 1] as int));
    }
    assert(rest =~= s.given.skip(first));
    assert(s.given =~= s.taken + rest);
}

/// A push that has linked its node has given its value once.
proof fn lemma_given_once<T>(s: ShiftSys<T>, i: int)
    requires
        s.safe(),
        0 <= i < s.pushes.len(),
        !unlinked(s.pushes[i]),
    ensures
        s.given_once(i),
{
    assert(s.push_ok(i));
    assert forall|k: int| 0 <= k < s.linked.len() implies (#[trigger] s.linked[k] == i <==> k
        == s.put[i]) by {
        assert(s.linked_ok(k));
    }
}

/// Any number of threads may push and pop at once. What has been taken out of the queue is
/// what went into it first, in the same order; the rest is in the queue, in that order. Every
/// push that is over has put its value into the queue, once; every pop that is over and gave
/// a value gave one that was taken out, and no two pops gave the same.
pub proof fn law_shift_threads<T>(s: ShiftSys<T>, schedule: Seq<ShiftEvent<T>>)
    requires
        s.safe(),
        s.allows_all(schedule),
    ensures
        ({
            let s2 = s.after_all(schedule);
            &&& s2.safe()
            &&& s2.given == s2.taken + s2.rest()
            &&& (forall|i: int|
                0 <= i < s2.pushes.len() && s2.pushes[i].stage is Done
                    ==> #[trigger] s2.given_once(i))
            &&& (forall|i: int|
                0 <= i < s2.pops.len() && s2.pops[i].stage is Done && s2.pops[i].result is Some
                    ==> #[trigger] s2.taken_once(i))
        }),
{
    law_any_shift_schedule(s, schedule);
    let s2 = s.after_all(schedule);
    lemma_chain(s2);
    assert forall|i: int|
        0 <= i < s2.pushes.len() && s2.pushes[i].stage is Done implies #[trigger] s2.given_once(
        i,
    ) by {
        lemma_given_once(s2, i);
    }
    assert forall|i: int|
        0 <= i < s2.pops.len() && s2.pops[i].stage is Done
            && s2.pops[i].result is Some implies #[trigger] s2.taken_once(i) by {
        assert(s2.pop_ok(i));
        assert forall|k: int| 0 <= k < s2.swung.len() implies (#[trigger] s2.swung[k] == i <==> k
            == s2.got[i]) by {
            assert(s2.swung_ok(k));
        }
    }
}

/// The nodes whose memory a push or a pop is about to touch have not been freed.
pub proof fn law_only_live_nodes<T>(s: ShiftSys<T>)
    requires
        s.safe(),
    ensures
        forall|i: int|
            0 <= i < s.pushes.len() && ((#[trigger] s.pushes[i]).stage is LoadNext
                || s.pushes[i].stage is Link) ==> s.mem.nodes[s.pushes[i].tail as int].live,
        forall|i: int|
            0 <= i < s.pops.len() && (#[trigger] s.pops[i]).stage is LoadNext
                ==> s.mem.nodes[s.pops[i].head as int].live,
        forall|i: int|
            0 <= i < s.pops.len() && (#[trigger] s.pops[i]).stage is Read
                ==> s.mem.nodes[s.pops[i].next as int].live,
        s.mem.nodes[s.mem.head as int].live,
        s.mem.nodes[s.mem.tail as int].live,
{
    assert forall|i: int|
        0 <= i < s.pushes.len() && ((#[trigger] s.pushes[i]).stage is LoadNext || s.pushes[i].stage
            is Link) implies s.mem.nodes[s.pushes[i].tail as int].live by {
        assert(s.push_ok(i));
        assert(s.place_ok(s.pushes[i].tail as int));
    }
    assert forall|i: int| 0 <= i < s.pops.len() && (#[trigger] s.pops[i]).stage is LoadNext implies
        s.mem.nodes[s.pops[i].head as int].live by {
        assert(s.pop_ok(i));
        assert(s.place_ok(s.pops[i].head as int));
    }
    assert forall|i: int| 0 <= i < s.pops.len() && (#[trigger] s.pops[i]).stage is Read implies
        s.mem.nodes[s.pops[i].next as int].live by {
        assert(s.pop_ok(i));
        assert(s.place_ok(s.pops[i].next as int));
    }
    assert(s.line_ok(s.tail_num));
    assert(s.line_ok(s.taken.len() as int));
    assert(s.place_ok(s.mem.tail as int));
    assert(s.place_ok(s.mem.head as int));
}

/// What was given and taken stays so, whatever happens next: values only go in behind
/// those that are in, and come out behind those that are out. A push has its place, and a
/// pop its value, for good.
pub proof fn law_history_grows<T>(s: ShiftSys<T>, schedule: Seq<ShiftEvent<T>>)
    requires
        s.safe(),
        s.allows_all(schedule),
    ensures
        ({
            let s2 = s.after_all(schedule);
            &&& s.given.is_prefix_of(s2.given)
            &&& s.taken.is_prefix_of(s2.taken)
            &&& s.vals.is_prefix_of(s2.vals)
            &&& s.pushes.len() <= s2.pushes.len()
            &&& s.pops.len() <= s2.pops.len()
            &&& (forall|i: int|
                0 <= i < s.pushes.len() ==> if unlinked(s.pushes[i]) {
                    #[trigger] s2.put[i] == -1 || s2.put[i] >= s.given.len()
                } else {
                    s2.put[i] == s.put[i]
                })
            &&& (forall|i: int|
                0 <= i < s.pops.len() ==> if took(s.pops[i]) {
                    #[trigger] s2.got[i] == s.got[i]
                } else {
                    s2.got[i] == -1 || s2.got[i] >= s.taken.len()
                })
        }),
    decreases schedule.len(),
{
    if schedule.len() == 0 {
        assert(s.after_all(schedule) == s);
        assert forall|i: int| 0 <= i < s.pushes.len() && unlinked(s.pushes[i]) implies
            #[trigger] s.put[i] == -1 by {
            assert(s.push_ok(i));
        }
        assert forall|i: int| 0 <= i < s.pops.len() && !took(s.pops[i]) implies
            #[trigger] s.got[i] == -1 by {
            assert(s.pop_ok(i));
        }
    } else {
        let s1 = s.after(schedule[0]);
        law_shift_event(s, schedule[0]);
        law_history_grows(s1, schedule.skip(1));
        let s2 = s.after_all(schedule);
        lemma_prefix(s.given, s1.given, s2.given);
        lemma_prefix(s.taken, s1.taken, s2.taken);
        lemma_prefix(s.vals, s1.vals, s2.vals);
        assert forall|i: int| 0 <= i < s.pushes.len() implies if unlinked(s.pushes[i]) {
            #[trigger] s2.put[i] == -1 || s2.put[i] >= s.given.len()
        } else {
            s2.put[i] == s.put[i]
        } by {
            assert(s.push_ok(i));
            assert(s1.push_ok(i));
        }
        assert forall|i: int| 0 <= i < s.pops.len() implies if took(s.pops[i]) {
            #[trigger] s2.got[i] == s.got[i]
        } else {
            s2.got[i] == -1 || s2.got[i] >= s.taken.len()
        } by {
            assert(s.pop_ok(i));
            assert(s1.pop_ok(i));
        }
    }
}

proof fn lemma_prefix<A>(a: Seq<A>, b: Seq<A>, c: Seq<A>)
    requires
        a.is_prefix_of(b),
        b.is_prefix_of(c),
    ensures
        a.is_prefix_of(c),
{
    assert forall|i: int| 0 <= i < a.len() implies a[i] == c[i] by {
        assert(a[i] == b.subrange(0, a.len() as int)[i]);
        assert(b[i] == c.subrange(0, b.len() as int)[i]);
    }
}

/// Once all pushes and pops are over, the queue holds exactly the values that were pushed and
/// not popped.
pub proof fn law_nothing_lost<T>(s: ShiftSys<T>, schedule: Seq<ShiftEvent<T>>)
    requires
        s.safe(),
        s.allows_all(schedule),
        s.after_all(schedule).over(),
    ensures
        ({
            let s2 = s.after_all(schedule);
            &&& s2.given == s2.taken + s2.rest()
            &&& s2.mem.users == 0
            &&& s2.mem.tail == s2.chain().last()
            &&& (forall|i: int| 0 <= i < s2.pushes.len() ==> #[trigger] s2.given_once(i))
        }),
{
    law_shift_threads(s, schedule);
    let s2 = s.after_all(schedule);
    assert(s2.linked.len() > 0 ==> s2.linked_ok(s2.linked.len() - 1));
    assert forall|i: int| 0 <= i < s2.pushes.len() implies #[trigger] s2.given_once(i) by {
        assert(s2.pushes[i].stage is Done);
    }
    lemma_nobody_counted(s2);
}

/// Once all pushes and pops are over, nobody is counted, and no node is in anybody's hands.
pub proof fn lemma_nobody_counted<T>(s: ShiftSys<T>)
    requires
        s.counts_ok(),
        s.over(),
    ensures
        s.mem.users == 0,
        tally(pushes_unlinked(s.pushes)) == 0,
        tally(pops_retiring(s.pops)) == 0,
{
    lemma_tally_none(pushes_unlinked(s.pushes));
    lemma_tally_none(pops_retiring(s.pops));
    lemma_tally_none(pushes_inside(s.pushes));
    lemma_tally_none(pops_inside(s.pops));
}

proof fn lemma_tally_none(flags: Seq<bool>)
    requires
        forall|i: int| 0 <= i < flags.len() ==> !#[trigger] flags[i],
    ensures
        tally(flags) == 0,
    decreases flags.len(),
{
    if flags.len() > 0 {
        lemma_tally_none(flags.drop_last());
    }
}

/// Nothing is behind the head exactly while nothing is in the queue, whoever pushes and pops.
pub proof fn law_nothing_behind_head<T>(s: ShiftSys<T>)
    requires
        s.safe(),
    ensures
        s.mem.nodes[s.mem.head as int].next is None <==> s.rest() == Seq::<T>::empty(),
{
    lemma_chain(s);
    assert(link_of(s.mem.nodes, s.chain(), 0));
    if s.rest().len() == 0 {
        assert(s.rest() =~= Seq::<T>::empty());
    }
}

/// A pop that finds nothing found the queue empty: everything that was linked had been
/// popped.
pub proof fn law_empty_handed<T>(s: ShiftSys<T>, i: int)
    requires
        s.safe(),
        0 <= i < s.pops.len(),
        s.pops[i].stage is LoadNext,
        s.pop_stepped(i).pops[i].stage is Leave,
    ensures
        s.given == s.taken,
        s.rest() == Seq::<T>::empty(),
{
    assert(s.pop_ok(i));
    assert(s.place_ok(s.pops[i].head as int));
    lemma_chain(s);
    assert(s.rest() =~= Seq::<T>::empty());
    assert(s.given =~= s.taken);
}

} // verus!
