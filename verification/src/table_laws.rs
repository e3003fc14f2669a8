//! What finding a bucket and replacing the table come to, whatever other threads do meanwhile.

use vstd::arithmetic::power2::{lemma_pow2_pos, pow2};
use vstd::prelude::*;

use crate::hash_table::{hash_of, lemma_hash_range};
use crate::table_gate::{law_table_event, TableEvent, TableOp, TableStage, TableSys};

verus! {

/// The tables after so many steps of one thread, while all others stand still. A new table has
/// that many bits.
pub open spec fn table_alone(s: TableSys, i: int, bits: u32, steps: nat) -> TableSys
    decreases steps,
{
    if steps == 0 {
        s
    } else {
        table_alone(s.after(TableEvent::Step(i, bits)), i, bits, (steps - 1) as nat)
    }
}

/// Nobody has a bucket of the latest table locked.
pub open spec fn latest_is_free(s: TableSys) -> bool {
    forall|b: int| 0 <= b < s.size(s.latest()) ==> !#[trigger] s.owner.dom().contains((s.latest(), b))
}

/// A thread that looks for the bucket of a key while nobody has that bucket locked gets it in
/// three steps if it is left alone: it is the bucket of the key in the latest table, and is
/// locked by the thread; nothing else has changed.
pub proof fn law_lone_find(s: TableSys, i: int, key: usize, bits: u32)
    requires
        s.safe(),
        0 <= i < s.ops.len(),
        s.ops[i].stage is Idle,
        !s.owner.dom().contains((s.latest(), hash_of(key, s.bits[s.latest()]))),
    ensures
        ({
            let s1 = table_alone(s.after(TableEvent::Find(i, key)), i, bits, 3);
            let b = hash_of(key, s.bits[s.latest()]);
            &&& s1.ops[i].stage == TableStage::Use(s.latest() as usize, b as usize)
            &&& s1.ops[i].key == key
            &&& s1.owner == s.owner.insert((s.latest(), b), i)
            &&& s1.bits == s.bits
        }),
{
    lemma_hash_range(key, s.bits[s.latest()]);
    lemma_size_fits(s, s.latest());
    reveal_with_fuel(table_alone, 4);
}

/// A thread that has locked a bucket keeps it exactly if its table is the latest; else it lets
/// go of the bucket and reads anew which table is. One whose bucket is locked waits.
pub proof fn law_stale_bucket_is_left(s: TableSys, i: int, bits: u32)
    requires
        s.safe(),
        0 <= i < s.ops.len(),
    ensures
        ({
            let s1 = s.after(TableEvent::Step(i, bits));
            &&& s.ops[i].stage matches TableStage::Check(t, b) ==> {
                &&& t == s.latest() ==> s1.ops[i].stage == TableStage::Use(t, b)
                &&& t != s.latest() ==> s1.ops[i].stage == TableStage::Drop(t, b)
                &&& s1.owner == s.owner
            }
            &&& s.ops[i].stage matches TableStage::Drop(t, b) ==> {
                &&& s1.ops[i].stage is Read
                &&& s1.owner == s.owner.remove((t as int, b as int))
            }
            &&& s.ops[i].stage matches TableStage::Lock(t, b) ==> {
                &&& s.owner.dom().contains((t as int, b as int)) ==> s1 == s
                &&& !s.owner.dom().contains((t as int, b as int)) ==> s1.owner == s.owner.insert(
                    (t as int, b as int),
                    i,
                ) && s1.ops[i].stage == TableStage::Check(t, b)
            }
            &&& s1.ops[i].key == s.ops[i].key
            &&& s1.ops[i].threads == s.ops[i].threads
        }),
{
}

/// A thread that is done with its bucket unlocks it, and that one alone.
pub proof fn law_lone_leave(s: TableSys, i: int, bits: u32)
    requires
        s.safe(),
        0 <= i < s.ops.len(),
        s.ops[i].stage is Use,
    ensures
        ({
            let s1 = table_alone(s.after(TableEvent::Leave(i)), i, bits, 1);
            &&& s1.ops[i].stage is Idle
            &&& s1.bits == s.bits
            &&& s.ops[i].stage matches TableStage::Use(t, b) ==> s1.owner == s.owner.remove(
                (t as int, b as int),
            )
        }),
{
    reveal_with_fuel(table_alone, 2);
}

/// A table that is big enough, with three buckets for every thread, is not replaced; one that is
/// not is gone about bucket by bucket, from the first on.
pub proof fn law_grows_only_if_too_small(s: TableSys, i: int, threads: usize, bits: u32)
    requires
        s.safe(),
        0 <= i < s.ops.len(),
        s.ops[i].stage is Idle,
        3 * threads <= 0x8000_0000,
    ensures
        ({
            let s1 = table_alone(s.after(TableEvent::Grow(i, threads)), i, bits, 1);
            &&& s1.bits == s.bits
            &&& s1.owner == s.owner
            &&& s.size(s.latest()) >= 3 * threads ==> s1.ops[i].stage is Idle
            &&& s.size(s.latest()) < 3 * threads ==> s1.ops[i].stage == TableStage::GrowLock(
                s.latest() as usize,
                0,
            )
        }),
{
    reveal_with_fuel(table_alone, 2);
}

/// A thread that wants a bigger table does not rest before there is one: it is done only where it
/// has read that the latest table is big enough, or where it has put a new table in place and has
/// unlocked the last bucket of the old one. It locks the buckets in their order, each as soon as
/// it is free. If the table turns out not to be the latest, it unlocks them in their order, and
/// reads anew which table is.
pub proof fn law_grower_goes_on(s: TableSys, i: int, bits: u32)
    requires
        s.safe(),
        0 <= i < s.ops.len(),
    ensures
        ({
            let s1 = s.after(TableEvent::Step(i, bits));
            let now = s1.ops[i].stage;
            match s.ops[i].stage {
                TableStage::GrowRead => {
                    &&& s1.owner == s.owner
                    &&& now is Idle <==> s.size(s.latest()) >= 3 * s.ops[i].threads
                    &&& now !is Idle ==> now == TableStage::GrowLock(s.latest() as usize, 0)
                },
                TableStage::GrowLock(t, b) => if s.owner.dom().contains((t as int, b as int)) {
                    s1 == s
                } else {
                    &&& s1.owner == s.owner.insert((t as int, b as int), i)
                    &&& b + 1 < s.size(t as int) ==> now == TableStage::GrowLock(
                        t,
                        (b + 1) as usize,
                    )
                    &&& b + 1 == s.size(t as int) ==> now == TableStage::GrowCheck(t)
                },
                TableStage::GrowCheck(t) => {
                    &&& s1.owner == s.owner
                    &&& t == s.latest() ==> now == TableStage::Publish(t)
                    &&& t != s.latest() ==> now == TableStage::GrowBack(t, 0)
                },
                TableStage::GrowBack(t, b) => {
                    &&& s1.owner == s.owner.remove((t as int, b as int))
                    &&& b + 1 < s.size(t as int) ==> now == TableStage::GrowBack(
                        t,
                        (b + 1) as usize,
                    )
                    &&& b + 1 == s.size(t as int) ==> now is GrowRead
                },
                TableStage::Publish(t) => {
                    &&& s1.owner == s.owner
                    &&& s1.bits == s.bits.push(bits)
                    &&& now == TableStage::GrowUnlock(t, 0)
                },
                TableStage::GrowUnlock(t, b) => {
                    &&& s1.owner == s.owner.remove((t as int, b as int))
                    &&& b + 1 < s.size(t as int) ==> now == TableStage::GrowUnlock(
                        t,
                        (b + 1) as usize,
                    )
                    &&& b + 1 == s.size(t as int) ==> now is Idle
                },
                _ => s1.bits == s.bits,
            }
        }),
{
    assert(s.op_ok(i));
    assert(s.ops.update(i, s.ops[i]) =~= s.ops);
}

/// The tables change only by a thread that has all buckets of the latest table locked, and then
/// by one more table.
pub proof fn law_tables_change_by_one(s: TableSys, i: int, bits: u32)
    requires
        s.safe(),
        0 <= i < s.ops.len(),
    ensures
        ({
            let s1 = s.after(TableEvent::Step(i, bits));
            s1.bits != s.bits ==> {
                &&& s1.bits == s.bits.push(bits)
                &&& s.owns_range(i, s.latest(), 0, s.size(s.latest()))
            }
        }),
{
    assert(s.op_ok(i));
}

/// A thread that wants a bigger table, while nobody has a bucket of the latest one locked, puts
/// a new one in its place if it is left alone, and has unlocked all buckets by then.
pub proof fn law_lone_grow(s: TableSys, i: int, threads: usize, bits: u32)
    requires
        s.safe(),
        0 <= i < s.ops.len(),
        s.ops[i].stage is Idle,
        3 * threads <= 0x8000_0000,
        s.size(s.latest()) < 3 * threads,
        1 <= bits <= 31,
        pow2(bits as nat) >= 3 * threads,
        s.bits.len() < usize::MAX,
        latest_is_free(s),
    ensures
        exists|steps: nat| {
            let s2 = #[trigger] table_alone(s.after(TableEvent::Grow(i, threads)), i, bits, steps);
            &&& s2.ops[i].stage is Idle
            &&& s2.bits == s.bits.push(bits)
            &&& s2.owner == s.owner
            &&& forall|j: int|
                0 <= j < s.ops.len() && j != i ==> #[trigger] s2.ops[j] == s.ops[j]
        },
{
    let s0 = s.after(TableEvent::Grow(i, threads));
    let s1 = s0.after(TableEvent::Step(i, bits));
    law_table_event(s, TableEvent::Grow(i, threads));
    law_table_event(s0, TableEvent::Step(i, bits));
    let (t, n) = (s.latest(), s.size(s.latest()));
    lemma_size_fits(s, t);
    assert(s1.ops[i].stage == TableStage::GrowLock(t as usize, 0));
    assert(s1.owner =~= locked_below(s.owner, t, 0, i));
    assert forall|c: int| 0 <= c < s1.size(t) implies !#[trigger] s.owner.dom().contains((t, c)) by {
        assert(!s.owner.dom().contains((s.latest(), c)));
    }
    let k = lemma_locks_all(s1, i, bits, s.owner);
    let s2 = table_alone(s1, i, bits, k);
    assert(s2.ops[i].stage == TableStage::GrowCheck(t as usize));
    let s3 = s2.after(TableEvent::Step(i, bits));
    law_table_event(s2, TableEvent::Step(i, bits));
    assert(s3.ops[i].stage == TableStage::Publish(t as usize));
    let s4 = s3.after(TableEvent::Step(i, bits));
    law_table_event(s3, TableEvent::Step(i, bits));
    assert(s4.ops[i].stage == TableStage::GrowUnlock(t as usize, 0));
    assert(s4.bits.len() == s.bits.len() + 1 && s4.bits[t] == s.bits[t]);
    assert(s4.owner =~= locked_from(s.owner, t, 0, n, i));
    let l = lemma_unlocks_all(s4, i, bits, s.owner);
    lemma_alone_adds(s2, i, bits, 2, l);
    reveal_with_fuel(table_alone, 3);
    assert(table_alone(s2, i, bits, 2) == s4);
    lemma_alone_adds(s1, i, bits, k, 2 + l);
    lemma_alone_adds(s0, i, bits, 1, k + (2 + l));
    assert(table_alone(s0, i, bits, 1) == s1);
    let s5 = table_alone(s0, i, bits, 1 + (k + (2 + l)));
    assert(s5 == table_alone(s4, i, bits, l));
}

/// No table has more buckets than a word can count.
proof fn lemma_size_fits(s: TableSys, t: int)
    requires
        s.safe(),
        0 <= t < s.bits.len(),
    ensures
        0 < s.size(t) <= 0x8000_0000,
{
    assert(1 <= s.bits[t] <= 31);
    lemma_pow2_pos(s.bits[t] as nat);
    vstd::arithmetic::power2::lemma2_to64();
    if s.bits[t] < 31 {
        vstd::arithmetic::power2::lemma_pow2_strictly_increases(s.bits[t] as nat, 31);
    }
}

/// Steps that follow upon one another add up.
proof fn lemma_alone_adds(s: TableSys, i: int, bits: u32, first: nat, second: nat)
    ensures
        table_alone(s, i, bits, first + second) == table_alone(
            table_alone(s, i, bits, first),
            i,
            bits,
            second,
        ),
    decreases first,
{
    if first > 0 {
        lemma_alone_adds(
            s.after(TableEvent::Step(i, bits)),
            i,
            bits,
            (first - 1) as nat,
            second,
        );
        assert(((first + second) - 1) as nat == (first - 1) as nat + second);
    }
}

/// A bucket below place `b` of the table is locked by thread `i`, others as before.
spec fn locked_below(owner: Map<(int, int), int>, t: int, b: int, i: int) -> Map<(int, int), int> {
    owner.union_prefer_right(
        Map::new(|at: (int, int)| at.0 == t && 0 <= at.1 < b, |at: (int, int)| i),
    )
}

proof fn lemma_locks_all(
    s: TableSys,
    i: int,
    bits: u32,
    owner: Map<(int, int), int>,
) -> (steps: nat)
    requires
        s.safe(),
        0 <= i < s.ops.len(),
        1 <= bits <= 31,
        s.ops[i].stage is GrowLock,
        ({
            let t = s.ops[i].stage->GrowLock_0 as int;
            let b = s.ops[i].stage->GrowLock_1 as int;
            &&& t == s.latest()
            &&& s.owner == locked_below(owner, t, b, i)
            &&& forall|c: int| 0 <= c < s.size(t) ==> !#[trigger] owner.dom().contains((t, c))
        }),
    ensures
        ({
            let t = s.ops[i].stage->GrowLock_0;
            let s2 = table_alone(s, i, bits, steps);
            &&& s2.safe()
            &&& s2.bits == s.bits
            &&& s2.owner == locked_below(owner, t as int, s.size(t as int), i)
            &&& s2.ops.len() == s.ops.len()
            &&& s2.ops[i] == (TableOp { stage: TableStage::GrowCheck(t), ..s.ops[i] })
            &&& forall|j: int|
                0 <= j < s.ops.len() && j != i ==> #[trigger] s2.ops[j] == s.ops[j]
        }),
    decreases s.size(s.latest()) - s.ops[i].stage->GrowLock_1,
{
    let t = s.ops[i].stage->GrowLock_0 as int;
    let b = s.ops[i].stage->GrowLock_1 as int;
    assert(s.op_ok(i));
    lemma_size_fits(s, t);
    assert(!owner.dom().contains((t, b)));
    assert(!s.owner.dom().contains((t, b)));
    let s1 = s.after(TableEvent::Step(i, bits));
    law_table_event(s, TableEvent::Step(i, bits));
    assert(s1.owner =~= locked_below(owner, t, b + 1, i));
    reveal_with_fuel(table_alone, 2);
    if b + 1 == s.size(t) {
        assert(table_alone(s, i, bits, 1) == s1);
        1
    } else {
        let steps = lemma_locks_all(s1, i, bits, owner);
        assert(table_alone(s, i, bits, steps + 1) == table_alone(s1, i, bits, steps));
        steps + 1
    }
}

/// The buckets from place `b` on of a table with `n` buckets are locked by thread `i`, others
/// as before.
spec fn locked_from(
    owner: Map<(int, int), int>,
    t: int,
    b: int,
    n: int,
    i: int,
) -> Map<(int, int), int> {
    owner.union_prefer_right(
        Map::new(|at: (int, int)| at.0 == t && b <= at.1 < n, |at: (int, int)| i),
    )
}

proof fn lemma_unlocks_all(
    s: TableSys,
    i: int,
    bits: u32,
    owner: Map<(int, int), int>,
) -> (steps: nat)
    requires
        s.safe(),
        0 <= i < s.ops.len(),
        1 <= bits <= 31,
        s.ops[i].stage is GrowUnlock,
        ({
            let t = s.ops[i].stage->GrowUnlock_0 as int;
            let b = s.ops[i].stage->GrowUnlock_1 as int;
            &&& s.owner == locked_from(owner, t, b, s.size(t), i)
            &&& forall|c: int| 0 <= c < s.size(t) ==> !#[trigger] owner.dom().contains((t, c))
        }),
    ensures
        ({
            let s2 = table_alone(s, i, bits, steps);
            &&& s2.bits == s.bits
            &&& s2.owner == owner
            &&& s2.ops.len() == s.ops.len()
            &&& s2.ops[i].stage is Idle
            &&& forall|j: int|
                0 <= j < s.ops.len() && j != i ==> #[trigger] s2.ops[j] == s.ops[j]
        }),
    decreases s.size(s.ops[i].stage->GrowUnlock_0 as int) - s.ops[i].stage->GrowUnlock_1,
{
    let t = s.ops[i].stage->GrowUnlock_0 as int;
    let b = s.ops[i].stage->GrowUnlock_1 as int;
    assert(s.op_ok(i));
    lemma_size_fits(s, t);
    assert(!owner.dom().contains((t, b)));
    let s1 = s.after(TableEvent::Step(i, bits));
    law_table_event(s, TableEvent::Step(i, bits));
    assert(s1.owner =~= locked_from(owner, t, b + 1, s.size(t), i));
    reveal_with_fuel(table_alone, 2);
    if b + 1 == s.size(t) {
        assert(s1.owner =~= owner);
        assert(table_alone(s, i, bits, 1) == s1);
        1
    } else {
        let steps = lemma_unlocks_all(s1, i, bits, owner);
        assert(table_alone(s, i, bits, steps + 1) == table_alone(s1, i, bits, steps));
        steps + 1
    }
}

} // verus!
