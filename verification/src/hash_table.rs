//! The table of queues of parked threads, and when an unlock is to be fair.

use vstd::arithmetic::power2::{lemma_pow2_adds, lemma_pow2_pos, lemma_pow2_unfold, pow2};
use vstd::prelude::*;

use crate::parker::Moment;
use crate::word_lock::WordLock;

verus! {

/// Even with 3x more buckets than threads, the memory overhead per thread is still only a
/// few hundred bytes per thread.
pub const LOAD_FACTOR: usize = 3;

/// The time between two fair unlocks is less than this many nanoseconds: one millisecond.
pub const FAIR_NANOS: u32 = 1_000_000;

/// The pseudorandom number after `x`, from the "Xorshift RNGs" paper by George Marsaglia.
pub open spec fn xorshift(x: u32) -> u32 {
    let a = x ^ (x << 13u32);
    let b = a ^ (a >> 17u32);
    b ^ (b << 5u32)
}

/// The numbers never come to 0 from another number, so that they do not get stuck there.
pub proof fn law_xorshift_stays_nonzero(x: u32)
    requires
        x != 0,
    ensures
        xorshift(x) != 0,
{
    assert(x != 0 ==> ({
        let a = x ^ (x << 13u32);
        let b = a ^ (a >> 17u32);
        b ^ (b << 5u32)
    }) != 0u32) by (bit_vector);
}

/// The number after the bits of two numbers taken together is that of the one and that of the
/// other taken together, and different numbers have different ones after them.
pub proof fn law_xorshift_is_linear(x: u32, y: u32)
    ensures
        xorshift(x ^ y) == xorshift(x) ^ xorshift(y),
        x != y ==> xorshift(x) != xorshift(y),
        xorshift(1) == 270369,
        xorshift(0x8000_0000) == 2148024320,
{
    assert({
        let a = (x ^ y) ^ ((x ^ y) << 13u32);
        let b = a ^ (a >> 17u32);
        let c = x ^ (x << 13u32);
        let d = c ^ (c >> 17u32);
        let e = y ^ (y << 13u32);
        let f = e ^ (e >> 17u32);
        (b ^ (b << 5u32)) == (d ^ (d << 5u32)) ^ (f ^ (f << 5u32))
    }) by (bit_vector);
    if x != y {
        let z = x ^ y;
        assert(x != y ==> x ^ y != 0u32) by (bit_vector);
        law_xorshift_stays_nonzero(z);
        let (p, q) = (xorshift(x), xorshift(y));
        assert(p ^ q != 0u32 ==> p != q) by (bit_vector);
    }
    assert({
        let a = 1u32 ^ (1u32 << 13u32);
        let b = a ^ (a >> 17u32);
        (b ^ (b << 5u32)) == 270369u32
    }) by (bit_vector);
    assert({
        let a = 0x8000_0000u32 ^ (0x8000_0000u32 << 13u32);
        let b = a ^ (a >> 17u32);
        (b ^ (b << 5u32)) == 2148024320u32
    }) by (bit_vector);
}

/// Decides from time to time that an unlock is to be fair.
#[derive(Clone, Copy, Debug, PartialEq, Eq, Structural)]
pub struct FairTimeout {
    /// Next time at which point be_fair should be set.
    pub timeout: Moment,
    /// The state for calculating the next timeout.
    pub seed: u32,
}

impl FairTimeout {
    /// The next timeout can be calculated.
    pub open spec fn wf(self) -> bool {
        self.timeout.formed() && self.seed != 0
    }

    /// Whether a fair unlock is due.
    pub open spec fn due(self, now: Moment) -> bool {
        now.total() > self.timeout.total()
    }

    /// What an unlock makes of the timeout: the next one is due in up to a millisecond.
    pub open spec fn leads_to(self, now: Moment, next: FairTimeout) -> bool {
        if self.due(now) {
            &&& next.seed == xorshift(self.seed)
            &&& next.timeout.formed()
            &&& next.timeout.total() == now.total() + next.seed % FAIR_NANOS
        } else {
            next == self
        }
    }

    /// The first timeout, and the number from which the next ones are calculated.
    pub fn new(timeout: Moment, seed: u32) -> (fair: FairTimeout)
        ensures
            fair == (FairTimeout { timeout, seed }),
    {
        FairTimeout { timeout, seed }
    }

    /// Determines whether an unlock should be forced to be fair, and updates the timeout:
    /// the next one is due in up to a millisecond.
    pub fn should_timeout(&mut self, now: Moment) -> (fair: bool)
        requires
            old(self).timeout.formed(),
            now.wf(),
        ensures
            fair == old(self).due(now),
            old(self).leads_to(now, *final(self)),
            final(self).timeout.formed(),
            old(self).wf() ==> final(self).wf(),
    {
        if now.is_after(&self.timeout) {
            proof {
                if self.seed != 0 {
                    law_xorshift_stays_nonzero(self.seed);
                }
            }
            let nanos: u32 = self.gen_u32() % FAIR_NANOS;
            self.timeout = now.plus_nanos(nanos);
            true
        } else {
            false
        }
    }

    /// The next pseudorandom number.
    fn gen_u32(&mut self) -> (number: u32)
        ensures
            number == xorshift(old(self).seed),
            *final(self) == (FairTimeout { seed: number, ..*old(self) }),
    {
        self.seed = self.seed ^ (self.seed << 13);
        self.seed = self.seed ^ (self.seed >> 17);
        self.seed = self.seed ^ (self.seed << 5);
        self.seed
    }
}

/// A fair unlock is due once the clock has passed the timeout, and from then on until one is
/// made.
pub proof fn law_due_after_timeout(fair: FairTimeout, now: Moment, later: Moment)
    requires
        later.total() >= now.total(),
    ensures
        fair.due(now) <==> now.total() > fair.timeout.total(),
        fair.due(now) ==> fair.due(later),
{
}

/// After a fair unlock the next one is not due before some time has passed, and is due again
/// after a millisecond at the latest. Until a fair unlock is made, nothing changes.
pub proof fn law_fair_again_within_a_millisecond(
    before: FairTimeout,
    now: Moment,
    after: FairTimeout,
    later: Moment,
)
    requires
        before.leads_to(now, after),
    ensures
        before.due(now) && later.total() >= now.total() + 1_000_000 ==> after.due(later),
        before.due(now) && after.due(later) ==> later.total() > now.total(),
        before.due(now) ==> after.seed == xorshift(before.seed) && after.timeout.total()
            == now.total() + xorshift(before.seed) % 1_000_000,
        !before.due(now) ==> after == before,
{
}

/// The factor by which keys are spread over the buckets.
pub open spec fn multiplier() -> int {
    if usize::BITS == 64 {
        0x9E37_79B9_7F4A_7C15
    } else {
        0x9E37_79B9
    }
}

/// The bucket of a key among `pow2(bits)` buckets: the topmost bits of the product.
pub open spec fn hash_of(key: usize, bits: u32) -> int {
    (key * multiplier()) % pow2(usize::BITS as nat) as int / pow2(
        (usize::BITS - bits) as nat,
    ) as int
}

/// The topmost bits of a number are a number of that many bits.
proof fn lemma_top_bits(x: int, all: nat, bits: nat)
    requires
        0 <= x < pow2(all),
        bits <= all,
    ensures
        0 <= x / pow2((all - bits) as nat) as int,
        (x / pow2((all - bits) as nat) as int) < pow2(bits),
{
    let d = pow2((all - bits) as nat) as int;
    let n = pow2(bits) as int;
    lemma_pow2_pos((all - bits) as nat);
    lemma_pow2_adds((all - bits) as nat, bits);
    assert(d * n == pow2(all));
    vstd::arithmetic::div_mod::lemma_div_pos_is_pos(x, d);
    vstd::arithmetic::div_mod::lemma_multiply_divide_lt(x, d, n);
}

/// The bucket of a key is the topmost bits of the key's product: with one bit more it is one of
/// the two halves of that bucket.
pub proof fn law_hash_is_top_bits(key: usize, bits: u32)
    requires
        bits <= usize::BITS,
    ensures
        usize::BITS == 64 ==> ({
            let product = (key * 0x9E37_79B9_7F4A_7C15) % 0x1_0000_0000_0000_0000;
            let width = pow2((64 - bits) as nat) as int;
            hash_of(key, bits) * width <= product < (hash_of(key, bits) + 1) * width
        }),
        usize::BITS == 32 ==> ({
            let product = (key * 0x9E37_79B9) % 0x1_0000_0000;
            let width = pow2((32 - bits) as nat) as int;
            hash_of(key, bits) * width <= product < (hash_of(key, bits) + 1) * width
        }),
{
    vstd::arithmetic::power2::lemma2_to64();
    let width = pow2((usize::BITS - bits) as nat) as int;
    lemma_pow2_pos((usize::BITS - bits) as nat);
    let product = (key * multiplier()) % pow2(usize::BITS as nat) as int;
    vstd::arithmetic::div_mod::lemma_fundamental_div_mod(product, width);
    let h = hash_of(key, bits);
    assert(h * width <= product < (h + 1) * width) by (nonlinear_arith)
        requires
            product == width * h + product % width,
            0 <= product % width < width,
    ;
}

/// Every key has one of the buckets.
pub proof fn lemma_hash_range(key: usize, bits: u32)
    requires
        bits <= usize::BITS,
    ensures
        0 <= hash_of(key, bits) < pow2(bits as nat),
{
    let all = usize::BITS as nat;
    lemma_pow2_pos(all);
    lemma_top_bits((key * multiplier()) % pow2(all) as int, all, bits as nat);
}

/// Hash function for addresses.
pub fn hash(key: usize, bits: u32) -> (bucket: usize)
    requires
        1 <= bits <= 31,
    ensures
        bucket == hash_of(key, bits),
        bucket < pow2(bits as nat),
{
    proof {
        vstd::arithmetic::power2::lemma2_to64();
    }
    if usize::BITS == 64 {
        let product: u64 = (key as u64).wrapping_mul(0x9E37_79B9_7F4A_7C15);
        let shift: u32 = 64 - bits;
        proof {
            assert(product == (key * multiplier()) % pow2(64) as int);
            lemma_top_bits(product as int, 64, bits as nat);
            vstd::bits::lemma_u64_shr_is_div(product, shift as u64);
            lemma_pow2_below(bits as nat);
            assert(product >> (shift as u64) == hash_of(key, bits));
        }
        (product >> (shift as u64)) as usize
    } else {
        let product: u32 = (key as u32).wrapping_mul(0x9E37_79B9);
        let shift: u32 = 32 - bits;
        proof {
            assert(usize::BITS == 32);
            assert(product == (key * multiplier()) % pow2(32) as int);
            lemma_top_bits(product as int, 32, bits as nat);
            vstd::bits::lemma_u32_shr_is_div(product, shift);
            assert(product >> shift == hash_of(key, bits));
        }
        (product >> shift) as usize
    }
}

/// Numbers of up to 32 bits are small.
proof fn lemma_pow2_below(bits: nat)
    requires
        bits <= 32,
    ensures
        pow2(bits) <= 0x1_0000_0000,
{
    vstd::arithmetic::power2::lemma2_to64();
    if bits < 32 {
        vstd::arithmetic::power2::lemma_pow2_strictly_increases(bits, 32);
    }
}

/// A queue of parked threads. It is threaded through their records.
pub struct Bucket {
    /// Lock protecting the queue.
    pub mutex: WordLock,
    /// Linked list of threads waiting on this bucket.
    pub queue_head: Option<usize>,
    pub queue_tail: Option<usize>,
    /// Next time at which point be_fair should be set.
    pub fair_timeout: FairTimeout,
    /// The threads in the list.
    pub queue: Ghost<Seq<usize>>,
}

impl Bucket {
    /// Nobody waits on the bucket.
    pub open spec fn empty(self) -> bool {
        &&& self.mutex.word() == 0
        &&& self.queue_head is None
        &&& self.queue_tail is None
        &&& self.queue@ == Seq::<usize>::empty()
    }

    /// A bucket that nobody waits on.
    pub fn new(timeout: Moment, seed: u32) -> (bucket: Bucket)
        ensures
            bucket.empty(),
            bucket.fair_timeout == (FairTimeout { timeout, seed }),
    {
        Bucket {
            mutex: WordLock::new(),
            queue_head: None,
            queue_tail: None,
            fair_timeout: FairTimeout::new(timeout, seed),
            queue: Ghost(Seq::empty()),
        }
    }
}

/// The buckets in which threads are parked.
pub struct HashTable {
    /// Hash buckets for the table.
    pub entries: Vec<Bucket>,
    /// Number of bits used for the hash function.
    pub hash_bits: u32,
}

/// There are not too many threads for a table.
pub open spec fn threads_fit(num_threads: int) -> bool {
    LOAD_FACTOR * num_threads <= 0x8000_0000
}

impl HashTable {
    /// The table has as many buckets as the hash function needs.
    pub open spec fn sized(&self) -> bool {
        &&& 1 <= self.hash_bits <= 31
        &&& self.entries@.len() == pow2(self.hash_bits as nat)
    }

    /// A table of empty buckets: the least power of two that leaves every thread
    /// `LOAD_FACTOR` buckets.
    pub fn new(num_threads: usize, now: Moment) -> (table: HashTable)
        requires
            num_threads >= 1,
            threads_fit(num_threads as int),
        ensures
            table.sized(),
            table.entries@.len() >= LOAD_FACTOR * num_threads,
            table.entries@.len() < 2 * (LOAD_FACTOR * num_threads),
            forall|b: int|
                0 <= b < table.entries@.len() ==> (#[trigger] table.entries@[b]).empty()
                    && table.entries@[b].fair_timeout == (FairTimeout {
                    timeout: now,
                    seed: (b + 1) as u32,
                }),
    {
        let (new_size, hash_bits) = next_power_of_two(num_threads * LOAD_FACTOR);
        proof {
            vstd::arithmetic::power2::lemma2_to64();
            assert(num_threads * LOAD_FACTOR == LOAD_FACTOR * num_threads);
            assert(new_size > 1);
        }
        let mut entries: Vec<Bucket> = Vec::with_capacity(new_size);
        for i in 0..new_size
            invariant
                new_size <= 0x8000_0000,
                entries@.len() == i,
                forall|b: int|
                    0 <= b < i ==> (#[trigger] entries@[b]).empty() && entries@[b].fair_timeout == (
                    FairTimeout { timeout: now, seed: (b + 1) as u32 }),
        {
            // The seed must not be zero
            entries.push(Bucket::new(now, i as u32 + 1));
        }
        HashTable { entries, hash_bits }
    }
}

/// The least power of two that is not less than `n`, and its exponent.
fn next_power_of_two(n: usize) -> (power: (usize, u32))
    requires
        1 <= n <= 0x8000_0000,
    ensures
        power.0 == pow2(power.1 as nat),
        n <= power.0 <= 0x8000_0000,
        power.0 > 1 ==> power.0 < 2 * n,
        power.1 <= 31,
{
    let mut size: usize = 1;
    let mut bits: u32 = 0;
    proof {
        vstd::arithmetic::power2::lemma2_to64();
    }
    while size < n
        invariant
            1 <= n <= 0x8000_0000,
            size == pow2(bits as nat),
            1 <= size <= 0x8000_0000,
            size > 1 ==> size < 2 * n,
            bits <= 31,
            pow2(31) == 0x8000_0000,
        decreases 0x8000_0000 - size,
    {
        proof {
            if bits == 31 {
                assert(size == 0x8000_0000);
            } else {
                lemma_pow2_unfold(bits as nat + 1);
                if bits + 1 < 31 {
                    vstd::arithmetic::power2::lemma_pow2_strictly_increases(bits as nat + 1, 31);
                }
            }
        }
        size = 2 * size;
        bits = bits + 1;
    }
    (size, bits)
}

} // verus!
