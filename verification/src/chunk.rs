//! The storage of a chunked queue: slots, the chunks that hold them, and the
//! index words that say where in the chain of chunks an end of the queue stands.

use vstd::prelude::*;

use crate::backoff::{Backoff, Pause};

verus! {

/// Set in a slot's state once a value has been written into the slot.
pub const WRITE: usize = 1;

/// Set in a slot's state once its value has been read.
pub const READ: usize = 2;

/// Set in a slot's state when its chunk is to be destroyed by the slot's reader.
pub const DESTROY: usize = 4;

/// How many positions a chunk spans.
pub const LAP: usize = 32;

/// How many values a chunk holds; the last position of a lap holds none.
pub const CHUNK_CAP: usize = 31;

/// How many low bits of an index word are metadata.
pub const SHIFT: usize = 1;

/// Set in a head index when its chunk is known not to be the last.
pub const HAS_NEXT: usize = 1;

/// The position that an index word denotes.
pub open spec fn pos(index: usize) -> int {
    index as int / 2
}

/// Whether an index word carries `HAS_NEXT`.
pub open spec fn has_next(index: usize) -> bool {
    index as int % 2 == 1
}

/// Which chunk of the chain a position lies in.
pub open spec fn lap(p: int) -> int {
    p / 32
}

/// Where in its chunk a position lies; `CHUNK_CAP` is the end mark.
pub open spec fn off(p: int) -> int {
    p % 32
}

/// How many values positions below `p` hold.
pub open spec fn num(p: int) -> int {
    lap(p) * 31 + off(p)
}

pub proof fn lemma_index_bits(index: usize)
    ensures
        1usize << SHIFT == 2,
        (index >> SHIFT) as int == pos(index),
        (index & HAS_NEXT == 0) <==> !has_next(index),
        pos(index | HAS_NEXT) == pos(index),
        has_next(index | HAS_NEXT),
        pos(index & !HAS_NEXT) == pos(index),
        !has_next(index & !HAS_NEXT),
        !has_next(index) ==> (index | HAS_NEXT) == index + 1,
{
    assert(index >> 1usize == index / 2usize && index & 1usize == index % 2usize && (index
        | 1usize) / 2usize == index / 2usize && (index | 1usize) % 2usize == 1usize && (index
        & !1usize) / 2usize == index / 2usize && (index & !1usize) % 2usize == 0usize && 1usize
        << 1usize == 2usize && (index % 2usize == 0usize ==> (index | 1usize) == index + 1))
        by (bit_vector);
}

/// Counting skips end marks and is strictly increasing over the others.
pub proof fn lemma_num_order(p: int, q: int)
    requires
        0 <= p < q,
        off(p) != 31,
    ensures
        0 <= num(p) < num(q),
{
}

pub proof fn lemma_state_bits(state: usize)
    ensures
        (state | WRITE) & WRITE != 0,
        ((state | WRITE) & READ) == state & READ,
        ((state | WRITE) & DESTROY) == state & DESTROY,
        (state | READ) & READ != 0,
        ((state | READ) & WRITE) == state & WRITE,
        ((state | READ) & DESTROY) == state & DESTROY,
        (state | DESTROY) & DESTROY != 0,
        ((state | DESTROY) & WRITE) == state & WRITE,
        ((state | DESTROY) & READ) == state & READ,
        0usize & WRITE == 0,
        0usize & READ == 0,
        0usize & DESTROY == 0,
{
    assert((state | 1usize) & 1usize != 0 && (state | 1usize) & 2usize == state & 2usize && (state
        | 1usize) & 4usize == state & 4usize && (state | 2usize) & 2usize != 0 && (state | 2usize)
        & 1usize == state & 1usize && (state | 2usize) & 4usize == state & 4usize && (state
        | 4usize) & 4usize != 0 && (state | 4usize) & 1usize == state & 1usize && (state | 4usize)
        & 2usize == state & 2usize && 0usize & 1usize == 0 && 0usize & 2usize == 0 && 0usize
        & 4usize == 0) by (bit_vector);
}

/// One place for a value, with the word that says what was done with it.
#[derive(Debug)]
pub struct Slot<T> {
    pub value: Option<T>,
    pub state: usize,
}

impl<T> Slot<T> {
    pub open spec fn written(self) -> bool {
        self.state & WRITE != 0
    }

    pub open spec fn read(self) -> bool {
        self.state & READ != 0
    }

    pub open spec fn destroying(self) -> bool {
        self.state & DESTROY != 0
    }

    /// A slot as a new chunk holds it.
    pub open spec fn unused() -> Slot<T> {
        Slot { value: None, state: 0 }
    }

    /// One look at whether the value has been written: `None` once it has,
    /// else how the nap before the next look is spent.
    pub fn wait_write(&self, backoff: &mut Backoff) -> (pause: Option<Pause>)
        ensures
            self.written() ==> pause is None && *final(backoff) == *old(backoff),
            !self.written() ==> *final(backoff) == old(backoff).napped() && (pause matches Some(p)
                && old(backoff).naps(p)),
    {
        if self.state & WRITE == 0 {
            Some(backoff.nap())
        } else {
            None
        }
    }
}

/// Whether a slot has been written, has been read, and is to be ended by its reader, is said by
/// one bit each; in a new slot none is set, and there is no value.
pub proof fn law_slot_bits<T>(slot: Slot<T>)
    ensures
        slot.written() <==> slot.state % 2 == 1,
        slot.read() <==> slot.state / 2 % 2 == 1,
        slot.destroying() <==> slot.state / 4 % 2 == 1,
        Slot::<T>::unused().value is None,
        !Slot::<T>::unused().written() && !Slot::<T>::unused().read()
            && !Slot::<T>::unused().destroying(),
{
    let state = slot.state;
    assert((state & 1usize != 0usize <==> state % 2usize == 1usize) && (state & 2usize != 0usize
        <==> state / 2usize % 2usize == 1usize) && (state & 4usize != 0usize <==> state / 4usize
        % 2usize == 1usize)) by (bit_vector);
    lemma_state_bits(0);
}

/// A block of slots with the way to the block after it, if there is one yet.
#[derive(Debug)]
pub struct Chunk<T> {
    pub next: Option<usize>,
    pub slots: Vec<Slot<T>>,
    /// Whether the chunk has come to its end: its slots are gone.
    pub ended: bool,
}

/// What a chunk holds.
#[verifier::ext_equal]
pub struct ChunkModel<T> {
    pub next: Option<usize>,
    pub slots: Seq<Slot<T>>,
    pub ended: bool,
}

impl<T> ChunkModel<T> {
    /// A new chunk: no successor, and no slot used.
    pub open spec fn fresh() -> ChunkModel<T> {
        ChunkModel { next: None, slots: Seq::new(31, |i: int| Slot::<T>::unused()), ended: false }
    }

    /// The chunk with slot `i` replaced.
    pub open spec fn with_slot(self, i: int, slot: Slot<T>) -> ChunkModel<T> {
        ChunkModel { slots: self.slots.update(i, slot), ..self }
    }

    /// The chunk at its end.
    pub open spec fn gone(self) -> ChunkModel<T> {
        ChunkModel { slots: Seq::empty(), ended: true, ..self }
    }
}

/// A new chunk has thirty-one slots that were never used, and no successor. A chunk at its end
/// has none left, and keeps the way to its successor.
pub proof fn law_chunks_begin_and_end<T>(chunk: ChunkModel<T>, i: int)
    ensures
        ChunkModel::<T>::fresh().slots.len() == 31,
        0 <= i < 31 ==> ChunkModel::<T>::fresh().slots[i] == Slot::<T>::unused(),
        ChunkModel::<T>::fresh().next is None,
        !ChunkModel::<T>::fresh().ended,
        chunk.gone().slots.len() == 0,
        chunk.gone().ended,
        chunk.gone().next == chunk.next,
{
}

impl<T> View for Chunk<T> {
    type V = ChunkModel<T>;

    open spec fn view(&self) -> ChunkModel<T> {
        ChunkModel { next: self.next, slots: self.slots@, ended: self.ended }
    }
}

impl<T> Chunk<T> {
    /// A chunk with no successor and no slot used.
    pub fn new() -> (chunk: Chunk<T>)
        ensures
            chunk@ == ChunkModel::<T>::fresh(),
    {
        let mut slots: Vec<Slot<T>> = Vec::new();
        let mut i: usize = 0;
        while i < CHUNK_CAP
            invariant
                i <= CHUNK_CAP,
                slots@ == Seq::new(i as nat, |j: int| Slot::<T>::unused()),
            decreases CHUNK_CAP - i,
        {
            slots.push(Slot { value: None, state: 0 });
            i = i + 1;
        }
        let chunk = Chunk { next: None, slots, ended: false };
        assert(chunk@ =~= ChunkModel::<T>::fresh());
        chunk
    }

    /// Ends the chunk: its slots are given back.
    pub fn destroy(&mut self)
        ensures
            final(self)@ == old(self)@.gone(),
    {
        self.slots = Vec::new();
        self.ended = true;
        assert(self@ =~= old(self)@.gone());
    }

    /// One look at whether the next chunk has been linked: its place once it has,
    /// else how the nap before the next look is spent.
    pub fn wait_next(&self, backoff: &mut Backoff) -> (next: Result<usize, Pause>)
        ensures
            self.next matches Some(n) ==> next == Ok::<usize, Pause>(n) && *final(backoff) == *old(
                backoff,
            ),
            self.next is None ==> *final(backoff) == old(backoff).napped() && (next matches Err(p)
                && old(backoff).naps(p)),
    {
        match self.next {
            Some(n) => Ok(n),
            None => Err(backoff.nap()),
        }
    }
}

/// One end of a queue: the index word, and the chunk that the position lies in
/// by its place among the chunks.
#[derive(Clone, Copy, Debug, PartialEq, Eq, Structural)]
pub struct Segment {
    pub index: usize,
    pub chunk: Option<usize>,
}

impl Segment {
    /// An end at the very start, with no chunk yet.
    pub fn new() -> (segment: Segment)
        ensures
            segment == (Segment { index: 0, chunk: None }),
    {
        Segment { index: 0, chunk: None }
    }
}

} // verus!
