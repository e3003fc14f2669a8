//! Pointers as words: the place of a value, with a tag in the bits that the
//! alignment of the value's type leaves unused.

use std::marker::PhantomData;

use vstd::arithmetic::power2::{is_pow2, pow2};
use vstd::prelude::*;

verus! {

/// The alignment of `T`: a power of two.
pub open spec fn align<T>() -> int {
    vstd::layout::align_of::<T>() as int
}

/// The place that a word points to: the word without its tag.
pub open spec fn place<T>(data: usize) -> int {
    data - data as int % align::<T>()
}

/// The tag of a word.
pub open spec fn tag<T>(data: usize) -> int {
    data as int % align::<T>()
}

/// A place that a value of type `T` can stand at.
pub open spec fn aligned<T>(raw: usize) -> bool {
    tag::<T>(raw) == 0
}

/// The mask of the unused low bits selects the tag, and its complement the place.
proof fn lemma_mask<T>(data: usize, mask: usize)
    requires
        mask + 1 == align::<T>(),
        is_pow2(align::<T>()),
        0 < align::<T>() <= usize::MAX,
    ensures
        (data & mask) as int == tag::<T>(data),
        (data & !mask) as int == place::<T>(data),
        0 <= tag::<T>(data) < align::<T>(),
{
    vstd::arithmetic::power2::is_pow2_equiv(align::<T>());
    let n = choose|n: nat| #[trigger] vstd::arithmetic::power::pow(2, n) == align::<T>();
    vstd::arithmetic::power2::lemma_pow2(n);
    assert(n < usize::BITS) by {
        if n >= usize::BITS {
            vstd::layout::unsigned_int_max_values();
            if n > usize::BITS {
                vstd::arithmetic::power2::lemma_pow2_strictly_increases(usize::BITS as nat, n);
            }
        }
    }
    vstd::bits::lemma_usize_low_bits_mask_is_mod(data, n);
    assert(vstd::bits::low_bits_mask(n) as usize == mask);
    assert(data & mask == data % (pow2(n) as usize));
    assert((data & !mask) + (data & mask) == data) by (bit_vector);
}

/// The mask of the least significant bits that an aligned place of a `T` leaves unused.
pub fn low_bits<T>() -> (mask: usize)
    ensures
        mask + 1 == align::<T>(),
        mask < usize::MAX,
        is_pow2(align::<T>()),
{
    vstd::layout::layout_for_type_is_valid::<T>();
    std::mem::align_of::<T>() - 1
}

/// Whether a `T` can stand at the place.
pub fn ensure_aligned<T>(raw: usize) -> (ok: bool)
    ensures
        ok == aligned::<T>(raw),
{
    let mask: usize = low_bits::<T>();
    proof {
        lemma_mask::<T>(raw, mask);
    }
    raw & mask == 0
}

/// The word with the same place and the tag `tag_bits`, which is cut down to the bits
/// that there are.
pub fn data_with_tag<T>(data: usize, tag_bits: usize) -> (tagged: usize)
    ensures
        place::<T>(tagged) == place::<T>(data),
        tag::<T>(tagged) == tag::<T>(tag_bits),
        tagged == place::<T>(data) + tag::<T>(tag_bits),
{
    let mask: usize = low_bits::<T>();
    let tagged: usize = (data & !mask) | (tag_bits & mask);
    proof {
        lemma_mask::<T>(data, mask);
        lemma_mask::<T>(tag_bits, mask);
        lemma_mask::<T>(tagged, mask);
        assert(((data & !mask) | (tag_bits & mask)) & mask == tag_bits & mask && ((data & !mask) | (
        tag_bits & mask)) & !mask == data & !mask) by (bit_vector);
    }
    tagged
}

/// The place that a word points to.
pub fn decompose_data<T>(data: usize) -> (raw: usize)
    ensures
        raw == place::<T>(data),
        aligned::<T>(raw),
{
    let mask: usize = low_bits::<T>();
    proof {
        lemma_mask::<T>(data, mask);
        lemma_mask::<T>((data & !mask), mask);
        assert((data & !mask) & mask == 0) by (bit_vector);
    }
    data & !mask
}

/// Places for values of one type, as an allocator gives them out: aligned, and none of
/// them null.
pub struct Heap<T> {
    cells: Vec<Option<T>>,
}

impl<T> Heap<T> {
    /// How many places have ever been given out.
    pub closed spec fn places(&self) -> nat {
        self.cells@.len()
    }

    /// The value that stands at a place.
    pub closed spec fn at(&self, raw: int) -> Option<T> {
        if raw > 0 && raw % align::<T>() == 0 && raw / align::<T>() <= self.cells@.len() {
            self.cells@[raw / align::<T>() - 1]
        } else {
            None
        }
    }

    /// A heap on which nothing stands.
    pub fn new() -> (heap: Heap<T>)
        ensures
            heap.places() == 0,
            forall|raw: int| (#[trigger] heap.at(raw)) is None,
    {
        vstd::layout::layout_for_type_is_valid::<T>();
        let heap = Heap { cells: Vec::new() };
        assert forall|raw: int| (#[trigger] heap.at(raw)) is None by {
            if raw > 0 && raw % align::<T>() == 0 {
                lemma_place_number::<T>(raw);
            }
        }
        heap
    }

    /// Puts a value at a new place and returns the place. Hands the value back if
    /// there is no place left that a word can hold.
    pub fn put(&mut self, val: T) -> (place: Result<usize, T>)
        ensures
            match place {
                Ok(raw) => {
                    &&& raw != 0
                    &&& aligned::<T>(raw)
                    &&& old(self).at(raw as int) is None
                    &&& (forall|other: int| #[trigger]
                        final(self).at(other) == (if other == raw {
                            Some(val)
                        } else {
                            old(self).at(other)
                        }))
                    &&& final(self).places() == old(self).places() + 1
                },
                Err(back) => {
                    &&& back == val
                    &&& *final(self) == *old(self)
                    &&& (old(self).places() + 1) * align::<T>() > usize::MAX
                },
            },
    {
        vstd::layout::layout_for_type_is_valid::<T>();
        let step: usize = std::mem::align_of::<T>();
        let n: usize = self.cells.len();
        let raw: Option<usize> = if n == usize::MAX {
            proof {
                assert((n + 1) * step > usize::MAX) by (nonlinear_arith)
                    requires
                        n == usize::MAX,
                        step >= 1,
                ;
            }
            None
        } else {
            (n + 1).checked_mul(step)
        };
        match raw {
            None => Err(val),
            Some(raw) => {
                let ghost before = *self;
                self.cells.push(Some(val));
                proof {
                    let k = n + 1;
                    assert(raw == k * step);
                    vstd::arithmetic::div_mod::lemma_fundamental_div_mod_converse(
                        raw as int,
                        step as int,
                        k,
                        0,
                    );
                    assert(raw >= 1) by (nonlinear_arith)
                        requires
                            raw == k * step,
                            k >= 1,
                            step >= 1,
                    ;
                    assert forall|other: int| #[trigger] self.at(other) == (if other == raw {
                        Some(val)
                    } else {
                        before.at(other)
                    }) by {
                        if other > 0 && other % align::<T>() == 0 {
                            lemma_place_number::<T>(other);
                            if other / align::<T>() == k {
                                vstd::arithmetic::div_mod::lemma_fundamental_div_mod(
                                    other,
                                    step as int,
                                );
                                assert(step * k == k * step) by (nonlinear_arith);
                            }
                        }
                    }
                }
                Ok(raw)
            },
        }
    }

    /// The value at a place, if one stands there.
    pub fn get(&self, raw: usize) -> (val: Option<&T>)
        ensures
            match self.at(raw as int) {
                Some(v) => val == Some(&v),
                None => val is None,
            },
    {
        vstd::layout::layout_for_type_is_valid::<T>();
        let step: usize = std::mem::align_of::<T>();
        if raw == 0 || raw % step != 0 {
            return None;
        }
        proof {
            lemma_place_number::<T>(raw as int);
        }
        let i: usize = raw / step - 1;
        if i < self.cells.len() {
            self.cells[i].as_ref()
        } else {
            None
        }
    }

    /// The value at a place, to be changed, if one stands there.
    pub fn get_mut(&mut self, raw: usize) -> (val: Option<&mut T>)
        ensures
            match old(self).at(raw as int) {
                Some(v) => {
                    &&& val matches Some(r) && *r == v && (forall|other: int| #[trigger]
                        final(self).at(other) == (if other == raw {
                            Some(*final(r))
                        } else {
                            old(self).at(other)
                        }))
                },
                None => val is None && *final(self) == *old(self),
            },
            final(self).places() == old(self).places(),
    {
        vstd::layout::layout_for_type_is_valid::<T>();
        let step: usize = std::mem::align_of::<T>();
        if raw == 0 || raw % step != 0 {
            return None;
        }
        proof {
            lemma_place_number::<T>(raw as int);
            assert forall|other: int| other > 0 && #[trigger] (other % align::<T>()) == 0 && other
                / align::<T>() == raw as int / align::<T>() implies other == raw by {
                vstd::arithmetic::div_mod::lemma_fundamental_div_mod(other, step as int);
                vstd::arithmetic::div_mod::lemma_fundamental_div_mod(raw as int, step as int);
            }
            assert forall|other: int| other > 0 && #[trigger] (other % align::<T>())
                == 0 implies other / align::<T>() >= 1 by {
                lemma_place_number::<T>(other);
            }
        }
        let i: usize = raw / step - 1;
        if i >= self.cells.len() || self.cells[i].is_none() {
            return None;
        }
        match &mut self.cells[i] {
            Some(val) => Some(val),
            None => None,
        }
    }

    /// Takes the value at a place off the heap.
    pub fn take(&mut self, raw: usize) -> (val: Option<T>)
        ensures
            val == old(self).at(raw as int),
            forall|other: int| #[trigger]
                final(self).at(other) == (if other == raw {
                    None
                } else {
                    old(self).at(other)
                }),
            final(self).places() == old(self).places(),
    {
        vstd::layout::layout_for_type_is_valid::<T>();
        let step: usize = std::mem::align_of::<T>();
        if raw == 0 || raw % step != 0 {
            return None;
        }
        proof {
            lemma_place_number::<T>(raw as int);
        }
        let i: usize = raw / step - 1;
        if i < self.cells.len() {
            let ghost before = *self;
            let val = self.cells[i].take();
            proof {
                assert forall|other: int| #[trigger] self.at(other) == (if other == raw {
                    None
                } else {
                    before.at(other)
                }) by {
                    if other > 0 && other % align::<T>() == 0 {
                        lemma_place_number::<T>(other);
                        vstd::arithmetic::div_mod::lemma_fundamental_div_mod(other, step as int);
                        vstd::arithmetic::div_mod::lemma_fundamental_div_mod(
                            raw as int,
                            step as int,
                        );
                    }
                }
            }
            val
        } else {
            None
        }
    }
}

/// A non-null aligned place has a number of at least one.
proof fn lemma_place_number<T>(raw: int)
    requires
        raw > 0,
        align::<T>() > 0,
        raw % align::<T>() == 0,
    ensures
        raw / align::<T>() >= 1,
{
    let d = align::<T>();
    vstd::arithmetic::div_mod::lemma_fundamental_div_mod(raw, d);
    assert(raw / d >= 1) by (nonlinear_arith)
        requires
            raw == d * (raw / d),
            raw > 0,
            d > 0,
    ;
}

/// Either kind of pointer: one that owns what it points to, or one that shares it.
pub trait Pointer<T>: Sized {
    /// The machine representation of the pointer.
    spec fn word(&self) -> usize;

    /// The words from which a pointer of this kind can be made.
    spec fn accepts(data: usize) -> bool;

    /// The machine representation of the pointer.
    fn into_usize(self) -> (data: usize)
        ensures
            data == self.word(),
    ;

    /// The pointer with the given machine representation.
    fn from_usize(data: usize) -> (pointer: Self)
        requires
            Self::accepts(data),
        ensures
            pointer.word() == data,
    ;
}

/// A pointer that owns what it points to.
#[derive(Debug)]
pub struct Owned<T> {
    data: usize,
    mark: PhantomData<T>,
}

impl<T> Owned<T> {
    /// The word that the pointer is.
    pub closed spec fn data(&self) -> usize {
        self.data
    }

    /// Puts a value on the heap. Hands it back if there is no place left.
    pub fn new(heap: &mut Heap<T>, val: T) -> (owned: Result<Owned<T>, T>)
        ensures
            match owned {
                Ok(owned) => {
                    &&& owned.data() != 0
                    &&& aligned::<T>(owned.data())
                    &&& old(heap).at(owned.data() as int) is None
                    &&& (forall|other: int| #[trigger]
                        final(heap).at(other) == (if other == owned.data() {
                            Some(val)
                        } else {
                            old(heap).at(other)
                        }))
                    &&& final(heap).places() == old(heap).places() + 1
                },
                Err(back) => {
                    &&& back == val
                    &&& *final(heap) == *old(heap)
                    &&& (old(heap).places() + 1) * align::<T>() > usize::MAX
                },
            },
    {
        match heap.put(val) {
            Ok(raw) => Ok(Owned::from_raw(raw)),
            Err(val) => Err(val),
        }
    }

    /// Takes ownership of what stands at an aligned place.
    pub fn from_raw(data: usize) -> (owned: Owned<T>)
        requires
            aligned::<T>(data),
        ensures
            owned.data() == data,
    {
        Owned { data, mark: PhantomData }
    }

    /// The pointer that a word other than zero is.
    pub fn from_usize(data: usize) -> (owned: Owned<T>)
        requires
            data != 0,
        ensures
            owned.data() == data,
    {
        Owned { data, mark: PhantomData }
    }

    /// The pointer to nothing.
    pub fn null() -> (owned: Owned<T>)
        ensures
            owned.data() == 0,
    {
        Owned { data: 0, mark: PhantomData }
    }

    /// The place that the pointer points to.
    pub fn as_raw(&self) -> (raw: usize)
        ensures
            raw == place::<T>(self.data()),
            aligned::<T>(raw),
    {
        decompose_data::<T>(self.data)
    }

    /// Whether the pointer points to nothing, whatever its tag.
    pub fn is_null(&self) -> (null: bool)
        ensures
            null == (place::<T>(self.data()) == 0),
    {
        self.as_raw() == 0
    }

    /// Gives up ownership.
    pub fn into_shared<'s>(self) -> (shared: Shared<'s, T>)
        ensures
            shared.data() == self.data(),
    {
        Shared { data: self.data, mark: PhantomData }
    }

    /// What the pointer points to.
    pub fn deref<'h>(&self, heap: &'h Heap<T>) -> (val: Option<&'h T>)
        ensures
            match heap.at(place::<T>(self.data())) {
                Some(v) => val == Some(&v),
                None => val is None,
            },
    {
        heap.get(self.as_raw())
    }

    /// What the pointer points to, to be changed.
    pub fn deref_mut<'h>(&self, heap: &'h mut Heap<T>) -> (val: Option<&'h mut T>)
        ensures
            match old(heap).at(place::<T>(self.data())) {
                Some(v) => {
                    &&& val matches Some(r) && *r == v && (forall|other: int| #[trigger]
                        final(heap).at(other) == (if other == place::<T>(self.data()) {
                            Some(*final(r))
                        } else {
                            old(heap).at(other)
                        }))
                },
                None => val is None && *final(heap) == *old(heap),
            },
            final(heap).places() == old(heap).places(),
    {
        heap.get_mut(self.as_raw())
    }

    /// Takes what the pointer points to off the heap, and with it the pointer.
    pub fn free(self, heap: &mut Heap<T>) -> (val: Option<T>)
        ensures
            val == old(heap).at(place::<T>(self.data())),
            forall|other: int| #[trigger]
                final(heap).at(other) == (if other == place::<T>(self.data()) {
                    None
                } else {
                    old(heap).at(other)
                }),
    {
        let raw: usize = self.as_raw();
        heap.take(raw)
    }
}

impl<T: Clone> Owned<T> {
    /// Puts a clone of what the pointer points to on the heap. Returns nothing if the
    /// pointer points to nothing, or if there is no place left.
    pub fn clone_in(&self, heap: &mut Heap<T>) -> (owned: Option<Owned<T>>)
        ensures
            owned matches Some(other) ==> {
                &&& other.data() != 0
                &&& aligned::<T>(other.data())
                &&& old(heap).at(place::<T>(self.data())) is Some
                &&& old(heap).at(other.data() as int) is None
                &&& final(heap).at(other.data() as int) is Some
                &&& cloned(
                    old(heap).at(place::<T>(self.data()))->0,
                    final(heap).at(other.data() as int)->0,
                )
                &&& forall|raw: int|
                    raw != other.data() ==> #[trigger] final(heap).at(raw) == old(heap).at(raw)
            },
            owned is None ==> {
                &&& *final(heap) == *old(heap)
                &&& old(heap).at(place::<T>(self.data())) is None || (old(heap).places() + 1)
                    * align::<T>() > usize::MAX
            },
    {
        let val = match self.deref(heap) {
            None => {
                return None;
            },
            Some(val) => val.clone(),
        };
        match Owned::new(heap, val) {
            Ok(owned) => Some(owned),
            Err(_) => None,
        }
    }
}

impl<T> Pointer<T> for Owned<T> {
    open spec fn word(&self) -> usize {
        self.data()
    }

    open spec fn accepts(data: usize) -> bool {
        data != 0
    }

    fn into_usize(self) -> (data: usize) {
        self.data
    }

    fn from_usize(data: usize) -> (pointer: Self) {
        Owned { data, mark: PhantomData }
    }
}

/// A pointer that shares what it points to with others.
#[derive(Debug)]
pub struct Shared<'s, T> {
    data: usize,
    mark: PhantomData<(&'s (), T)>,
}

impl<'s, T> Clone for Shared<'s, T> {
    fn clone(&self) -> (other: Self)
        ensures
            other == *self,
    {
        Shared { data: self.data, mark: PhantomData }
    }
}

impl<'s, T> Copy for Shared<'s, T> {

}

impl<'s, T> Shared<'s, T> {
    /// The word that the pointer is.
    pub closed spec fn data(&self) -> usize {
        self.data
    }

    /// The pointer to nothing.
    pub fn null() -> (shared: Shared<'s, T>)
        ensures
            shared.data() == 0,
    {
        Shared { data: 0, mark: PhantomData }
    }

    /// The place that the pointer points to.
    pub fn as_raw(&self) -> (raw: usize)
        ensures
            raw == place::<T>(self.data()),
            aligned::<T>(raw),
    {
        decompose_data::<T>(self.data)
    }

    /// The place that the pointer points to, to be written to.
    pub fn as_raw_mut(&self) -> (raw: usize)
        ensures
            raw == place::<T>(self.data()),
            aligned::<T>(raw),
    {
        decompose_data::<T>(self.data)
    }

    /// Whether the pointer points to nothing, whatever its tag.
    pub fn is_null(&self) -> (null: bool)
        ensures
            null == (place::<T>(self.data()) == 0),
    {
        self.as_raw() == 0
    }

    /// The pointer to an aligned place.
    pub fn from_raw(data: usize) -> (shared: Shared<'s, T>)
        requires
            aligned::<T>(data),
        ensures
            shared.data() == data,
    {
        Shared { data, mark: PhantomData }
    }

    /// Takes ownership of what the pointer, which is not zero, points to.
    pub fn into_owned(self) -> (owned: Owned<T>)
        requires
            self.data() != 0,
        ensures
            owned.data() == self.data(),
    {
        Owned::from_usize(self.data)
    }

    /// What the pointer points to.
    pub fn deref<'h>(&self, heap: &'h Heap<T>) -> (val: Option<&'h T>)
        ensures
            match heap.at(place::<T>(self.data())) {
                Some(v) => val == Some(&v),
                None => val is None,
            },
    {
        heap.get(self.as_raw())
    }

    /// What the pointer points to, to be changed.
    pub fn deref_mut<'h>(&self, heap: &'h mut Heap<T>) -> (val: Option<&'h mut T>)
        ensures
            match old(heap).at(place::<T>(self.data())) {
                Some(v) => {
                    &&& val matches Some(r) && *r == v && (forall|other: int| #[trigger]
                        final(heap).at(other) == (if other == place::<T>(self.data()) {
                            Some(*final(r))
                        } else {
                            old(heap).at(other)
                        }))
                },
                None => val is None && *final(heap) == *old(heap),
            },
            final(heap).places() == old(heap).places(),
    {
        heap.get_mut(self.as_raw())
    }
}

impl<'s, T> Pointer<T> for Shared<'s, T> {
    open spec fn word(&self) -> usize {
        self.data()
    }

    open spec fn accepts(data: usize) -> bool {
        true
    }

    fn into_usize(self) -> (data: usize) {
        self.data
    }

    fn from_usize(data: usize) -> (pointer: Self) {
        Shared { data, mark: PhantomData }
    }
}

/// A word of memory that holds a pointer.
#[derive(Debug)]
pub struct Atomic<T> {
    data: usize,
    mark: PhantomData<T>,
}

impl<T> Atomic<T> {
    /// The word that is held.
    pub closed spec fn data(&self) -> usize {
        self.data
    }

    /// Puts a value on the heap and holds the pointer to it. Hands the value back if
    /// there is no place left.
    pub fn new(heap: &mut Heap<T>, val: T) -> (atomic: Result<Atomic<T>, T>)
        ensures
            match atomic {
                Ok(atomic) => {
                    &&& atomic.data() != 0
                    &&& aligned::<T>(atomic.data())
                    &&& old(heap).at(atomic.data() as int) is None
                    &&& (forall|other: int| #[trigger]
                        final(heap).at(other) == (if other == atomic.data() {
                            Some(val)
                        } else {
                            old(heap).at(other)
                        }))
                    &&& final(heap).places() == old(heap).places() + 1
                },
                Err(back) => {
                    &&& back == val
                    &&& *final(heap) == *old(heap)
                    &&& (old(heap).places() + 1) * align::<T>() > usize::MAX
                },
            },
    {
        match Owned::new(heap, val) {
            Ok(owned) => Ok(Self::from_owned(owned)),
            Err(val) => Err(val),
        }
    }

    /// Holds the pointer that a word other than zero is.
    pub fn from_usize(data: usize) -> (atomic: Atomic<T>)
        requires
            data != 0,
        ensures
            atomic.data() == data,
    {
        Atomic { data, mark: PhantomData }
    }

    /// Holds an owning pointer, which is not zero.
    pub fn from_owned(owned: Owned<T>) -> (atomic: Atomic<T>)
        requires
            owned.data() != 0,
        ensures
            atomic.data() == owned.data(),
    {
        Self::from_usize(owned.data)
    }

    /// Holds a sharing pointer, which is not zero.
    pub fn from_shared(shared: Shared<'_, T>) -> (atomic: Atomic<T>)
        requires
            shared.data() != 0,
        ensures
            atomic.data() == shared.data(),
    {
        Self::from_usize(shared.data)
    }

    /// Holds the pointer to nothing.
    pub fn null() -> (atomic: Atomic<T>)
        ensures
            atomic.data() == 0,
    {
        Atomic { data: 0, mark: PhantomData }
    }

    /// The pointer held.
    pub fn load(&self) -> (shared: Shared<'_, T>)
        ensures
            shared.data() == self.data(),
    {
        Shared { data: self.data, mark: PhantomData }
    }

    /// Holds another pointer from now on.
    pub fn store<P: Pointer<T>>(&mut self, new: P)
        ensures
            final(self).data() == new.word(),
    {
        self.data = new.into_usize();
    }

    /// Holds `new` from now on if `curr` is held. Returns `curr` if so, and `new` if not.
    pub fn compare_set<'g, P: Pointer<T>>(&mut self, curr: Shared<'_, T>, new: P) -> (set: Result<
        Shared<'g, T>,
        Shared<'g, T>,
    >)
        ensures
            old(self).data() == curr.data() ==> final(self).data() == new.word() && (set matches Ok(
                s,
            ) && s.data() == curr.data()),
            old(self).data() != curr.data() ==> final(self).data() == old(self).data() && (
            set matches Err(s) && s.data() == new.word()),
    {
        self.compare_set_weak(curr, new, false)
    }

    /// As `compare_set`, but may fail for no reason, as it does where `spurious` says so.
    pub fn compare_set_weak<'g, P: Pointer<T>>(
        &mut self,
        curr: Shared<'_, T>,
        new: P,
        spurious: bool,
    ) -> (set: Result<Shared<'g, T>, Shared<'g, T>>)
        ensures
            !spurious && old(self).data() == curr.data() ==> final(self).data() == new.word() && (
            set matches Ok(s) && s.data() == curr.data()),
            spurious || old(self).data() != curr.data() ==> final(self).data() == old(self).data()
                && (set matches Err(s) && s.data() == new.word()),
    {
        let new: usize = new.into_usize();
        if !spurious && self.data == curr.data {
            self.data = new;
            Ok(Shared { data: curr.data, mark: PhantomData })
        } else {
            Err(Shared { data: new, mark: PhantomData })
        }
    }

    /// Adds to the word, around the end if need be, and returns the pointer held before.
    pub fn fetch_add<'g>(&mut self, val: usize) -> (before: Shared<'g, T>)
        ensures
            before.data() == old(self).data(),
            final(self).data() == (if old(self).data() + val > usize::MAX {
                old(self).data() + val - usize::MAX - 1
            } else {
                old(self).data() + val
            }),
    {
        let before: usize = self.data;
        self.data = before.wrapping_add(val);
        Shared { data: before, mark: PhantomData }
    }

    /// Takes ownership of what is pointed to, by a word that is not zero.
    pub fn into_owned(self) -> (owned: Owned<T>)
        requires
            self.data() != 0,
        ensures
            owned.data() == self.data(),
    {
        Owned::from_usize(self.data)
    }
}

/// A word is its place and its tag: the place is a multiple of the alignment, and the tag is
/// less than it. A place is aligned exactly if its tag is zero.
pub proof fn law_word_is_place_and_tag<T>(data: usize)
    requires
        align::<T>() > 0,
    ensures
        place::<T>(data) + tag::<T>(data) == data,
        0 <= tag::<T>(data) < vstd::layout::align_of::<T>(),
        place::<T>(data) % (vstd::layout::align_of::<T>() as int) == 0,
        aligned::<T>(data) <==> data as int % (vstd::layout::align_of::<T>() as int) == 0,
        aligned::<T>(data) <==> place::<T>(data) == data,
{
    let d = align::<T>();
    vstd::arithmetic::div_mod::lemma_fundamental_div_mod(data as int, d);
    vstd::arithmetic::div_mod::lemma_mod_bound(data as int, d);
    assert(place::<T>(data) == d * (data as int / d));
    vstd::arithmetic::div_mod::lemma_mod_multiples_basic(data as int / d, d);
    assert(d * (data as int / d) == (data as int / d) * d) by (nonlinear_arith);
}

/// A tag does not change where a word points, and the tag read back is the one set.
pub proof fn law_tags_leave_places<T>(data: usize, first: usize, second: usize)
    requires
        align::<T>() > 0,
        first == place::<T>(data) + tag::<T>(second),
    ensures
        place::<T>(first) == place::<T>(data),
        tag::<T>(first) == tag::<T>(second),
{
    let d = align::<T>();
    vstd::arithmetic::div_mod::lemma_fundamental_div_mod(data as int, d);
    vstd::arithmetic::div_mod::lemma_fundamental_div_mod(second as int, d);
    assert(place::<T>(data) == (data as int / d) * d) by (nonlinear_arith)
        requires
            place::<T>(data) == data - data as int % d,
            data == d * (data as int / d) + data as int % d,
    ;
    vstd::arithmetic::div_mod::lemma_fundamental_div_mod_converse(
        first as int,
        d,
        data as int / d,
        tag::<T>(second),
    );
}

} // verus!
