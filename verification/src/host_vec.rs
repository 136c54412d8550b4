//! A vector that grows only when it is told to, and says so.
use crate::error::{Code, Error};
use crate::num;
use vstd::prelude::*;

verus! {

/// A vector with an explicit reservation. Within it nothing is allocated and
/// nothing can fail; beyond it every growth asks the allocator first, and a
/// refusal is a [`Code::OutOfMemory`] that leaves the elements untouched.
pub struct HostVec<T> {
    items: Vec<T>,
    reserved: usize,
}

/// The most bytes one vector may reserve: what a `Vec` can be at all.
pub open spec fn table_limit() -> int {
    isize::MAX as int
}

/// No vector can have room for `len` elements of `T`.
pub open spec fn is_over_limit<T>(len: int) -> bool {
    len > usize::MAX || len * vstd::layout::size_of::<T>() > table_limit()
}

/// Why room for `len` elements is refused: a size that no vector can have is told
/// apart from one the allocator does not give.
pub open spec fn refusal<T>(len: int) -> Seq<char> {
    if is_over_limit::<T>(len) {
        "capacity overflow"@
    } else {
        "the host allocator refused"@
    }
}

impl<T> View for HostVec<T> {
    type V = Seq<T>;

    closed spec fn view(&self) -> Seq<T> {
        self.items@
    }
}

impl<T> HostVec<T> {
    /// How many elements the reservation has room for.
    pub closed spec fn room(&self) -> int {
        self.reserved as int
    }

    /// The elements are within the reservation, and it within [`table_limit`].
    pub open spec fn wf(&self) -> bool {
        &&& self@.len() <= self.room() <= usize::MAX
        &&& self.size() <= table_limit()
    }

    /// The size of the reservation in bytes.
    pub open spec fn size(&self) -> int {
        self.room() * vstd::layout::size_of::<T>()
    }

    pub fn new() -> (v: Self)
        ensures
            v.wf(),
            v@ == Seq::<T>::empty(),
            v.room() == 0,
    {
        let v = HostVec { items: Vec::new(), reserved: 0 };
        assert(0 * vstd::layout::size_of::<T>() == 0);
        v
    }

    pub fn len(&self) -> (n: usize)
        ensures
            n == self@.len(),
    {
        self.items.len()
    }

    pub fn capacity(&self) -> (n: usize)
        ensures
            n == self.room(),
    {
        self.reserved
    }

    /// The size of the reservation in bytes.
    pub fn bytes(&self) -> (n: usize)
        requires
            self.wf(),
        ensures
            n == self.size(),
    {
        self.reserved * core::mem::size_of::<T>()
    }

    fn is_too_large(len: usize) -> (r: bool)
        ensures
            r == is_over_limit::<T>(len as int),
    {
        let size: usize = core::mem::size_of::<T>();
        assert(len * size <= u64::MAX * u64::MAX) by (nonlinear_arith)
            requires
                0 <= len <= u64::MAX,
                0 <= size <= u64::MAX;
        (len as u128) * (size as u128) > isize::MAX as u128
    }

    pub fn as_slice(&self) -> (s: &[T])
        ensures
            s@ == self@,
    {
        self.items.as_slice()
    }

    /// Empties the vector and keeps its reservation.
    pub fn clear(&mut self)
        requires
            old(self).wf(),
        ensures
            final(self).wf(),
            final(self)@ == Seq::<T>::empty(),
            final(self).room() == old(self).room(),
    {
        self.items.clear();
    }

    /// Makes room for `additional` more elements. There is no request to refuse
    /// when the reservation already has that room.
    pub fn try_reserve(&mut self, additional: usize) -> (r: Result<(), Error>)
        requires
            old(self).wf(),
        ensures
            final(self).wf(),
            final(self)@ == old(self)@,
            old(self)@.len() + additional <= old(self).room() ==> r is Ok,
            is_over_limit::<T>(old(self)@.len() + additional) ==> r is Err,
            r is Ok ==> final(self).room() == num::imax(
                old(self).room(),
                old(self)@.len() + additional,
            ),
            r matches Err(e) ==> e.says(
                Code::OutOfMemory,
                refusal::<T>(old(self)@.len() + additional),
            ) && final(self).room() == old(self).room(),
    {
        let len: usize = self.items.len();
        if additional <= self.reserved - len {
            proof {
                let size = vstd::layout::size_of::<T>() as int;
                assert((len + additional) * size <= self.room() * size) by (nonlinear_arith)
                    requires
                        len + additional <= self.room(),
                        0 <= size;
            }
            return Ok(());
        }
        if additional > usize::MAX - len || Self::is_too_large(len + additional) {
            return Err(Error::new(Code::OutOfMemory, "capacity overflow"));
        }
        match self.items.try_reserve(additional) {
            Ok(()) => {
                self.reserved = len + additional;
                Ok(())
            },
            Err(_) => Err(Error::new(Code::OutOfMemory, "the host allocator refused")),
        }
    }

    /// Appends one element, growing the reservation by one when it is used up.
    pub fn push(&mut self, value: T) -> (r: Result<(), Error>)
        requires
            old(self).wf(),
        ensures
            final(self).wf(),
            old(self)@.len() < old(self).room() ==> r is Ok,
            is_over_limit::<T>(old(self)@.len() as int + 1) ==> r is Err,
            r is Ok ==> final(self)@ == old(self)@.push(value),
            r is Ok ==> final(self).room() == num::imax(
                old(self).room(),
                old(self)@.len() as int + 1,
            ),
            r matches Err(e) ==> e.says(Code::OutOfMemory, refusal::<T>(old(self)@.len() as int + 1))
                && final(self)@ == old(self)@ && final(self).room() == old(self).room(),
    {
        match self.try_reserve(1) {
            Ok(()) => {
                self.items.push(value);
                Ok(())
            },
            Err(e) => Err(e),
        }
    }

    /// Replaces the element at `index`.
    pub fn set(&mut self, index: usize, value: T)
        requires
            old(self).wf(),
            index < old(self)@.len(),
        ensures
            final(self).wf(),
            final(self)@ == old(self)@.update(index as int, value),
            final(self).room() == old(self).room(),
    {
        self.items.set(index, value);
    }
}

impl<T: Copy> HostVec<T> {
    pub fn get(&self, index: usize) -> (value: T)
        requires
            index < self@.len(),
        ensures
            value == self@[index as int],
    {
        self.items[index]
    }

    /// Replaces every element by `value`.
    pub fn fill(&mut self, value: T)
        requires
            old(self).wf(),
        ensures
            final(self).wf(),
            final(self)@ == Seq::new(old(self)@.len(), |i: int| value),
            final(self).room() == old(self).room(),
    {
        let n: usize = self.items.len();
        let mut i: usize = 0;
        while i < n
            invariant
                i <= n,
                n == self@.len() == old(self)@.len(),
                self.wf(),
                self.room() == old(self).room(),
                forall|k: int| 0 <= k < i ==> #[trigger] self@[k] == value,
            decreases n - i,
        {
            self.items.set(i, value);
            i += 1;
        }
        assert(self@ =~= Seq::new(old(self)@.len(), |i: int| value));
    }

    /// Cuts the vector to `len` elements, or fills it up to that with `value`.
    /// The elements that stay keep their values.
    pub fn resize(&mut self, len: usize, value: T) -> (r: Result<(), Error>)
        requires
            old(self).wf(),
        ensures
            final(self).wf(),
            len <= old(self).room() ==> r is Ok,
            is_over_limit::<T>(len as int) ==> r is Err,
            r is Ok ==> final(self)@ == Seq::new(
                len as nat,
                |i: int|
                    if i < old(self)@.len() {
                        old(self)@[i]
                    } else {
                        value
                    },
            ),
            r is Ok ==> final(self).room() == num::imax(old(self).room(), len as int),
            r matches Err(e) ==> {
                &&& e.says(Code::OutOfMemory, refusal::<T>(len as int))
                &&& final(self)@ == old(self)@
                &&& final(self).room() == old(self).room()
            },
    {
        let have: usize = self.items.len();
        if len <= have {
            proof {
                let size = vstd::layout::size_of::<T>() as int;
                assert(len * size <= self.room() * size) by (nonlinear_arith)
                    requires
                        len <= self.room(),
                        0 <= size;
            }
            self.items.truncate(len);
            assert(self@ =~= Seq::new(
                len as nat,
                |i: int|
                    if i < old(self)@.len() {
                        old(self)@[i]
                    } else {
                        value
                    },
            ));
            return Ok(());
        }
        match self.try_reserve(len - have) {
            Ok(()) => {},
            Err(e) => return Err(e),
        }
        let mut i: usize = have;
        while i < len
            invariant
                have <= i <= len,
                self@.len() == i,
                len <= self.room() <= usize::MAX,
                self.size() <= table_limit(),
                self.room() == num::imax(old(self).room(), len as int),
                have == old(self)@.len(),
                forall|k: int| 0 <= k < have ==> self@[k] == old(self)@[k],
                forall|k: int| have <= k < i ==> self@[k] == value,
            decreases len - i,
        {
            self.items.push(value);
            i += 1;
        }
        assert(self@ =~= Seq::new(
            len as nat,
            |i: int|
                if i < old(self)@.len() {
                    old(self)@[i]
                } else {
                    value
                },
        ));
        Ok(())
    }
}

} // verus!
