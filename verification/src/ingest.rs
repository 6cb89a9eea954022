//! Bounded staging buffer between an asynchronous byte source and the
//! deframer. Storage is two read chunks wide (`N == 2 * SN`) so that one
//! chunk can be read in while the consumer still drains the other. The
//! caller performs the read itself and hands the bytes to
//! [`SerialRingbuffer::push_from_slice`]; whether there is room is decided
//! here, before anything is overwritten.

use vstd::prelude::*;

verus! {

/// The buffer held no byte to pop.
#[derive(Clone, Copy, PartialEq, Eq, Structural, Debug)]
pub struct Empty;

/// Why a push failed: no room, or the caller's read failed.
#[derive(Clone, Copy, PartialEq, Eq, Debug)]
pub enum PushErr<SerialErr> {
    /// The consumer has not drained enough; storage was left untouched.
    Overflow,
    /// The caller's read failed; its error is carried through unchanged.
    Serial(SerialErr),
}

/// Mathematical image of the buffer: the stored elements and the three
/// cursors. `head` is the write extent of the current pass, `len` the
/// furthest extent any pass has reached, `tail` the read position.
pub struct RingModel<T> {
    pub storage: Seq<T>,
    pub head: int,
    pub tail: int,
    pub len: int,
}

/// The virtual rewind a drained buffer makes before the next pop: once the
/// read position has passed the furthest extent, reading resumes at the
/// start of the current pass.
pub open spec fn rewound<T>(m: RingModel<T>) -> RingModel<T> {
    if m.tail >= m.len {
        RingModel { storage: m.storage, head: m.head, tail: 0, len: m.head }
    } else {
        m
    }
}

/// When a push must fail: the half about to be overwritten still holds
/// bytes the consumer has not reached.
///
/// With the write going to the lower half, the consumer must have drained
/// past it (`tail >= SN`). With the write extending the current pass at
/// `head`, it conflicts only with a previous pass still being drained
/// (`len > head`) whose read position has not passed the region.
pub open spec fn push_overflows<T>(m: RingModel<T>, n: int, sn: int) -> bool {
    if n - sn < m.head {
        m.tail < sn
    } else {
        m.len > m.head && m.tail < m.head + sn
    }
}

/// The buffer after a successful push of `data`: the chosen region is
/// overwritten, `head` moves to its end, and `len` keeps the furthest
/// extent.
pub open spec fn pushed<T>(m: RingModel<T>, data: Seq<T>, n: int, sn: int) -> RingModel<T> {
    let start = if n - sn < m.head {
        0
    } else {
        m.head
    };
    let head2 = start + data.len();
    RingModel {
        storage: m.storage.subrange(0, start) + data + m.storage.subrange(
            start + data.len(),
            n,
        ),
        head: head2,
        tail: m.tail,
        len: if m.len >= head2 {
            m.len
        } else {
            head2
        },
    }
}

/// A ring buffer of `N == 2 * SN` elements filled from reads of up to `SN`
/// elements each.
pub struct SerialRingbuffer<T, const N: usize, const SN: usize> {
    storage: Vec<T>,
    head: usize,
    tail: usize,
    len: usize,
}

impl<T: Copy, const N: usize, const SN: usize> View for SerialRingbuffer<T, N, SN> {
    type V = RingModel<T>;

    closed spec fn view(&self) -> RingModel<T> {
        RingModel {
            storage: self.storage@,
            head: self.head as int,
            tail: self.tail as int,
            len: self.len as int,
        }
    }
}

impl<T: Copy, const N: usize, const SN: usize> SerialRingbuffer<T, N, SN> {
    /// Structural soundness: full storage, cursors within bounds, and the
    /// double-buffer shape of the type itself.
    pub closed spec fn wf(&self) -> bool {
        &&& self.storage@.len() == N
        &&& self.head <= N
        &&& self.tail <= self.len
        &&& self.len <= N
        &&& 1 <= SN
        &&& N == 2 * SN
    }

    /// A fresh buffer, every slot holding `val`, all cursors at zero.
    pub fn new(val: T) -> (r: Self)
        requires
            1 <= SN,
            N == 2 * SN,
        ensures
            r.wf(),
            r@.head == 0,
            r@.tail == 0,
            r@.len == 0,
            r@.storage.len() == N,
            forall|i: int| 0 <= i < N ==> r@.storage[i] == val,
    {
        let mut storage: Vec<T> = Vec::new();
        let mut i: usize = 0;
        while i < N
            invariant
                i <= N,
                storage@.len() == i,
                forall|k: int| 0 <= k < i ==> storage@[k] == val,
            decreases N - i,
        {
            storage.push(val);
            i += 1;
        }
        SerialRingbuffer { storage, head: 0, tail: 0, len: 0 }
    }

    /// Take the next byte the producer made available, rewinding first if
    /// this pass is drained; fail `Empty` once read and write positions
    /// meet.
    pub fn pop(&mut self) -> (r: Result<T, Empty>)
        requires
            old(self).wf(),
        ensures
            final(self).wf(),
            ({
                let m = rewound(old(self)@);
                if m.head == m.tail {
                    r == Err::<T, Empty>(Empty) && final(self)@ == m
                } else {
                    r == Ok::<T, Empty>(m.storage[m.tail]) && final(self)@ == RingModel {
                        storage: m.storage,
                        head: m.head,
                        tail: m.tail + 1,
                        len: m.len,
                    }
                }
            }),
    {
        if self.tail >= self.len {
            self.len = self.head;
            self.tail = 0;
        }
        if self.head == self.tail {
            return Err(Empty);
        }
        let v = self.storage[self.tail];
        self.tail = self.tail + 1;
        Ok(v)
    }

    /// Store the bytes one read returned.
    ///
    /// The write goes to the lower half once the current pass has passed
    /// the midpoint, and extends the current pass at `head` otherwise; if
    /// the consumer still needs the region, nothing is touched and
    /// `Overflow` is returned. The caller reads at most `SN` elements,
    /// checks [`SerialRingbuffer::can_push`] first to avoid consuming
    /// bytes it could not store, and maps its own read failures to
    /// `PushErr::Serial`.
    pub fn push_from_slice<E>(&mut self, data: &[T]) -> (r: Result<(), PushErr<E>>)
        requires
            old(self).wf(),
            data@.len() <= SN,
        ensures
            final(self).wf(),
            push_overflows(old(self)@, N as int, SN as int) ==> r == Err::<(), PushErr<E>>(
                PushErr::Overflow,
            ) && *final(self) == *old(self),
            !push_overflows(old(self)@, N as int, SN as int) ==> r == Ok::<(), PushErr<E>>(())
                && final(self)@ == pushed(old(self)@, data@, N as int, SN as int),
    {
        let start: usize;
        if N - SN < self.head {
            if self.tail < SN {
                return Err(PushErr::Overflow);
            }
            start = 0;
        } else {
            if self.len > self.head && self.tail < self.head + SN {
                return Err(PushErr::Overflow);
            }
            start = self.head;
        }
        let ghost old_storage = self.storage@;
        let mut i: usize = 0;
        while i < data.len()
            invariant
                i <= data@.len(),
                data@.len() <= SN,
                start + SN <= N,
                self.storage@.len() == N,
                self.head == old(self).head,
                self.tail == old(self).tail,
                self.len == old(self).len,
                forall|k: int|
                    0 <= k < N ==> self.storage@[k] == (if start <= k < start + i {
                        data@[k - start]
                    } else {
                        old_storage[k]
                    }),
            decreases data@.len() - i,
        {
            set_at(&mut self.storage, start + i, data[i]);
            i += 1;
        }
        self.head = start + data.len();
        if self.len < self.head {
            self.len = self.head;
        }
        proof {
            assert(self.storage@ =~= old_storage.subrange(0, start as int) + data@
                + old_storage.subrange(start as int + data@.len(), N as int));
        }
        Ok(())
    }

    /// Whether the next push of a full read chunk would be stored: the
    /// caller asks before issuing its read, so that a read whose bytes
    /// could not be kept is never issued.
    pub fn can_push(&self) -> (r: bool)
        requires
            self.wf(),
        ensures
            r == !push_overflows(self@, N as int, SN as int),
    {
        if N - SN < self.head {
            self.tail >= SN
        } else {
            !(self.len > self.head && self.tail < self.head + SN)
        }
    }
}

/// Overwrite one element in place.
fn set_at<T>(v: &mut Vec<T>, i: usize, x: T)
    requires
        i < old(v)@.len(),
    ensures
        final(v)@ == old(v)@.update(i as int, x),
{
    let slot = &mut v[i];
    *slot = x;
}

} // verus!
