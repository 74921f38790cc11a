//! The ring buffer itself: its storage, its bookkeeping and its operations.

use crate::layout::{
    back_gap_len, back_len, fill_from, head_gap_len, head_len, layout_ok, ring_dist, ring_seq,
    ring_ok, ring_slot, ring_window, shifted_front,
};
use vstd::layout::size_of;
use vstd::prelude::*;

verus! {

/// The smallest capacity that the buffer allocates for elements of type `T`:
/// more slots for small elements, fewer for large ones.
pub open spec fn min_cap_spec<T>() -> nat {
    if size_of::<T>() == 1 {
        8
    } else if size_of::<T>() <= 1024 {
        4
    } else {
        1
    }
}

/// The capacity that `reserve` grows to: the minimum capacity, what is asked
/// for, and twice the current capacity, whichever is largest.
pub open spec fn grown_capacity(mincap: int, len: int, additional: int, cap: int) -> int {
    let want = len + additional;
    let a = if mincap < want {
        want
    } else {
        mincap
    };
    if a < 2 * cap {
        2 * cap
    } else {
        a
    }
}

/// The smallest capacity that the buffer allocates for elements of type `T`.
pub fn min_cap<T>() -> (r: usize)
    ensures
        r == min_cap_spec::<T>(),
{
    let siz = core::mem::size_of::<T>();
    if siz == 1 {
        8
    } else if siz <= 1024 {
        4
    } else {
        1
    }
}

/// A double-ended ring buffer of `T`.
///
/// Slot `i` of the storage holds `Some` exactly when it is live. The live
/// slots start at `hindex` and run forward `length` slots, wrapping around
/// from the end of the storage to its start. Since free slots hold `None`,
/// dropping the buffer drops each live value once and nothing else, and
/// growth moves values without dropping any.
pub struct VecRng<T> {
    buffer: Vec<Option<T>>,
    hindex: usize,
    length: usize,
}

impl<T> View for VecRng<T> {
    type V = Seq<T>;

    /// The live values, in logical order.
    open spec fn view(&self) -> Seq<T> {
        ring_seq(self.slots(), self.front() as int, self.count() as int)
    }
}

impl<T> VecRng<T> {
    /// The storage, slot by slot; `None` marks a free slot.
    pub closed spec fn slots(&self) -> Seq<Option<T>> {
        self.buffer@
    }

    /// The physical index of the first live slot.
    pub closed spec fn front(&self) -> nat {
        self.hindex as nat
    }

    /// The number of live slots.
    pub closed spec fn count(&self) -> nat {
        self.length as nat
    }

    /// The number of slots in the storage.
    pub open spec fn capacity(&self) -> nat {
        self.slots().len()
    }

    /// The bookkeeping bounds, whatever the slots hold.
    pub open spec fn bounds_ok(&self) -> bool {
        &&& self.capacity() <= isize::MAX
        &&& self.count() <= self.capacity()
        &&& (self.front() < self.capacity() || (self.capacity() == 0 && self.front() == 0))
    }

    /// Well-formedness: the bounds hold, and exactly the slots within `count`
    /// steps of `front` are live.
    pub open spec fn wf(&self) -> bool {
        &&& self.capacity() <= isize::MAX
        &&& ring_ok(self.slots(), self.front() as int, self.count() as int)
    }

    /// An empty buffer with no storage.
    pub fn new() -> (r: Self)
        ensures
            r.wf(),
            r@ == Seq::<T>::empty(),
            r.capacity() == 0,
            r.front() == 0,
            r.count() == 0,
    {
        let r = VecRng { buffer: Vec::new(), hindex: 0, length: 0 };
        assert(r@ =~= Seq::<T>::empty());
        r
    }

    /// An empty buffer with room for at least `c` values, and never less than
    /// the minimum capacity for `T`.
    pub fn with_capacity(c: usize) -> (r: Self)
        requires
            c <= isize::MAX,
        ensures
            r.wf(),
            r@ == Seq::<T>::empty(),
            r.capacity() == if c < min_cap_spec::<T>() {
                min_cap_spec::<T>()
            } else {
                c as nat
            },
            r.front() == 0,
            r.count() == 0,
    {
        let mut ret = Self::new();
        let m = min_cap::<T>();
        let to_c = if c < m {
            m
        } else {
            c
        };
        ret.grow(to_c);
        ret
    }

    /// Moves the live values, in logical order, to the start of fresh storage
    /// of `to_c` slots.
    fn grow(&mut self, to_c: usize)
        requires
            old(self).wf(),
            old(self).count() <= to_c <= isize::MAX,
        ensures
            final(self).wf(),
            final(self)@ == old(self)@,
            final(self).capacity() == to_c,
            final(self).front() == 0,
            final(self).count() == old(self).count(),
    {
        let mut newbuf: Vec<Option<T>> = Vec::with_capacity(to_c);
        let mut j: usize = 0;
        while j < to_c
            invariant
                j <= to_c,
                newbuf@.len() == j,
                forall|i: int| 0 <= i < j ==> (#[trigger] newbuf@[i]) is None,
            decreases to_c - j,
        {
            newbuf.push(None);
            j += 1;
        }
        let cap = self.buffer.len();
        let ghost old_slots = self.buffer@;
        let ghost h = self.hindex as int;
        let mut k: usize = 0;
        while k < self.length
            invariant
                self.hindex == h,
                h == old(self).front(),
                self.length == old(self).length,
                self.length <= to_c,
                old(self).wf(),
                old_slots == old(self).slots(),
                self.buffer@.len() == cap,
                cap == old_slots.len(),
                newbuf@.len() == to_c,
                k <= self.length,
                forall|i: int|
                    0 <= i < k ==> (#[trigger] newbuf@[i]) == old_slots[ring_slot(i, h, cap as int)],
                forall|i: int| k <= i < to_c ==> (#[trigger] newbuf@[i]) is None,
                forall|i: int|
                    k <= i < self.length ==> #[trigger] self.buffer@[ring_slot(i, h, cap as int)]
                        == old_slots[ring_slot(i, h, cap as int)],
            decreases self.length - k,
        {
            let p = if self.hindex + k < cap {
                self.hindex + k
            } else {
                self.hindex + k - cap
            };
            let mut x: Option<T> = None;
            self.buffer.set_and_swap(p, &mut x);
            newbuf.set(k, x);
            k += 1;
        }
        self.buffer = newbuf;
        self.hindex = 0;
        assert forall|i: int| 0 <= i < to_c implies (#[trigger] self.buffer@[i] is Some <==> i
            < self.length) by {
            if i < self.length {
                assert(ring_dist(ring_slot(i, h, cap as int), h, cap as int) == i);
            }
        }
        assert(self@ =~= old(self)@);
    }

    /// Makes room for `addc` more values. Where fewer than `addc` slots are
    /// free, the values move, in logical order, to the start of storage of
    /// `grown_capacity` slots; otherwise nothing changes. Either way the
    /// values read in logical order stay the same.
    pub fn reserve(&mut self, addc: usize)
        requires
            old(self).wf(),
            old(self).capacity() - old(self).count() < addc ==> grown_capacity(
                min_cap_spec::<T>() as int,
                old(self).count() as int,
                addc as int,
                old(self).capacity() as int,
            ) <= isize::MAX,
        ensures
            final(self).wf(),
            final(self)@ == old(self)@,
            final(self).count() == old(self).count(),
            final(self).capacity() == if old(self).capacity() - old(self).count() < addc {
                grown_capacity(
                    min_cap_spec::<T>() as int,
                    old(self).count() as int,
                    addc as int,
                    old(self).capacity() as int,
                )
            } else {
                old(self).capacity() as int
            },
            old(self).capacity() - old(self).count() < addc ==> final(self).front() == 0,
            old(self).capacity() - old(self).count() >= addc ==> *final(self) == *old(self),
            final(self).capacity() - final(self).count() >= addc,
    {
        let ccap = self.buffer.len();
        if addc <= ccap - self.length {
            return ;
        }
        let to_c = addc + self.length;
        let m = min_cap::<T>();
        let a = if m < to_c {
            to_c
        } else {
            m
        };
        let target = if a < 2 * ccap {
            2 * ccap
        } else {
            a
        };
        self.grow(target);
    }

    /// Records that `n` values were put into the free slots that follow the
    /// live ones (`n >= 0`), or taken out of the last `-n` live slots (`n < 0`).
    /// The caller has already changed those slots, so that exactly the slots
    /// within `count() + n` steps of the front are live.
    pub fn back_init_change(&mut self, n: isize)
        requires
            old(self).bounds_ok(),
            0 <= old(self).count() + n <= old(self).capacity(),
            layout_ok(old(self).slots(), old(self).front() as int, old(self).count() + n),
        ensures
            final(self).wf(),
            final(self).slots() == old(self).slots(),
            final(self).front() == old(self).front(),
            final(self).count() == old(self).count() + n,
    {
        if n >= 0 {
            self.length = self.length + n as usize;
        } else {
            self.length = self.length - (-n) as usize;
        }
    }

    /// Records that `n` values were put into the free slots just before the
    /// front (`n >= 0`), which then moves back `n` slots around the ring, or
    /// taken out of the first `-n` live slots (`n < 0`), the front then moving
    /// forward `-n` slots. The caller has already changed those slots, so that
    /// exactly the slots within `count() + n` steps of the new front are live.
    pub fn head_init_change(&mut self, n: isize)
        requires
            old(self).bounds_ok(),
            0 <= old(self).count() + n <= old(self).capacity(),
            layout_ok(
                old(self).slots(),
                shifted_front(old(self).front() as int, n as int, old(self).capacity() as int),
                old(self).count() + n,
            ),
        ensures
            final(self).wf(),
            final(self).slots() == old(self).slots(),
            final(self).front() == shifted_front(
                old(self).front() as int,
                n as int,
                old(self).capacity() as int,
            ),
            final(self).count() == old(self).count() + n,
    {
        let cap = self.buffer.len();
        if n >= 0 {
            let m = n as usize;
            if self.hindex >= m {
                self.hindex = self.hindex - m;
            } else {
                self.hindex = self.hindex + cap - m;
            }
        } else {
            let m = (-n) as usize;
            let f = self.hindex + m;
            if f >= cap {
                self.hindex = f - cap;
            } else {
                self.hindex = f;
            }
        }
        self.back_init_change(n);
    }

    /// The live slots: the run that starts at the front, then the run that
    /// wraps around to slot 0. Together they hold the values in logical order.
    pub fn as_ref(&self) -> (r: (&[Option<T>], &[Option<T>]))
        requires
            self.wf(),
        ensures
            r.0@ == self.slots().subrange(
                self.front() as int,
                self.front() + head_len(self.capacity() as int, self.front() as int, self.count() as int),
            ),
            r.1@ == self.slots().subrange(
                0,
                back_len(self.capacity() as int, self.front() as int, self.count() as int),
            ),
            r.0@ + r.1@ == ring_window(self.slots(), self.front() as int, 0, self.count() as int),
            r.0@ + r.1@ == self@.map_values(|v: T| Some(v)),
    {
        let (hln, bln) = self.lens();
        let s = self.buffer.as_slice();
        let (lo, hi) = s.split_at(self.hindex);
        let (head, _) = hi.split_at(hln);
        let (back, _) = lo.split_at(bln);
        proof {
            let w = ring_window(self.slots(), self.front() as int, 0, self.count() as int);
            assert(head@ + back@ =~= w);
            assert forall|k: int| 0 <= k < self.count() implies #[trigger] w[k] == Some(self@[k]) by {
                let p = ring_slot(k, self.front() as int, self.capacity() as int);
                assert(ring_dist(p, self.front() as int, self.capacity() as int) == k);
            }
            assert(w =~= self@.map_values(|v: T| Some(v)));
        }
        (head, back)
    }

    /// The live slots, to change in place: the run that starts at the front,
    /// then the run that wraps around to slot 0. Whatever the caller leaves
    /// in them is what the buffer then holds there.
    #[verifier::rlimit(40)]
    pub fn as_mut(&mut self) -> ((head, back): (&mut [Option<T>], &mut [Option<T>]))
        requires
            old(self).wf(),
        ensures
            head@.len() == head_len(
                old(self).capacity() as int,
                old(self).front() as int,
                old(self).count() as int,
            ),
            back@.len() == back_len(
                old(self).capacity() as int,
                old(self).front() as int,
                old(self).count() as int,
            ),
            head@ + back@ == old(self)@.map_values(|v: T| Some(v)),
            final(self).front() == old(self).front(),
            final(self).count() == old(self).count(),
            final(self).slots() == final(back)@ + old(self).slots().subrange(
                back@.len() as int,
                old(self).front() as int,
            ) + final(head)@ + old(self).slots().subrange(
                (old(self).front() + head@.len()) as int,
                old(self).capacity() as int,
            ),
            final(head)@.len() == head@.len() && final(back)@.len() == back@.len()
                ==> final(self).slots() == fill_from(
                old(self).slots(),
                old(self).front() as int,
                0,
                final(head)@ + final(back)@,
            ),
    {
        proof {
            let w = ring_window(self.slots(), self.front() as int, 0, self.count() as int);
            assert forall|k: int| 0 <= k < self.count() implies #[trigger] w[k] == Some(self@[k]) by {
                let p = ring_slot(k, self.front() as int, self.capacity() as int);
                assert(ring_dist(p, self.front() as int, self.capacity() as int) == k);
            }
            assert(w =~= self@.map_values(|v: T| Some(v)));
        }
        let (hln, bln) = self.lens();
        let h = self.hindex;
        let ghost old_slots = self.buffer@;
        let s = self.buffer.as_mut_slice();
        let (lo, hi) = s.split_at_mut(h);
        let (head, rest) = hi.split_at_mut(hln);
        let (back, mid) = lo.split_at_mut(bln);
        proof {
            assert(head@ + back@ =~= ring_window(old_slots, h as int, 0, self.length as int));
            assert(final(head)@.len() == head@.len() && final(back)@.len() == back@.len()
                ==> final(back)@ + old_slots.subrange(bln as int, h as int) + final(head)@
                + old_slots.subrange(h + hln, old_slots.len() as int) =~= fill_from(
                old_slots,
                h as int,
                0,
                final(head)@ + final(back)@,
            ));
            assert(final(rest)@ == rest@);
            assert(final(mid)@ == mid@);
        }
        (head, back)
    }

    /// The free slots, to fill in place: the run that follows the live slots
    /// up to the end of the storage, then the run before the front. Together
    /// they lie in ring order, starting just after the last live slot.
    #[verifier::rlimit(40)]
    pub fn spare_capacity_mut(&mut self) -> ((back_gap, head_gap): (
        &mut [Option<T>],
        &mut [Option<T>],
    ))
        requires
            old(self).wf(),
        ensures
            back_gap@.len() == back_gap_len(
                old(self).capacity() as int,
                old(self).front() as int,
                old(self).count() as int,
            ),
            head_gap@.len() == head_gap_len(
                old(self).capacity() as int,
                old(self).front() as int,
                old(self).count() as int,
            ),
            back_gap@ + head_gap@ == ring_window(
                old(self).slots(),
                old(self).front() as int,
                old(self).count() as int,
                old(self).capacity() - old(self).count(),
            ),
            back_gap@.len() + head_gap@.len() == old(self).capacity() - old(self).count(),
            forall|k: int| 0 <= k < back_gap@.len() ==> (#[trigger] back_gap@[k]) is None,
            forall|k: int| 0 <= k < head_gap@.len() ==> (#[trigger] head_gap@[k]) is None,
            final(self).front() == old(self).front(),
            final(self).count() == old(self).count(),
            final(self).slots() == old(self).slots().subrange(
                0,
                old(self).front() - head_gap@.len(),
            ) + final(head_gap)@ + old(self).slots().subrange(
                old(self).front() as int,
                old(self).capacity() - back_gap@.len(),
            ) + final(back_gap)@,
            final(back_gap)@.len() == back_gap@.len() && final(head_gap)@.len() == head_gap@.len()
                ==> final(self).slots() == fill_from(
                old(self).slots(),
                old(self).front() as int,
                old(self).count() as int,
                final(back_gap)@ + final(head_gap)@,
            ),
    {
        let (hln, bln) = self.lens();
        let h = self.hindex;
        let a = h + hln;
        let ghost old_slots = self.buffer@;
        let s = self.buffer.as_mut_slice();
        let (lo, back_gap) = s.split_at_mut(a);
        let (back, rest) = lo.split_at_mut(bln);
        let (head_gap, head) = rest.split_at_mut(h - bln);
        proof {
            assert(back_gap@ + head_gap@ =~= ring_window(
                old_slots,
                h as int,
                self.length as int,
                old_slots.len() - self.length,
            ));
            assert(final(back)@ == back@);
            assert(final(head)@ == head@);
            assert(final(back_gap)@.len() == back_gap@.len() && final(head_gap)@.len()
                == head_gap@.len() ==> old_slots.subrange(0, bln as int) + final(head_gap)@
                + old_slots.subrange(h as int, a as int) + final(back_gap)@ =~= fill_from(
                old_slots,
                h as int,
                self.length as int,
                final(back_gap)@ + final(head_gap)@,
            ));
        }
        (back_gap, head_gap)
    }

    /// The lengths of the run of live slots that starts at the front, and of
    /// the run that wraps around to slot 0.
    pub fn lens(&self) -> (r: (usize, usize))
        requires
            self.bounds_ok(),
        ensures
            r.0 == head_len(self.capacity() as int, self.front() as int, self.count() as int),
            r.1 == back_len(self.capacity() as int, self.front() as int, self.count() as int),
            r.0 + r.1 == self.count(),
    {
        let hcp = self.buffer.len() - self.hindex;
        if hcp < self.length {
            (hcp, self.length - hcp)
        } else {
            (self.length, 0)
        }
    }
}

} // verus!
