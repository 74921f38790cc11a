//! The arithmetic of a ring of slots: where the logical elements sit, and
//! how the occupied and free slots split into contiguous runs.

use vstd::prelude::*;

verus! {

/// How many steps forward from `front` physical slot `i` lies, on a ring of `cap` slots.
pub open spec fn ring_dist(i: int, front: int, cap: int) -> int {
    if i >= front {
        i - front
    } else {
        i + cap - front
    }
}

/// The physical slot that lies `k` steps forward from `front`, on a ring of `cap` slots.
pub open spec fn ring_slot(k: int, front: int, cap: int) -> int {
    if front + k < cap {
        front + k
    } else {
        front + k - cap
    }
}

/// Length of the run of live slots that starts at `front`.
pub open spec fn head_len(cap: int, front: int, len: int) -> int {
    if cap - front < len {
        cap - front
    } else {
        len
    }
}

/// Length of the run of live slots that wraps around to slot 0.
pub open spec fn back_len(cap: int, front: int, len: int) -> int {
    len - head_len(cap, front, len)
}

/// Length of the free run that follows the live slots up to the end of the storage.
pub open spec fn back_gap_len(cap: int, front: int, len: int) -> int {
    cap - front - head_len(cap, front, len)
}

/// Length of the free run that lies before `front`, after the wrapped live slots.
pub open spec fn head_gap_len(cap: int, front: int, len: int) -> int {
    front - back_len(cap, front, len)
}

/// Each slot holds a value exactly when it lies fewer than `len` steps forward from `front`.
pub open spec fn layout_ok<T>(s: Seq<Option<T>>, front: int, len: int) -> bool {
    forall|i: int|
        0 <= i < s.len() ==> (#[trigger] s[i] is Some <==> ring_dist(i, front, s.len() as int)
            < len)
}

/// The `n` slots that lie `from`, `from + 1`, ... steps forward from `front`, in that order.
pub open spec fn ring_window<T>(s: Seq<Option<T>>, front: int, from: int, n: int) -> Seq<
    Option<T>,
> {
    Seq::new(n as nat, |k: int| s[ring_slot(from + k, front, s.len() as int)])
}

/// The values of the `len` slots that start at `front`, in logical order.
pub open spec fn ring_seq<T>(s: Seq<Option<T>>, front: int, len: int) -> Seq<T> {
    Seq::new(len as nat, |k: int| s[ring_slot(k, front, s.len() as int)].unwrap())
}

/// `s` with the slots that lie `from`, `from + 1`, ... steps forward from `front`
/// replaced by the items of `f` in order.
pub open spec fn fill_from<T>(s: Seq<Option<T>>, front: int, from: int, f: Seq<Option<T>>) -> Seq<
    Option<T>,
> {
    Seq::new(
        s.len(),
        |i: int|
            {
                let d = ring_dist(i, front, s.len() as int);
                if from <= d < from + f.len() {
                    f[d - from]
                } else {
                    s[i]
                }
            },
    )
}

/// The index that lies `n` steps back from `front` on a ring of `cap` slots
/// (forward for negative `n`), for `n` between `-cap` and `cap`.
pub open spec fn shifted_front(front: int, n: int, cap: int) -> int {
    let f = front - n;
    if f < 0 {
        f + cap
    } else if f >= cap && cap > 0 {
        f - cap
    } else {
        f
    }
}


/// Every item of `s` holds a value.
pub open spec fn all_some<T>(s: Seq<Option<T>>) -> bool {
    forall|k: int| 0 <= k < s.len() ==> (#[trigger] s[k]) is Some
}

/// A ring of slots `s` whose live values start at `front` and run `len` slots:
/// the bounds hold, and exactly the live slots hold values.
pub open spec fn ring_ok<T>(s: Seq<Option<T>>, front: int, len: int) -> bool {
    &&& 0 <= len <= s.len()
    &&& (0 <= front < s.len() || (s.len() == 0 && front == 0))
    &&& layout_ok(s, front, len)
}

/// The free slots `f`, in ring order, hold `vs` first and nothing after.
pub open spec fn holds_appended<T>(f: Seq<Option<T>>, vs: Seq<T>) -> bool {
    &&& vs.len() <= f.len()
    &&& forall|j: int| 0 <= j < vs.len() ==> #[trigger] f[j] == Some(vs[j])
    &&& forall|j: int| vs.len() <= j < f.len() ==> (#[trigger] f[j]) is None
}

/// The free slots `f`, in ring order, hold nothing first and `vs` last.
pub open spec fn holds_prepended<T>(f: Seq<Option<T>>, vs: Seq<T>) -> bool {
    &&& vs.len() <= f.len()
    &&& forall|j: int| 0 <= j < f.len() - vs.len() ==> (#[trigger] f[j]) is None
    &&& forall|j: int| 0 <= j < vs.len() ==> #[trigger] f[f.len() - vs.len() + j] == Some(vs[j])
}

/// The live runs and the free runs split the slots of a ring: every slot lies
/// in exactly one of the run that starts at `front`, the run that wraps around
/// to slot 0, the free run after the live slots, and the free run before
/// `front`; and a slot lies in a live run exactly when it is within `len`
/// steps of `front`.
pub proof fn lemma_regions_partition(cap: int, front: int, len: int)
    requires
        0 <= len <= cap,
        0 <= front < cap || (cap == 0 && front == 0),
    ensures
        head_len(cap, front, len) >= 0,
        back_len(cap, front, len) >= 0,
        back_gap_len(cap, front, len) >= 0,
        head_gap_len(cap, front, len) >= 0,
        head_len(cap, front, len) + back_len(cap, front, len) == len,
        head_len(cap, front, len) + back_len(cap, front, len) + back_gap_len(cap, front, len)
            + head_gap_len(cap, front, len) == cap,
        forall|i: int|
            0 <= i < cap ==> {
                let hl = head_len(cap, front, len);
                let bl = back_len(cap, front, len);
                let in_head = front <= i < front + hl;
                let in_back = 0 <= i < bl;
                let in_back_gap = front + hl <= i < front + hl + back_gap_len(cap, front, len);
                let in_head_gap = bl <= i < bl + head_gap_len(cap, front, len);
                &&& (in_head || in_back || in_back_gap || in_head_gap)
                &&& !(in_head && in_back)
                &&& !(in_head && in_back_gap)
                &&& !(in_head && in_head_gap)
                &&& !(in_back && in_back_gap)
                &&& !(in_back && in_head_gap)
                &&& !(in_back_gap && in_head_gap)
                &&& ((in_head || in_back) <==> #[trigger] ring_dist(i, front, cap) < len)
            },
{
}

/// Putting values `vs` into the first free slots after the live ones and
/// counting them as live gives a ring that holds the old values followed by
/// `vs`, with exactly its live slots holding values. `f` is what the free
/// slots hold afterwards, in ring order: `vs`, then free slots.
pub proof fn lemma_append_round_trip<T>(
    s: Seq<Option<T>>,
    front: int,
    len: int,
    vs: Seq<T>,
    f: Seq<Option<T>>,
)
    requires
        ring_ok(s, front, len),
        f.len() == s.len() - len,
        holds_appended(f, vs),
    ensures
        ring_ok(fill_from(s, front, len, f), front, len + vs.len()),
        ring_seq(fill_from(s, front, len, f), front, len + vs.len()) == ring_seq(s, front, len)
            + vs,
{
    let c = s.len() as int;
    let t = fill_from(s, front, len, f);
    let n = vs.len() as int;
    assert forall|i: int| 0 <= i < t.len() implies (#[trigger] t[i] is Some <==> ring_dist(
        i,
        front,
        c,
    ) < len + n) by {
        if ring_dist(i, front, c) >= len {
            assert(t[i] == f[ring_dist(i, front, c) - len]);
        }
    }
    assert forall|k: int| 0 <= k < len + n implies #[trigger] ring_seq(t, front, len + n)[k] == (
    ring_seq(s, front, len) + vs)[k] by {
        assert(ring_dist(ring_slot(k, front, c), front, c) == k);
    }
    assert(ring_seq(t, front, len + n) =~= ring_seq(s, front, len) + vs);
}

/// Putting values `vs` into the last free slots before `front`, moving the
/// front back by their number and counting them as live gives a ring that
/// holds `vs` followed by the old values, with exactly its live slots holding
/// values. `f` is what the free slots hold afterwards, in ring order: free
/// slots, then `vs`.
pub proof fn lemma_prepend_round_trip<T>(
    s: Seq<Option<T>>,
    front: int,
    len: int,
    vs: Seq<T>,
    f: Seq<Option<T>>,
)
    requires
        ring_ok(s, front, len),
        f.len() == s.len() - len,
        holds_prepended(f, vs),
    ensures
        ring_ok(
            fill_from(s, front, len, f),
            shifted_front(front, vs.len() as int, s.len() as int),
            len + vs.len(),
        ),
        ring_seq(
            fill_from(s, front, len, f),
            shifted_front(front, vs.len() as int, s.len() as int),
            len + vs.len(),
        ) == vs + ring_seq(s, front, len),
{
    let c = s.len() as int;
    let t = fill_from(s, front, len, f);
    let n = vs.len() as int;
    let nf = shifted_front(front, n, c);
    assert forall|i: int| 0 <= i < t.len() implies (#[trigger] t[i] is Some <==> ring_dist(
        i,
        nf,
        c,
    ) < len + n) by {
        let d = ring_dist(i, front, c);
        assert(ring_dist(i, nf, c) == if d + n < c {
            d + n
        } else {
            d + n - c
        });
        if d >= len {
            assert(t[i] == f[d - len]);
            if d + n >= c {
                assert(f[d - len] == f[f.len() - n + (d + n - c)]);
            }
        }
    }
    assert forall|k: int| 0 <= k < len + n implies #[trigger] ring_seq(t, nf, len + n)[k] == (vs
        + ring_seq(s, front, len))[k] by {
        let p = ring_slot(k, nf, c);
        if k < n {
            assert(ring_dist(p, front, c) == k - n + c);
            assert(t[p] == f[f.len() - n + k]);
        } else {
            assert(ring_dist(p, front, c) == k - n);
            assert(ring_slot(k - n, front, c) == p);
        }
    }
    assert(ring_seq(t, nf, len + n) =~= vs + ring_seq(s, front, len));
}

/// Growth changes nothing that later appends and prepends show: two rings
/// that hold the same values, whatever their capacities and fronts, hold the
/// same values again after the same values are appended to both, and after
/// the same values are prepended to both.
pub proof fn lemma_growth_transparent<T>(
    s1: Seq<Option<T>>,
    front1: int,
    s2: Seq<Option<T>>,
    front2: int,
    len: int,
    vs: Seq<T>,
    fa1: Seq<Option<T>>,
    fa2: Seq<Option<T>>,
    fp1: Seq<Option<T>>,
    fp2: Seq<Option<T>>,
)
    requires
        ring_ok(s1, front1, len),
        ring_ok(s2, front2, len),
        ring_seq(s1, front1, len) == ring_seq(s2, front2, len),
        fa1.len() == s1.len() - len && holds_appended(fa1, vs),
        fa2.len() == s2.len() - len && holds_appended(fa2, vs),
        fp1.len() == s1.len() - len && holds_prepended(fp1, vs),
        fp2.len() == s2.len() - len && holds_prepended(fp2, vs),
    ensures
        ring_seq(fill_from(s1, front1, len, fa1), front1, len + vs.len()) == ring_seq(
            fill_from(s2, front2, len, fa2),
            front2,
            len + vs.len(),
        ),
        ring_seq(
            fill_from(s1, front1, len, fp1),
            shifted_front(front1, vs.len() as int, s1.len() as int),
            len + vs.len(),
        ) == ring_seq(
            fill_from(s2, front2, len, fp2),
            shifted_front(front2, vs.len() as int, s2.len() as int),
            len + vs.len(),
        ),
{
    lemma_append_round_trip(s1, front1, len, vs, fa1);
    lemma_append_round_trip(s2, front2, len, vs, fa2);
    lemma_prepend_round_trip(s1, front1, len, vs, fp1);
    lemma_prepend_round_trip(s2, front2, len, vs, fp2);
}

/// Changing the values of the live slots in place, leaving each of them
/// holding a value, keeps the ring well formed; it then holds the new values,
/// in order. `f` is what the live slots hold afterwards, in ring order.
pub proof fn lemma_live_update<T>(s: Seq<Option<T>>, front: int, len: int, f: Seq<Option<T>>)
    requires
        ring_ok(s, front, len),
        f.len() == len,
        all_some(f),
    ensures
        ring_ok(fill_from(s, front, 0, f), front, len),
        ring_seq(fill_from(s, front, 0, f), front, len) == f.map_values(|o: Option<T>| o.unwrap()),
{
    let c = s.len() as int;
    let t = fill_from(s, front, 0, f);
    assert forall|i: int| 0 <= i < t.len() implies (#[trigger] t[i] is Some <==> ring_dist(
        i,
        front,
        c,
    ) < len) by {
        if ring_dist(i, front, c) < len {
            assert(t[i] == f[ring_dist(i, front, c)]);
        }
    }
    assert forall|k: int| 0 <= k < len implies #[trigger] ring_seq(t, front, len)[k] == f[k].unwrap() by {
        assert(ring_dist(ring_slot(k, front, c), front, c) == k);
    }
    assert(ring_seq(t, front, len) =~= f.map_values(|o: Option<T>| o.unwrap()));
}

} // verus!
