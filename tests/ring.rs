use std::cell::Cell;
use std::rc::Rc;
use vrng::{min_cap, VecRng};

fn contents<T: Clone>(r: &VecRng<T>) -> Vec<T> {
    let (h, b) = r.as_ref();
    h.iter().chain(b.iter()).map(|x| x.clone().unwrap()).collect()
}

fn capacity<T>(r: &mut VecRng<T>) -> usize {
    let (h, b) = r.lens();
    let (g1, g2) = r.spare_capacity_mut();
    h + b + g1.len() + g2.len()
}

fn append<T>(r: &mut VecRng<T>, vs: Vec<T>) {
    let n = vs.len();
    let (g1, g2) = r.spare_capacity_mut();
    assert!(n <= g1.len() + g2.len());
    for (i, v) in vs.into_iter().enumerate() {
        if i < g1.len() {
            g1[i] = Some(v);
        } else {
            g2[i - g1.len()] = Some(v);
        }
    }
    r.back_init_change(n as isize);
}

fn prepend<T>(r: &mut VecRng<T>, vs: Vec<T>) {
    let n = vs.len();
    let (g1, g2) = r.spare_capacity_mut();
    let free = g1.len() + g2.len();
    assert!(n <= free);
    for (j, v) in vs.into_iter().enumerate() {
        let i = free - n + j;
        if i < g1.len() {
            g1[i] = Some(v);
        } else {
            g2[i - g1.len()] = Some(v);
        }
    }
    r.head_init_change(n as isize);
}

fn pop_front<T>(r: &mut VecRng<T>, n: usize) -> Vec<T> {
    let mut out = Vec::new();
    let (h, b) = r.as_mut();
    for k in 0..n {
        let x = if k < h.len() { h[k].take() } else { b[k - h.len()].take() };
        out.push(x.unwrap());
    }
    r.head_init_change(-(n as isize));
    out
}

fn pop_back<T>(r: &mut VecRng<T>, n: usize) -> Vec<T> {
    let mut out = Vec::new();
    let (h, b) = r.as_mut();
    let len = h.len() + b.len();
    for k in (len - n)..len {
        let x = if k < h.len() { h[k].take() } else { b[k - h.len()].take() };
        out.push(x.unwrap());
    }
    r.back_init_change(-(n as isize));
    out
}

fn wrapped_state() -> VecRng<u32> {
    let mut r = VecRng::<u32>::with_capacity(4);
    append(&mut r, vec![1, 2, 3, 4]);
    assert_eq!(pop_front(&mut r, 2), vec![1, 2]);
    append(&mut r, vec![5, 6]);
    r
}

#[test]
fn new_is_empty() {
    let mut r = VecRng::<u32>::new();
    assert_eq!(r.lens(), (0, 0));
    assert_eq!(capacity(&mut r), 0);
    assert!(contents(&r).is_empty());
}

#[test]
fn minimum_capacity_by_element_size() {
    assert_eq!(min_cap::<u8>(), 8);
    assert_eq!(min_cap::<u32>(), 4);
    assert_eq!(min_cap::<[u8; 1024]>(), 4);
    assert_eq!(min_cap::<[u8; 1025]>(), 1);
    let mut a = VecRng::<u8>::with_capacity(3);
    assert_eq!(capacity(&mut a), 8);
    let mut b = VecRng::<u32>::with_capacity(10);
    assert_eq!(capacity(&mut b), 10);
    let mut c = VecRng::<[u8; 2000]>::with_capacity(0);
    assert_eq!(capacity(&mut c), 1);
}

#[test]
fn wrapped_append() {
    let mut r = VecRng::<u32>::with_capacity(4);
    append(&mut r, vec![1, 2, 3, 4]);
    assert_eq!(r.lens(), (4, 0));
    assert_eq!(pop_front(&mut r, 2), vec![1, 2]);
    assert_eq!(r.lens(), (2, 0));
    {
        let (g1, g2) = r.spare_capacity_mut();
        assert_eq!((g1.len(), g2.len()), (0, 2));
    }
    append(&mut r, vec![5, 6]);
    let (h, b) = r.as_ref();
    assert_eq!(h, &[Some(3), Some(4)]);
    assert_eq!(b, &[Some(5), Some(6)]);
    assert_eq!(r.lens(), (2, 2));
}

#[test]
fn growth_linearizes_wrapped_state() {
    let mut r = wrapped_state();
    r.reserve(1);
    assert_eq!(capacity(&mut r), 8);
    let (h, b) = r.as_ref();
    assert_eq!(h, &[Some(3), Some(4), Some(5), Some(6)]);
    assert!(b.is_empty());
    assert_eq!(r.lens(), (4, 0));
    let (g1, g2) = r.spare_capacity_mut();
    assert_eq!((g1.len(), g2.len()), (4, 0));
}

#[test]
fn reserve_grows_only_when_short() {
    let mut r = VecRng::<u32>::with_capacity(4);
    append(&mut r, vec![1, 2]);
    r.reserve(2);
    assert_eq!(capacity(&mut r), 4);
    r.reserve(3);
    assert_eq!(capacity(&mut r), 8);
    r.reserve(20);
    assert_eq!(capacity(&mut r), 22);
    assert_eq!(contents(&r), vec![1, 2]);
    let mut e = VecRng::<u8>::new();
    e.reserve(1);
    assert_eq!(capacity(&mut e), 8);
    let mut z = VecRng::<u32>::new();
    z.reserve(0);
    assert_eq!(capacity(&mut z), 0);
}

#[test]
fn append_round_trip_across_wrap() {
    let mut r = VecRng::<u32>::with_capacity(5);
    append(&mut r, vec![10, 11, 12]);
    assert_eq!(pop_front(&mut r, 3), vec![10, 11, 12]);
    append(&mut r, vec![1, 2, 3, 4, 5]);
    assert_eq!(r.lens(), (2, 3));
    assert_eq!(contents(&r), vec![1, 2, 3, 4, 5]);
}

#[test]
fn prepend_wraps_to_the_end() {
    let mut r = VecRng::<u32>::with_capacity(4);
    append(&mut r, vec![3, 4]);
    prepend(&mut r, vec![1, 2]);
    assert_eq!(r.lens(), (2, 2));
    assert_eq!(contents(&r), vec![1, 2, 3, 4]);
    assert_eq!(pop_back(&mut r, 1), vec![4]);
    assert_eq!(contents(&r), vec![1, 2, 3]);
}

#[test]
fn growth_is_transparent_to_order() {
    let mut plain = VecRng::<u32>::with_capacity(16);
    let mut small = VecRng::<u32>::with_capacity(4);
    for round in 0..6u32 {
        let vs = vec![round * 10, round * 10 + 1];
        let ps = vec![100 + round];
        append(&mut plain, vs.clone());
        small.reserve(vs.len());
        append(&mut small, vs);
        prepend(&mut plain, ps.clone());
        small.reserve(1);
        prepend(&mut small, ps);
        if round % 2 == 1 {
            pop_front(&mut plain, 1);
            pop_front(&mut small, 1);
        }
        assert_eq!(contents(&plain), contents(&small));
    }
}

#[test]
fn back_commit_negative_shrinks() {
    let mut r = VecRng::<u32>::with_capacity(4);
    append(&mut r, vec![7, 8, 9]);
    assert_eq!(pop_back(&mut r, 2), vec![8, 9]);
    assert_eq!(contents(&r), vec![7]);
    assert_eq!(r.lens(), (1, 0));
}

struct Counted(Rc<Cell<usize>>);

impl Drop for Counted {
    fn drop(&mut self) {
        self.0.set(self.0.get() + 1);
    }
}

#[test]
fn each_live_value_dropped_once() {
    let drops = Rc::new(Cell::new(0));
    {
        let mut r = VecRng::<Counted>::with_capacity(4);
        let mk = |n: usize| (0..n).map(|_| Counted(drops.clone())).collect::<Vec<_>>();
        append(&mut r, mk(4));
        let popped = pop_front(&mut r, 3);
        assert_eq!(drops.get(), 0);
        drop(popped);
        assert_eq!(drops.get(), 3);
        append(&mut r, mk(3));
        r.reserve(5);
        assert_eq!(drops.get(), 3);
        assert_eq!(r.lens().0 + r.lens().1, 4);
    }
    assert_eq!(drops.get(), 7);
}

#[test]
fn empty_buffer_drops_nothing() {
    let drops = Rc::new(Cell::new(0));
    {
        let mut r = VecRng::<Counted>::with_capacity(8);
        r.reserve(100);
    }
    assert_eq!(drops.get(), 0);
}
