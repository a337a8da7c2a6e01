use heaps::binary_heap::BinaryHeap;
use heaps::heap::Heap;
use heaps::vectorized_heap::VectorizedHeap;
use heaps::vectorized_heap2::VectorizedHeap as SizedHeap;

fn bits(x: f32) -> u32 {
    x.to_bits()
}

fn value(b: u32) -> f32 {
    f32::from_bits(b)
}

fn drain<H: Heap>(heap: &mut H) -> Vec<(usize, f32)> {
    let mut out = Vec::new();
    while let Some((k, p)) = heap.pop() {
        out.push((k, value(p)));
    }
    out
}

fn drain_sized(heap: &mut SizedHeap) -> Vec<(usize, f32)> {
    let mut out = Vec::new();
    while let Some((k, p)) = heap.pop() {
        out.push((k, value(p)));
    }
    out
}

fn four<H: Heap>() -> H {
    let mut heap = H::new();
    for p in [5.0f32, 3.0, 8.0, 1.0] {
        heap.push(bits(p));
    }
    heap
}

fn four_sized() -> SizedHeap {
    let mut heap = SizedHeap::new(4);
    for (k, p) in [5.0f32, 3.0, 8.0, 1.0].iter().enumerate() {
        heap.push(bits(*p), k);
    }
    heap
}

fn scrambled(n: usize) -> Vec<f32> {
    (0..n).map(|i| ((i * 7919 + 13) % 10007) as f32 * 0.25 - 500.0).collect()
}

fn search<H: Heap>(edges: &Vec<Vec<(usize, f32)>>) -> Vec<f32> {
    let mut res = vec![f32::INFINITY; edges.len()];
    res[0] = 0.0;
    let mut heap = H::new();
    heap.push(bits(0.0));
    for _ in 1..edges.len() {
        heap.push(bits(f32::INFINITY));
    }
    while let Some((index, val)) = heap.pop() {
        let val = value(val);
        for &(to, w) in &edges[index] {
            if val + w < res[to] {
                res[to] = val + w;
                heap.decrease_key(to, bits(val + w));
            }
        }
    }
    res
}

fn search_sized(edges: &Vec<Vec<(usize, f32)>>) -> Vec<f32> {
    let mut res = vec![f32::INFINITY; edges.len()];
    res[0] = 0.0;
    let mut heap = SizedHeap::new(edges.len());
    heap.push(bits(0.0), 0);
    while let Some((index, val)) = heap.pop() {
        let val = value(val);
        for &(to, w) in &edges[index] {
            if val + w < res[to] {
                res[to] = val + w;
                heap.push_or_decrease_key(to, bits(val + w));
            }
        }
    }
    res
}

fn small_graph() -> Vec<Vec<(usize, f32)>> {
    vec![vec![(1, 2.0), (2, 5.0)], vec![(2, 1.0), (3, 3.0)], vec![(3, 1.0)], vec![]]
}

const EXPECTED: [(usize, f32); 4] = [(3, 1.0), (1, 3.0), (0, 5.0), (2, 8.0)];

#[test]
fn binary_heap_pops_in_priority_order() {
    let mut heap: BinaryHeap = four();
    assert_eq!(heap.len(), 4);
    assert_eq!(drain(&mut heap), EXPECTED.to_vec());
    assert_eq!(heap.len(), 0);
}

#[test]
fn wide_heap_pops_in_priority_order() {
    let mut heap: VectorizedHeap = four();
    assert_eq!(heap.len(), 4);
    assert_eq!(drain(&mut heap), EXPECTED.to_vec());
    assert_eq!(heap.len(), 0);
}

#[test]
fn sized_heap_pops_in_priority_order() {
    let mut heap = four_sized();
    assert_eq!(heap.len(), 4);
    assert_eq!(drain_sized(&mut heap), EXPECTED.to_vec());
    assert!(heap.is_empty());
}

#[test]
fn binary_heap_decrease_key_comes_first() {
    let mut heap: BinaryHeap = four();
    heap.decrease_key(2, bits(0.5));
    assert_eq!(heap.pop().map(|(k, p)| (k, value(p))), Some((2, 0.5)));
    assert_eq!(drain(&mut heap), vec![(3, 1.0), (1, 3.0), (0, 5.0)]);
}

#[test]
fn wide_heap_decrease_key_comes_first() {
    let mut heap: VectorizedHeap = four();
    heap.decrease_key(2, bits(0.5));
    assert_eq!(heap.pop().map(|(k, p)| (k, value(p))), Some((2, 0.5)));
    assert_eq!(drain(&mut heap), vec![(3, 1.0), (1, 3.0), (0, 5.0)]);
}

#[test]
fn sized_heap_decrease_key_comes_first() {
    let mut heap = four_sized();
    heap.decrease_key(2, bits(0.5));
    assert_eq!(heap.pop().map(|(k, p)| (k, value(p))), Some((2, 0.5)));
    assert_eq!(drain_sized(&mut heap), vec![(3, 1.0), (1, 3.0), (0, 5.0)]);
}

#[test]
fn empty_heaps_pop_nothing() {
    let mut a = BinaryHeap::new();
    let mut b = VectorizedHeap::new();
    let mut c = SizedHeap::new(8);
    assert_eq!(a.pop(), None);
    assert_eq!(b.pop(), None);
    assert_eq!(c.pop(), None);
    assert_eq!(a.len(), 0);
    assert_eq!(b.len(), 0);
    assert_eq!(c.len(), 0);
    assert!(c.is_empty());
}

#[test]
fn length_counts_pushes_minus_pops() {
    let mut a = BinaryHeap::new();
    let mut b = VectorizedHeap::new();
    let mut c = SizedHeap::new(40);
    for i in 0..40usize {
        let p = bits((i * 17 % 40) as f32);
        a.push(p);
        b.push(p);
        c.push(p, i);
        assert_eq!(a.len(), i + 1);
        assert_eq!(b.len(), i + 1);
        assert_eq!(c.len(), i + 1);
        assert!(!c.is_empty());
    }
    for i in 0..40usize {
        assert!(a.pop().is_some());
        assert!(b.pop().is_some());
        assert!(c.pop().is_some());
        assert_eq!(a.len(), 39 - i);
        assert_eq!(b.len(), 39 - i);
        assert_eq!(c.len(), 39 - i);
    }
    assert!(c.is_empty());
}

#[test]
fn pops_never_go_down() {
    let values = scrambled(1000);
    let mut a = BinaryHeap::new();
    let mut b = VectorizedHeap::new();
    let mut c = SizedHeap::new(values.len());
    for (k, v) in values.iter().enumerate() {
        a.push(bits(*v));
        b.push(bits(*v));
        c.push(bits(*v), k);
    }
    let mut sorted = values.clone();
    sorted.sort_by(|x, y| x.partial_cmp(y).unwrap());
    let pa = drain(&mut a);
    let pb = drain(&mut b);
    let pc = drain_sized(&mut c);
    assert_eq!(pa.iter().map(|e| e.1).collect::<Vec<f32>>(), sorted);
    assert_eq!(pb.iter().map(|e| e.1).collect::<Vec<f32>>(), sorted);
    assert_eq!(pc.iter().map(|e| e.1).collect::<Vec<f32>>(), sorted);
    for (k, p) in pa.iter() {
        assert_eq!(values[*k], *p);
    }
}

#[test]
fn heaps_agree_on_one_trace() {
    let values = scrambled(600);
    let mut a = BinaryHeap::new();
    let mut b = VectorizedHeap::new();
    let mut c = SizedHeap::new(values.len());
    for (k, v) in values.iter().enumerate() {
        a.push(bits(*v));
        b.push(bits(*v));
        c.push(bits(*v), k);
    }
    let mut out_a = Vec::new();
    let mut out_b = Vec::new();
    let mut out_c = Vec::new();
    for _ in 0..100 {
        out_a.push(a.pop().unwrap());
        out_b.push(b.pop().unwrap());
        out_c.push(c.pop().unwrap());
    }
    let gone: Vec<usize> = out_a.iter().map(|e| e.0).collect();
    for k in (0..600usize).step_by(7) {
        if !gone.contains(&k) {
            let lower = bits(values[k] - 3000.0 - k as f32);
            a.decrease_key(k, lower);
            b.decrease_key(k, lower);
            c.decrease_key(k, lower);
        }
    }
    while let Some(e) = a.pop() {
        out_a.push(e);
    }
    while let Some(e) = b.pop() {
        out_b.push(e);
    }
    while let Some(e) = c.pop() {
        out_c.push(e);
    }
    assert_eq!(out_a.len(), 600);
    assert_eq!(out_a, out_b);
    assert_eq!(out_a, out_c);
}

#[test]
fn decreased_key_is_popped_with_its_new_priority() {
    let mut heap = SizedHeap::new(64);
    for k in 0..64usize {
        heap.push(bits(100.0 + k as f32), k);
    }
    heap.decrease_key(40, bits(120.5));
    heap.decrease_key(63, bits(-1.0));
    let out = drain_sized(&mut heap);
    assert_eq!(out[0], (63, -1.0));
    let at = out.iter().position(|e| e.0 == 40).unwrap();
    assert_eq!(out[at].1, 120.5);
    assert_eq!(out[at - 1], (20, 120.0));
    assert_eq!(out[at + 1], (21, 121.0));
}

#[test]
fn push_or_decrease_key_pushes_then_lowers() {
    let mut heap = SizedHeap::new(10);
    assert!(!heap.contains(7));
    heap.push_or_decrease_key(7, bits(4.0));
    assert!(heap.contains(7));
    assert_eq!(heap.len(), 1);
    heap.push_or_decrease_key(2, bits(3.0));
    assert_eq!(heap.len(), 2);
    heap.push_or_decrease_key(7, bits(1.0));
    assert_eq!(heap.len(), 2);
    assert_eq!(drain_sized(&mut heap), vec![(7, 1.0), (2, 3.0)]);
    assert!(!heap.contains(7));
    assert!(!heap.contains(2));
}

#[test]
fn popped_key_can_be_pushed_again() {
    let mut heap = SizedHeap::new(3);
    heap.push(bits(2.0), 0);
    heap.push(bits(1.0), 1);
    assert_eq!(heap.pop().map(|(k, p)| (k, value(p))), Some((1, 1.0)));
    assert!(!heap.contains(1));
    heap.push_or_decrease_key(1, bits(9.0));
    heap.push(bits(0.0), 2);
    assert_eq!(drain_sized(&mut heap), vec![(2, 0.0), (0, 2.0), (1, 9.0)]);
}

#[test]
fn push_after_pop_reuses_the_free_key() {
    let mut a = BinaryHeap::new();
    let mut b = VectorizedHeap::new();
    for p in [1.0f32, 2.0, 0.5] {
        a.push(bits(p));
        b.push(bits(p));
    }
    assert_eq!(a.pop().map(|(k, p)| (k, value(p))), Some((2, 0.5)));
    assert_eq!(b.pop().map(|(k, p)| (k, value(p))), Some((2, 0.5)));
    a.push(bits(1.5));
    b.push(bits(1.5));
    assert_eq!(drain(&mut a), vec![(0, 1.0), (2, 1.5), (1, 2.0)]);
    assert_eq!(drain(&mut b), vec![(0, 1.0), (2, 1.5), (1, 2.0)]);
}

#[test]
fn infinite_priorities_are_popped_last() {
    let mut a = BinaryHeap::new();
    let mut b = VectorizedHeap::new();
    let mut c = SizedHeap::new(20);
    for k in 0..20usize {
        let p = if k == 13 { bits(4.0) } else { bits(f32::INFINITY) };
        a.push(p);
        b.push(p);
        c.push(p, k);
    }
    let pa = drain(&mut a);
    let pb = drain(&mut b);
    let pc = drain_sized(&mut c);
    for out in [pa, pb, pc] {
        assert_eq!(out.len(), 20);
        assert_eq!(out[0], (13, 4.0));
        let mut keys: Vec<usize> = out.iter().map(|e| e.0).collect();
        keys.sort();
        assert_eq!(keys, (0..20).collect::<Vec<usize>>());
        assert!(out[1..].iter().all(|e| e.1 == f32::INFINITY));
    }
}

#[test]
fn shortest_paths_on_the_small_graph() {
    let edges = small_graph();
    assert_eq!(search::<BinaryHeap>(&edges), vec![0.0, 2.0, 3.0, 4.0]);
    assert_eq!(search::<VectorizedHeap>(&edges), vec![0.0, 2.0, 3.0, 4.0]);
    assert_eq!(search_sized(&edges), vec![0.0, 2.0, 3.0, 4.0]);
}

#[test]
fn shortest_paths_agree_on_a_larger_graph() {
    let n = 300usize;
    let mut edges: Vec<Vec<(usize, f32)>> = vec![Vec::new(); n];
    let mut seed: u64 = 12345;
    for i in 0..n {
        for _ in 0..6 {
            seed = seed.wrapping_mul(6364136223846793005).wrapping_add(1442695040888963407);
            let to = ((seed >> 33) as usize) % n;
            seed = seed.wrapping_mul(6364136223846793005).wrapping_add(1442695040888963407);
            let w = ((seed >> 40) % 1000) as f32 / 16.0 + 0.0625;
            edges[i].push((to, w));
        }
    }
    let a = search::<BinaryHeap>(&edges);
    let b = search::<VectorizedHeap>(&edges);
    let c = search_sized(&edges);
    assert_eq!(a, b);
    assert_eq!(a, c);
    assert_eq!(a[0], 0.0);
}

#[test]
fn contains_follows_pushes_and_pops() {
    let mut a = BinaryHeap::new();
    let mut b = VectorizedHeap::new();
    assert!(!a.contains(0));
    assert!(!b.contains(0));
    for p in [4.0f32, 2.0, 6.0] {
        a.push(bits(p));
        b.push(bits(p));
    }
    for k in 0..3 {
        assert!(a.contains(k));
        assert!(b.contains(k));
    }
    assert!(!a.contains(3));
    assert!(!b.contains(3));
    assert_eq!(a.pop().map(|(k, p)| (k, value(p))), Some((1, 2.0)));
    assert_eq!(b.pop().map(|(k, p)| (k, value(p))), Some((1, 2.0)));
    assert!(!a.contains(1));
    assert!(!b.contains(1));
    assert!(a.contains(0) && a.contains(2));
    assert!(b.contains(0) && b.contains(2));
}

#[test]
fn wide_heap_spans_several_levels() {
    let n = 16 + 16 * 16 + 50;
    let mut b = VectorizedHeap::new();
    let mut c = SizedHeap::new(n);
    for k in 0..n {
        let p = bits((n - k) as f32);
        b.push(p);
        c.push(p, k);
    }
    let pb = drain(&mut b);
    let pc = drain_sized(&mut c);
    assert_eq!(pb.len(), n);
    for (i, e) in pb.iter().enumerate() {
        assert_eq!(*e, (n - 1 - i, (i + 1) as f32));
    }
    assert_eq!(pb, pc);
}

#[test]
fn find_min_picks_the_first_smallest_slot_of_a_group() {
    let mut b = VectorizedHeap::new();
    let mut c = SizedHeap::new(40);
    for k in 0..40usize {
        let p = bits(if k == 5 || k == 9 { 1.0 } else { 3.0 + k as f32 });
        b.push(p);
        c.push(p, k);
    }
    assert_eq!(b.find_min(0), 5);
    assert_eq!(c.find_min(0), 5);
    assert_eq!(b.find_min(16), 16);
    assert_eq!(c.find_min(1), 0);
    assert_eq!(b.find_min(32), 32);
    assert_eq!(c.find_min(2), 0);
}

#[test]
fn find_min_skips_the_free_slots_of_a_group() {
    let mut b = VectorizedHeap::new();
    let mut c = SizedHeap::new(20);
    for k in 0..20usize {
        b.push(bits(f32::INFINITY));
        c.push(bits(f32::INFINITY), k);
    }
    assert_eq!(b.find_min(16), 16);
    assert_eq!(c.find_min(1), 0);
    b.decrease_key(19, bits(1.0e30));
    c.decrease_key(19, bits(1.0e30));
    assert_eq!(b.find_min(16), 16);
    assert_eq!(c.find_min(1), 0);
    assert_eq!(b.find_min(0), 0);
    assert_eq!(c.find_min(0), 0);
    assert_eq!(b.pop().map(|(k, p)| (k, value(p))), Some((19, 1.0e30)));
    assert_eq!(c.pop().map(|(k, p)| (k, value(p))), Some((19, 1.0e30)));
}
