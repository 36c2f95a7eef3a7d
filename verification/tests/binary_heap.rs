use meldable_heaps::binary_heap::BinaryHeap;
use meldable_heaps::weight::weight_from_bits;

fn w(weight: f64) -> i64 {
    weight_from_bits(weight.to_bits()).expect("a weight must not be NaN")
}

fn create_heap() -> BinaryHeap<i64> {
    let mut heap = BinaryHeap::<i64>::new();
    heap.push(5, w(5.0));
    heap.push(1, w(1.0));
    heap.push(4, w(4.0));
    heap.push(2, w(2.0));
    heap.push(3, w(3.0));
    heap
}

fn force_pop(heap: &mut BinaryHeap<i64>) -> i64 {
    heap.pop().expect("Heap was empty").value
}

#[test]
fn binary_heap_remove_all() {
    let mut heap = create_heap();
    assert_eq!(force_pop(&mut heap), 1);
    assert_eq!(force_pop(&mut heap), 2);
    assert_eq!(force_pop(&mut heap), 3);
    assert_eq!(force_pop(&mut heap), 4);
    assert_eq!(force_pop(&mut heap), 5);
}

#[test]
fn binary_heap_is_empty() {
    let mut heap = BinaryHeap::<i64>::new();
    assert!(heap.is_empty());
    heap.push(1, w(1.0));
    assert!(!heap.is_empty());
    heap.pop();
    assert!(heap.is_empty());
}

#[test]
fn binary_heap_length() {
    let mut heap = create_heap();
    assert_eq!(heap.len(), 5);
    heap.pop();
    assert_eq!(heap.len(), 4);
}

fn drain(heap: &mut BinaryHeap<i64>) -> Vec<(i64, i64)> {
    let mut out = Vec::new();
    while let Some(item) = heap.pop() {
        out.push((item.value, item.weight));
    }
    out
}

#[test]
fn binary_heap_new_is_empty() {
    let heap = BinaryHeap::<i64>::new();
    assert_eq!(heap.len(), 0);
    assert!(heap.is_empty());
    assert!(heap.peek().is_none());
}

#[test]
fn binary_heap_peek_shows_the_lightest_and_keeps_it() {
    let heap = create_heap();
    let top = heap.peek().expect("Heap was empty");
    assert_eq!(top.value, 1);
    assert_eq!(top.weight, w(1.0));
    assert_eq!(heap.len(), 5);
    let again = heap.peek().expect("Heap was empty");
    assert_eq!(again.value, 1);
}

#[test]
fn binary_heap_pop_returns_value_and_weight() {
    let mut heap = create_heap();
    let item = heap.pop().expect("Heap was empty");
    assert_eq!(item.value, 1);
    assert_eq!(item.weight, w(1.0));
    assert_eq!(item.weight, 4607182418800017408);
}

#[test]
fn binary_heap_pop_on_empty_returns_none_every_time() {
    let mut heap = BinaryHeap::<i64>::new();
    for _ in 0..3 {
        assert!(heap.pop().is_none());
        assert!(heap.is_empty());
        assert_eq!(heap.len(), 0);
    }
    heap.push(9, w(9.0));
    assert_eq!(force_pop(&mut heap), 9);
    assert!(heap.pop().is_none());
    assert!(heap.pop().is_none());
    heap.push(8, w(8.0));
    assert_eq!(heap.len(), 1);
    assert_eq!(force_pop(&mut heap), 8);
}

#[test]
fn binary_heap_len_follows_push_and_pop() {
    let mut heap = BinaryHeap::<i64>::new();
    for i in 0..20 {
        assert_eq!(heap.len(), i as usize);
        assert_eq!(heap.is_empty(), heap.len() == 0);
        heap.push(i, w((20 - i) as f64));
    }
    for i in 0..20 {
        assert_eq!(heap.len(), 20 - i);
        assert!(heap.pop().is_some());
    }
    assert_eq!(heap.len(), 0);
    assert!(heap.is_empty());
}

#[test]
fn binary_heap_pops_weights_in_ascending_order() {
    let weights = [
        3.5, -2.0, 7.25, 0.0, -2.0, 1e300, -1e-300, 3.5, 42.0, -0.0, 5e-324, 7.25, -1e300, 0.5,
    ];
    let mut heap = BinaryHeap::<i64>::new();
    for (i, x) in weights.iter().enumerate() {
        heap.push(i as i64, w(*x));
    }
    let popped = drain(&mut heap);
    assert_eq!(popped.len(), weights.len());
    for pair in popped.windows(2) {
        assert!(pair[0].1 <= pair[1].1);
        assert!(weights[pair[0].0 as usize] <= weights[pair[1].0 as usize]);
    }
    let mut values: Vec<i64> = popped.iter().map(|p| p.0).collect();
    values.sort();
    assert_eq!(values, (0..weights.len() as i64).collect::<Vec<i64>>());
}

#[test]
fn binary_heap_orders_infinities_and_zeros() {
    let mut heap = BinaryHeap::<i64>::new();
    heap.push(1, w(f64::INFINITY));
    heap.push(2, w(-1.5));
    heap.push(3, w(f64::NEG_INFINITY));
    heap.push(4, w(0.0));
    heap.push(5, w(f64::MAX));
    heap.push(6, w(f64::MIN));
    let values: Vec<i64> = drain(&mut heap).iter().map(|p| p.0).collect();
    assert_eq!(values, vec![3, 6, 2, 4, 5, 1]);
}

#[test]
fn binary_heap_equal_weights_leave_in_array_order() {
    let mut heap = BinaryHeap::<i64>::new();
    for value in [10, 20, 30, 40, 50, 60, 70] {
        heap.push(value, 1);
    }
    let values: Vec<i64> = drain(&mut heap).iter().map(|p| p.0).collect();
    assert_eq!(values, vec![10, 70, 60, 50, 40, 30, 20]);
}

#[test]
fn binary_heap_mixed_ties_follow_the_walks() {
    let mut heap = BinaryHeap::<i64>::new();
    for (value, weight) in [(1, 2), (2, 1), (3, 2), (4, 1), (5, 2), (6, 1), (7, 0), (8, 0)] {
        heap.push(value, weight);
    }
    assert_eq!(
        drain(&mut heap),
        vec![(7, 0), (8, 0), (6, 1), (4, 1), (2, 1), (1, 2), (5, 2), (3, 2)]
    );
}

#[test]
fn binary_heap_meld_adds_lengths_and_keeps_order() {
    let mut ours = BinaryHeap::<i64>::new();
    for (value, weight) in [(1, 3), (2, 1), (3, 2)] {
        ours.push(value, weight);
    }
    let mut theirs = BinaryHeap::<i64>::new();
    for (value, weight) in [(4, 2), (5, 0), (6, 1)] {
        theirs.push(value, weight);
    }
    ours.meld(theirs);
    assert_eq!(ours.len(), 6);
    assert_eq!(ours.peek().expect("Heap was empty").value, 5);
    assert_eq!(drain(&mut ours), vec![(5, 0), (2, 1), (6, 1), (3, 2), (4, 2), (1, 3)]);
}

#[test]
fn binary_heap_meld_with_empty_heaps() {
    let mut heap = create_heap();
    heap.meld(BinaryHeap::<i64>::new());
    assert_eq!(heap.len(), 5);
    let mut empty = BinaryHeap::<i64>::new();
    empty.meld(heap);
    assert_eq!(empty.len(), 5);
    let values: Vec<i64> = drain(&mut empty).iter().map(|p| p.0).collect();
    assert_eq!(values, vec![1, 2, 3, 4, 5]);
    let mut nothing = BinaryHeap::<i64>::new();
    nothing.meld(BinaryHeap::<i64>::new());
    assert!(nothing.is_empty());
    assert!(nothing.pop().is_none());
}

fn sequential_heap(from: i64, to: i64) -> BinaryHeap<i64> {
    let mut heap = BinaryHeap::<i64>::new();
    for i in from..to {
        heap.push(i, w(i as f64));
    }
    heap
}

#[test]
fn binary_heap_meld_gives_the_same_order_either_way() {
    let mut small = sequential_heap(0, 5);
    small.meld(sequential_heap(5, 15));
    assert_eq!(small.len(), 15);
    let mut big = sequential_heap(5, 15);
    big.meld(sequential_heap(0, 5));
    assert_eq!(big.len(), 15);
    for i in 0..15 {
        assert_eq!(force_pop(&mut small), i);
        assert_eq!(force_pop(&mut big), i);
    }
    assert!(small.is_empty());
    assert!(big.is_empty());
}

#[test]
fn binary_heap_holds_owned_values() {
    let mut heap = BinaryHeap::<String>::new();
    heap.push(String::from("late"), w(2.0));
    heap.push(String::from("early"), w(-2.0));
    heap.push(String::from("middle"), w(0.25));
    assert_eq!(heap.pop().expect("Heap was empty").value, "early");
    assert_eq!(heap.pop().expect("Heap was empty").value, "middle");
    assert_eq!(heap.pop().expect("Heap was empty").value, "late");
}

#[test]
fn binary_heap_insert_decreasing_and_increasing() {
    let mut heap = BinaryHeap::<i64>::new();
    for i in 0..100 {
        heap.push(99 - i, w((99 - i) as f64));
    }
    for i in 0..100 {
        assert_eq!(force_pop(&mut heap), i);
    }
    for i in 0..100 {
        heap.push(i, w(i as f64));
    }
    for i in 0..100 {
        assert_eq!(force_pop(&mut heap), i);
    }
}

/// The weights that the debug rendering of a heap shows, in array order.
fn weights_shown(rendering: &str) -> Vec<i64> {
    rendering
        .split("weight: ")
        .skip(1)
        .map(|rest| {
            let end = rest.find(|c: char| c != '-' && !c.is_ascii_digit()).expect("a number ends");
            rest[..end].parse::<i64>().expect("a weight")
        })
        .collect()
}

fn assert_heap_order(weights: &[i64]) {
    for i in 1..weights.len() {
        assert!(weights[(i - 1) / 2] <= weights[i], "position {} is lighter than its parent", i);
    }
}

#[test]
fn binary_heap_array_after_pushes_and_pop() {
    let mut heap = BinaryHeap::<i64>::new();
    assert_eq!(format!("{:?}", heap), "BinaryHeap { heap: [] }");
    for (value, weight) in [(1, 2), (2, 1), (3, 2), (4, 1), (5, 2), (6, 1), (7, 0), (8, 0)] {
        heap.push(value, weight);
    }
    assert_eq!(
        format!("{:?}", heap),
        "BinaryHeap { heap: [Item { value: 7, weight: 0 }, Item { value: 8, weight: 0 }, \
         Item { value: 2, weight: 1 }, Item { value: 4, weight: 1 }, Item { value: 5, weight: 2 }, \
         Item { value: 3, weight: 2 }, Item { value: 6, weight: 1 }, Item { value: 1, weight: 2 }] }"
    );
    assert_eq!(force_pop(&mut heap), 7);
    assert_eq!(
        format!("{:?}", heap),
        "BinaryHeap { heap: [Item { value: 8, weight: 0 }, Item { value: 4, weight: 1 }, \
         Item { value: 2, weight: 1 }, Item { value: 1, weight: 2 }, Item { value: 5, weight: 2 }, \
         Item { value: 3, weight: 2 }, Item { value: 6, weight: 1 }] }"
    );
}

#[test]
fn binary_heap_array_after_meld() {
    let mut ours = BinaryHeap::<i64>::new();
    for (value, weight) in [(1, 3), (2, 1), (3, 2)] {
        ours.push(value, weight);
    }
    let mut theirs = BinaryHeap::<i64>::new();
    for (value, weight) in [(4, 2), (5, 0), (6, 1)] {
        theirs.push(value, weight);
    }
    ours.meld(theirs);
    assert_eq!(
        format!("{:?}", ours),
        "BinaryHeap { heap: [Item { value: 5, weight: 0 }, Item { value: 2, weight: 1 }, \
         Item { value: 6, weight: 1 }, Item { value: 1, weight: 3 }, Item { value: 4, weight: 2 }, \
         Item { value: 3, weight: 2 }] }"
    );
}

#[test]
fn binary_heap_keeps_heap_order_after_every_operation() {
    let mut heap = BinaryHeap::<i64>::new();
    for i in 0..60i64 {
        heap.push(i, (i * 37) % 23 - 11);
        assert_heap_order(&weights_shown(&format!("{:?}", heap)));
    }
    for _ in 0..25 {
        assert!(heap.pop().is_some());
        assert_heap_order(&weights_shown(&format!("{:?}", heap)));
    }
    let mut other = BinaryHeap::<i64>::new();
    for i in 0..40i64 {
        other.push(100 + i, (i * 13) % 17 - 20);
    }
    heap.meld(other);
    let weights = weights_shown(&format!("{:?}", heap));
    assert_eq!(weights.len(), 75);
    assert_heap_order(&weights);
    while heap.pop().is_some() {
        assert_heap_order(&weights_shown(&format!("{:?}", heap)));
    }
}
