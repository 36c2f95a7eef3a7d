use meldable_heaps::indexed_binary_heap::{HeapError, IndexedBinaryHeap};
use meldable_heaps::weight::weight_from_bits;

fn w(weight: f64) -> i64 {
    weight_from_bits(weight.to_bits()).expect("a weight must not be NaN")
}

fn create_indexed_heap() -> IndexedBinaryHeap {
    let mut heap = IndexedBinaryHeap::new();
    heap.push(5, w(5.0)).expect("value was new");
    heap.push(1, w(1.0)).expect("value was new");
    heap.push(4, w(4.0)).expect("value was new");
    heap.push(2, w(2.0)).expect("value was new");
    heap.push(3, w(3.0)).expect("value was new");
    heap
}

fn force_pop_indexed(heap: &mut IndexedBinaryHeap) -> u64 {
    heap.pop().expect("Heap was empty").value
}

fn drain_indexed(heap: &mut IndexedBinaryHeap) -> Vec<(u64, i64)> {
    let mut out = Vec::new();
    while let Some(item) = heap.pop() {
        out.push((item.value, item.weight));
    }
    out
}

#[test]
fn indexed_heap_remove_all() {
    let mut heap = create_indexed_heap();
    assert_eq!(force_pop_indexed(&mut heap), 1);
    assert_eq!(force_pop_indexed(&mut heap), 2);
    assert_eq!(force_pop_indexed(&mut heap), 3);
    assert_eq!(force_pop_indexed(&mut heap), 4);
    assert_eq!(force_pop_indexed(&mut heap), 5);
}

#[test]
fn indexed_heap_is_empty() {
    let mut heap = IndexedBinaryHeap::new();
    assert!(heap.is_empty());
    assert_eq!(heap.push(1, w(1.0)), Ok(()));
    assert!(!heap.is_empty());
    heap.pop();
    assert!(heap.is_empty());
}

#[test]
fn indexed_heap_length() {
    let mut heap = create_indexed_heap();
    assert_eq!(heap.len(), 5);
    heap.pop();
    assert_eq!(heap.len(), 4);
}

#[test]
fn indexed_heap_peek_shows_the_lightest_and_keeps_it() {
    let heap = create_indexed_heap();
    let top = heap.peek().expect("Heap was empty");
    assert_eq!(top.value, 1);
    assert_eq!(top.weight, w(1.0));
    assert_eq!(heap.len(), 5);
    assert!(IndexedBinaryHeap::new().peek().is_none());
}

#[test]
fn indexed_heap_pop_on_empty_returns_none_every_time() {
    let mut heap = IndexedBinaryHeap::new();
    for _ in 0..3 {
        assert!(heap.pop().is_none());
        assert!(heap.is_empty());
        assert_eq!(heap.len(), 0);
    }
    assert_eq!(heap.push(3, w(1.0)), Ok(()));
    assert_eq!(force_pop_indexed(&mut heap), 3);
    assert!(heap.pop().is_none());
    assert!(heap.pop().is_none());
}

#[test]
fn indexed_heap_push_refuses_a_duplicate_value() {
    let mut heap = create_indexed_heap();
    assert_eq!(heap.push(4, w(0.5)), Err(HeapError::DuplicateValue));
    assert_eq!(heap.push(4, w(4.0)), Err(HeapError::DuplicateValue));
    assert_eq!(heap.len(), 5);
    assert_eq!(heap.peek().expect("Heap was empty").value, 1);
    assert_eq!(
        drain_indexed(&mut heap),
        vec![(1, w(1.0)), (2, w(2.0)), (3, w(3.0)), (4, w(4.0)), (5, w(5.0))]
    );
}

#[test]
fn indexed_heap_update_weight_refuses_an_absent_value() {
    let mut heap = create_indexed_heap();
    assert_eq!(heap.update_weight(6, w(0.5)), Err(HeapError::ValueNotFound));
    assert_eq!(heap.len(), 5);
    assert!(!heap.contains(6));
    assert_eq!(
        drain_indexed(&mut heap),
        vec![(1, w(1.0)), (2, w(2.0)), (3, w(3.0)), (4, w(4.0)), (5, w(5.0))]
    );
    let mut empty = IndexedBinaryHeap::new();
    assert_eq!(empty.update_weight(1, w(1.0)), Err(HeapError::ValueNotFound));
    assert!(empty.is_empty());
}

#[test]
fn indexed_heap_decreased_weight_pops_first() {
    let mut heap = create_indexed_heap();
    assert_eq!(heap.update_weight(5, w(-3.0)), Ok(()));
    assert_eq!(heap.len(), 5);
    let item = heap.pop().expect("Heap was empty");
    assert_eq!(item.value, 5);
    assert_eq!(item.weight, w(-3.0));
    let values: Vec<u64> = drain_indexed(&mut heap).iter().map(|p| p.0).collect();
    assert_eq!(values, vec![1, 2, 3, 4]);
}

#[test]
fn indexed_heap_increased_weight_pops_last() {
    let mut heap = create_indexed_heap();
    assert_eq!(heap.update_weight(1, w(10.0)), Ok(()));
    assert_eq!(
        drain_indexed(&mut heap),
        vec![(2, w(2.0)), (3, w(3.0)), (4, w(4.0)), (5, w(5.0)), (1, w(10.0))]
    );
}

#[test]
fn indexed_heap_update_to_the_same_weight_changes_nothing() {
    let mut heap = create_indexed_heap();
    assert_eq!(heap.update_weight(3, w(3.0)), Ok(()));
    assert_eq!(heap.update_weight(1, w(1.0)), Ok(()));
    let values: Vec<u64> = drain_indexed(&mut heap).iter().map(|p| p.0).collect();
    assert_eq!(values, vec![1, 2, 3, 4, 5]);
}

#[test]
fn indexed_heap_contains_follows_push_and_pop() {
    let mut heap = IndexedBinaryHeap::new();
    assert!(!heap.contains(7));
    assert_eq!(heap.push(7, w(1.0)), Ok(()));
    assert_eq!(heap.push(8, w(0.5)), Ok(()));
    assert!(heap.contains(7));
    assert!(heap.contains(8));
    assert_eq!(force_pop_indexed(&mut heap), 8);
    assert!(!heap.contains(8));
    assert!(heap.contains(7));
    assert_eq!(heap.update_weight(8, w(0.0)), Err(HeapError::ValueNotFound));
    assert_eq!(heap.push(8, w(2.0)), Ok(()));
    assert!(heap.contains(8));
    assert_eq!(force_pop_indexed(&mut heap), 7);
    assert_eq!(force_pop_indexed(&mut heap), 8);
    assert!(!heap.contains(7));
}

#[test]
fn indexed_heap_positions_stay_right_through_many_swaps() {
    let mut heap = IndexedBinaryHeap::new();
    for value in 0..64u64 {
        assert_eq!(heap.push(value, w((64 - value) as f64)), Ok(()));
    }
    for _ in 0..10 {
        assert!(heap.pop().is_some());
    }
    // the values 0..54 are left, with the weights 64 - value; turn the order round
    for value in 0..54u64 {
        assert!(heap.contains(value));
        assert_eq!(heap.update_weight(value, w(value as f64)), Ok(()));
    }
    for value in 54..64u64 {
        assert!(!heap.contains(value));
        assert_eq!(heap.update_weight(value, w(0.0)), Err(HeapError::ValueNotFound));
    }
    assert_eq!(heap.len(), 54);
    for value in 0..54u64 {
        let item = heap.pop().expect("Heap was empty");
        assert_eq!(item.value, value);
        assert_eq!(item.weight, w(value as f64));
    }
    assert!(heap.is_empty());
}

#[test]
fn indexed_heap_pops_weights_in_ascending_order() {
    let weights = [
        3.5, -2.0, 7.25, 0.0, -2.0, 1e300, -1e-300, 3.5, 42.0, -0.0, 5e-324, 7.25, -1e300, 0.5,
    ];
    let mut heap = IndexedBinaryHeap::new();
    for (i, x) in weights.iter().enumerate() {
        assert_eq!(heap.push(i as u64, w(*x)), Ok(()));
    }
    assert_eq!(heap.update_weight(5, w(-7.0)), Ok(()));
    assert_eq!(heap.update_weight(12, w(1e10)), Ok(()));
    let popped = drain_indexed(&mut heap);
    assert_eq!(popped.len(), weights.len());
    for pair in popped.windows(2) {
        assert!(pair[0].1 <= pair[1].1);
    }
    assert_eq!(popped.last().expect("not empty").0, 12);
}

#[test]
fn indexed_heap_mixed_ties_follow_the_walks() {
    let mut heap = IndexedBinaryHeap::new();
    for (value, weight) in [(1, 2), (2, 1), (3, 2), (4, 1), (5, 2), (6, 1), (7, 0), (8, 0)] {
        assert_eq!(heap.push(value, weight), Ok(()));
    }
    assert_eq!(
        drain_indexed(&mut heap),
        vec![(7, 0), (8, 0), (6, 1), (4, 1), (2, 1), (1, 2), (5, 2), (3, 2)]
    );
}

/// The array and the position map that the debug rendering of a heap shows.
fn shown(heap: &IndexedBinaryHeap) -> (Vec<(u64, i64)>, Vec<(u64, usize)>) {
    let rendering = format!("{:?}", heap);
    let array_from = rendering.find("heap: [").expect("the array") + "heap: [".len();
    let array_to = rendering.find("], indices: {").expect("the map");
    let map_from = array_to + "], indices: {".len();
    let map_to = rendering.rfind("} }").expect("the end");
    let mut array = Vec::new();
    for part in rendering[array_from..array_to].split("Item { value: ").skip(1) {
        let (value, rest) = part.split_once(", weight: ").expect("a weight");
        let (weight, _) = rest.split_once(" }").expect("the end of an item");
        array.push((value.parse::<u64>().expect("a value"), weight.parse::<i64>().expect("a weight")));
    }
    let mut map = Vec::new();
    for part in rendering[map_from..map_to].split(", ").filter(|part| !part.is_empty()) {
        let (value, position) = part.split_once(": ").expect("a position");
        map.push((value.parse::<u64>().expect("a value"), position.parse::<usize>().expect("a position")));
    }
    map.sort();
    (array, map)
}

fn assert_consistent(heap: &IndexedBinaryHeap) {
    let (array, map) = shown(heap);
    assert_eq!(array.len(), heap.len());
    assert_eq!(map.len(), array.len());
    for (value, position) in &map {
        assert_eq!(array[*position].0, *value);
    }
    for (position, (value, _)) in array.iter().enumerate() {
        assert!(map.contains(&(*value, position)));
        assert!(heap.contains(*value));
    }
    for position in 1..array.len() {
        assert!(array[(position - 1) / 2].1 <= array[position].1);
    }
}

#[test]
fn indexed_heap_array_and_positions_after_updates() {
    let mut heap = IndexedBinaryHeap::new();
    assert_eq!(shown(&heap), (vec![], vec![]));
    for (value, weight) in [(5, 5), (1, 1), (4, 4), (2, 2), (3, 3)] {
        assert_eq!(heap.push(value, weight), Ok(()));
    }
    assert_eq!(
        shown(&heap),
        (vec![(1, 1), (2, 2), (4, 4), (5, 5), (3, 3)], vec![(1, 0), (2, 1), (3, 4), (4, 2), (5, 3)])
    );
    assert_eq!(heap.update_weight(5, -3), Ok(()));
    assert_eq!(
        shown(&heap),
        (vec![(5, -3), (1, 1), (4, 4), (2, 2), (3, 3)], vec![(1, 1), (2, 3), (3, 4), (4, 2), (5, 0)])
    );
    assert_eq!(heap.update_weight(5, 10), Ok(()));
    assert_eq!(
        shown(&heap),
        (vec![(1, 1), (2, 2), (4, 4), (5, 10), (3, 3)], vec![(1, 0), (2, 1), (3, 4), (4, 2), (5, 3)])
    );
    assert_eq!(heap.push(2, 0), Err(HeapError::DuplicateValue));
    assert_eq!(heap.update_weight(9, 0), Err(HeapError::ValueNotFound));
    assert_eq!(
        shown(&heap),
        (vec![(1, 1), (2, 2), (4, 4), (5, 10), (3, 3)], vec![(1, 0), (2, 1), (3, 4), (4, 2), (5, 3)])
    );
}

#[test]
fn indexed_heap_stays_consistent_after_every_operation() {
    let mut heap = IndexedBinaryHeap::new();
    assert_consistent(&heap);
    for i in 0..60u64 {
        assert_eq!(heap.push(i, ((i as i64) * 37) % 23 - 11), Ok(()));
        assert_consistent(&heap);
    }
    for i in 0..60u64 {
        assert_eq!(heap.push(i, 0), Err(HeapError::DuplicateValue));
    }
    assert_consistent(&heap);
    for i in 0..60u64 {
        assert_eq!(heap.update_weight(i, ((i as i64) * 29) % 31 - 15), Ok(()));
        assert_consistent(&heap);
    }
    for _ in 0..25 {
        assert!(heap.pop().is_some());
        assert_consistent(&heap);
    }
    for i in 100..120u64 {
        assert_eq!(heap.push(i, -(i as i64)), Ok(()));
        assert_consistent(&heap);
    }
    let mut last = i64::MIN;
    while let Some(item) = heap.pop() {
        assert!(last <= item.weight);
        last = item.weight;
        assert!(!heap.contains(item.value));
        assert_consistent(&heap);
    }
}
