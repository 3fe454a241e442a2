use rs::heap::MinHeap;
use rs::record::{Item, Rec};

fn item(key_byte: u8, g: u64, seq: u64) -> Item {
    let mut key = [0u8; 10];
    key[0] = key_byte;
    Item::new(Rec::new(key, [0u8; 90]), g, seq)
}

#[test]
fn test_heap_starts_empty() {
    let mut heap = MinHeap::new();
    assert!(heap.is_empty());
    assert_eq!(heap.len(), 0);
    assert!(heap.peek().is_none());
    assert!(heap.pop().is_none());
}

#[test]
fn test_heap_pops_in_order() {
    let mut heap = MinHeap::new();
    let keys = [5u8, 3, 9, 1, 7, 3, 8, 2, 6, 4, 0, 9];
    for (i, &k) in keys.iter().enumerate() {
        heap.push(item(k, 0, i as u64));
        assert_eq!(heap.len(), i + 1);
    }
    let mut out = Vec::new();
    while let Some(it) = heap.pop() {
        out.push((it.rec.key[0], it.seq));
    }
    assert_eq!(
        out,
        vec![
            (0, 10),
            (1, 3),
            (2, 7),
            (3, 1),
            (3, 5),
            (4, 9),
            (5, 0),
            (6, 8),
            (7, 4),
            (8, 6),
            (9, 2),
            (9, 11)
        ]
    );
    assert!(heap.is_empty());
}

#[test]
fn test_heap_keeps_generations_apart() {
    let mut heap = MinHeap::new();
    heap.push(item(1, 1, 0));
    heap.push(item(9, 0, 1));
    heap.push(item(1, 2, 2));
    heap.push(item(5, 0, 3));
    assert_eq!(heap.peek().unwrap().rec.key[0], 5);
    assert_eq!(heap.peek().unwrap().g, 0);
    let order: Vec<(u64, u8)> = std::iter::from_fn(|| heap.pop())
        .map(|it| (it.g, it.rec.key[0]))
        .collect();
    assert_eq!(order, vec![(0, 5), (0, 9), (1, 1), (2, 1)]);
}

#[test]
fn test_heap_interleaved_push_and_pop() {
    let mut heap = MinHeap::new();
    let mut seq = 0u64;
    let mut state = 12345u32;
    let mut model: Vec<(u64, u8, u64)> = Vec::new();
    for step in 0..500 {
        state = state.wrapping_mul(1103515245).wrapping_add(12345);
        let k = (state >> 16) as u8;
        let g = ((state >> 8) % 3) as u64;
        if step % 3 == 2 {
            let got = heap.pop().map(|it| (it.g, it.rec.key[0], it.seq));
            model.sort();
            let want = if model.is_empty() {
                None
            } else {
                Some(model.remove(0))
            };
            assert_eq!(got, want);
        } else {
            heap.push(item(k, g, seq));
            model.push((g, k, seq));
            seq += 1;
        }
        assert_eq!(heap.len(), model.len());
    }
}
