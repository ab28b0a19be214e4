use std::collections::HashMap;
use tearchan::buffer::{
    BatchBuffer, BatchBufferAllocator, BatchBufferAllocatorEvent, BatchBufferPointer, BufferTrait,
};

struct ResultContext;

#[derive(Default)]
struct VecBuffer {
    data: Vec<u32>,
}

impl VecBuffer {
    fn new(len: usize) -> VecBuffer {
        VecBuffer { data: vec![0; len] }
    }
}

impl<'a> BufferTrait<'a, u32> for VecBuffer {
    type Resizer = &'a mut ResultContext;
    type Writer = &'a mut ResultContext;
    type Copier = &'a mut ResultContext;

    // The model of the buffer (its slots are `data`, a cleared slot holds 0) exists
    // for the verifier only; compiled code never calls it.
    fn spec_contents(&self) -> vstd::seq::Seq<u32> {
        unreachable!()
    }

    fn spec_cleared() -> u32 {
        unreachable!()
    }

    fn resize(&mut self, _resizer: Self::Resizer, len: usize) {
        self.data.resize(len, 0);
    }

    fn write(&mut self, _writer: &mut ResultContext, data: &[u32], offset: usize) {
        self.data
            .splice(offset..(offset + data.len()), data.iter().copied());
    }

    fn copy(&mut self, _copy: &mut ResultContext, from: usize, to: usize, len: usize) {
        let from = self.data.as_slice()[from..(from + len)].to_vec();
        self.data.splice(to..(to + len), from);
    }

    fn len(&self) -> usize {
        self.data.len()
    }

    fn is_empty(&self) -> bool {
        self.data.is_empty()
    }

    fn clear(&mut self, _writer: &mut ResultContext, offset: usize, len: usize) {
        self.data.splice(offset..(offset + len), vec![0; len]);
    }
}

fn v<T: Clone>(size: usize, value: T) -> Vec<T> {
    vec![value; size]
}

fn convert_events(allocator: &mut BatchBufferAllocator) -> Vec<BatchBufferAllocatorEvent> {
    let mut events = Vec::new();
    while let Some(event) = allocator.pop_event() {
        events.push(event);
    }
    events
}

fn p(first: usize, len: usize) -> (usize, usize) {
    (first, len)
}

fn pair_of(pointer: &BatchBufferPointer) -> (usize, usize) {
    (pointer.first, pointer.len)
}

fn flush(
    allocator: &mut BatchBufferAllocator,
    index_buffer: &mut BatchBuffer<VecBuffer, u32>,
    sprites: &mut HashMap<usize, u32>,
    context: &mut ResultContext,
) {
    let allocator_len = allocator.len();
    while let Some(event) = allocator.pop_event() {
        match event {
            BatchBufferAllocatorEvent::Clear(pointer) => {
                index_buffer.clear(context, pointer);
            }
            BatchBufferAllocatorEvent::Write(pointer) => {
                if index_buffer.len() < allocator_len {
                    index_buffer.resize(context, allocator_len * 2);
                }
                let sprite = sprites.get(&pointer.first).unwrap();
                index_buffer.write(context, pointer, &v(pointer.len, *sprite));
            }
            BatchBufferAllocatorEvent::ReallocateAll { pairs } => {
                let moved: Vec<(u32, usize)> = pairs
                    .iter()
                    .filter_map(|pair| sprites.remove(&pair.from.first).map(|s| (s, pair.to.first)))
                    .collect();
                for (sprite, first) in moved {
                    sprites.insert(first, sprite);
                }
            }
        }
    }
}

#[test]
fn test_basic_write() {
    let mut allocator = BatchBufferAllocator::default();
    let mut index_buffer = BatchBuffer::new(VecBuffer::new(10));
    let mut sprites = HashMap::new();
    let mut context = ResultContext;

    let p0 = allocator.allocate(5);
    sprites.insert(p0.first, 1);

    flush(&mut allocator, &mut index_buffer, &mut sprites, &mut context);

    assert_eq!(
        index_buffer.buffer().data[0..allocator.len()],
        [1, 1, 1, 1, 1]
    );

    let p1 = allocator.allocate(3);
    sprites.insert(p1.first, 2);

    let p2 = allocator.allocate(4);
    sprites.insert(p2.first, 3);

    flush(&mut allocator, &mut index_buffer, &mut sprites, &mut context);

    assert_eq!(
        index_buffer.buffer().data[0..allocator.len()],
        [1, 1, 1, 1, 1, 2, 2, 2, 3, 3, 3, 3]
    );
}

#[test]
fn test_free() {
    let mut allocator = BatchBufferAllocator::default();

    let p0 = allocator.allocate(1);
    let p1 = allocator.allocate(2);
    let p2 = allocator.allocate(4);
    let p3 = allocator.allocate(3);
    let p4 = allocator.allocate(5);

    assert_eq!(allocator.len(), 15);

    allocator.free(p1);

    assert_eq!(allocator.len(), 15);
    assert_eq!(allocator.pending_pointers_len(), 1);
    assert_eq!(allocator.pending_ranges_len(), 1);

    allocator.free(p2);

    assert_eq!(allocator.len(), 15);
    assert_eq!(allocator.pending_pointers_len(), 1);
    assert_eq!(allocator.pending_ranges_len(), 1);

    allocator.free(p4);

    assert_eq!(allocator.len(), 10);
    assert_eq!(allocator.pending_pointers_len(), 1);
    assert_eq!(allocator.pending_ranges_len(), 1);

    allocator.free(p3);

    assert_eq!(allocator.len(), 1);
    assert_eq!(allocator.pending_pointers_len(), 0);
    assert_eq!(allocator.pending_ranges_len(), 0);

    allocator.free(p0);

    assert_eq!(allocator.len(), 0);
    assert_eq!(allocator.pending_pointers_len(), 0);
    assert_eq!(allocator.pending_ranges_len(), 0);
}

#[test]
fn test_allocate() {
    let mut allocator = BatchBufferAllocator::default();

    let p0 = allocator.allocate(3);
    assert_eq!(p0.first, 0);
    assert_eq!(p0.len, 3);

    let p1 = allocator.allocate(4);
    assert_eq!(p1.first, 3);
    assert_eq!(p1.len, 4);

    let p2 = allocator.allocate(5);
    assert_eq!(p2.first, 7);
    assert_eq!(p2.len, 5);

    assert_eq!(allocator.pointers().len(), 3);
    assert_eq!(allocator.len(), 12);

    let events = convert_events(&mut allocator);
    assert_eq!(events.len(), 3);
    let writes: Vec<(usize, usize)> = events
        .iter()
        .map(|e| match e {
            BatchBufferAllocatorEvent::Write(pointer) => pair_of(pointer),
            _ => panic!("only writes are queued"),
        })
        .collect();
    assert_eq!(writes, vec![p(0, 3), p(3, 4), p(7, 5)]);
}

#[test]
fn test_reallocate() {
    let mut allocator = BatchBufferAllocator::default();
    let p0 = allocator.allocate(10);
    let p1 = allocator.allocate(5);
    let _p2 = allocator.allocate(15);
    let p1 = allocator.reallocate(p1, 10);
    assert_eq!(p1.first, 30);
    assert_eq!(p1.len, 10);

    let p0 = allocator.reallocate(p0, 5);
    assert_eq!(p0.first, 10);
    assert_eq!(p0.len, 5);
}

#[test]
fn test_defragmentation() {
    let mut allocator = BatchBufferAllocator::default();
    let p0 = allocator.allocate(3);
    let p1 = allocator.allocate(3);
    let _p2 = allocator.allocate(3);
    let p3 = allocator.allocate(3);
    let _p4 = allocator.allocate(3);

    allocator.free(p0);
    allocator.free(p1);
    allocator.free(p3);

    convert_events(&mut allocator);

    allocator.defragmentation();
    assert_eq!(allocator.pointers().len(), 2);
    assert_eq!(allocator.pending_pointers_len(), 0);
    assert_eq!(allocator.pending_ranges_len(), 0);
    assert_eq!(allocator.len(), 6);

    let events = convert_events(&mut allocator);
    assert_eq!(events.len(), 3);
    match &events[0] {
        BatchBufferAllocatorEvent::ReallocateAll { pairs } => {
            let moves: Vec<((usize, usize), (usize, usize))> = pairs
                .iter()
                .map(|pair| (pair_of(&pair.from), pair_of(&pair.to)))
                .collect();
            assert_eq!(moves, vec![(p(6, 3), p(0, 3)), (p(12, 3), p(3, 3))]);
        }
        _ => panic!("the moves come first"),
    }
    assert!(matches!(&events[1], BatchBufferAllocatorEvent::Write(q) if pair_of(q) == p(0, 3)));
    assert!(matches!(&events[2], BatchBufferAllocatorEvent::Write(q) if pair_of(q) == p(3, 3)));

    assert_eq!(allocator.pointers()[0].len, 3);
    assert_eq!(allocator.pointers()[0].first, 0);
    assert_eq!(allocator.pointers()[1].len, 3);
    assert_eq!(allocator.pointers()[1].first, 3);
}

#[test]
fn buffer_test_events() {
    let mut allocator = BatchBufferAllocator::default();

    let p0 = allocator.allocate(1);
    let p1 = allocator.allocate(2);
    let p2 = allocator.allocate(4);
    let _p3 = allocator.allocate(3);
    let p4 = allocator.allocate(5);

    let events = convert_events(&mut allocator);
    let writes: Vec<(usize, usize)> = events
        .iter()
        .map(|e| match e {
            BatchBufferAllocatorEvent::Write(pointer) => pair_of(pointer),
            _ => panic!("only writes are queued"),
        })
        .collect();
    assert_eq!(writes, vec![p(0, 1), p(1, 2), p(3, 4), p(7, 3), p(10, 5)]);

    allocator.free(p1);
    let events = convert_events(&mut allocator);
    assert_eq!(events.len(), 1);
    assert!(matches!(&events[0], BatchBufferAllocatorEvent::Clear(q) if pair_of(q) == p(1, 2)));

    allocator.free(p4);
    assert_eq!(convert_events(&mut allocator).len(), 0);

    allocator.free(p2);
    let events = convert_events(&mut allocator);
    assert_eq!(events.len(), 1);
    assert!(matches!(&events[0], BatchBufferAllocatorEvent::Clear(q) if pair_of(q) == p(3, 4)));

    let p0 = allocator.reallocate(p0, 5);
    assert_eq!(pair_of(&p0), p(1, 5));
    let events = convert_events(&mut allocator);
    assert_eq!(events.len(), 2);
    assert!(matches!(&events[0], BatchBufferAllocatorEvent::Clear(q) if pair_of(q) == p(0, 1)));
    assert!(matches!(&events[1], BatchBufferAllocatorEvent::Write(q) if pair_of(q) == p(1, 5)));
}

fn len_keys(allocator: &BatchBufferAllocator) -> Vec<i64> {
    allocator.pointers().iter().map(|q| q.len as i64).collect()
}

#[test]
fn test_sort() {
    let mut allocator = BatchBufferAllocator::default();

    let _p0 = allocator.allocate(5);
    let _p1 = allocator.allocate(3);
    let _p2 = allocator.allocate(4);
    let _p3 = allocator.allocate(1);

    let keys = len_keys(&allocator);
    allocator.sort_by(&keys);

    let events = convert_events(&mut allocator);
    assert_eq!(events.len(), 5);
    match &events[0] {
        BatchBufferAllocatorEvent::ReallocateAll { pairs } => {
            let moves: Vec<((usize, usize), (usize, usize))> = pairs
                .iter()
                .map(|pair| (pair_of(&pair.from), pair_of(&pair.to)))
                .collect();
            assert_eq!(
                moves,
                vec![
                    (p(12, 1), p(0, 1)),
                    (p(5, 3), p(1, 3)),
                    (p(8, 4), p(4, 4)),
                    (p(0, 5), p(8, 5))
                ]
            );
        }
        _ => panic!("the moves come first"),
    }

    let p1 = BatchBufferPointer::new(1, 3);
    allocator.free(p1);

    allocator.allocate(2);

    let keys = len_keys(&allocator);
    allocator.sort_by(&keys);

    let events = convert_events(&mut allocator);
    assert_eq!(events.len(), 5);
    match &events[0] {
        BatchBufferAllocatorEvent::ReallocateAll { pairs } => {
            let moves: Vec<((usize, usize), (usize, usize))> = pairs
                .iter()
                .map(|pair| (pair_of(&pair.from), pair_of(&pair.to)))
                .collect();
            assert_eq!(
                moves,
                vec![
                    (p(0, 1), p(0, 1)),
                    (p(1, 2), p(1, 2)),
                    (p(4, 4), p(3, 4)),
                    (p(8, 5), p(7, 5))
                ]
            );
        }
        _ => panic!("the moves come first"),
    }

    assert_eq!(allocator.len(), 12);
}

#[test]
fn allocate_reuses_freed_range() {
    let mut allocator = BatchBufferAllocator::new();
    let a = allocator.allocate(4);
    let _b = allocator.allocate(2);
    allocator.free(a);
    let c = allocator.allocate(3);
    assert_eq!(pair_of(&c), p(0, 3));
    assert_eq!(allocator.len(), 6);
    assert_eq!(allocator.pending_ranges_len(), 1);
    assert!(!allocator.is_empty());
}

#[test]
fn freeing_everything_empties_the_buffer() {
    let mut allocator = BatchBufferAllocator::new();
    let a = allocator.allocate(4);
    let b = allocator.allocate(2);
    let c = allocator.allocate(7);
    allocator.free(b);
    allocator.free(a);
    allocator.free(c);
    assert_eq!(allocator.len(), 0);
    assert!(allocator.is_empty());
    assert_eq!(allocator.pointers().len(), 0);
    assert_eq!(allocator.pending_pointers_len(), 0);
}

#[test]
fn pointer_equality_is_by_start() {
    assert_eq!(BatchBufferPointer::new(3, 1), BatchBufferPointer::new(3, 9));
    assert_ne!(BatchBufferPointer::new(3, 1), BatchBufferPointer::new(4, 1));
    assert_eq!(BatchBufferPointer::new(5, 2).first(), 5);
}

#[test]
fn free_after_allocate_restores_live_ranges() {
    let mut allocator = BatchBufferAllocator::new();
    let a = allocator.allocate(4);
    let b = allocator.allocate(2);
    allocator.free(a);
    let before: Vec<(usize, usize)> = allocator.pointers().iter().map(pair_of).collect();
    let c = allocator.allocate(3);
    allocator.free(c);
    let after: Vec<(usize, usize)> = allocator.pointers().iter().map(pair_of).collect();
    assert_eq!(before, after);
    assert_eq!(after, vec![pair_of(&b)]);
}

#[test]
fn live_ranges_never_overlap() {
    let mut allocator = BatchBufferAllocator::new();
    let mut live = Vec::new();
    for len in [3usize, 1, 4, 1, 5, 9, 2, 6] {
        live.push(allocator.allocate(len));
    }
    allocator.free(live.remove(1));
    allocator.free(live.remove(3));
    live.push(allocator.allocate(2));
    live.push(allocator.allocate(1));
    let ranges: Vec<(usize, usize)> = allocator.pointers().iter().map(pair_of).collect();
    for w in ranges.windows(2) {
        assert!(w[0].0 + w[0].1 <= w[1].0);
    }
    for r in &ranges {
        assert!(r.1 > 0 && r.0 + r.1 <= allocator.len());
    }
    assert_eq!(ranges.len(), live.len());
}
