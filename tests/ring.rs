use stablecoin::{RingBufferTransient, RingStore};

type TestIdx = u8;

#[derive(Clone, PartialEq, Debug, Default)]
pub struct SomeStruct {
    foo: u64,
    bar: u64,
}

type Store = RingStore<SomeStruct, TestIdx>;
type Transient = RingBufferTransient<SomeStruct, TestIdx>;

#[test]
fn simple_push() {
    let mut store = Store::new();
    let mut ring = Transient::new(&store);
    ring.push(&mut store, SomeStruct { foo: 1, bar: 2 });
    ring.commit(&mut store);
    let start_end = store.bounds();
    assert_eq!(start_end, (0, 1));
    let some_struct = store.get(0);
    assert_eq!(some_struct, Some(&SomeStruct { foo: 1, bar: 2 }));
}

#[test]
fn drop_does_commit() {
    let mut store = Store::new();
    {
        let mut ring = Transient::new(&store);
        ring.push(&mut store, SomeStruct { foo: 1, bar: 2 });
        ring.close(&mut store);
    }
    let start_end = store.bounds();
    assert_eq!(start_end, (0, 1));
    let some_struct = store.get(0);
    assert_eq!(some_struct, Some(&SomeStruct { foo: 1, bar: 2 }));
}

#[test]
fn simple_pop() {
    let mut store = Store::new();
    let mut ring = Transient::new(&store);
    ring.push(&mut store, SomeStruct { foo: 1, bar: 2 });

    let item = ring.pop(&mut store);
    ring.commit(&mut store);
    assert!(item.is_some());
    let start_end = store.bounds();
    assert_eq!(start_end, (1, 1));
}

#[test]
fn overflow_wrap_around() {
    let mut store = Store::new();
    let mut ring = Transient::new(&store);

    for i in 1..(TestIdx::MAX as u64) + 2 {
        ring.push(&mut store, SomeStruct { foo: 42, bar: i });
    }
    ring.commit(&mut store);
    let start_end = store.bounds();
    assert_eq!(start_end, (1, 0), "range should be inverted because the index wrapped around");

    let item = ring.pop(&mut store);
    ring.commit(&mut store);
    let (start, end) = store.bounds();
    assert_eq!(start..end, 2..0);
    let item = item.expect("an item should be returned");
    assert_eq!(item.bar, 2, "the struct for field `bar = 2`, was placed at index 1");

    let item = ring.pop(&mut store);
    ring.commit(&mut store);
    let (start, end) = store.bounds();
    assert_eq!(start..end, 3..0);
    let item = item.expect("an item should be returned");
    assert_eq!(item.bar, 3, "the struct for field `bar = 3`, was placed at index 2");

    for i in 1..4 {
        ring.push(&mut store, SomeStruct { foo: 21, bar: i });
    }
    ring.commit(&mut store);
    let start_end = store.bounds();
    assert_eq!(start_end, (4, 3));

    // push_front should overwrite the most recent entry if the queue is full
    ring.push_front(&mut store, SomeStruct { foo: 4, bar: 4 });
    ring.commit(&mut store);
    let start_end = store.bounds();
    assert_eq!(start_end, (3, 2));
}

#[test]
fn simple_push_front() {
    let mut store = Store::new();
    let mut ring = Transient::new(&store);
    ring.push_front(&mut store, SomeStruct { foo: 1, bar: 2 });
    ring.commit(&mut store);
    let start_end = store.bounds();
    assert_eq!(start_end, (0, 1));

    ring.push_front(&mut store, SomeStruct { foo: 20, bar: 42 });
    ring.commit(&mut store);
    let start_end = store.bounds();
    assert_eq!(start_end, (TestIdx::MAX, 1));
}

#[test]
fn uncommitted_view_leaves_bounds() {
    let mut store = Store::new();
    let mut ring = Transient::new(&store);
    ring.push(&mut store, SomeStruct { foo: 1, bar: 2 });
    assert_eq!(store.bounds(), (0, 0));
    assert_eq!(store.get(0), Some(&SomeStruct { foo: 1, bar: 2 }));
    let again = Transient::new(&store);
    assert!(again.is_empty());
    assert!(!ring.is_empty());
}

#[test]
fn round_trip_through_the_store() {
    let mut store: RingStore<u64, u16> = RingStore::new();
    let mut ring = RingBufferTransient::new(&store);
    ring.push(&mut store, 7);
    ring.push(&mut store, 8);
    ring.commit(&mut store);
    let mut again = RingBufferTransient::new(&store);
    assert_eq!(store.bounds(), (0, 2));
    assert_eq!(again.pop(&mut store), Some(7));
    assert_eq!(again.pop(&mut store), Some(8));
    assert_eq!(again.pop(&mut store), None);
    again.commit(&mut store);
    assert_eq!(store.bounds(), (2, 2));
}

#[test]
fn push_front_then_pop_order() {
    let mut store: RingStore<u32, u32> = RingStore::new();
    let mut ring = RingBufferTransient::new(&store);
    ring.push(&mut store, 2);
    ring.push_front(&mut store, 1);
    ring.push(&mut store, 3);
    ring.commit(&mut store);
    assert_eq!(store.bounds(), (u32::MAX, 2));
    assert_eq!(ring.pop(&mut store), Some(1));
    assert_eq!(ring.pop(&mut store), Some(2));
    assert_eq!(ring.pop(&mut store), Some(3));
    assert!(ring.is_empty());
}

#[test]
fn wide_index_wraps_at_its_width() {
    let mut store: RingStore<u8, u64> = RingStore::new();
    let mut ring = RingBufferTransient::new(&store);
    ring.push_front(&mut store, 1);
    ring.push_front(&mut store, 0);
    ring.commit(&mut store);
    assert_eq!(store.bounds(), (u64::MAX, 1));
    assert_eq!(store.get(u64::MAX), Some(&0));
}
