//! A FIFO ring buffer over an indexed store, with wrapping indices.
//!
//! A `RingStore` holds the persistent state: the bounds `(start, end)` and the items
//! by index. A `RingBufferTransient` is a view opened on a store: it reads the
//! bounds once, writes items through to the store as it goes, and keeps its own
//! bounds until `commit` writes them back. A view that is dropped without `commit`
//! leaves the store's bounds as they were when it was opened.
//!
//! `start == end` means empty. Pushing into a buffer whose every index but one is in
//! use overwrites the oldest item (or, for `push_front`, the newest).

use core::marker::PhantomData;
use vstd::hash_map::HashMapWithView;
use vstd::arithmetic::div_mod::{lemma_mod_self_0, lemma_small_mod};
use vstd::prelude::*;

verus! {

broadcast use vstd::std_specs::hash::group_hash_axioms;

/// An unsigned index type whose arithmetic wraps around.
pub trait WrappingOps: Sized + Copy {
    /// The number of values of the type: two to the power of its width.
    spec fn modulus() -> nat;

    /// The index as a natural number below `modulus()`.
    spec fn index_value(self) -> nat;

    proof fn lemma_index_range(self)
        ensures
            256 <= Self::modulus() <= 0x1_0000_0000_0000_0000,
            self.index_value() < Self::modulus(),
    ;

    proof fn lemma_modulus()
        ensures
            256 <= Self::modulus() <= 0x1_0000_0000_0000_0000,
    ;

    fn wrapping_add(self, rhs: Self) -> (r: Self)
        ensures
            r.index_value() == (self.index_value() + rhs.index_value()) % Self::modulus(),
    ;

    fn wrapping_sub(self, rhs: Self) -> (r: Self)
        ensures
            r.index_value() == (self.index_value() - rhs.index_value()) % (Self::modulus() as int),
    ;

    fn from_u8(n: u8) -> (r: Self)
        ensures
            r.index_value() == n,
    ;

    /// The index as a key of the item store.
    fn to_u64(self) -> (r: u64)
        ensures
            r == self.index_value(),
    ;
}

impl WrappingOps for u8 {
    open spec fn modulus() -> nat {
        0x100
    }

    open spec fn index_value(self) -> nat {
        self as nat
    }

    proof fn lemma_index_range(self) {
    }

    proof fn lemma_modulus() {
    }

    fn wrapping_add(self, rhs: u8) -> (r: u8) {
        u8::wrapping_add(self, rhs)
    }

    fn wrapping_sub(self, rhs: u8) -> (r: u8) {
        u8::wrapping_sub(self, rhs)
    }

    fn from_u8(n: u8) -> (r: u8) {
        n
    }

    fn to_u64(self) -> (r: u64) {
        self as u64
    }
}

impl WrappingOps for u16 {
    open spec fn modulus() -> nat {
        0x1_0000
    }

    open spec fn index_value(self) -> nat {
        self as nat
    }

    proof fn lemma_index_range(self) {
    }

    proof fn lemma_modulus() {
    }

    fn wrapping_add(self, rhs: u16) -> (r: u16) {
        u16::wrapping_add(self, rhs)
    }

    fn wrapping_sub(self, rhs: u16) -> (r: u16) {
        u16::wrapping_sub(self, rhs)
    }

    fn from_u8(n: u8) -> (r: u16) {
        n as u16
    }

    fn to_u64(self) -> (r: u64) {
        self as u64
    }
}

impl WrappingOps for u32 {
    open spec fn modulus() -> nat {
        0x1_0000_0000
    }

    open spec fn index_value(self) -> nat {
        self as nat
    }

    proof fn lemma_index_range(self) {
    }

    proof fn lemma_modulus() {
    }

    fn wrapping_add(self, rhs: u32) -> (r: u32) {
        u32::wrapping_add(self, rhs)
    }

    fn wrapping_sub(self, rhs: u32) -> (r: u32) {
        u32::wrapping_sub(self, rhs)
    }

    fn from_u8(n: u8) -> (r: u32) {
        n as u32
    }

    fn to_u64(self) -> (r: u64) {
        self as u64
    }
}

impl WrappingOps for u64 {
    open spec fn modulus() -> nat {
        0x1_0000_0000_0000_0000
    }

    open spec fn index_value(self) -> nat {
        self as nat
    }

    proof fn lemma_index_range(self) {
    }

    proof fn lemma_modulus() {
    }

    fn wrapping_add(self, rhs: u64) -> (r: u64) {
        u64::wrapping_add(self, rhs)
    }

    fn wrapping_sub(self, rhs: u64) -> (r: u64) {
        u64::wrapping_sub(self, rhs)
    }

    fn from_u8(n: u8) -> (r: u64) {
        n as u64
    }

    fn to_u64(self) -> (r: u64) {
        self
    }
}

/// The bounds and items after pushing `item` at the end of a ring of `m` indices.
pub open spec fn push_spec<Item>(m: nat, bounds: (nat, nat), items: Map<u64, Item>, item: Item) -> (
    (nat, nat),
    Map<u64, Item>,
) {
    let (start, end) = bounds;
    let next = (end + 1) % m;
    (
        (
            if next == start {
                (start + 1) % m
            } else {
                start
            },
            next,
        ),
        items.insert(end as u64, item),
    )
}

/// The bounds and items after pushing `item` at the front of a ring of `m` indices.
pub open spec fn push_front_spec<Item>(
    m: nat,
    bounds: (nat, nat),
    items: Map<u64, Item>,
    item: Item,
) -> ((nat, nat), Map<u64, Item>) {
    let (start, end) = bounds;
    if start == end {
        push_spec(m, bounds, items, item)
    } else {
        let index = ((start - 1) % (m as int)) as nat;
        (
            (
                index,
                if index == end {
                    ((end - 1) % (m as int)) as nat
                } else {
                    end
                },
            ),
            items.insert(index as u64, item),
        )
    }
}

/// The item taken from the front of a ring of `m` indices, and the bounds and items
/// afterwards.
pub open spec fn pop_spec<Item>(m: nat, bounds: (nat, nat), items: Map<u64, Item>) -> (
    Option<Item>,
    (nat, nat),
    Map<u64, Item>,
) {
    let (start, end) = bounds;
    if start == end {
        (None, bounds, items)
    } else {
        (
            if items.contains_key(start as u64) {
                Some(items[start as u64])
            } else {
                None
            },
            ((start + 1) % m, end),
            items.remove(start as u64),
        )
    }
}

/// The bounds and items after pushing each of `items` in order.
pub open spec fn push_all<Item>(m: nat, bounds: (nat, nat), items: Map<u64, Item>, pushed: Seq<Item>) -> (
    (nat, nat),
    Map<u64, Item>,
)
    decreases pushed.len(),
{
    if pushed.len() == 0 {
        (bounds, items)
    } else {
        let (b, it) = push_all(m, bounds, items, pushed.drop_last());
        push_spec(m, b, it, pushed.last())
    }
}

proof fn lemma_fill<Item>(m: nat, pushed: Seq<Item>, k: int)
    requires
        3 <= m <= 0x1_0000_0000_0000_0000,
        pushed.len() == m,
        0 <= k < m,
    ensures
        push_all(m, (0nat, 0nat), Map::empty(), pushed.take(k)).0 == (0nat, k as nat),
        forall|j: int|
            0 <= j < k ==> #[trigger] push_all(m, (0nat, 0nat), Map::empty(), pushed.take(k)).1.contains_key(j as u64)
                && push_all(m, (0nat, 0nat), Map::empty(), pushed.take(k)).1[j as u64] == pushed[j],
    decreases k,
{
    if k > 0 {
        lemma_fill(m, pushed, k - 1);
        assert(pushed.take(k).drop_last() =~= pushed.take(k - 1));
        lemma_small_mod(k as nat, m);
        assert((k - 1 + 1) % (m as int) == k);
        let it = push_all(m, (0nat, 0nat), Map::empty(), pushed.take(k)).1;
        assert forall|j: int| 0 <= j < k implies #[trigger] it.contains_key(j as u64) && it[j as u64]
            == pushed[j] by {
            if j < k - 1 {
                assert(j as u64 != (k - 1) as u64);
            }
        }
    } else {
        assert(pushed.take(0) =~= Seq::<Item>::empty());
    }
}

/// Pushing as many items as the index type has values into an empty ring wraps its
/// start once past its end: the bounds become `(1, 0)`, and the next two pops take the
/// second and the third item pushed.
pub proof fn lemma_wraparound<Item, Index: WrappingOps>(pushed: Seq<Item>)
    requires
        pushed.len() == Index::modulus(),
    ensures
        ({
            let m = Index::modulus();
            let (bounds, items) = push_all(m, (0nat, 0nat), Map::empty(), pushed);
            let (first, bounds1, items1) = pop_spec(m, bounds, items);
            let (second, bounds2, _) = pop_spec(m, bounds1, items1);
            &&& bounds == (1nat, 0nat)
            &&& first == Some(pushed[1])
            &&& bounds1 == (2nat, 0nat)
            &&& second == Some(pushed[2])
            &&& bounds2 == (3nat, 0nat)
        }),
{
    let m = Index::modulus();
    Index::lemma_modulus();
    lemma_fill(m, pushed, m - 1);
    assert(pushed.take(m as int) =~= pushed);
    assert(pushed.take(m as int).drop_last() =~= pushed.take(m - 1));
    let before = push_all(m, (0nat, 0nat), Map::empty(), pushed.take(m - 1));
    assert(before.1.contains_key((1int) as u64) && before.1[(1int) as u64] == pushed[1]);
    assert(before.1.contains_key((2int) as u64) && before.1[(2int) as u64] == pushed[2]);
    assert(((m - 1) as u64) != 1u64 && ((m - 1) as u64) != 2u64);
    lemma_mod_self_0(m as int);
    lemma_small_mod(1, m);
    lemma_small_mod(2, m);
    lemma_small_mod(3, m);
    assert(((m - 1) as nat + 1) % m == 0);
}

/// A push that is committed and read back by a new view: the new view has the pushed
/// bounds and the store holds the pushed items.
pub proof fn lemma_round_trip<Item, Index: WrappingOps>(
    before: RingStore<Item, Index>,
    item: Item,
    committed: RingStore<Item, Index>,
    reopened: RingBufferTransient<Item, Index>,
)
    requires
        (committed.bounds_view(), committed.items_view()) == push_spec(
            Index::modulus(),
            before.bounds_view(),
            before.items_view(),
            item,
        ),
        reopened@ == committed.bounds_view(),
    ensures
        (reopened@, committed.items_view()) == push_spec(
            Index::modulus(),
            before.bounds_view(),
            before.items_view(),
            item,
        ),
{
}

/// The persistent state of a ring buffer: its bounds and its items by index.
#[verifier::reject_recursive_types(Item)]
pub struct RingStore<Item, Index> {
    bounds: (Index, Index),
    items: HashMapWithView<u64, Item>,
}

impl<Item, Index: WrappingOps> RingStore<Item, Index> {
    /// The stored bounds `(start, end)`.
    pub closed spec fn bounds_view(&self) -> (nat, nat) {
        (self.bounds.0.index_value(), self.bounds.1.index_value())
    }

    /// The stored items by index.
    pub closed spec fn items_view(&self) -> Map<u64, Item> {
        self.items@
    }

    /// An empty store: bounds `(0, 0)` and no items.
    pub fn new() -> (r: Self)
        ensures
            r.bounds_view() == (0nat, 0nat),
            r.items_view() == Map::<u64, Item>::empty(),
    {
        let zero = Index::from_u8(0);
        RingStore { bounds: (zero, zero), items: HashMapWithView::new() }
    }

    /// The stored bounds `(start, end)`.
    pub fn bounds(&self) -> (r: (Index, Index))
        ensures
            (r.0.index_value(), r.1.index_value()) == self.bounds_view(),
    {
        self.bounds
    }

    /// The item stored at `index`, if any.
    pub fn get(&self, index: Index) -> (r: Option<&Item>)
        ensures
            match r {
                Some(v) => self.items_view().contains_key(index.index_value() as u64) && *v
                    == self.items_view()[index.index_value() as u64],
                None => !self.items_view().contains_key(index.index_value() as u64),
            },
    {
        self.items.get(&index.to_u64())
    }
}

/// A view of a ring buffer opened on a `RingStore`, with bounds of its own.
pub struct RingBufferTransient<Item, Index> {
    start: Index,
    end: Index,
    _item: PhantomData<Item>,
}

impl<Item, Index: WrappingOps> View for RingBufferTransient<Item, Index> {
    type V = (nat, nat);

    closed spec fn view(&self) -> (nat, nat) {
        (self.start.index_value(), self.end.index_value())
    }
}

impl<Item, Index: WrappingOps> RingBufferTransient<Item, Index> {
    /// The view's bounds lie within the index type.
    pub proof fn lemma_bounds(&self)
        ensures
            self@.0 < Index::modulus(),
            self@.1 < Index::modulus(),
            256 <= Index::modulus(),
    {
        self.start.lemma_index_range();
        self.end.lemma_index_range();
    }

    /// Opens a view on `store`, reading its bounds.
    pub fn new(store: &RingStore<Item, Index>) -> (r: Self)
        ensures
            r@ == store.bounds_view(),
    {
        let (start, end) = store.bounds;
        RingBufferTransient { start, end, _item: PhantomData }
    }

    /// Writes the view's bounds to `store`.
    pub fn commit(&self, store: &mut RingStore<Item, Index>)
        ensures
            final(store).bounds_view() == self@,
            final(store).items_view() == old(store).items_view(),
    {
        store.bounds = (self.start, self.end);
    }

    /// Writes the view's bounds to `store` and closes the view.
    pub fn close(self, store: &mut RingStore<Item, Index>)
        ensures
            final(store).bounds_view() == self@,
            final(store).items_view() == old(store).items_view(),
    {
        self.commit(store);
    }

    /// Whether the view's queue is empty.
    pub fn is_empty(&self) -> (r: bool)
        ensures
            r == (self@.0 == self@.1),
    {
        self.start.to_u64() == self.end.to_u64()
    }

    /// Writes `item` at the end, overwriting the oldest item where the buffer is full.
    /// The store's bounds are left for `commit`.
    pub fn push(&mut self, store: &mut RingStore<Item, Index>, item: Item)
        ensures
            (final(self)@, final(store).items_view()) == push_spec(
                Index::modulus(),
                old(self)@,
                old(store).items_view(),
                item,
            ),
            final(store).bounds_view() == old(store).bounds_view(),
    {
        proof {
            self.lemma_bounds();
        }
        store.items.insert(self.end.to_u64(), item);
        let next_index = self.end.wrapping_add(Index::from_u8(1));
        if next_index.to_u64() == self.start.to_u64() {
            self.start = self.start.wrapping_add(Index::from_u8(1));
        }
        self.end = next_index;
    }

    /// Writes `item` at the front, overwriting the newest item where the buffer is
    /// full; on an empty buffer this is `push`. The store's bounds are left for
    /// `commit`.
    pub fn push_front(&mut self, store: &mut RingStore<Item, Index>, item: Item)
        ensures
            (final(self)@, final(store).items_view()) == push_front_spec(
                Index::modulus(),
                old(self)@,
                old(store).items_view(),
                item,
            ),
            final(store).bounds_view() == old(store).bounds_view(),
    {
        proof {
            self.lemma_bounds();
        }
        if self.is_empty() {
            self.push(store, item);
            return;
        }
        let index = self.start.wrapping_sub(Index::from_u8(1));
        proof {
            index.lemma_index_range();
        }
        store.items.insert(index.to_u64(), item);
        self.start = index;
        if self.start.to_u64() == self.end.to_u64() {
            self.end = self.end.wrapping_sub(Index::from_u8(1));
        }
    }

    /// Takes the item at the front, or returns `None` where the buffer is empty. The
    /// store's bounds are left for `commit`.
    pub fn pop(&mut self, store: &mut RingStore<Item, Index>) -> (r: Option<Item>)
        ensures
            (r, final(self)@, final(store).items_view()) == pop_spec(
                Index::modulus(),
                old(self)@,
                old(store).items_view(),
            ),
            final(store).bounds_view() == old(store).bounds_view(),
    {
        proof {
            self.lemma_bounds();
        }
        if self.is_empty() {
            return None;
        }
        let item = store.items.remove(&self.start.to_u64());
        self.start = self.start.wrapping_add(Index::from_u8(1));
        item
    }
}

} // verus!
